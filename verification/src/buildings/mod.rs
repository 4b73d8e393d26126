//! Buildings: the use group and approval era recorded for each footprint,
//! floor heights, the planned (classified, clipped, height-resolved)
//! building, and the per-building identity hash that fixes its material
//! variations.

pub mod facade;
pub mod plan;
pub mod reach;
pub mod resolution;
pub mod service_drop;
pub mod slope;

use crate::text::{chars_of, occurs_at, push_str, seq_contains, str_contains, string_of};
use crate::world::{BlockWrite, WorldEditor};
use vstd::prelude::*;
use vstd::string::StringSliceAdditionalSpecFns;

verus! {

broadcast use vstd::string::group_string_axioms;

/// Use group: residential, apartment, commercial, office, industrial, other.
#[derive(Clone, Copy, PartialEq, Eq, Structural, Debug)]
pub enum UseGroup {
    R,
    A,
    C,
    O,
    I,
    X,
}

/// Code letter of a use group.
pub open spec fn group_code(g: UseGroup) -> Seq<char> {
    match g {
        UseGroup::R => "R"@,
        UseGroup::A => "A"@,
        UseGroup::C => "C"@,
        UseGroup::O => "O"@,
        UseGroup::I => "I"@,
        UseGroup::X => "X"@,
    }
}

impl UseGroup {
    /// The group's code letter.
    pub fn code(self) -> (s: &'static str)
        ensures
            s@ == group_code(self),
    {
        match self {
            UseGroup::R => "R",
            UseGroup::A => "A",
            UseGroup::C => "C",
            UseGroup::O => "O",
            UseGroup::I => "I",
            UseGroup::X => "X",
        }
    }
}

/// Approval-year era: up to 1979, 1980-1994, 1995-2009, from 2010.
#[derive(Clone, Copy, PartialEq, Eq, Structural, Debug)]
pub enum Era {
    E1,
    E2,
    E3,
    E4,
}

/// Code of an era.
pub open spec fn era_code(e: Era) -> Seq<char> {
    match e {
        Era::E1 => "e1"@,
        Era::E2 => "e2"@,
        Era::E3 => "e3"@,
        Era::E4 => "e4"@,
    }
}

/// The era an approval year falls in.
pub open spec fn spec_era(year: int) -> Era {
    if year <= 1979 {
        Era::E1
    } else if year <= 1994 {
        Era::E2
    } else if year <= 2009 {
        Era::E3
    } else {
        Era::E4
    }
}

impl Era {
    /// The era's code (`e1`..`e4`).
    pub fn code(self) -> (s: &'static str)
        ensures
            s@ == era_code(self),
    {
        match self {
            Era::E1 => "e1",
            Era::E2 => "e2",
            Era::E3 => "e3",
            Era::E4 => "e4",
        }
    }

    /// The era of an approval year.
    pub fn from_year(year: i32) -> (e: Self)
        ensures
            e == spec_era(year as int),
    {
        if year <= 1979 {
            Era::E1
        } else if year <= 1994 {
            Era::E2
        } else if year <= 2009 {
            Era::E3
        } else {
            Era::E4
        }
    }
}

/// The use group of a main-use text (주용도) and above-ground floor count:
/// empty text is a detached house (R); text naming 아파트 is A; 공동주택 is A
/// from 5 floors and R below; detached/multi-household housing is R;
/// neighbourhood, retail and lodging facilities are C; office, education
/// and medical facilities are O; factories, warehouses and vehicle
/// facilities are I; anything else is X.  Tested in this order, by
/// substring.
pub open spec fn spec_use_group(u: Seq<char>, floors: int) -> UseGroup {
    if u.len() == 0 {
        UseGroup::R
    } else if seq_contains(u, "아파트"@) {
        UseGroup::A
    } else if seq_contains(u, "공동주택"@) {
        if floors >= 5 {
            UseGroup::A
        } else {
            UseGroup::R
        }
    } else if seq_contains(u, "단독주택"@) || seq_contains(u, "다가구"@) || seq_contains(u, "다세대"@)
        || seq_contains(u, "연립"@) {
        UseGroup::R
    } else if seq_contains(u, "근린생활시설"@) || seq_contains(u, "판매시설"@) || seq_contains(
        u,
        "숙박시설"@,
    ) {
        UseGroup::C
    } else if seq_contains(u, "업무시설"@) || seq_contains(u, "교육연구시설"@) || seq_contains(
        u,
        "의료시설"@,
    ) {
        UseGroup::O
    } else if seq_contains(u, "공장"@) || seq_contains(u, "창고"@) || seq_contains(u, "자동차"@) {
        UseGroup::I
    } else {
        UseGroup::X
    }
}

/// `u` names none of the housing keywords (아파트, 공동주택, 단독주택,
/// 다가구, 다세대, 연립).
pub open spec fn names_no_housing(u: Seq<char>) -> bool {
    !seq_contains(u, "아파트"@) && !seq_contains(u, "공동주택"@) && !seq_contains(u, "단독주택"@)
        && !seq_contains(u, "다가구"@) && !seq_contains(u, "다세대"@) && !seq_contains(u, "연립"@)
}

/// `u` names a neighbourhood, retail or lodging facility.
pub open spec fn names_commercial(u: Seq<char>) -> bool {
    seq_contains(u, "근린생활시설"@) || seq_contains(u, "판매시설"@) || seq_contains(u, "숙박시설"@)
}

/// `u` names an office, education/research or medical facility.
pub open spec fn names_office(u: Seq<char>) -> bool {
    seq_contains(u, "업무시설"@) || seq_contains(u, "교육연구시설"@) || seq_contains(u, "의료시설"@)
}

/// `u` names a factory, warehouse or vehicle facility.
pub open spec fn names_industrial(u: Seq<char>) -> bool {
    seq_contains(u, "공장"@) || seq_contains(u, "창고"@) || seq_contains(u, "자동차"@)
}

/// A nonempty needle occurs in no empty text.
proof fn lemma_contains_nonempty(u: Seq<char>, needle: Seq<char>)
    requires
        needle.len() > 0,
        seq_contains(u, needle),
    ensures
        u.len() > 0,
{
    let i = choose|i: int| occurs_at(u, needle, i);
}

/// The use group follows the main-use keywords, whatever the floor count:
/// any text naming an apartment (아파트) is A; housing text (단독주택,
/// 다가구, 다세대, 연립) without an apartment or multi-unit housing keyword
/// is R; among texts naming no housing, a neighbourhood, retail or lodging
/// facility (근린생활시설, 판매시설, 숙박시설) is C, otherwise an office,
/// education or medical facility is O, otherwise a factory, warehouse or
/// vehicle facility is I, and any other named use is X.  Multi-unit housing
/// (공동주택) is an apartment exactly from five floors, a house below.
/// Empty text is a house (R).
pub proof fn lemma_use_group_follows_keywords(u: Seq<char>, floors: int)
    ensures
        seq_contains(u, "아파트"@) ==> spec_use_group(u, floors) == UseGroup::A,
        !seq_contains(u, "아파트"@) && !seq_contains(u, "공동주택"@) && (seq_contains(u, "단독주택"@) || seq_contains(
            u,
            "다가구"@,
        ) || seq_contains(u, "다세대"@) || seq_contains(u, "연립"@)) ==> spec_use_group(u, floors) == UseGroup::R,
        names_no_housing(u) && seq_contains(u, "판매시설"@) ==> spec_use_group(u, floors) == UseGroup::C,
        names_no_housing(u) && names_commercial(u) ==> spec_use_group(u, floors) == UseGroup::C,
        names_no_housing(u) && !names_commercial(u) && names_office(u) ==> spec_use_group(u, floors) == UseGroup::O,
        names_no_housing(u) && !names_commercial(u) && !names_office(u) && names_industrial(u) ==> spec_use_group(
            u,
            floors,
        ) == UseGroup::I,
        u.len() > 0 && names_no_housing(u) && !names_commercial(u) && !names_office(u) && !names_industrial(u)
            ==> spec_use_group(u, floors) == UseGroup::X,
        !seq_contains(u, "아파트"@) && seq_contains(u, "공동주택"@) ==> (spec_use_group(u, floors) == UseGroup::A
            <==> floors >= 5),
        !seq_contains(u, "아파트"@) && seq_contains(u, "공동주택"@) ==> (spec_use_group(u, floors) == UseGroup::A
            || spec_use_group(u, floors) == UseGroup::R),
        u.len() == 0 ==> spec_use_group(u, floors) == UseGroup::R,
{
    reveal_strlit("아파트");
    reveal_strlit("단독주택");
    reveal_strlit("다가구");
    reveal_strlit("다세대");
    reveal_strlit("연립");
    reveal_strlit("근린생활시설");
    reveal_strlit("판매시설");
    reveal_strlit("숙박시설");
    reveal_strlit("업무시설");
    reveal_strlit("교육연구시설");
    reveal_strlit("의료시설");
    reveal_strlit("공동주택");
    reveal_strlit("공장");
    reveal_strlit("창고");
    reveal_strlit("자동차");
    if seq_contains(u, "공동주택"@) {
        lemma_contains_nonempty(u, "공동주택"@);
    }
    if seq_contains(u, "공장"@) {
        lemma_contains_nonempty(u, "공장"@);
    }
    if seq_contains(u, "창고"@) {
        lemma_contains_nonempty(u, "창고"@);
    }
    if seq_contains(u, "자동차"@) {
        lemma_contains_nonempty(u, "자동차"@);
    }
    if seq_contains(u, "아파트"@) {
        lemma_contains_nonempty(u, "아파트"@);
    }
    if seq_contains(u, "단독주택"@) {
        lemma_contains_nonempty(u, "단독주택"@);
    }
    if seq_contains(u, "다가구"@) {
        lemma_contains_nonempty(u, "다가구"@);
    }
    if seq_contains(u, "다세대"@) {
        lemma_contains_nonempty(u, "다세대"@);
    }
    if seq_contains(u, "연립"@) {
        lemma_contains_nonempty(u, "연립"@);
    }
    if seq_contains(u, "근린생활시설"@) {
        lemma_contains_nonempty(u, "근린생활시설"@);
    }
    if seq_contains(u, "판매시설"@) {
        lemma_contains_nonempty(u, "판매시설"@);
    }
    if seq_contains(u, "숙박시설"@) {
        lemma_contains_nonempty(u, "숙박시설"@);
    }
    if seq_contains(u, "업무시설"@) {
        lemma_contains_nonempty(u, "업무시설"@);
    }
    if seq_contains(u, "교육연구시설"@) {
        lemma_contains_nonempty(u, "교육연구시설"@);
    }
    if seq_contains(u, "의료시설"@) {
        lemma_contains_nonempty(u, "의료시설"@);
    }
}

/// The use group of a building (see [`spec_use_group`]).
pub fn classify_use_group(main_use: &str, floors_above: u32) -> (g: UseGroup)
    ensures
        g == spec_use_group(main_use@, floors_above as int),
{
    let u = chars_of(main_use);
    let u = u.as_slice();
    if u.len() == 0 {
        return UseGroup::R;
    }
    if str_contains(u, "아파트") {
        return UseGroup::A;
    }
    if str_contains(u, "공동주택") {
        return if floors_above >= 5 {
            UseGroup::A
        } else {
            UseGroup::R
        };
    }
    if str_contains(u, "단독주택") || str_contains(u, "다가구") || str_contains(u, "다세대") || str_contains(
        u,
        "연립",
    ) {
        return UseGroup::R;
    }
    if str_contains(u, "근린생활시설") || str_contains(u, "판매시설") || str_contains(u, "숙박시설") {
        return UseGroup::C;
    }
    if str_contains(u, "업무시설") || str_contains(u, "교육연구시설") || str_contains(u, "의료시설") {
        return UseGroup::O;
    }
    if str_contains(u, "공장") || str_contains(u, "창고") || str_contains(u, "자동차") {
        return UseGroup::I;
    }
    UseGroup::X
}

/// (first floor, typical floor) heights in blocks.
pub open spec fn spec_floor_heights(g: UseGroup) -> (i32, i32) {
    match g {
        UseGroup::R | UseGroup::A => (6, 6),
        UseGroup::C | UseGroup::O | UseGroup::X => (8, 6),
        UseGroup::I => (12, 12),
    }
}

/// First-floor and typical-floor heights of a use group, in blocks.
pub fn floor_heights(group: UseGroup) -> (h: (i32, i32))
    ensures
        h == spec_floor_heights(group),
{
    match group {
        UseGroup::R | UseGroup::A => (6, 6),
        UseGroup::C | UseGroup::O | UseGroup::X => (8, 6),
        UseGroup::I => (12, 12),
    }
}

/// Total building height: the first floor plus one typical floor for every
/// floor above the first (a zero floor count counts as one floor).
pub open spec fn spec_total_height(g: UseGroup, floors: int) -> int {
    let f = if floors < 1 { 1 } else { floors };
    spec_floor_heights(g).0 + (f - 1) * spec_floor_heights(g).1
}

/// Total height in blocks of a building of `group` with `floors_above`
/// floors.
pub fn total_height_blocks(group: UseGroup, floors_above: u32) -> (h: i32)
    requires
        spec_total_height(group, floors_above as int) <= i32::MAX,
    ensures
        h == spec_total_height(group, floors_above as int),
{
    let (first, typical) = floor_heights(group);
    let floors = if floors_above < 1 {
        1u32
    } else {
        floors_above
    };
    assert((floors - 1) * typical <= i32::MAX) by (nonlinear_arith)
        requires
            first + (floors - 1) * typical <= i32::MAX,
            first >= 0,
            typical >= 0,
            floors >= 1,
    ;
    assert((floors - 1) * typical >= 0) by (nonlinear_arith)
        requires
            typical >= 0,
            floors >= 1,
    ;
    assert((floors - 1) <= (floors - 1) * typical) by (nonlinear_arith)
        requires
            typical >= 1,
            floors >= 1,
    ;
    let f = (floors - 1) as i32;
    assert(f * typical == (floors - 1) * typical);
    first + f * typical
}

/// Detail level: L2 full facade, L3 outline-and-height only.
#[derive(Clone, Copy, PartialEq, Eq, Structural, Debug)]
pub enum DetailLevel {
    L2,
    L3,
}

impl DetailLevel {
    /// `"L2"` or `"L3"`.
    pub fn as_str(self) -> (s: &'static str)
        ensures
            s@ == (match self {
                DetailLevel::L2 => "L2"@,
                DetailLevel::L3 => "L3"@,
            }),
    {
        match self {
            DetailLevel::L2 => "L2",
            DetailLevel::L3 => "L3",
        }
    }
}

/// FNV-1a over `bytes`, 64-bit.
pub open spec fn fnv1a(bytes: Seq<u8>) -> u64
    decreases bytes.len(),
{
    if bytes.len() == 0 {
        0xcbf29ce484222325u64
    } else {
        let h = fnv1a(bytes.drop_last()) ^ (bytes.last() as u64);
        ((h as nat * 0x100000001b3nat) % 0x1_0000_0000_0000_0000nat) as u64
    }
}

/// FNV-1a over a byte slice.
pub fn fnv1a_bytes(bytes: &[u8]) -> (h: u64)
    ensures
        h == fnv1a(bytes@),
{
    let mut h: u64 = 0xcbf29ce484222325;
    let mut i: usize = 0;
    while i < bytes.len()
        invariant
            i <= bytes@.len(),
            h == fnv1a(bytes@.take(i as int)),
        decreases bytes.len() - i,
    {
        assert(bytes@.take(i + 1).drop_last() =~= bytes@.take(i as int));
        h = h ^ (bytes[i] as u64);
        h = h.wrapping_mul(0x100000001b3);
        i += 1;
    }
    assert(bytes@.take(bytes.len() as int) =~= bytes@);
    h
}

/// The identity hash of a building id: FNV-1a over its UTF-8 bytes.
pub fn building_hash(id: &str) -> (h: u64)
    ensures
        h == fnv1a(id.spec_bytes()),
{
    fnv1a_bytes(id.as_bytes())
}

/// Largest magnitude of a footprint cell coordinate.
pub open spec fn cell_ok(c: (i32, i32)) -> bool {
    -1_000_000_000 <= c.0 <= 1_000_000_000 && -1_000_000_000 <= c.1 <= 1_000_000_000
}

/// Largest magnitude of any height this module handles.
pub open spec fn height_ok(y: int) -> bool {
    -1_000_000_000 <= y <= 1_000_000_000
}

/// One classified, clipped, height-resolved building, ready to be placed
/// (unless `omitted`) and recorded.  `cells` are the remaining footprint
/// cells (world block x, z) after the road clip -- the original raster when
/// omitted; `terrain_y[i]` is the terrain surface height at `cells[i]`;
/// `ground_y` is the floor height (the front road's height);
/// `front_point` is the nearest front-road point.
pub struct PlannedBuilding {
    id: String,
    cells: Vec<(i32, i32)>,
    ground_y: i32,
    total_height: i32,
    floors_above: u32,
    group: UseGroup,
    era: Era,
    detail_level: DetailLevel,
    clipped: bool,
    omitted: bool,
    front_segment: Option<String>,
    front_point: Option<(i32, i32)>,
    terrain_y: Vec<i32>,
}

/// The invariant every planned building keeps: one terrain height per cell,
/// and every coordinate and height within range.
pub open spec fn planned_ok(
    cells: Seq<(i32, i32)>,
    terrain_y: Seq<i32>,
    ground_y: int,
    total_height: int,
    front_point: Option<(i32, i32)>,
) -> bool {
    &&& terrain_y.len() == cells.len()
    &&& forall|i: int| 0 <= i < cells.len() ==> cell_ok(#[trigger] cells[i])
    &&& forall|i: int| 0 <= i < terrain_y.len() ==> height_ok(#[trigger] terrain_y[i] as int)
    &&& height_ok(ground_y)
    &&& 1 <= total_height <= 1_000_000_000
    &&& front_point matches Some(p) ==> cell_ok(p)
}

impl PlannedBuilding {
    /// The invariant of every planned building (see [`planned_ok`]).
    #[verifier::type_invariant]
    pub open spec fn inv(self) -> bool {
        planned_ok(
            self.spec_cells(),
            self.spec_terrain_y(),
            self.spec_ground_y() as int,
            self.spec_total_height() as int,
            self.spec_front_point(),
        )
    }

    pub closed spec fn spec_id(&self) -> Seq<char> {
        self.id@
    }

    pub closed spec fn spec_cells(&self) -> Seq<(i32, i32)> {
        self.cells@
    }

    pub closed spec fn spec_terrain_y(&self) -> Seq<i32> {
        self.terrain_y@
    }

    pub closed spec fn spec_ground_y(&self) -> i32 {
        self.ground_y
    }

    pub closed spec fn spec_total_height(&self) -> i32 {
        self.total_height
    }

    pub closed spec fn spec_floors_above(&self) -> u32 {
        self.floors_above
    }

    pub closed spec fn spec_group(&self) -> UseGroup {
        self.group
    }

    pub closed spec fn spec_era(&self) -> Era {
        self.era
    }

    pub closed spec fn spec_detail_level(&self) -> DetailLevel {
        self.detail_level
    }

    pub closed spec fn spec_clipped(&self) -> bool {
        self.clipped
    }

    pub closed spec fn spec_omitted(&self) -> bool {
        self.omitted
    }

    pub closed spec fn spec_front_segment(&self) -> Option<String> {
        self.front_segment
    }

    pub closed spec fn spec_front_point(&self) -> Option<(i32, i32)> {
        self.front_point
    }

    /// A planned building from its parts; `None` when the parts break the
    /// invariant (see [`planned_ok`]).
    pub fn new(
        id: String,
        cells: Vec<(i32, i32)>,
        ground_y: i32,
        total_height: i32,
        floors_above: u32,
        group: UseGroup,
        era: Era,
        detail_level: DetailLevel,
        clipped: bool,
        omitted: bool,
        front_segment: Option<String>,
        front_point: Option<(i32, i32)>,
        terrain_y: Vec<i32>,
    ) -> (b: Option<Self>)
        ensures
            b is Some <==> planned_ok(cells@, terrain_y@, ground_y as int, total_height as int, front_point),
            b matches Some(b) ==> {
                &&& b.spec_id() == id@
                &&& b.spec_cells() == cells@
                &&& b.spec_ground_y() == ground_y
                &&& b.spec_total_height() == total_height
                &&& b.spec_floors_above() == floors_above
                &&& b.spec_group() == group
                &&& b.spec_era() == era
                &&& b.spec_detail_level() == detail_level
                &&& b.spec_clipped() == clipped
                &&& b.spec_omitted() == omitted
                &&& b.spec_front_segment() == front_segment
                &&& b.spec_front_point() == front_point
                &&& b.spec_terrain_y() == terrain_y@
            },
    {
        if terrain_y.len() != cells.len() {
            return None;
        }
        if ground_y < -1_000_000_000 || ground_y > 1_000_000_000 || total_height < 1 || total_height > 1_000_000_000 {
            return None;
        }
        if let Some(p) = front_point {
            if p.0 < -1_000_000_000 || p.0 > 1_000_000_000 || p.1 < -1_000_000_000 || p.1 > 1_000_000_000 {
                return None;
            }
        }
        let mut i: usize = 0;
        while i < cells.len()
            invariant
                i <= cells@.len(),
                forall|k: int| 0 <= k < i ==> cell_ok(#[trigger] cells@[k]),
            decreases cells.len() - i,
        {
            let c = cells[i];
            if c.0 < -1_000_000_000 || c.0 > 1_000_000_000 || c.1 < -1_000_000_000 || c.1 > 1_000_000_000 {
                assert(!cell_ok(cells@[i as int]));
                return None;
            }
            i += 1;
        }
        let mut j: usize = 0;
        while j < terrain_y.len()
            invariant
                j <= terrain_y@.len(),
                forall|k: int| 0 <= k < j ==> height_ok(#[trigger] terrain_y@[k] as int),
            decreases terrain_y.len() - j,
        {
            let h = terrain_y[j];
            if h < -1_000_000_000 || h > 1_000_000_000 {
                assert(!height_ok(terrain_y@[j as int] as int));
                return None;
            }
            j += 1;
        }
        Some(
            PlannedBuilding {
                id,
                cells,
                ground_y,
                total_height,
                floors_above,
                group,
                era,
                detail_level,
                clipped,
                omitted,
                front_segment,
                front_point,
                terrain_y,
            },
        )
    }

    /// Building id.
    pub fn id(&self) -> (r: &str)
        ensures
            r@ == self.spec_id(),
    {
        self.id.as_str()
    }

    /// Footprint cells.
    pub fn cells(&self) -> (r: &[(i32, i32)])
        ensures
            r@ == self.spec_cells(),
    {
        self.cells.as_slice()
    }

    /// Floor height (block Y of the first floor).
    pub fn ground_y(&self) -> (r: i32)
        ensures
            r == self.spec_ground_y(),
    {
        self.ground_y
    }

    /// Above-ground floor count.
    pub fn floors_above(&self) -> (r: u32)
        ensures
            r == self.spec_floors_above(),
    {
        self.floors_above
    }

    /// Detail level.
    pub fn detail_level(&self) -> (r: DetailLevel)
        ensures
            r == self.spec_detail_level(),
    {
        self.detail_level
    }

    /// Whether the road clip removed part of the footprint.
    pub fn clipped(&self) -> (r: bool)
        ensures
            r == self.spec_clipped(),
    {
        self.clipped
    }

    /// Whether the building is left out of placement.
    pub fn omitted(&self) -> (r: bool)
        ensures
            r == self.spec_omitted(),
    {
        self.omitted
    }

    /// Id of the front road segment, if any.
    pub fn front_segment(&self) -> (r: Option<&str>)
        ensures
            r matches Some(s) ==> self.spec_front_segment() matches Some(t) && s@ == t@,
            r is None <==> self.spec_front_segment() is None,
    {
        match &self.front_segment {
            Some(s) => Some(s.as_str()),
            None => None,
        }
    }

    /// Height from floor to roof, in blocks.
    pub fn total_height(&self) -> (r: i32)
        ensures
            r == self.spec_total_height(),
    {
        self.total_height
    }

    /// Use group.
    pub fn group(&self) -> (r: UseGroup)
        ensures
            r == self.spec_group(),
    {
        self.group
    }

    /// Approval era.
    pub fn era(&self) -> (r: Era)
        ensures
            r == self.spec_era(),
    {
        self.era
    }

    /// Terrain surface height under each footprint cell.
    pub fn terrain_y(&self) -> (r: &[i32])
        ensures
            r@ == self.spec_terrain_y(),
    {
        self.terrain_y.as_slice()
    }

    /// Nearest front-road point, if any.
    pub fn front_point(&self) -> (r: Option<(i32, i32)>)
        ensures
            r == self.spec_front_point(),
    {
        self.front_point
    }

    /// `"<group>-<era>"`, e.g. `"R-e1"`.
    pub fn type_code(&self) -> (s: String)
        ensures
            s@ == group_code(self.spec_group()) + "-"@ + era_code(self.spec_era()),
    {
        let mut s = string_of(self.group.code());
        push_str(&mut s, "-");
        push_str(&mut s, self.era.code());
        s
    }

    /// `(min_x, max_x, min_z, max_z)` over the footprint cells, padded by 4
    /// on every side so that it holds every block the building's grading and
    /// facade write (the farthest, a rooftop water tank, reaches 4 columns
    /// past the centroid); `(0, -1, 0, -1)` for an empty footprint.
    pub fn aabb(&self) -> (b: (i32, i32, i32, i32))
        ensures
            self.spec_cells().len() == 0 ==> b == (0i32, -1i32, 0i32, -1i32),
            self.spec_cells().len() > 0 ==> {
                &&& b.0 == cells_min_x(self.spec_cells()) - 4
                &&& b.1 == cells_max_x(self.spec_cells()) + 4
                &&& b.2 == cells_min_z(self.spec_cells()) - 4
                &&& b.3 == cells_max_z(self.spec_cells()) + 4
            },
    {
        proof {
            use_type_invariant(self);
        }
        let n = self.cells.len();
        if n == 0 {
            return (0, -1, 0, -1);
        }
        let mut min_x = self.cells[0].0;
        let mut max_x = self.cells[0].0;
        let mut min_z = self.cells[0].1;
        let mut max_z = self.cells[0].1;
        let mut i: usize = 1;
        assert(self.cells@.take(1).drop_last() =~= Seq::<(i32, i32)>::empty());
        assert(cell_ok(self.cells@[0]));
        while i < n
            invariant
                n == self.cells@.len(),
                1 <= i <= n,
                planned_ok(self.cells@, self.terrain_y@, self.ground_y as int, self.total_height as int, self.front_point),
                min_x == cells_min_x(self.cells@.take(i as int)),
                max_x == cells_max_x(self.cells@.take(i as int)),
                min_z == cells_min_z(self.cells@.take(i as int)),
                max_z == cells_max_z(self.cells@.take(i as int)),
                cell_ok((min_x, min_z)) && cell_ok((max_x, max_z)),
            decreases n - i,
        {
            let c = self.cells[i];
            assert(self.cells@.take(i + 1).drop_last() =~= self.cells@.take(i as int));
            assert(cell_ok(self.cells@[i as int]));
            if c.0 < min_x {
                min_x = c.0;
            }
            if c.0 > max_x {
                max_x = c.0;
            }
            if c.1 < min_z {
                min_z = c.1;
            }
            if c.1 > max_z {
                max_z = c.1;
            }
            i += 1;
        }
        assert(self.cells@.take(n as int) =~= self.cells@);
        (min_x - 4, max_x + 4, min_z - 4, max_z + 4)
    }

    /// What the service-drop pass needs of a placed building: footprint
    /// cells, roof height (floor plus total height), use group and id.
    /// `None` for an omitted building.
    pub fn service_drop_info(&self) -> (r: Option<(&[(i32, i32)], i32, UseGroup, &str)>)
        ensures
            r is None <==> self.spec_omitted(),
            r matches Some(t) ==> {
                &&& t.0@ == self.spec_cells()
                &&& t.1 == self.spec_ground_y() + self.spec_total_height()
                &&& t.2 == self.spec_group()
                &&& t.3@ == self.spec_id()
            },
    {
        proof {
            use_type_invariant(self);
        }
        if self.omitted {
            return None;
        }
        Some((self.cells.as_slice(), self.ground_y + self.total_height, self.group, self.id.as_str()))
    }
}

/// Smallest `x` over non-empty `s`.
pub open spec fn cells_min_x(s: Seq<(i32, i32)>) -> i32
    decreases s.len(),
{
    if s.len() <= 1 {
        s[0].0
    } else {
        let m = cells_min_x(s.drop_last());
        if s.last().0 < m { s.last().0 } else { m }
    }
}

/// Largest `x` over non-empty `s`.
pub open spec fn cells_max_x(s: Seq<(i32, i32)>) -> i32
    decreases s.len(),
{
    if s.len() <= 1 {
        s[0].0
    } else {
        let m = cells_max_x(s.drop_last());
        if s.last().0 > m { s.last().0 } else { m }
    }
}

/// Smallest `z` over non-empty `s`.
pub open spec fn cells_min_z(s: Seq<(i32, i32)>) -> i32
    decreases s.len(),
{
    if s.len() <= 1 {
        s[0].1
    } else {
        let m = cells_min_z(s.drop_last());
        if s.last().1 < m { s.last().1 } else { m }
    }
}

/// Largest `z` over non-empty `s`.
pub open spec fn cells_max_z(s: Seq<(i32, i32)>) -> i32
    decreases s.len(),
{
    if s.len() <= 1 {
        s[0].1
    } else {
        let m = cells_max_z(s.drop_last());
        if s.last().1 > m { s.last().1 } else { m }
    }
}

/// Counts a building run reports.
pub struct KrBuildingsReport {
    pub loaded: usize,
    pub placed: usize,
    pub omitted_road_overlap: usize,
    pub clipped_road_overlap: usize,
    pub l3_simplified: usize,
}

/// Everything placing one building writes: nothing when it was omitted,
/// else its site grading followed by its facade.
pub open spec fn building_writes(b: PlannedBuilding) -> Seq<BlockWrite> {
    if b.spec_omitted() {
        Seq::empty()
    } else {
        slope::site_writes(b) + facade::facade_writes(b)
    }
}

/// Everything placing the first `n` buildings writes, in order.
pub open spec fn buildings_writes(bs: Seq<&PlannedBuilding>, n: int) -> Seq<BlockWrite>
    decreases n,
{
    if n <= 0 {
        Seq::empty()
    } else {
        buildings_writes(bs, n - 1) + building_writes(*bs[n - 1])
    }
}

/// Places every building that was not omitted: grades its site, then
/// builds its facade, in the given order.
pub fn place_buildings(editor: &mut WorldEditor, buildings: &[&PlannedBuilding])
    ensures
        final(editor)@ == old(editor)@ + buildings_writes(buildings@, buildings@.len() as int),
{
    let ghost start = editor@;
    let mut i: usize = 0;
    while i < buildings.len()
        invariant
            i <= buildings@.len(),
            editor@ == start + buildings_writes(buildings@, i as int),
        decreases buildings.len() - i,
    {
        let b: &PlannedBuilding = buildings[i];
        let ghost mid = editor@;
        if !b.omitted() {
            slope::grade_site(editor, b);
            facade::build(editor, b);
        }
        assert(editor@ =~= mid + building_writes(*b));
        assert(editor@ =~= start + buildings_writes(buildings@, i + 1));
        i += 1;
    }
}

} // verus!

