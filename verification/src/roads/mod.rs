//! Road network model: the cross-section grade of a 표준노드링크 link, the
//! fixed per-grade cross-section, the resampled centerline segments the
//! network solve produces, and the block sweep that writes them.

pub mod crosswalk;
pub mod place;
pub mod reach;
pub mod records;
pub mod shapefile;
pub mod network;
pub mod shp;

use crate::text::{chars_eq, chars_of};
use vstd::prelude::*;

verus! {

broadcast use vstd::string::group_string_axioms;

/// Cross-section grade, widest (`A`) to narrowest (`F`).
#[derive(Clone, Copy, PartialEq, Eq, Structural, Debug)]
pub enum RoadClass {
    A,
    B,
    C,
    D,
    E,
    F,
}

impl RoadClass {
    /// The grade's one-letter code, as `roadgraph.json` records it.
    pub fn as_str(self) -> (s: &'static str)
        ensures
            s@ == class_code(self),
    {
        match self {
            RoadClass::A => "A",
            RoadClass::B => "B",
            RoadClass::C => "C",
            RoadClass::D => "D",
            RoadClass::E => "E",
            RoadClass::F => "F",
        }
    }
}

/// One-letter code of a grade.
pub open spec fn class_code(c: RoadClass) -> Seq<char> {
    match c {
        RoadClass::A => "A"@,
        RoadClass::B => "B"@,
        RoadClass::C => "C"@,
        RoadClass::D => "D"@,
        RoadClass::E => "E"@,
        RoadClass::F => "F"@,
    }
}

/// One grade's cross-section, laid out
/// `[outer][curb][carriage][median][carriage][curb][outer]`: `outer_each`,
/// `curb_each` and `carriage_each` are one side's widths, `median_total` is
/// the whole median (0: none, 1: painted line, 4: physical divider), and
/// `outer_is_shoulder` marks a paved shoulder instead of a raised sidewalk.
#[derive(Clone, Copy, PartialEq, Eq, Structural, Debug)]
pub struct SectionSpec {
    pub outer_each: i32,
    pub curb_each: i32,
    pub carriage_each: i32,
    pub median_total: i32,
    pub outer_is_shoulder: bool,
}

impl SectionSpec {
    /// The whole paved width in blocks.
    pub fn total_width(&self) -> (w: i32)
        requires
            self.valid(),
        ensures
            w == self.spec_total_width(),
    {
        2 * (self.outer_each + self.curb_each + self.carriage_each) + self.median_total
    }

    /// Widths are small and non-negative.
    pub open spec fn valid(self) -> bool {
        &&& 0 <= self.outer_each <= 100
        &&& 0 <= self.curb_each <= 100
        &&& 0 <= self.carriage_each <= 100
        &&& 0 <= self.median_total <= 100
    }

    pub open spec fn spec_total_width(self) -> int {
        2 * (self.outer_each + self.curb_each + self.carriage_each) + self.median_total
    }
}

/// The fixed cross-section of each grade (totals A/B 50, C 31, D 21,
/// E 20, F 8 blocks).
pub open spec fn spec_section(class: RoadClass) -> SectionSpec {
    match class {
        RoadClass::A => SectionSpec { outer_each: 4, curb_each: 1, carriage_each: 18, median_total: 4, outer_is_shoulder: true },
        RoadClass::B => SectionSpec { outer_each: 4, curb_each: 1, carriage_each: 18, median_total: 4, outer_is_shoulder: false },
        RoadClass::C => SectionSpec { outer_each: 4, curb_each: 1, carriage_each: 10, median_total: 1, outer_is_shoulder: false },
        RoadClass::D => SectionSpec { outer_each: 4, curb_each: 1, carriage_each: 5, median_total: 1, outer_is_shoulder: false },
        RoadClass::E => SectionSpec { outer_each: 4, curb_each: 1, carriage_each: 5, median_total: 0, outer_is_shoulder: false },
        RoadClass::F => SectionSpec { outer_each: 0, curb_each: 0, carriage_each: 4, median_total: 0, outer_is_shoulder: false },
    }
}

/// The cross-section of `class`.
pub fn section_spec(class: RoadClass) -> (s: SectionSpec)
    ensures
        s == spec_section(class),
        s.valid(),
{
    match class {
        RoadClass::A => SectionSpec { outer_each: 4, curb_each: 1, carriage_each: 18, median_total: 4, outer_is_shoulder: true },
        RoadClass::B => SectionSpec { outer_each: 4, curb_each: 1, carriage_each: 18, median_total: 4, outer_is_shoulder: false },
        RoadClass::C => SectionSpec { outer_each: 4, curb_each: 1, carriage_each: 10, median_total: 1, outer_is_shoulder: false },
        RoadClass::D => SectionSpec { outer_each: 4, curb_each: 1, carriage_each: 5, median_total: 1, outer_is_shoulder: false },
        RoadClass::E => SectionSpec { outer_each: 4, curb_each: 1, carriage_each: 5, median_total: 0, outer_is_shoulder: false },
        RoadClass::F => SectionSpec { outer_each: 0, curb_each: 0, carriage_each: 4, median_total: 0, outer_is_shoulder: false },
    }
}

/// Total paved width of a grade.
pub open spec fn class_width(class: RoadClass) -> int {
    spec_section(class).spec_total_width()
}

/// The whole paved width of `class` in blocks.
pub fn road_total_width(class: RoadClass) -> (w: i32)
    ensures
        w == class_width(class),
{
    section_spec(class).total_width()
}

/// The grade of a link from its `ROAD_RANK` code and `LANES` count:
/// ranks 101/102 are A and 103 is B; 104 is B from 6 lanes, C at exactly 4
/// and D otherwise (lanes override the rank's own pair); 105/106 are C;
/// 107 is D from 2 lanes and E below; any other rank goes by lanes alone,
/// narrower of each ambiguous pair (6+ B, 4 C, 2 E, else F).
pub open spec fn spec_road_class(rank: Seq<char>, lanes: int) -> RoadClass {
    if rank == "101"@ || rank == "102"@ {
        RoadClass::A
    } else if rank == "103"@ {
        RoadClass::B
    } else if rank == "104"@ {
        if lanes >= 6 {
            RoadClass::B
        } else if lanes == 4 {
            RoadClass::C
        } else {
            RoadClass::D
        }
    } else if rank == "105"@ || rank == "106"@ {
        RoadClass::C
    } else if rank == "107"@ {
        if lanes >= 2 {
            RoadClass::D
        } else {
            RoadClass::E
        }
    } else if lanes >= 6 {
        RoadClass::B
    } else if lanes == 4 {
        RoadClass::C
    } else if lanes == 2 {
        RoadClass::E
    } else {
        RoadClass::F
    }
}

/// The national road ranks decide the grade whatever the lane count:
/// expressways and national roads (101, 102) are grade A, 50 blocks wide;
/// national-support roads (103) are grade B, also 50 wide; local and
/// metropolitan roads (105, 106) are grade C, 31 wide.  Rank 104 gives B
/// from six lanes, C at four and D otherwise; rank 107 gives D from two
/// lanes and E below.
pub proof fn lemma_rank_decides_grade(lanes: int, other: int)
    ensures
        spec_road_class("101"@, lanes) == RoadClass::A,
        spec_road_class("102"@, lanes) == RoadClass::A,
        spec_road_class("103"@, lanes) == RoadClass::B,
        spec_road_class("105"@, lanes) == RoadClass::C,
        spec_road_class("106"@, lanes) == RoadClass::C,
        class_width(spec_road_class("101"@, lanes)) == 50,
        class_width(spec_road_class("103"@, lanes)) == 50,
        class_width(spec_road_class("105"@, lanes)) == 31,
        spec_road_class("103"@, lanes) == spec_road_class("103"@, other),
        ({
            let c = spec_road_class("104"@, lanes);
            c == RoadClass::B || c == RoadClass::C || c == RoadClass::D
        }),
        ({
            let c = spec_road_class("107"@, lanes);
            c == RoadClass::D || c == RoadClass::E
        }),
        spec_road_class("104"@, lanes) == (if lanes >= 6 {
            RoadClass::B
        } else if lanes == 4 {
            RoadClass::C
        } else {
            RoadClass::D
        }),
        spec_road_class("107"@, lanes) == (if lanes >= 2 {
            RoadClass::D
        } else {
            RoadClass::E
        }),
{
    reveal_strlit("101");
    reveal_strlit("102");
    reveal_strlit("103");
    reveal_strlit("104");
    reveal_strlit("105");
    reveal_strlit("106");
    reveal_strlit("107");
    assert("103"@[2] != "101"@[2]);
    assert("103"@[2] != "102"@[2]);
    assert("104"@[2] != "101"@[2]);
    assert("104"@[2] != "102"@[2]);
    assert("104"@[2] != "103"@[2]);
    assert("105"@[2] != "101"@[2]);
    assert("105"@[2] != "102"@[2]);
    assert("105"@[2] != "103"@[2]);
    assert("105"@[2] != "104"@[2]);
    assert("106"@[2] != "101"@[2]);
    assert("106"@[2] != "102"@[2]);
    assert("106"@[2] != "103"@[2]);
    assert("106"@[2] != "104"@[2]);
    assert("107"@[2] != "101"@[2]);
    assert("107"@[2] != "102"@[2]);
    assert("107"@[2] != "103"@[2]);
    assert("107"@[2] != "104"@[2]);
    assert("107"@[2] != "105"@[2]);
    assert("107"@[2] != "106"@[2]);
}

/// A link of any other rank (an unranked or local link) is graded by its
/// lanes alone: six or more lanes make grade B, four make C, two make E,
/// and any other count the single-surface grade F, 8 blocks wide.
pub proof fn lemma_lanes_grade_other_ranks(rank: Seq<char>, lanes: int)
    requires
        rank != "101"@,
        rank != "102"@,
        rank != "103"@,
        rank != "104"@,
        rank != "105"@,
        rank != "106"@,
        rank != "107"@,
    ensures
        lanes >= 6 ==> spec_road_class(rank, lanes) == RoadClass::B,
        lanes == 4 ==> spec_road_class(rank, lanes) == RoadClass::C,
        lanes == 2 ==> spec_road_class(rank, lanes) == RoadClass::E,
        lanes < 6 && lanes != 4 && lanes != 2 ==> spec_road_class(rank, lanes) == RoadClass::F,
        lanes < 6 && lanes != 4 && lanes != 2 ==> class_width(spec_road_class(rank, lanes)) == 8,
{
}

fn is_lit(v: &[char], lit: &str) -> (r: bool)
    ensures
        r == (v@ == lit@),
{
    let l = chars_of(lit);
    chars_eq(v, l.as_slice())
}

/// The cross-section grade of a link (see [`spec_road_class`]).
pub fn road_class(road_rank: &str, lanes: i32) -> (c: RoadClass)
    ensures
        c == spec_road_class(road_rank@, lanes as int),
{
    let r = chars_of(road_rank);
    let r = r.as_slice();
    if is_lit(r, "101") || is_lit(r, "102") {
        RoadClass::A
    } else if is_lit(r, "103") {
        RoadClass::B
    } else if is_lit(r, "104") {
        if lanes >= 6 {
            RoadClass::B
        } else if lanes == 4 {
            RoadClass::C
        } else {
            RoadClass::D
        }
    } else if is_lit(r, "105") || is_lit(r, "106") {
        RoadClass::C
    } else if is_lit(r, "107") {
        if lanes >= 2 {
            RoadClass::D
        } else {
            RoadClass::E
        }
    } else if lanes >= 6 {
        RoadClass::B
    } else if lanes == 4 {
        RoadClass::C
    } else if lanes == 2 {
        RoadClass::E
    } else {
        RoadClass::F
    }
}

/// One cross-section column's band.
#[derive(Clone, Copy, PartialEq, Eq, Structural, Debug)]
pub enum Band {
    Sidewalk,
    Shoulder,
    Curb,
    Carriage,
    MedianPaint,
    MedianPhysical,
}

/// `n` copies of `b`.
pub open spec fn repeat_band(b: Band, n: int) -> Seq<Band> {
    Seq::new(if n < 0 { 0 } else { n as nat }, |i: int| b)
}

/// The median's columns: none, one painted line, or `n` divider columns.
pub open spec fn median_bands(n: int) -> Seq<Band> {
    if n == 0 {
        Seq::empty()
    } else if n == 1 {
        seq![Band::MedianPaint]
    } else {
        repeat_band(Band::MedianPhysical, n)
    }
}

/// The bands of a cross-section, left to right.
pub open spec fn section_bands(s: SectionSpec) -> Seq<Band> {
    let outer = if s.outer_is_shoulder { Band::Shoulder } else { Band::Sidewalk };
    repeat_band(outer, s.outer_each as int) + repeat_band(Band::Curb, s.curb_each as int)
        + repeat_band(Band::Carriage, s.carriage_each as int) + median_bands(s.median_total as int)
        + repeat_band(Band::Carriage, s.carriage_each as int) + repeat_band(Band::Curb, s.curb_each as int)
        + repeat_band(outer, s.outer_each as int)
}

/// Column `i` of the layout: its signed offset from the centerline (the
/// leftmost column sits `len / 2` to the left) and its band.
pub open spec fn layout_column(bands: Seq<Band>, i: int) -> (i32, Band) {
    ((i - bands.len() / 2) as i32, bands[i])
}

fn push_repeat(v: &mut Vec<Band>, b: Band, n: i32)
    requires
        0 <= n <= 100,
    ensures
        final(v)@ == old(v)@ + repeat_band(b, n as int),
{
    let ghost start = old(v)@;
    let mut k: i32 = 0;
    while k < n
        invariant
            0 <= k <= n,
            v@ == start + repeat_band(b, k as int),
        decreases n - k,
    {
        v.push(b);
        assert(start + repeat_band(b, k as int) + seq![b] =~= start + repeat_band(b, k + 1));
        k += 1;
    }
}

/// Expands a cross-section into left-to-right `(offset, band)` columns,
/// exactly one per block of `total_width()`, centred on offset 0 (the extra
/// column of an even width lands left of centre).
pub fn cross_section_layout(spec: &SectionSpec) -> (cols: Vec<(i32, Band)>)
    requires
        spec.valid(),
    ensures
        cols@.len() == section_bands(*spec).len(),
        forall|i: int| 0 <= i < cols@.len() ==> cols@[i] == layout_column(section_bands(*spec), i),
{
    let outer = if spec.outer_is_shoulder { Band::Shoulder } else { Band::Sidewalk };
    let mut seq: Vec<Band> = Vec::new();
    push_repeat(&mut seq, outer, spec.outer_each);
    push_repeat(&mut seq, Band::Curb, spec.curb_each);
    push_repeat(&mut seq, Band::Carriage, spec.carriage_each);
    if spec.median_total == 1 {
        seq.push(Band::MedianPaint);
    } else if spec.median_total != 0 {
        push_repeat(&mut seq, Band::MedianPhysical, spec.median_total);
    }
    proof {
        let pre = repeat_band(outer, spec.outer_each as int) + repeat_band(Band::Curb, spec.curb_each as int)
            + repeat_band(Band::Carriage, spec.carriage_each as int);
        if spec.median_total == 0 {
            assert(pre + median_bands(0) =~= pre);
        }
        if spec.median_total == 1 {
            assert(median_bands(1) =~= seq![Band::MedianPaint]);
        }
    }
    push_repeat(&mut seq, Band::Carriage, spec.carriage_each);
    push_repeat(&mut seq, Band::Curb, spec.curb_each);
    push_repeat(&mut seq, outer, spec.outer_each);
    assert(seq@ =~= section_bands(*spec));
    let total = seq.len();
    assert(total <= 1000);
    let left = (total / 2) as i32;
    let mut cols: Vec<(i32, Band)> = Vec::new();
    let mut i: usize = 0;
    while i < total
        invariant
            total == seq@.len(),
            total <= 1000,
            left == total / 2,
            seq@ == section_bands(*spec),
            i <= total,
            cols@.len() == i,
            forall|k: int| 0 <= k < i ==> cols@[k] == layout_column(seq@, k),
        decreases total - i,
    {
        cols.push(((i as i32) - left, seq[i]));
        i += 1;
    }
    cols
}

/// One resampled centerline point, about one per block: block position and
/// height in half-blocks (`y2`).
#[derive(Clone, Copy, PartialEq, Eq, Structural, Debug)]
pub struct ProfilePoint {
    pub x: i32,
    pub z: i32,
    pub y2: i32,
}

impl ProfilePoint {
    /// Block position of the point.
    pub fn xz(&self) -> (p: (i32, i32))
        ensures
            p == (self.x, self.z),
    {
        (self.x, self.z)
    }

    /// Height in half-blocks.
    pub fn y2(&self) -> (h: i32)
        ensures
            h == self.y2,
    {
        self.y2
    }
}

/// Smallest of `init` and every value of `s`.
pub open spec fn seq_min(s: Seq<int>, init: int) -> int
    decreases s.len(),
{
    if s.len() == 0 {
        init
    } else {
        let m = seq_min(s.drop_last(), init);
        if s.last() < m { s.last() } else { m }
    }
}

/// Largest of `init` and every value of `s`.
pub open spec fn seq_max(s: Seq<int>, init: int) -> int
    decreases s.len(),
{
    if s.len() == 0 {
        init
    } else {
        let m = seq_max(s.drop_last(), init);
        if s.last() > m { s.last() } else { m }
    }
}

/// The `x` coordinates of a point sequence.
pub open spec fn point_xs(p: Seq<ProfilePoint>) -> Seq<int> {
    p.map_values(|q: ProfilePoint| q.x as int)
}

/// The `z` coordinates of a point sequence.
pub open spec fn point_zs(p: Seq<ProfilePoint>) -> Seq<int> {
    p.map_values(|q: ProfilePoint| q.z as int)
}

/// Coordinates far enough from the `i32` limits for any padding this
/// module adds.
pub open spec fn coord_ok(v: int) -> bool {
    -2_147_483_000 <= v <= 2_147_483_000
}

/// One road segment of the solved network.
pub struct Segment {
    id: String,
    link_id: String,
    lanes: i32,
    class: RoadClass,
    road_type: String,
    f_node: String,
    t_node: String,
    points: Vec<ProfilePoint>,
    is_bridge: bool,
}

impl Segment {
    /// Every point lies within the coordinate range the sweep and the
    /// bounding box can pad without overflow.
    #[verifier::type_invariant]
    pub open spec fn wf(&self) -> bool {
        forall|i: int|
            0 <= i < self.spec_points().len() ==> coord_ok(#[trigger] self.spec_points()[i].x as int)
                && coord_ok(self.spec_points()[i].z as int) && coord_ok(
                self.spec_points()[i].y2 as int,
            )
    }

    /// The resampled centerline.
    pub closed spec fn spec_points(&self) -> Seq<ProfilePoint> {
        self.points@
    }

    /// The cross-section grade.
    pub closed spec fn spec_class(&self) -> RoadClass {
        self.class
    }

    pub closed spec fn spec_link_id(&self) -> Seq<char> {
        self.link_id@
    }

    pub closed spec fn spec_lanes(&self) -> i32 {
        self.lanes
    }

    pub closed spec fn spec_road_type(&self) -> Seq<char> {
        self.road_type@
    }

    pub closed spec fn spec_f_node(&self) -> Seq<char> {
        self.f_node@
    }

    pub closed spec fn spec_t_node(&self) -> Seq<char> {
        self.t_node@
    }

    pub closed spec fn spec_is_bridge(&self) -> bool {
        self.is_bridge
    }

    /// The segment id.
    pub closed spec fn spec_id(&self) -> Seq<char> {
        self.id@
    }

    /// A segment from its parts.
    pub fn new(
        id: String,
        link_id: String,
        lanes: i32,
        class: RoadClass,
        road_type: String,
        f_node: String,
        t_node: String,
        points: Vec<ProfilePoint>,
        is_bridge: bool,
    ) -> (s: Self)
        requires
            forall|i: int|
                0 <= i < points@.len() ==> coord_ok(#[trigger] points@[i].x as int) && coord_ok(
                    points@[i].z as int,
                ) && coord_ok(points@[i].y2 as int),
        ensures
            s.wf(),
            s.spec_points() == points@,
            s.spec_class() == class,
            s.spec_id() == id@,
            s.spec_is_bridge() == is_bridge,
            s.spec_t_node() == t_node@,
            s.spec_f_node() == f_node@,
            s.spec_road_type() == road_type@,
            s.spec_lanes() == lanes,
            s.spec_link_id() == link_id@,
    {
        Segment { id, link_id, lanes, class, road_type, f_node, t_node, points, is_bridge }
    }

    /// Segment id (`sNNNNN` / `bridgeNN`).
    pub fn id(&self) -> (r: &str)
        ensures
            r@ == self.spec_id(),
    {
        self.id.as_str()
    }

    /// Source 표준노드링크 link id.
    pub fn link_id(&self) -> (r: &str)
        ensures
            r@ == self.spec_link_id(),
    {
        self.link_id.as_str()
    }

    /// Lane count of the source link.
    pub fn lanes(&self) -> (r: i32)
        ensures
            r == self.spec_lanes(),
    {
        self.lanes
    }

    /// Cross-section grade.
    pub fn class(&self) -> (c: RoadClass)
        ensures
            c == self.spec_class(),
    {
        self.class
    }

    /// `ROAD_TYPE` of the source link.
    pub fn road_type(&self) -> (r: &str)
        ensures
            r@ == self.spec_road_type(),
    {
        self.road_type.as_str()
    }

    /// Start node id.
    pub fn f_node(&self) -> (r: &str)
        ensures
            r@ == self.spec_f_node(),
    {
        self.f_node.as_str()
    }

    /// End node id.
    pub fn t_node(&self) -> (r: &str)
        ensures
            r@ == self.spec_t_node(),
    {
        self.t_node.as_str()
    }

    /// Whether this is a hand-built bridge deck.
    pub fn is_bridge(&self) -> (r: bool)
        ensures
            r == self.spec_is_bridge(),
    {
        self.is_bridge
    }

    /// Resampled centerline.
    pub fn points(&self) -> (p: &[ProfilePoint])
        ensures
            p@ == self.spec_points(),
    {
        self.points.as_slice()
    }

    /// `(min_x, max_x, min_z, max_z)` over the centerline, padded on every
    /// side by the grade's whole cross-section width.  With no points the
    /// box is the inverted `(i32::MAX - w, i32::MIN + w, ..)` one.
    pub fn aabb(&self) -> (b: (i32, i32, i32, i32))
        ensures
            b.0 == seq_min(point_xs(self.spec_points()), i32::MAX as int) - class_width(self.spec_class()),
            b.1 == seq_max(point_xs(self.spec_points()), i32::MIN as int) + class_width(self.spec_class()),
            b.2 == seq_min(point_zs(self.spec_points()), i32::MAX as int) - class_width(self.spec_class()),
            b.3 == seq_max(point_zs(self.spec_points()), i32::MIN as int) + class_width(self.spec_class()),
    {
        proof {
            use_type_invariant(self);
        }
        let pad = section_spec(self.class).total_width();
        let mut min_x = i32::MAX;
        let mut max_x = i32::MIN;
        let mut min_z = i32::MAX;
        let mut max_z = i32::MIN;
        let n = self.points.len();
        let mut i: usize = 0;
        while i < n
            invariant
                n == self.points@.len(),
                i <= n,
                self.wf(),
                min_x as int == seq_min(point_xs(self.points@.take(i as int)), i32::MAX as int),
                max_x as int == seq_max(point_xs(self.points@.take(i as int)), i32::MIN as int),
                min_z as int == seq_min(point_zs(self.points@.take(i as int)), i32::MAX as int),
                max_z as int == seq_max(point_zs(self.points@.take(i as int)), i32::MIN as int),
                i == 0 || (coord_ok(min_x as int) && coord_ok(max_x as int) && coord_ok(min_z as int)
                    && coord_ok(max_z as int)),
            decreases n - i,
        {
            let p = self.points[i];
            proof {
                let t = self.points@.take(i as int);
                let t1 = self.points@.take(i + 1);
                assert(t1.drop_last() =~= t);
                assert(point_xs(t1).drop_last() =~= point_xs(t));
                assert(point_zs(t1).drop_last() =~= point_zs(t));
                assert(point_xs(t1).last() == p.x);
                assert(point_zs(t1).last() == p.z);
                assert(coord_ok(self.spec_points()[i as int].x as int));
            }
            if p.x < min_x {
                min_x = p.x;
            }
            if p.x > max_x {
                max_x = p.x;
            }
            if p.z < min_z {
                min_z = p.z;
            }
            if p.z > max_z {
                max_z = p.z;
            }
            i += 1;
        }
        assert(self.points@.take(n as int) =~= self.points@);
        (min_x - pad, max_x + pad, min_z - pad, max_z + pad)
    }
}

/// Counts a placement run reports.
pub struct KrRoadsReport {
    pub nodes_placed: usize,
    pub segments_placed: usize,
    pub links_skipped_missing_node: usize,
    pub slope_violations: usize,
    pub node_height_mismatches: usize,
}

/// The solved road network: segments plus each node's block position and
/// solved height (half-blocks), keyed by node id.
pub struct KrRoadNetwork {
    pub segments: Vec<Segment>,
    pub node_pos: std::collections::HashMap<String, (i32, i32)>,
    pub node_y2: std::collections::HashMap<String, i32>,
}

/// The deterministic per-column hash that picks reproducible per-block
/// variation (which curb side a pole line takes, which pole draws a service
/// drop): two multiply-xor rounds over the column, a 13-bit fold, and a
/// final 32-bit multiply, every product wrapping.
pub open spec fn coord_hash_of(x: i32, z: i32) -> u32 {
    let h0 = (x as i64).wrapping_mul(374_761_393i64) ^ (z as i64).wrapping_mul(668_265_263i64);
    let h1 = h0 ^ (h0 >> 13u32);
    (h1 as u32).wrapping_mul(2_246_822_519u32)
}

/// The hash of column `(x, z)` (see [`coord_hash_of`]).
pub fn coord_hash(x: i32, z: i32) -> (h: u32)
    ensures
        h == coord_hash_of(x, z),
{
    let h0: i64 = (x as i64).wrapping_mul(374_761_393i64) ^ (z as i64).wrapping_mul(668_265_263i64);
    let h1: i64 = h0 ^ (h0 >> 13u32);
    (h1 as u32).wrapping_mul(2_246_822_519u32)
}

} // verus!

