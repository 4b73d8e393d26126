//! Facades, worked per footprint cell: a cell with a neighbour missing from
//! the footprint becomes a solid wall column facing that side; a cell with
//! all four neighbours present stays hollow under a roof cap.  Windows run
//! in a fixed rhythm along the wall, phased per building; the ground floor
//! carries the base band, the entrance opening and (for commercial
//! buildings) the signage band on the road-facing side; rooftop structures
//! go near the footprint's centroid.

use super::{cell_ok, fnv1a, floor_heights, spec_floor_heights, DetailLevel, Era, PlannedBuilding, UseGroup};
use crate::world::{write_of, Block, BlockWrite, WorldEditor};
use vstd::prelude::*;
use vstd::utf8::encode_utf8;

verus! {

broadcast use vstd::string::group_string_axioms;

/// One (group, era) row of the facade palette: wall material, optional
/// alternating band material and base course, the window rhythm (runs of
/// window and wall columns), window height, parapet and whether the roof
/// line has an eave.
#[derive(Clone, Copy, PartialEq, Eq, Structural, Debug)]
pub struct Palette {
    pub wall: Block,
    pub wall_band: Option<Block>,
    pub base: Option<Block>,
    pub window_run: i32,
    pub wall_run: i32,
    pub window_height: i32,
    pub parapet: Block,
    pub has_eave: bool,
}

/// The palette table; `X` and every (group, era) pair the table leaves out
/// take the office mid-era look.
pub open spec fn palette_of(group: UseGroup, era: Era) -> Palette {
    match (group, era) {
        (UseGroup::R, Era::E1) => Palette { wall: Block::LightGrayConcrete, wall_band: None, base: Some(Block::PolishedDiorite), window_run: 2, wall_run: 3, window_height: 2, parapet: Block::CobblestoneWall, has_eave: true },
        (UseGroup::R, Era::E2) => Palette { wall: Block::Brick, wall_band: None, base: Some(Block::PolishedDiorite), window_run: 2, wall_run: 3, window_height: 2, parapet: Block::CobblestoneWall, has_eave: true },
        (UseGroup::R, Era::E3) => Palette { wall: Block::WhiteTerracotta, wall_band: None, base: Some(Block::PolishedDiorite), window_run: 3, wall_run: 2, window_height: 3, parapet: Block::CobblestoneWall, has_eave: true },
        (UseGroup::R, Era::E4) => Palette { wall: Block::SmoothSandstone, wall_band: None, base: Some(Block::PolishedDiorite), window_run: 3, wall_run: 2, window_height: 3, parapet: Block::CobblestoneWall, has_eave: true },
        (UseGroup::A, Era::E2) => Palette { wall: Block::LightGrayConcrete, wall_band: None, base: Some(Block::GrayConcrete), window_run: 4, wall_run: 2, window_height: 3, parapet: Block::GrayConcrete, has_eave: false },
        (UseGroup::A, Era::E3) => Palette { wall: Block::WhiteTerracotta, wall_band: None, base: Some(Block::GrayConcrete), window_run: 4, wall_run: 2, window_height: 3, parapet: Block::GrayConcrete, has_eave: false },
        (UseGroup::A, Era::E4) => Palette { wall: Block::WhiteConcrete, wall_band: Some(Block::LightGrayConcrete), base: Some(Block::GrayConcrete), window_run: 4, wall_run: 2, window_height: 3, parapet: Block::GrayConcrete, has_eave: false },
        (UseGroup::C, Era::E1) => Palette { wall: Block::LightGrayConcrete, wall_band: None, base: Some(Block::PolishedDiorite), window_run: 3, wall_run: 2, window_height: 3, parapet: Block::CobblestoneWall, has_eave: true },
        (UseGroup::C, Era::E2) => Palette { wall: Block::Brick, wall_band: None, base: Some(Block::PolishedDiorite), window_run: 3, wall_run: 2, window_height: 3, parapet: Block::CobblestoneWall, has_eave: true },
        (UseGroup::C, Era::E3) => Palette { wall: Block::WhiteTerracotta, wall_band: None, base: Some(Block::PolishedDiorite), window_run: 3, wall_run: 2, window_height: 3, parapet: Block::CobblestoneWall, has_eave: true },
        (UseGroup::C, Era::E4) => Palette { wall: Block::GrayConcrete, wall_band: Some(Block::GrayStainedGlass), base: Some(Block::PolishedDiorite), window_run: 4, wall_run: 1, window_height: 4, parapet: Block::CobblestoneWall, has_eave: true },
        (UseGroup::O, Era::E2) => Palette { wall: Block::LightGrayConcrete, wall_band: None, base: Some(Block::GrayConcrete), window_run: 3, wall_run: 2, window_height: 3, parapet: Block::GrayConcrete, has_eave: false },
        (UseGroup::O, Era::E3) => Palette { wall: Block::PolishedDiorite, wall_band: Some(Block::LightBlueStainedGlass), base: Some(Block::GrayConcrete), window_run: 3, wall_run: 2, window_height: 3, parapet: Block::GrayConcrete, has_eave: false },
        (UseGroup::O, Era::E4) => Palette { wall: Block::GrayConcrete, wall_band: Some(Block::GrayStainedGlass), base: Some(Block::GrayConcrete), window_run: 4, wall_run: 1, window_height: 4, parapet: Block::GrayConcrete, has_eave: false },
        (UseGroup::I, _) => Palette { wall: Block::LightGrayConcrete, wall_band: Some(Block::CyanConcrete), base: None, window_run: 2, wall_run: 8, window_height: 2, parapet: Block::GrayConcrete, has_eave: true },
        _ => Palette { wall: Block::LightGrayConcrete, wall_band: None, base: Some(Block::GrayConcrete), window_run: 3, wall_run: 2, window_height: 3, parapet: Block::GrayConcrete, has_eave: false },
    }
}

/// Brick walls mark the 1980–94 era: a palette's wall is brick exactly for
/// houses and shops (R, C) of era e2.
pub proof fn lemma_brick_marks_era_two(group: UseGroup, era: Era)
    ensures
        palette_of(group, era).wall == Block::Brick <==> ((group == UseGroup::R || group == UseGroup::C) && era
            == Era::E2),
{
}

/// Houses and shops show their era in their walls: two eras never share a
/// wall material; up to era e3 a house and a shop of the same era share
/// one, and from era e4 on they differ.
pub proof fn lemma_walls_tell_the_era(era: Era, other: Era)
    ensures
        era != other ==> palette_of(UseGroup::R, era).wall != palette_of(UseGroup::R, other).wall,
        era != other ==> palette_of(UseGroup::C, era).wall != palette_of(UseGroup::C, other).wall,
        era != Era::E4 <==> palette_of(UseGroup::R, era).wall == palette_of(UseGroup::C, era).wall,
{
}

/// The palette families: houses and shops (R, C) stand on a polished
/// diorite base under eaves with a cobblestone-wall parapet; apartments,
/// offices and other buildings (A, O, X) stand on a gray concrete base
/// with a gray concrete parapet and no eave; industrial buildings (I) alone
/// have no base, and carry a cyan band under eaves.  Era-4 shops and
/// offices are glass curtain walls: a gray stained-glass band and windows
/// four blocks tall.
pub proof fn lemma_palette_families(group: UseGroup, era: Era)
    ensures
        group == UseGroup::R || group == UseGroup::C ==> {
            let p = palette_of(group, era);
            &&& p.parapet == Block::CobblestoneWall
            &&& p.has_eave
            &&& p.base == Some(Block::PolishedDiorite)
        },
        group == UseGroup::A || group == UseGroup::O || group == UseGroup::X ==> {
            let p = palette_of(group, era);
            &&& p.parapet == Block::GrayConcrete
            &&& !p.has_eave
            &&& p.base == Some(Block::GrayConcrete)
        },
        palette_of(group, era).base is None <==> group == UseGroup::I,
        group == UseGroup::I ==> palette_of(group, era).wall_band == Some(Block::CyanConcrete) && palette_of(
            group,
            era,
        ).has_eave,
        (group == UseGroup::C || group == UseGroup::O) && era == Era::E4 ==> palette_of(group, era).wall_band == Some(
            Block::GrayStainedGlass,
        ) && palette_of(group, era).window_height == 4,
{
}

/// The palette of a (group, era) pair.
pub fn palette(group: UseGroup, era: Era) -> (p: Palette)
    ensures
        p == palette_of(group, era),
{
    match (group, era) {
        (UseGroup::R, Era::E1) => Palette { wall: Block::LightGrayConcrete, wall_band: None, base: Some(Block::PolishedDiorite), window_run: 2, wall_run: 3, window_height: 2, parapet: Block::CobblestoneWall, has_eave: true },
        (UseGroup::R, Era::E2) => Palette { wall: Block::Brick, wall_band: None, base: Some(Block::PolishedDiorite), window_run: 2, wall_run: 3, window_height: 2, parapet: Block::CobblestoneWall, has_eave: true },
        (UseGroup::R, Era::E3) => Palette { wall: Block::WhiteTerracotta, wall_band: None, base: Some(Block::PolishedDiorite), window_run: 3, wall_run: 2, window_height: 3, parapet: Block::CobblestoneWall, has_eave: true },
        (UseGroup::R, Era::E4) => Palette { wall: Block::SmoothSandstone, wall_band: None, base: Some(Block::PolishedDiorite), window_run: 3, wall_run: 2, window_height: 3, parapet: Block::CobblestoneWall, has_eave: true },
        (UseGroup::A, Era::E2) => Palette { wall: Block::LightGrayConcrete, wall_band: None, base: Some(Block::GrayConcrete), window_run: 4, wall_run: 2, window_height: 3, parapet: Block::GrayConcrete, has_eave: false },
        (UseGroup::A, Era::E3) => Palette { wall: Block::WhiteTerracotta, wall_band: None, base: Some(Block::GrayConcrete), window_run: 4, wall_run: 2, window_height: 3, parapet: Block::GrayConcrete, has_eave: false },
        (UseGroup::A, Era::E4) => Palette { wall: Block::WhiteConcrete, wall_band: Some(Block::LightGrayConcrete), base: Some(Block::GrayConcrete), window_run: 4, wall_run: 2, window_height: 3, parapet: Block::GrayConcrete, has_eave: false },
        (UseGroup::C, Era::E1) => Palette { wall: Block::LightGrayConcrete, wall_band: None, base: Some(Block::PolishedDiorite), window_run: 3, wall_run: 2, window_height: 3, parapet: Block::CobblestoneWall, has_eave: true },
        (UseGroup::C, Era::E2) => Palette { wall: Block::Brick, wall_band: None, base: Some(Block::PolishedDiorite), window_run: 3, wall_run: 2, window_height: 3, parapet: Block::CobblestoneWall, has_eave: true },
        (UseGroup::C, Era::E3) => Palette { wall: Block::WhiteTerracotta, wall_band: None, base: Some(Block::PolishedDiorite), window_run: 3, wall_run: 2, window_height: 3, parapet: Block::CobblestoneWall, has_eave: true },
        (UseGroup::C, Era::E4) => Palette { wall: Block::GrayConcrete, wall_band: Some(Block::GrayStainedGlass), base: Some(Block::PolishedDiorite), window_run: 4, wall_run: 1, window_height: 4, parapet: Block::CobblestoneWall, has_eave: true },
        (UseGroup::O, Era::E2) => Palette { wall: Block::LightGrayConcrete, wall_band: None, base: Some(Block::GrayConcrete), window_run: 3, wall_run: 2, window_height: 3, parapet: Block::GrayConcrete, has_eave: false },
        (UseGroup::O, Era::E3) => Palette { wall: Block::PolishedDiorite, wall_band: Some(Block::LightBlueStainedGlass), base: Some(Block::GrayConcrete), window_run: 3, wall_run: 2, window_height: 3, parapet: Block::GrayConcrete, has_eave: false },
        (UseGroup::O, Era::E4) => Palette { wall: Block::GrayConcrete, wall_band: Some(Block::GrayStainedGlass), base: Some(Block::GrayConcrete), window_run: 4, wall_run: 1, window_height: 4, parapet: Block::GrayConcrete, has_eave: false },
        (UseGroup::I, _) => Palette { wall: Block::LightGrayConcrete, wall_band: Some(Block::CyanConcrete), base: None, window_run: 2, wall_run: 8, window_height: 2, parapet: Block::GrayConcrete, has_eave: true },
        _ => Palette { wall: Block::LightGrayConcrete, wall_band: None, base: Some(Block::GrayConcrete), window_run: 3, wall_run: 2, window_height: 3, parapet: Block::GrayConcrete, has_eave: false },
    }
}

/// Whether `(x, z)` is a footprint cell.
pub open spec fn has_cell(cells: Seq<(i32, i32)>, x: int, z: int) -> bool {
    exists|i: int| 0 <= i < cells.len() && cells[i].0 == x && cells[i].1 == z
}

/// The neighbour directions of `(x, z)` missing from the footprint, in the
/// order `+x`, `-x`, `+z`, `-z`.
pub open spec fn exposed_dirs(cells: Seq<(i32, i32)>, x: int, z: int) -> Seq<(i32, i32)> {
    (if !has_cell(cells, x + 1, z) { seq![(1i32, 0i32)] } else { Seq::empty() })
        + (if !has_cell(cells, x - 1, z) { seq![(-1i32, 0i32)] } else { Seq::empty() })
        + (if !has_cell(cells, x, z + 1) { seq![(0i32, 1i32)] } else { Seq::empty() })
        + (if !has_cell(cells, x, z - 1) { seq![(0i32, -1i32)] } else { Seq::empty() })
}

pub(crate) proof fn lemma_exposed_units(cells: Seq<(i32, i32)>, x: int, z: int)
    ensures
        exposed_dirs(cells, x, z).len() <= 4,
        forall|k: int|
            0 <= k < exposed_dirs(cells, x, z).len() ==> -1 <= (#[trigger] exposed_dirs(cells, x, z)[k]).0 <= 1
                && -1 <= exposed_dirs(cells, x, z)[k].1 <= 1,
{
    let a = if !has_cell(cells, x + 1, z) { seq![(1i32, 0i32)] } else { Seq::empty() };
    let b = if !has_cell(cells, x - 1, z) { seq![(-1i32, 0i32)] } else { Seq::empty() };
    let c = if !has_cell(cells, x, z + 1) { seq![(0i32, 1i32)] } else { Seq::empty() };
    let d = if !has_cell(cells, x, z - 1) { seq![(0i32, -1i32)] } else { Seq::empty() };
    let e = exposed_dirs(cells, x, z);
    assert(e == a + b + c + d);
    assert forall|k: int| 0 <= k < e.len() implies -1 <= (#[trigger] e[k]).0 <= 1 && -1 <= e[k].1 <= 1 by {
        if k < a.len() {
            assert(e[k] == a[k]);
        } else if k < a.len() + b.len() {
            assert(e[k] == b[k - a.len()]);
        } else if k < a.len() + b.len() + c.len() {
            assert(e[k] == c[k - a.len() - b.len()]);
        } else {
            assert(e[k] == d[k - a.len() - b.len() - c.len()]);
        }
    }
}

fn contains_cell(cells: &[(i32, i32)], x: i32, z: i32) -> (r: bool)
    ensures
        r == has_cell(cells@, x as int, z as int),
{
    let mut i: usize = 0;
    while i < cells.len()
        invariant
            i <= cells@.len(),
            forall|k: int| 0 <= k < i ==> !(cells@[k].0 == x && cells@[k].1 == z),
        decreases cells.len() - i,
    {
        if cells[i].0 == x && cells[i].1 == z {
            return true;
        }
        i += 1;
    }
    false
}

/// A cell coordinate with room for a neighbour on every side.
pub open spec fn inner_coord(v: int) -> bool {
    -2_000_000_000 <= v <= 2_000_000_000
}

/// The exposed directions of the cell `(x, z)`.
pub fn exposed_directions(cells: &[(i32, i32)], x: i32, z: i32) -> (r: Vec<(i32, i32)>)
    requires
        inner_coord(x as int),
        inner_coord(z as int),
    ensures
        r@ == exposed_dirs(cells@, x as int, z as int),
{
    let mut r: Vec<(i32, i32)> = Vec::new();
    if !contains_cell(cells, x + 1, z) {
        r.push((1, 0));
    }
    if !contains_cell(cells, x - 1, z) {
        r.push((-1, 0));
    }
    if !contains_cell(cells, x, z + 1) {
        r.push((0, 1));
    }
    if !contains_cell(cells, x, z - 1) {
        r.push((0, -1));
    }
    assert(r@ =~= exposed_dirs(cells@, x as int, z as int));
    r
}

/// Squared distance from a cell to `p`.
pub open spec fn dist2(c: (i32, i32), p: (i32, i32)) -> int {
    (c.0 - p.0) * (c.0 - p.0) + (c.1 - p.1) * (c.1 - p.1)
}

/// Index of the first of the first `n` cells nearest to `p`.
pub open spec fn nearest_index(cells: Seq<(i32, i32)>, p: (i32, i32), n: int) -> int
    decreases n,
{
    if n <= 1 {
        0
    } else {
        let j = nearest_index(cells, p, n - 1);
        if dist2(cells[n - 1], p) < dist2(cells[j], p) {
            n - 1
        } else {
            j
        }
    }
}

/// The entrance cell: the first footprint cell nearest to the front-road
/// point, when there is one.
pub open spec fn entrance_cell(b: PlannedBuilding) -> Option<(i32, i32)> {
    match b.spec_front_point() {
        Some(p) => Some(b.spec_cells()[nearest_index(b.spec_cells(), p, b.spec_cells().len() as int)]),
        None => None,
    }
}

fn cell_dist2(c: (i32, i32), p: (i32, i32)) -> (d: i64)
    requires
        super::cell_ok(c),
        super::cell_ok(p),
    ensures
        d == dist2(c, p),
{
    let dx = (c.0 as i64) - (p.0 as i64);
    let dz = (c.1 as i64) - (p.1 as i64);
    assert(dx * dx <= 4_000_000_000_000_000_000 && dx * dx >= 0) by (nonlinear_arith)
        requires
            -2_000_000_000 <= dx <= 2_000_000_000,
    ;
    assert(dz * dz <= 4_000_000_000_000_000_000 && dz * dz >= 0) by (nonlinear_arith)
        requires
            -2_000_000_000 <= dz <= 2_000_000_000,
    ;
    dx * dx + dz * dz
}

fn nearest_cell(cells: &[(i32, i32)], p: (i32, i32)) -> (r: usize)
    requires
        cells@.len() >= 1,
        forall|i: int| 0 <= i < cells@.len() ==> super::cell_ok(#[trigger] cells@[i]),
        super::cell_ok(p),
    ensures
        r == nearest_index(cells@, p, cells@.len() as int),
        r < cells@.len(),
{
    let mut best: usize = 0;
    assert(super::cell_ok(cells@[0]));
    let mut best_d: i64 = cell_dist2(cells[0], p);
    let mut i: usize = 1;
    while i < cells.len()
        invariant
            1 <= i <= cells@.len(),
            forall|k: int| 0 <= k < cells@.len() ==> super::cell_ok(#[trigger] cells@[k]),
            super::cell_ok(p),
            best == nearest_index(cells@, p, i as int),
            best < i,
            best_d == dist2(cells@[best as int], p),
        decreases cells.len() - i,
    {
        assert(super::cell_ok(cells@[i as int]));
        let d = cell_dist2(cells[i], p);
        if d < best_d {
            best = i;
            best_d = d;
        }
        i += 1;
    }
    best
}

/// The identity hash of a building: FNV-1a over its id's UTF-8 bytes.
pub open spec fn id_hash(b: PlannedBuilding) -> u64 {
    fnv1a(encode_utf8(b.spec_id()))
}

/// Signage color: one of five for a hash, muted to white/gray for e4.
pub open spec fn signage_block(h: u64, era: Era) -> Block {
    if era == Era::E4 {
        if h % 2 == 0 {
            Block::WhiteConcrete
        } else {
            Block::GrayConcrete
        }
    } else if h % 5 == 0 {
        Block::RedConcrete
    } else if h % 5 == 1 {
        Block::BlueConcrete
    } else if h % 5 == 2 {
        Block::GreenConcrete
    } else if h % 5 == 3 {
        Block::YellowConcrete
    } else {
        Block::WhiteConcrete
    }
}

/// The signage color of the building `id` of `era`.
pub fn signage_color(id: &str, era: Era) -> (b: Block)
    ensures
        b == signage_block(fnv1a(encode_utf8(id@)), era),
{
    let h = super::building_hash(id);
    if era == Era::E4 {
        if h % 2 == 0 {
            Block::WhiteConcrete
        } else {
            Block::GrayConcrete
        }
    } else if h % 5 == 0 {
        Block::RedConcrete
    } else if h % 5 == 1 {
        Block::BlueConcrete
    } else if h % 5 == 2 {
        Block::GreenConcrete
    } else if h % 5 == 3 {
        Block::YellowConcrete
    } else {
        Block::WhiteConcrete
    }
}

/// Roof cap over an interior cell.
pub open spec fn roof_block(group: UseGroup) -> Block {
    if group == UseGroup::I {
        Block::GrayConcrete
    } else {
        Block::LightGrayConcrete
    }
}

/// The roof cap material of a use group.
pub fn roof_material(group: UseGroup) -> (b: Block)
    ensures
        b == roof_block(group),
{
    if group == UseGroup::I {
        Block::GrayConcrete
    } else {
        Block::LightGrayConcrete
    }
}

/// Window material: industrial walls get a wall panel instead of glass;
/// windows that the wall breaks at every floor (every residential and
/// apartment era, commercial before era 4, office in eras 2 and 3) are
/// glass blocks; the continuous ribbon windows of commercial and office
/// era 4 (and the remaining office and other facades) are glass panes.
pub open spec fn glass_block(group: UseGroup, era: Era) -> Block {
    match group {
        UseGroup::I => Block::LightGrayConcrete,
        UseGroup::R | UseGroup::A => Block::Glass,
        UseGroup::C => if era == Era::E4 {
            Block::GlassPane
        } else {
            Block::Glass
        },
        UseGroup::O => if era == Era::E2 || era == Era::E3 {
            Block::Glass
        } else {
            Block::GlassPane
        },
        UseGroup::X => Block::GlassPane,
    }
}

/// The window material of a use group and era (see [`glass_block`]).
pub fn glass_for(group: UseGroup, era: Era) -> (b: Block)
    ensures
        b == glass_block(group, era),
{
    match group {
        UseGroup::I => Block::LightGrayConcrete,
        UseGroup::R | UseGroup::A => Block::Glass,
        UseGroup::C => if era == Era::E4 {
            Block::GlassPane
        } else {
            Block::Glass
        },
        UseGroup::O => if era == Era::E2 || era == Era::E3 {
            Block::Glass
        } else {
            Block::GlassPane
        },
        UseGroup::X => Block::GlassPane,
    }
}

/// Whether the wall row `y_off` (above the ground floor) takes the band
/// material: office, apartment and industrial walls alternate every other
/// typical-floor band.
pub open spec fn band_row(group: UseGroup, y_off: int, first_h: int, typical_h: int) -> bool {
    (group == UseGroup::O || group == UseGroup::A || group == UseGroup::I) && ((y_off - first_h) / (if typical_h
        >= 1 { typical_h } else { 1 })) % 2 == 1
}

/// Whether the wall row `y_off >= first_h` takes the band material.
pub fn should_band(group: UseGroup, y_off: i32, first_h: i32, typical_h: i32) -> (r: bool)
    requires
        first_h <= y_off <= 2_000_000_000,
        0 <= first_h,
    ensures
        r == band_row(group, y_off as int, first_h as int, typical_h as int),
{
    let t = if typical_h >= 1 {
        typical_h
    } else {
        1
    };
    (group == UseGroup::O || group == UseGroup::A || group == UseGroup::I) && ((y_off - first_h) / t) % 2 == 1
}

/// A ground-floor wall row: the signage band on the top ground-floor row of
/// a commercial building's road-facing side, shop glass for commercial and
/// office buildings, wall otherwise.
pub open spec fn ground_floor_spec(group: UseGroup, pal: Palette, faces_front: bool, sign: Block, y_off: int, first_h: int) -> Block {
    if group == UseGroup::C && faces_front && y_off == first_h - 1 {
        sign
    } else if group == UseGroup::C || group == UseGroup::O {
        Block::GlassPane
    } else {
        pal.wall
    }
}

/// The block of one row `y_off` of a wall column.
#[verifier::opaque]
pub open spec fn wall_block(b: PlannedBuilding, is_entrance: bool, faces_front: bool, in_window: bool, y_off: int) -> Block {
    let group = b.spec_group();
    let pal = palette_of(group, b.spec_era());
    let first_h = spec_floor_heights(group).0 as int;
    let typical_h = spec_floor_heights(group).1 as int;
    let base_band = if pal.base is Some { 1int } else { 0int };
    let is_ground = y_off < first_h;
    let roofline = y_off == b.spec_total_height() - 1;
    if is_ground && y_off < base_band {
        match pal.base {
            Some(m) => m,
            None => pal.wall,
        }
    } else if is_entrance && is_ground && y_off >= base_band && y_off < base_band + 2 {
        Block::Air
    } else if is_ground {
        ground_floor_spec(group, pal, faces_front, signage_block(id_hash(b), b.spec_era()), y_off, first_h)
    } else if in_window && !roofline {
        glass_block(group, b.spec_era())
    } else {
        match pal.wall_band {
            Some(m) => if band_row(group, y_off, first_h, typical_h) {
                m
            } else {
                pal.wall
            },
            None => pal.wall,
        }
    }
}

/// The first `n` rows of a wall column at `(x, z)`, from the floor up.
pub open spec fn wall_rows(b: PlannedBuilding, is_entrance: bool, faces_front: bool, in_window: bool, x: int, z: int, n: int) -> Seq<BlockWrite> {
    Seq::new(
        if n > 0 { n as nat } else { 0 },
        |i: int| write_of(wall_block(b, is_entrance, faces_front, in_window, i), x, b.spec_ground_y() + i, z),
    )
}

/// Everything one footprint cell's column writes: a roof cap over an
/// interior cell; at detail L3 a plain wall column and parapet; at L2 the
/// full wall column, the eave one block out past the first exposed side,
/// and the parapet.
pub open spec fn cell_writes(b: PlannedBuilding, x: int, z: int) -> Seq<BlockWrite> {
    let cells = b.spec_cells();
    let ex = exposed_dirs(cells, x, z);
    let y0 = b.spec_ground_y() as int;
    let th = b.spec_total_height() as int;
    let pal = palette_of(b.spec_group(), b.spec_era());
    if ex.len() == 0 {
        seq![write_of(roof_block(b.spec_group()), x, y0 + th, z)]
    } else if b.spec_detail_level() == DetailLevel::L3 {
        Seq::new(th as nat, |i: int| write_of(pal.wall, x, y0 + i, z)) + seq![write_of(pal.parapet, x, y0 + th, z)]
    } else {
        let dir = ex[0];
        let is_entrance = entrance_cell(b) == Some((x as i32, z as i32));
        let axis = if dir.0 != 0 { z } else { x };
        let period = if pal.window_run + pal.wall_run >= 1 { pal.window_run + pal.wall_run } else { 1 };
        let in_window = (axis + (id_hash(b) % 97) as int) % (period as int) < pal.window_run;
        let faces_front = match b.spec_front_point() {
            Some(p) => dir.0 * (p.0 - x) + dir.1 * (p.1 - z) > 0,
            None => false,
        };
        wall_rows(b, is_entrance, faces_front, in_window, x, z, th) + (if pal.has_eave {
            seq![write_of(pal.wall, x + dir.0, y0 + th - 1, z + dir.1)]
        } else {
            Seq::empty()
        }) + seq![write_of(pal.parapet, x, y0 + th, z)]
    }
}

/// The columns of the first `n` footprint cells, in footprint order.
pub open spec fn cells_writes(b: PlannedBuilding, n: int) -> Seq<BlockWrite>
    decreases n,
{
    if n <= 0 {
        Seq::empty()
    } else {
        cells_writes(b, n - 1) + cell_writes(b, b.spec_cells()[n - 1].0 as int, b.spec_cells()[n - 1].1 as int)
    }
}

/// Everything the facade pass writes for `b`: every cell's column in
/// footprint order, then (at detail L2) the rooftop structures.
pub open spec fn facade_writes(b: PlannedBuilding) -> Seq<BlockWrite> {
    if b.spec_cells().len() == 0 {
        Seq::empty()
    } else {
        cells_writes(b, b.spec_cells().len() as int) + if b.spec_detail_level() == DetailLevel::L2 {
            roof_writes(b)
        } else {
            Seq::empty()
        }
    }
}

/// Sum of the first `n` cells' `x`.
pub open spec fn sum_x(cells: Seq<(i32, i32)>, n: int) -> int
    decreases n,
{
    if n <= 0 {
        0
    } else {
        sum_x(cells, n - 1) + cells[n - 1].0
    }
}

/// Sum of the first `n` cells' `z`.
pub open spec fn sum_z(cells: Seq<(i32, i32)>, n: int) -> int
    decreases n,
{
    if n <= 0 {
        0
    } else {
        sum_z(cells, n - 1) + cells[n - 1].1
    }
}

/// `s / n` rounded to the nearest integer, halves away from zero (`n > 0`).
pub open spec fn round_div(s: int, n: int) -> int {
    if s >= 0 {
        (2 * s + n) / (2 * n)
    } else {
        -((-2 * s + n) / (2 * n))
    }
}

/// The footprint centroid, each axis rounded to the nearest block.
pub open spec fn centroid(cells: Seq<(i32, i32)>) -> (int, int) {
    (round_div(sum_x(cells, cells.len() as int), cells.len() as int), round_div(
        sum_z(cells, cells.len() as int),
        cells.len() as int,
    ))
}

/// A footprint cell with all four neighbours in the footprint.
pub open spec fn interior(cells: Seq<(i32, i32)>, x: int, z: int) -> bool {
    has_cell(cells, x, z) && exposed_dirs(cells, x, z).len() == 0
}

/// A 2x2x2 water tank with its low corner at `(cx, y, cz)`.
pub open spec fn tank_writes(cx: int, cz: int, y: int) -> Seq<BlockWrite> {
    Seq::new(8, |i: int| write_of(Block::LightBlueConcrete, cx + i / 4, y + i % 2, cz + (i / 2) % 2))
}

/// Three blocks stacked from `y` at `(x, z)`, if that is an interior cell.
pub open spec fn box_column(cells: Seq<(i32, i32)>, x: int, z: int, y: int, block: Block) -> Seq<BlockWrite> {
    if interior(cells, x, z) {
        seq![write_of(block, x, y, z), write_of(block, x, y + 1, z), write_of(block, x, y + 2, z)]
    } else {
        Seq::empty()
    }
}

/// The first `k` columns of a box row at `x`, `z` from `cz - half`.
pub open spec fn box_row(cells: Seq<(i32, i32)>, x: int, cz: int, y: int, half: int, block: Block, k: int) -> Seq<BlockWrite>
    decreases k,
{
    if k <= 0 {
        Seq::empty()
    } else {
        box_row(cells, x, cz, y, half, block, k - 1) + box_column(cells, x, cz - half + k - 1, y, block)
    }
}

/// The first `k` rows of a rooftop box of half-size `half` around
/// `(cx, cz)`, rows running in `x` from `cx - half`; only interior cells
/// get a column.
pub open spec fn box_writes(cells: Seq<(i32, i32)>, cx: int, cz: int, y: int, half: int, block: Block, k: int) -> Seq<BlockWrite>
    decreases k,
{
    if k <= 0 {
        Seq::empty()
    } else {
        box_writes(cells, cx, cz, y, half, block, k - 1) + box_row(cells, cx - half + k - 1, cz, y, half, block, 2 * half + 1)
    }
}

/// A stair block on the roof line of every exposed cell among the first
/// `n`, in footprint order.
pub open spec fn hip_writes(b: PlannedBuilding, n: int, stair: Block) -> Seq<BlockWrite>
    decreases n,
{
    if n <= 0 {
        Seq::empty()
    } else {
        let c = b.spec_cells()[n - 1];
        hip_writes(b, n - 1, stair) + if exposed_dirs(b.spec_cells(), c.0 as int, c.1 as int).len() > 0 {
            seq![write_of(stair, c.0 as int, b.spec_ground_y() + b.spec_total_height(), c.1 as int)]
        } else {
            Seq::empty()
        }
    }
}

/// A commercial roof's three small vents, each only over an interior cell.
pub open spec fn vent_writes(cells: Seq<(i32, i32)>, cx: int, cz: int, y: int) -> Seq<BlockWrite> {
    (if interior(cells, cx - 1, cz - 1) { seq![write_of(Block::LightGrayConcrete, cx - 1, y, cz - 1)] } else { Seq::empty() })
        + (if interior(cells, cx + 1, cz - 1) { seq![write_of(Block::LightGrayConcrete, cx + 1, y, cz - 1)] } else { Seq::empty() })
        + (if interior(cells, cx - 1, cz + 1) { seq![write_of(Block::LightGrayConcrete, cx - 1, y, cz + 1)] } else { Seq::empty() })
}

/// The rooftop structures, placed once per building one block above the
/// parapet ring: a hip roof of stairs for old houses and industrial sheds,
/// a rooftop room plus water tank for e2 houses, a water tank for other
/// houses, a stair tower for apartments and offices, vents for shops, and
/// nothing extra for other uses.
pub open spec fn roof_writes(b: PlannedBuilding) -> Seq<BlockWrite> {
    let cells = b.spec_cells();
    let (cx, cz) = centroid(cells);
    let y = b.spec_ground_y() + b.spec_total_height() + 1;
    match b.spec_group() {
        UseGroup::R => if b.spec_era() == Era::E1 {
            hip_writes(b, cells.len() as int, Block::StoneBrickStairs)
        } else if b.spec_era() == Era::E2 {
            box_writes(cells, cx, cz, y, 1, Block::Brick, 3) + tank_writes(cx + 3, cz, y)
        } else {
            tank_writes(cx, cz, y)
        },
        UseGroup::A => box_writes(cells, cx, cz, y, 1, Block::GrayConcrete, 3),
        UseGroup::O => box_writes(cells, cx, cz, y, 1, Block::GrayConcrete, 3),
        UseGroup::C => vent_writes(cells, cx, cz, y),
        UseGroup::I => hip_writes(b, cells.len() as int, Block::StoneBrickStairs),
        UseGroup::X => Seq::empty(),
    }
}

/// `v` modulo `p >= 1`, non-negative.
fn floor_mod(v: i32, p: i32) -> (r: i32)
    requires
        p >= 1,
    ensures
        r == v as int % p as int,
        0 <= r < p,
{
    if v >= 0 {
        let r = ((v as u32) % (p as u32)) as i32;
        r
    } else {
        let w: u32 = (-(v as i64)) as u32;
        let q = w / (p as u32);
        let r = w % (p as u32);
        proof {
            vstd::arithmetic::div_mod::lemma_fundamental_div_mod(w as int, p as int);
        }
        if r == 0 {
            proof {
                assert(v == p * (-(q as int)) + 0) by (nonlinear_arith)
                    requires
                        w == -(v as int),
                        w == p * q + r,
                        r == 0,
                ;
                vstd::arithmetic::div_mod::lemma_fundamental_div_mod_converse(v as int, p as int, -(q as int), 0);
            }
            0
        } else {
            assert(v == p * (-(q as int) - 1) + (p - r)) by (nonlinear_arith)
                requires
                    w == -(v as int),
                    w == p * q + r,
            ;
            proof {
                vstd::arithmetic::div_mod::lemma_fundamental_div_mod_converse(
                    v as int,
                    p as int,
                    -(q as int) - 1,
                    (p - r) as int,
                );
            }
            p - (r as i32)
        }
    }
}

fn wall_block_at(
    b: &PlannedBuilding,
    pal: Palette,
    sign: Block,
    is_entrance: bool,
    faces_front: bool,
    in_window: bool,
    y_off: i32,
) -> (blk: Block)
    requires
        pal == palette_of(b.spec_group(), b.spec_era()),
        sign == signage_block(id_hash(*b), b.spec_era()),
        0 <= y_off < b.spec_total_height(),
        b.spec_total_height() <= 1_000_000_000,
    ensures
        blk == wall_block(*b, is_entrance, faces_front, in_window, y_off as int),
{
    reveal(wall_block);
    let group = b.group();
    let (first_h, typical_h) = floor_heights(group);
    let base_band: i32 = if pal.base.is_some() {
        1
    } else {
        0
    };
    let th = b.total_height();
    let is_ground = y_off < first_h;
    let roofline = y_off == th - 1;
    if is_ground && y_off < base_band {
        match pal.base {
            Some(m) => m,
            None => pal.wall,
        }
    } else if is_entrance && is_ground && y_off >= base_band && y_off < base_band + 2 {
        Block::Air
    } else if is_ground {
        if group == UseGroup::C && faces_front && y_off == first_h - 1 {
            sign
        } else if group == UseGroup::C || group == UseGroup::O {
            Block::GlassPane
        } else {
            pal.wall
        }
    } else if in_window && !roofline {
        glass_for(group, b.era())
    } else {
        match pal.wall_band {
            Some(m) => if should_band(group, y_off, first_h, typical_h) {
                m
            } else {
                pal.wall
            },
            None => pal.wall,
        }
    }
}

fn wall_column(
    editor: &mut WorldEditor,
    b: &PlannedBuilding,
    pal: Palette,
    sign: Block,
    x: i32,
    z: i32,
    is_entrance: bool,
    faces_front: bool,
    in_window: bool,
)
    requires
        b.inv(),
        pal == palette_of(b.spec_group(), b.spec_era()),
        sign == signage_block(id_hash(*b), b.spec_era()),
    ensures
        final(editor)@ == old(editor)@ + wall_rows(
            *b,
            is_entrance,
            faces_front,
            in_window,
            x as int,
            z as int,
            b.spec_total_height() as int,
        ),
{
    let th = b.total_height();
    let y0 = b.ground_y();
    assert(super::height_ok(y0 as int));
    let ghost start = editor@;
    let mut y_off: i32 = 0;
    while y_off < th
        invariant
            0 <= y_off <= th,
            th == b.spec_total_height(),
            th <= 1_000_000_000,
            y0 == b.spec_ground_y(),
            -1_000_000_000 <= y0 <= 1_000_000_000,
            pal == palette_of(b.spec_group(), b.spec_era()),
            sign == signage_block(id_hash(*b), b.spec_era()),
            editor@ == start + wall_rows(*b, is_entrance, faces_front, in_window, x as int, z as int, y_off as int),
        decreases th - y_off,
    {
        let block = wall_block_at(b, pal, sign, is_entrance, faces_front, in_window, y_off);
        editor.set_block_absolute(block, x, y0 + y_off, z);
        assert(editor@ =~= start + wall_rows(*b, is_entrance, faces_front, in_window, x as int, z as int, y_off + 1));
        y_off += 1;
    }
}

proof fn lemma_sum_bounds(cells: Seq<(i32, i32)>, n: int)
    requires
        0 <= n <= cells.len(),
        forall|i: int| 0 <= i < cells.len() ==> cell_ok(#[trigger] cells[i]),
    ensures
        -1_000_000_000 * n <= sum_x(cells, n) <= 1_000_000_000 * n,
        -1_000_000_000 * n <= sum_z(cells, n) <= 1_000_000_000 * n,
    decreases n,
{
    if n > 0 {
        lemma_sum_bounds(cells, n - 1);
        assert(cell_ok(cells[n - 1]));
    }
}

proof fn lemma_round_div_bounds(s: int, n: int)
    requires
        n >= 1,
        -1_000_000_000 * n <= s <= 1_000_000_000 * n,
    ensures
        -1_000_000_000 <= round_div(s, n) <= 1_000_000_000,
{
    let a = if s >= 0 { 2 * s + n } else { -2 * s + n };
    vstd::arithmetic::div_mod::lemma_fundamental_div_mod(a, 2 * n);
    let q = a / (2 * n);
    let r = a % (2 * n);
    assert(0 <= q <= 1_000_000_000) by (nonlinear_arith)
        requires
            a == 2 * n * q + r,
            0 <= r < 2 * n,
            0 <= a <= 2_000_000_000 * n + n,
            n >= 1,
    ;
}

fn round_div_exec(s: i128, n: i128) -> (r: i32)
    requires
        n >= 1,
        n <= 0x1_0000_0000_0000_0000,
        -1_000_000_000 * n <= s <= 1_000_000_000 * n,
    ensures
        r == round_div(s as int, n as int),
{
    proof {
        lemma_round_div_bounds(s as int, n as int);
    }
    if s >= 0 {
        let q = ((2 * s + n) as u128) / ((2 * n) as u128);
        q as i32
    } else {
        let q = ((-2 * s + n) as u128) / ((2 * n) as u128);
        -(q as i32)
    }
}

/// The footprint centroid of a non-empty footprint.
fn centroid_of(cells: &[(i32, i32)]) -> (r: (i32, i32))
    requires
        cells@.len() >= 1,
        forall|i: int| 0 <= i < cells@.len() ==> cell_ok(#[trigger] cells@[i]),
    ensures
        r.0 == centroid(cells@).0,
        r.1 == centroid(cells@).1,
        -1_000_000_000 <= r.0 <= 1_000_000_000,
        -1_000_000_000 <= r.1 <= 1_000_000_000,
{
    let mut sx: i128 = 0;
    let mut sz: i128 = 0;
    let mut i: usize = 0;
    while i < cells.len()
        invariant
            i <= cells@.len(),
            forall|k: int| 0 <= k < cells@.len() ==> cell_ok(#[trigger] cells@[k]),
            sx == sum_x(cells@, i as int),
            sz == sum_z(cells@, i as int),
            -1_000_000_000 * i <= sx <= 1_000_000_000 * i,
            -1_000_000_000 * i <= sz <= 1_000_000_000 * i,
        decreases cells.len() - i,
    {
        assert(cell_ok(cells@[i as int]));
        sx = sx + cells[i].0 as i128;
        sz = sz + cells[i].1 as i128;
        i += 1;
    }
    let n = cells.len() as i128;
    proof {
        lemma_round_div_bounds(sx as int, n as int);
        lemma_round_div_bounds(sz as int, n as int);
    }
    (round_div_exec(sx, n), round_div_exec(sz, n))
}

fn is_interior(cells: &[(i32, i32)], x: i32, z: i32) -> (r: bool)
    requires
        inner_coord(x as int),
        inner_coord(z as int),
    ensures
        r == interior(cells@, x as int, z as int),
{
    contains_cell(cells, x, z) && exposed_directions(cells, x, z).len() == 0
}

fn place_water_tank(editor: &mut WorldEditor, cx: i32, cz: i32, y: i32)
    requires
        -1_000_000_010 <= cx <= 1_000_000_010,
        -1_000_000_010 <= cz <= 1_000_000_010,
        -2_100_000_000 <= y <= 2_100_000_000,
    ensures
        final(editor)@ == old(editor)@ + tank_writes(cx as int, cz as int, y as int),
{
    let ghost start = editor@;
    editor.set_block_absolute(Block::LightBlueConcrete, cx, y, cz);
    editor.set_block_absolute(Block::LightBlueConcrete, cx, y + 1, cz);
    editor.set_block_absolute(Block::LightBlueConcrete, cx, y, cz + 1);
    editor.set_block_absolute(Block::LightBlueConcrete, cx, y + 1, cz + 1);
    editor.set_block_absolute(Block::LightBlueConcrete, cx + 1, y, cz);
    editor.set_block_absolute(Block::LightBlueConcrete, cx + 1, y + 1, cz);
    editor.set_block_absolute(Block::LightBlueConcrete, cx + 1, y, cz + 1);
    editor.set_block_absolute(Block::LightBlueConcrete, cx + 1, y + 1, cz + 1);
    assert(editor@ =~= start + tank_writes(cx as int, cz as int, y as int));
}

fn place_box(editor: &mut WorldEditor, cells: &[(i32, i32)], cx: i32, cz: i32, y: i32, size: i32, block: Block)
    requires
        -1_000_000_000 <= cx <= 1_000_000_000,
        -1_000_000_000 <= cz <= 1_000_000_000,
        -2_100_000_000 <= y <= 2_100_000_000,
        0 <= size <= 100,
    ensures
        final(editor)@ == old(editor)@ + box_writes(
            cells@,
            cx as int,
            cz as int,
            y as int,
            (size / 2) as int,
            block,
            2 * (size / 2) + 1,
        ),
{
    let half = size / 2;
    let ghost start = editor@;
    let mut dx: i32 = -half;
    while dx <= half
        invariant
            0 <= half <= 50,
            -half <= dx <= half + 1,
            -1_000_000_000 <= cx <= 1_000_000_000,
            -1_000_000_000 <= cz <= 1_000_000_000,
            -2_100_000_000 <= y <= 2_100_000_000,
            editor@ == start + box_writes(cells@, cx as int, cz as int, y as int, half as int, block, (dx + half) as int),
        decreases half + 1 - dx,
    {
        let ghost row_start = editor@;
        let mut dz: i32 = -half;
        while dz <= half
            invariant
                0 <= half <= 50,
                -half <= dx <= half,
                -half <= dz <= half + 1,
                -1_000_000_000 <= cx <= 1_000_000_000,
                -1_000_000_000 <= cz <= 1_000_000_000,
                -2_100_000_000 <= y <= 2_100_000_000,
                editor@ == row_start + box_row(cells@, cx + dx, cz as int, y as int, half as int, block, (dz + half) as int),
            decreases half + 1 - dz,
        {
            let ghost col_start = editor@;
            if is_interior(cells, cx + dx, cz + dz) {
                editor.set_block_absolute(block, cx + dx, y, cz + dz);
                editor.set_block_absolute(block, cx + dx, y + 1, cz + dz);
                editor.set_block_absolute(block, cx + dx, y + 2, cz + dz);
            }
            assert(editor@ =~= col_start + box_column(cells@, cx + dx, cz + dz, y as int, block));
            assert(editor@ =~= row_start + box_row(cells@, cx + dx, cz as int, y as int, half as int, block, (dz + half + 1) as int));
            dz += 1;
        }
        assert(editor@ =~= start + box_writes(cells@, cx as int, cz as int, y as int, half as int, block, (dx + half + 1) as int));
        dx += 1;
    }
}

fn place_hip_roof(editor: &mut WorldEditor, b: &PlannedBuilding, stair: Block)
    requires
        b.inv(),
    ensures
        final(editor)@ == old(editor)@ + hip_writes(*b, b.spec_cells().len() as int, stair),
{
    let cells = b.cells();
    let roof_y = b.ground_y() + b.total_height();
    let ghost start = editor@;
    let mut i: usize = 0;
    while i < cells.len()
        invariant
            i <= cells@.len(),
            cells@ == b.spec_cells(),
            b.inv(),
            roof_y == b.spec_ground_y() + b.spec_total_height(),
            editor@ == start + hip_writes(*b, i as int, stair),
        decreases cells.len() - i,
    {
        let (x, z) = cells[i];
        assert(cell_ok(cells@[i as int]));
        let ex = exposed_directions(cells, x, z);
        if ex.len() > 0 {
            editor.set_block_absolute(stair, x, roof_y, z);
        }
        assert(editor@ =~= start + hip_writes(*b, i + 1, stair));
        i += 1;
    }
}

fn place_vents(editor: &mut WorldEditor, cells: &[(i32, i32)], cx: i32, cz: i32, y: i32)
    requires
        -1_000_000_000 <= cx <= 1_000_000_000,
        -1_000_000_000 <= cz <= 1_000_000_000,
    ensures
        final(editor)@ == old(editor)@ + vent_writes(cells@, cx as int, cz as int, y as int),
{
    let ghost s0 = editor@;
    if is_interior(cells, cx - 1, cz - 1) {
        editor.set_block_absolute(Block::LightGrayConcrete, cx - 1, y, cz - 1);
    }
    let ghost w0 = if interior(cells@, cx - 1, cz - 1) {
        seq![write_of(Block::LightGrayConcrete, cx - 1, y as int, cz - 1)]
    } else {
        Seq::empty()
    };
    assert(editor@ =~= s0 + w0);
    let ghost s1 = editor@;
    if is_interior(cells, cx + 1, cz - 1) {
        editor.set_block_absolute(Block::LightGrayConcrete, cx + 1, y, cz - 1);
    }
    let ghost w1 = if interior(cells@, cx + 1, cz - 1) {
        seq![write_of(Block::LightGrayConcrete, cx + 1, y as int, cz - 1)]
    } else {
        Seq::empty()
    };
    assert(editor@ =~= s1 + w1);
    let ghost s2 = editor@;
    if is_interior(cells, cx - 1, cz + 1) {
        editor.set_block_absolute(Block::LightGrayConcrete, cx - 1, y, cz + 1);
    }
    let ghost w2 = if interior(cells@, cx - 1, cz + 1) {
        seq![write_of(Block::LightGrayConcrete, cx - 1, y as int, cz + 1)]
    } else {
        Seq::empty()
    };
    assert(editor@ =~= s2 + w2);
    assert(vent_writes(cells@, cx as int, cz as int, y as int) == w0 + w1 + w2);
    assert(editor@ =~= s0 + (w0 + w1 + w2));
}

/// Places the rooftop structures of `b` (see [`roof_writes`]).
fn roof_extras(editor: &mut WorldEditor, b: &PlannedBuilding)
    requires
        b.inv(),
        b.spec_cells().len() >= 1,
    ensures
        final(editor)@ == old(editor)@ + roof_writes(*b),
{
    let cells = b.cells();
    let (cx, cz) = centroid_of(cells);
    let y = b.ground_y() + b.total_height() + 1;
    let era = b.era();
    match b.group() {
        UseGroup::R => {
            if era == Era::E1 {
                place_hip_roof(editor, b, Block::StoneBrickStairs);
            } else if era == Era::E2 {
                let ghost start = editor@;
                place_box(editor, cells, cx, cz, y, 2, Block::Brick);
                place_water_tank(editor, cx + 3, cz, y);
                assert(editor@ =~= start + roof_writes(*b));
            } else {
                place_water_tank(editor, cx, cz, y);
            }
        },
        UseGroup::A => {
            place_box(editor, cells, cx, cz, y, 3, Block::GrayConcrete);
        },
        UseGroup::O => {
            place_box(editor, cells, cx, cz, y, 2, Block::GrayConcrete);
        },
        UseGroup::C => {
            place_vents(editor, cells, cx, cz, y);
        },
        UseGroup::I => {
            place_hip_roof(editor, b, Block::StoneBrickStairs);
        },
        UseGroup::X => {
            assert(roof_writes(*b) =~= Seq::<BlockWrite>::empty());
            assert(editor@ =~= old(editor)@ + roof_writes(*b));
        },
    }
}

fn place_cell(
    editor: &mut WorldEditor,
    b: &PlannedBuilding,
    cells: &[(i32, i32)],
    pal: Palette,
    phase: i32,
    sign: Block,
    entrance: Option<(i32, i32)>,
    i: usize,
)
    requires
        b.inv(),
        i < cells@.len(),
        cells@ == b.spec_cells(),
        pal == palette_of(b.spec_group(), b.spec_era()),
        phase == (id_hash(*b) % 97) as int,
        sign == signage_block(id_hash(*b), b.spec_era()),
        entrance == entrance_cell(*b),
    ensures
        final(editor)@ == old(editor)@ + cell_writes(*b, cells@[i as int].0 as int, cells@[i as int].1 as int),
{
    let group = b.group();
    let fp = b.front_point();
    let th = b.total_height();
    let y0 = b.ground_y();
    let detail = b.detail_level();
    assert(super::height_ok(y0 as int));
    let (x, z) = cells[i];
    assert(cell_ok(cells@[i as int]));
    let ghost cell_start = old(editor)@;
    let ex = exposed_directions(cells, x, z);
    if ex.len() == 0 {
        editor.set_block_absolute(roof_material(group), x, y0 + th, z);
    } else if detail == DetailLevel::L3 {
        let mut k: i32 = 0;
        while k < th
            invariant
                0 <= k <= th,
                th == b.spec_total_height(),
                th <= 1_000_000_000,
                y0 == b.spec_ground_y(),
                -1_000_000_000 <= y0 <= 1_000_000_000,
                editor@ == cell_start + Seq::new(k as nat, |j: int| write_of(pal.wall, x as int, y0 + j, z as int)),
            decreases th - k,
        {
            editor.set_block_absolute(pal.wall, x, y0 + k, z);
            assert(editor@ =~= cell_start + Seq::new((k + 1) as nat, |j: int| write_of(pal.wall, x as int, y0 + j, z as int)));
            k += 1;
        }
        editor.set_block_absolute(pal.parapet, x, y0 + th, z);
    } else {
        let is_entrance = match entrance {
            Some(e) => e.0 == x && e.1 == z,
            None => false,
        };
        proof {
            lemma_exposed_units(cells@, x as int, z as int);
        }
        let dir = ex[0];
        let axis = if dir.0 != 0 {
            z
        } else {
            x
        };
        let period = if pal.window_run + pal.wall_run >= 1 {
            pal.window_run + pal.wall_run
        } else {
            1
        };
        let in_window = floor_mod(axis + phase, period) < pal.window_run;
        let faces_front = match fp {
            Some(p) => {
                let ddx = (p.0 as i64) - (x as i64);
                let ddz = (p.1 as i64) - (z as i64);
                let ux = dir.0 as i64;
                let uz = dir.1 as i64;
                assert(-2_000_000_000 <= ux * ddx <= 2_000_000_000) by (nonlinear_arith)
                    requires
                        -1 <= ux <= 1,
                        -2_000_000_000 <= ddx <= 2_000_000_000,
                ;
                assert(-2_000_000_000 <= uz * ddz <= 2_000_000_000) by (nonlinear_arith)
                    requires
                        -1 <= uz <= 1,
                        -2_000_000_000 <= ddz <= 2_000_000_000,
                ;
                ux * ddx + uz * ddz > 0
            },
            None => false,
        };
        wall_column(editor, b, pal, sign, x, z, is_entrance, faces_front, in_window);
        if pal.has_eave {
            editor.set_block_absolute(pal.wall, x + dir.0, y0 + th - 1, z + dir.1);
        }
        editor.set_block_absolute(pal.parapet, x, y0 + th, z);
    }
    assert(editor@ =~= cell_start + cell_writes(*b, x as int, z as int));
}

/// Builds the facade of `b`: every footprint cell's column in footprint
/// order (see [`cell_writes`]), then, at detail L2, the rooftop
/// structures.  An empty footprint writes nothing.
pub fn build(editor: &mut WorldEditor, b: &PlannedBuilding)
    ensures
        final(editor)@ == old(editor)@ + facade_writes(*b),
{
    proof {
        use_type_invariant(b);
    }
    let cells = b.cells();
    if cells.len() == 0 {
        assert(old(editor)@ + facade_writes(*b) =~= old(editor)@);
        return;
    }
    let group = b.group();
    let era = b.era();
    let pal = palette(group, era);
    let h = super::building_hash(b.id());
    let phase = (h % 97) as i32;
    let sign = signage_color(b.id(), era);
    let fp = b.front_point();
    let entrance: Option<(i32, i32)> = match fp {
        Some(p) => Some(cells[nearest_cell(cells, p)]),
        None => None,
    };
    assert(entrance == entrance_cell(*b));
    let th = b.total_height();
    let y0 = b.ground_y();
    let detail = b.detail_level();
    let ghost start = editor@;
    let mut i: usize = 0;
    while i < cells.len()
        invariant
            i <= cells@.len(),
            cells@ == b.spec_cells(),
            b.inv(),
            group == b.spec_group(),
            era == b.spec_era(),
            pal == palette_of(group, era),
            phase == (id_hash(*b) % 97) as int,
            sign == signage_block(id_hash(*b), era),
            fp == b.spec_front_point(),
            entrance == entrance_cell(*b),
            th == b.spec_total_height(),
            y0 == b.spec_ground_y(),
            detail == b.spec_detail_level(),
            editor@ == start + cells_writes(*b, i as int),
        decreases cells.len() - i,
    {
        let ghost cell_start = editor@;
        assert(cell_ok(cells@[i as int]));
        place_cell(editor, b, cells, pal, phase, sign, entrance, i);
        assert(editor@ =~= cell_start + cell_writes(*b, cells@[i as int].0 as int, cells@[i as int].1 as int));
        assert(editor@ =~= start + cells_writes(*b, i + 1));
        i += 1;
    }
    if detail == DetailLevel::L2 {
        roof_extras(editor, b);
    }
    assert(editor@ =~= start + facade_writes(*b));
}

} // verus!
