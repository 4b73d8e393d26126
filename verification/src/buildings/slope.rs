//! Site grading under a building before any wall goes up: each footprint
//! column is cut down to, or filled up to, the building's floor (the front
//! road's height).  A fill deeper than two blocks becomes a retaining wall
//! of at most one storey, capped with a slab; a cut deeper than two blocks
//! clears three blocks of headroom above the old grade and marks the cut
//! edge in stone bricks.

use super::{fnv1a, PlannedBuilding};
use crate::text::{dec_padded, dec_padded_chars, push_char, push_chars};
use crate::world::{write_of, Block, BlockWrite, WorldEditor};
use vstd::prelude::*;
use vstd::utf8::encode_utf8;

verus! {

broadcast use vstd::string::group_string_axioms;

/// The tallest single retaining tier, in blocks.
pub const MAX_SINGLE_TIER_BLOCKS: i32 = 6;

/// The text `"{x}:{y}:{z}"` that seeds a column's material choice.
pub open spec fn coord_key(x: int, y: int, z: int) -> Seq<char> {
    dec_padded(x, 0) + seq![':'] + dec_padded(y, 0) + seq![':'] + dec_padded(z, 0)
}

/// Retaining-wall material at `(x, y, z)`: mossy cobblestone for 15 of
/// every 100 hash values of the coordinate text, cobblestone otherwise.
pub open spec fn retaining_block(x: int, z: int, y: int) -> Block {
    if fnv1a(encode_utf8(coord_key(x, y, z))) % 100 < 15 {
        Block::MossyCobblestone
    } else {
        Block::Cobblestone
    }
}

/// The retaining-wall material of one block, fixed by its coordinates.
pub fn retaining_material(x: i32, z: i32, y: i32) -> (b: Block)
    ensures
        b == retaining_block(x as int, z as int, y as int),
{
    let mut key = String::new();
    push_chars(&mut key, dec_padded_chars(x as i64, 0).as_slice());
    push_char(&mut key, ':');
    push_chars(&mut key, dec_padded_chars(y as i64, 0).as_slice());
    push_char(&mut key, ':');
    push_chars(&mut key, dec_padded_chars(z as i64, 0).as_slice());
    assert(key@ =~= coord_key(x as int, y as int, z as int));
    let h = super::building_hash(key.as_str());
    if h % 100 < 15 {
        Block::MossyCobblestone
    } else {
        Block::Cobblestone
    }
}

/// Air written up the column `(x, z)` for `lo <= y < hi`.
pub open spec fn air_run(x: int, z: int, lo: int, hi: int) -> Seq<BlockWrite> {
    Seq::new(if hi > lo { (hi - lo) as nat } else { 0 }, |i: int| write_of(Block::Air, x, lo + i, z))
}

/// Retaining material written up the column `(x, z)` for `lo <= y < hi`.
pub open spec fn fill_run(x: int, z: int, lo: int, hi: int) -> Seq<BlockWrite> {
    Seq::new(
        if hi > lo { (hi - lo) as nat } else { 0 },
        |i: int| write_of(retaining_block(x, z, lo + i), x, lo + i, z),
    )
}

/// The grading of one column with terrain surface `t` under a floor at `f`.
pub open spec fn grade_cell(x: int, z: int, t: int, f: int) -> Seq<BlockWrite> {
    let diff = t - f;
    if diff >= 3 {
        air_run(x, z, f + 1, t + 4) + seq![write_of(Block::StoneBricks, x, f, z)]
    } else if diff > 0 {
        air_run(x, z, f + 1, t + 1)
    } else if diff <= -3 {
        let lo = if t > f - MAX_SINGLE_TIER_BLOCKS - 1 { t } else { f - MAX_SINGLE_TIER_BLOCKS - 1 };
        fill_run(x, z, lo, f) + seq![write_of(Block::StoneBrickSlab, x, f - 1, z)]
    } else if diff < 0 {
        fill_run(x, z, t, f)
    } else {
        Seq::empty()
    }
}

/// The grading of the first `n` footprint cells, in footprint order.
pub open spec fn grade_writes(cells: Seq<(i32, i32)>, terrain: Seq<i32>, f: int, n: int) -> Seq<BlockWrite>
    decreases n,
{
    if n <= 0 {
        Seq::empty()
    } else {
        grade_writes(cells, terrain, f, n - 1) + grade_cell(
            cells[n - 1].0 as int,
            cells[n - 1].1 as int,
            terrain[n - 1] as int,
            f,
        )
    }
}

/// Everything grading the site of `b` writes.
pub open spec fn site_writes(b: PlannedBuilding) -> Seq<BlockWrite> {
    grade_writes(b.spec_cells(), b.spec_terrain_y(), b.spec_ground_y() as int, b.spec_cells().len() as int)
}

/// The writes of footprint column `k` appear in the grading of every
/// prefix that takes it in.
proof fn lemma_grading_has_cell(cells: Seq<(i32, i32)>, terrain: Seq<i32>, f: int, n: int, k: int, j: int)
    requires
        0 <= k < n <= cells.len(),
        0 <= j < grade_cell(cells[k].0 as int, cells[k].1 as int, terrain[k] as int, f).len(),
    ensures
        grade_writes(cells, terrain, f, n).contains(
            grade_cell(cells[k].0 as int, cells[k].1 as int, terrain[k] as int, f)[j],
        ),
    decreases n,
{
    let prev = grade_writes(cells, terrain, f, n - 1);
    let last = grade_cell(cells[n - 1].0 as int, cells[n - 1].1 as int, terrain[n - 1] as int, f);
    assert(grade_writes(cells, terrain, f, n) == prev + last);
    if k < n - 1 {
        lemma_grading_has_cell(cells, terrain, f, n - 1, k, j);
        let w = grade_cell(cells[k].0 as int, cells[k].1 as int, terrain[k] as int, f)[j];
        let i = choose|i: int| 0 <= i < prev.len() && prev[i] == w;
        assert((prev + last)[i] == prev[i]);
    } else {
        assert((prev + last)[prev.len() + j] == last[j]);
    }
}

/// Grading cuts every column down to the floor: where the terrain of a
/// footprint cell stands above the floor, air is written at every height
/// above the floor up to the old terrain surface, so no ground is left
/// inside the ground storey.
pub proof fn lemma_cut_clears_to_floor(b: PlannedBuilding, k: int, y: int)
    requires
        b.inv(),
        0 <= k < b.spec_cells().len(),
        b.spec_ground_y() < y <= b.spec_terrain_y()[k],
    ensures
        site_writes(b).contains(write_of(Block::Air, b.spec_cells()[k].0 as int, y, b.spec_cells()[k].1 as int)),
{
    let cells = b.spec_cells();
    let terrain = b.spec_terrain_y();
    let f = b.spec_ground_y() as int;
    let (x, z) = (cells[k].0 as int, cells[k].1 as int);
    let t = terrain[k] as int;
    let g = grade_cell(x, z, t, f);
    let j = y - (f + 1);
    if t - f >= 3 {
        assert(g == air_run(x, z, f + 1, t + 4) + seq![write_of(Block::StoneBricks, x, f, z)]);
        assert(g[j] == air_run(x, z, f + 1, t + 4)[j]);
    } else {
        assert(g == air_run(x, z, f + 1, t + 1));
    }
    assert(g[j] == write_of(Block::Air, x, y, z));
    lemma_grading_has_cell(cells, terrain, f, cells.len() as int, k, j);
}

/// A cut deeper than two blocks clears three blocks of headroom above the
/// old terrain surface and marks the cut edge with stone bricks at the
/// floor height; a fill deeper than two blocks is capped with a stone-brick
/// slab just under the floor.
pub proof fn lemma_deep_grading_marks(b: PlannedBuilding, k: int, y: int)
    requires
        b.inv(),
        0 <= k < b.spec_cells().len(),
    ensures
        ({
            let (x, z) = (b.spec_cells()[k].0 as int, b.spec_cells()[k].1 as int);
            let (t, f) = (b.spec_terrain_y()[k] as int, b.spec_ground_y() as int);
            &&& t - f >= 3 && f < y <= t + 3 ==> site_writes(b).contains(write_of(Block::Air, x, y, z))
            &&& t - f >= 3 ==> site_writes(b).contains(write_of(Block::StoneBricks, x, f, z))
            &&& t - f <= -3 ==> site_writes(b).contains(write_of(Block::StoneBrickSlab, x, f - 1, z))
        }),
{
    let cells = b.spec_cells();
    let terrain = b.spec_terrain_y();
    let f = b.spec_ground_y() as int;
    let (x, z) = (cells[k].0 as int, cells[k].1 as int);
    let t = terrain[k] as int;
    let g = grade_cell(x, z, t, f);
    assert(super::height_ok(t));
    if t - f >= 3 {
        let a = air_run(x, z, f + 1, t + 4);
        assert(g == a + seq![write_of(Block::StoneBricks, x, f, z)]);
        assert(g[a.len() as int] == write_of(Block::StoneBricks, x, f, z));
        lemma_grading_has_cell(cells, terrain, f, cells.len() as int, k, a.len() as int);
        if f < y <= t + 3 {
            let j = y - (f + 1);
            assert(g[j] == a[j]);
            lemma_grading_has_cell(cells, terrain, f, cells.len() as int, k, j);
        }
    } else if t - f <= -3 {
        let lo = if t > f - MAX_SINGLE_TIER_BLOCKS - 1 { t } else { f - MAX_SINGLE_TIER_BLOCKS - 1 };
        let fr = fill_run(x, z, lo, f);
        assert(g == fr + seq![write_of(Block::StoneBrickSlab, x, f - 1, z)]);
        assert(g[fr.len() as int] == write_of(Block::StoneBrickSlab, x, f - 1, z));
        lemma_grading_has_cell(cells, terrain, f, cells.len() as int, k, fr.len() as int);
    }
}

/// Grading fills every column up to the floor: where the terrain of a
/// footprint cell lies below the floor, each height from the old surface up
/// to just below the floor, at most one retaining storey deep, gets a solid
/// retaining block (cobblestone or mossy cobblestone).
pub proof fn lemma_fill_raises_to_floor(b: PlannedBuilding, k: int, y: int)
    requires
        b.inv(),
        0 <= k < b.spec_cells().len(),
        b.spec_terrain_y()[k] <= y < b.spec_ground_y(),
        b.spec_ground_y() - MAX_SINGLE_TIER_BLOCKS - 1 <= y,
    ensures
        site_writes(b).contains(
            write_of(
                retaining_block(b.spec_cells()[k].0 as int, b.spec_cells()[k].1 as int, y),
                b.spec_cells()[k].0 as int,
                y,
                b.spec_cells()[k].1 as int,
            ),
        ),
        retaining_block(b.spec_cells()[k].0 as int, b.spec_cells()[k].1 as int, y) != Block::Air,
{
    let cells = b.spec_cells();
    let terrain = b.spec_terrain_y();
    let f = b.spec_ground_y() as int;
    let (x, z) = (cells[k].0 as int, cells[k].1 as int);
    let t = terrain[k] as int;
    let g = grade_cell(x, z, t, f);
    if t - f <= -3 {
        let lo = if t > f - MAX_SINGLE_TIER_BLOCKS - 1 { t } else { f - MAX_SINGLE_TIER_BLOCKS - 1 };
        let j = y - lo;
        assert(g == fill_run(x, z, lo, f) + seq![write_of(Block::StoneBrickSlab, x, f - 1, z)]);
        assert(g[j] == fill_run(x, z, lo, f)[j]);
        assert(g[j] == write_of(retaining_block(x, z, y), x, y, z));
        lemma_grading_has_cell(cells, terrain, f, cells.len() as int, k, j);
    } else {
        let j = y - t;
        assert(g == fill_run(x, z, t, f));
        assert(g[j] == write_of(retaining_block(x, z, y), x, y, z));
        lemma_grading_has_cell(cells, terrain, f, cells.len() as int, k, j);
    }
}

/// Air written by grading the first `n` columns lies above the floor.
proof fn lemma_grading_air_above(cells: Seq<(i32, i32)>, terrain: Seq<i32>, f: int, n: int)
    requires
        0 <= n <= cells.len(),
        n <= terrain.len(),
        -1_000_000_000 <= f <= 1_000_000_000,
        forall|k: int| 0 <= k < terrain.len() ==> -1_000_000_000 <= #[trigger] terrain[k] <= 1_000_000_000,
    ensures
        forall|i: int|
            0 <= i < grade_writes(cells, terrain, f, n).len() && (#[trigger] grade_writes(cells, terrain, f, n)[i]).block
                == Block::Air ==> grade_writes(cells, terrain, f, n)[i].y > f,
    decreases n,
{
    if n > 0 {
        lemma_grading_air_above(cells, terrain, f, n - 1);
        let prev = grade_writes(cells, terrain, f, n - 1);
        let x = cells[n - 1].0 as int;
        let z = cells[n - 1].1 as int;
        let t = terrain[n - 1] as int;
        let last = grade_cell(x, z, t, f);
        assert(grade_writes(cells, terrain, f, n) == prev + last);
        assert forall|i: int| 0 <= i < (prev + last).len() && (#[trigger] (prev + last)[i]).block == Block::Air implies (
        prev + last)[i].y > f by {
            if i < prev.len() {
                assert((prev + last)[i] == prev[i]);
            } else {
                let j = i - prev.len();
                assert((prev + last)[i] == last[j]);
                if t - f >= 3 {
                    let a = air_run(x, z, f + 1, t + 4);
                    if j < a.len() {
                        assert(last[j] == a[j]);
                    } else {
                        assert(last[j] == write_of(Block::StoneBricks, x, f, z));
                    }
                } else if t - f <= -3 {
                    let lo = if t > f - MAX_SINGLE_TIER_BLOCKS - 1 { t } else { f - MAX_SINGLE_TIER_BLOCKS - 1 };
                    let fr = fill_run(x, z, lo, f);
                    if j < fr.len() {
                        assert(last[j] == fr[j]);
                    } else {
                        assert(last[j] == write_of(Block::StoneBrickSlab, x, f - 1, z));
                    }
                }
            }
        }
    }
}

/// Grading never digs below the floor: every air block it writes lies
/// above the building's floor height, so the floor itself and the ground
/// under it stay solid.
pub proof fn lemma_grading_keeps_the_floor(b: PlannedBuilding)
    requires
        b.inv(),
    ensures
        forall|i: int|
            0 <= i < site_writes(b).len() && (#[trigger] site_writes(b)[i]).block == Block::Air ==> site_writes(b)[i].y
                > b.spec_ground_y(),
{
    let terrain = b.spec_terrain_y();
    assert forall|k: int| 0 <= k < terrain.len() implies -1_000_000_000 <= #[trigger] terrain[k] <= 1_000_000_000 by {
        assert(super::height_ok(terrain[k] as int));
    }
    lemma_grading_air_above(b.spec_cells(), terrain, b.spec_ground_y() as int, b.spec_cells().len() as int);
}

fn write_air_run(editor: &mut WorldEditor, x: i32, z: i32, lo: i32, hi: i32)
    requires
        -2_000_000_000 <= lo,
        hi <= 2_000_000_000,
    ensures
        final(editor)@ == old(editor)@ + air_run(x as int, z as int, lo as int, hi as int),
{
    let ghost start = editor@;
    let mut y = lo;
    while y < hi
        invariant
            lo <= y,
            y <= hi || y == lo,
            hi <= 2_000_000_000,
            editor@ == start + air_run(x as int, z as int, lo as int, y as int),
        decreases hi - y,
    {
        editor.set_block_absolute(Block::Air, x, y, z);
        assert(editor@ =~= start + air_run(x as int, z as int, lo as int, y + 1));
        y += 1;
    }
    assert(editor@ =~= start + air_run(x as int, z as int, lo as int, hi as int));
}

fn write_fill_run(editor: &mut WorldEditor, x: i32, z: i32, lo: i32, hi: i32)
    requires
        -2_000_000_000 <= lo,
        hi <= 2_000_000_000,
    ensures
        final(editor)@ == old(editor)@ + fill_run(x as int, z as int, lo as int, hi as int),
{
    let ghost start = editor@;
    let mut y = lo;
    while y < hi
        invariant
            lo <= y,
            y <= hi || y == lo,
            hi <= 2_000_000_000,
            editor@ == start + fill_run(x as int, z as int, lo as int, y as int),
        decreases hi - y,
    {
        let m = retaining_material(x, z, y);
        editor.set_block_absolute(m, x, y, z);
        assert(editor@ =~= start + fill_run(x as int, z as int, lo as int, y + 1));
        y += 1;
    }
    assert(editor@ =~= start + fill_run(x as int, z as int, lo as int, hi as int));
}

/// Cuts or fills every footprint column of `b` to its floor height, cells
/// in footprint order.
pub fn grade_site(editor: &mut WorldEditor, b: &PlannedBuilding)
    ensures
        final(editor)@ == old(editor)@ + site_writes(*b),
{
    proof {
        use_type_invariant(b);
    }
    let cells = b.cells();
    let terrain = b.terrain_y();
    let f = b.ground_y();
    let ghost start = editor@;
    let mut i: usize = 0;
    while i < cells.len()
        invariant
            i <= cells@.len(),
            cells@ == b.spec_cells(),
            terrain@ == b.spec_terrain_y(),
            f == b.spec_ground_y(),
            b.inv(),
            editor@ == start + grade_writes(cells@, terrain@, f as int, i as int),
        decreases cells.len() - i,
    {
        let (x, z) = cells[i];
        let t = terrain[i];
        assert(super::height_ok(terrain@[i as int] as int));
        let ghost mid = editor@;
        let diff = t - f;
        if diff >= 3 {
            write_air_run(editor, x, z, f + 1, t + 4);
            editor.set_block_absolute(Block::StoneBricks, x, f, z);
        } else if diff > 0 {
            write_air_run(editor, x, z, f + 1, t + 1);
        } else if diff <= -3 {
            let lo = if t > f - MAX_SINGLE_TIER_BLOCKS - 1 {
                t
            } else {
                f - MAX_SINGLE_TIER_BLOCKS - 1
            };
            write_fill_run(editor, x, z, lo, f);
            editor.set_block_absolute(Block::StoneBrickSlab, x, f - 1, z);
        } else if diff < 0 {
            write_fill_run(editor, x, z, t, f);
        }
        assert(editor@ =~= mid + grade_cell(x as int, z as int, t as int, f as int));
        assert(editor@ =~= start + grade_writes(cells@, terrain@, f as int, i + 1));
        i += 1;
    }
}

} // verus!
