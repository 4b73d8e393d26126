//! How far a building's writes reach: everything its grading and its facade
//! write lies inside its box (`PlannedBuilding::aabb`), the footprint's
//! extent padded by 4, so a tile the box misses has nothing of the building
//! to write.

use super::facade::{
    box_column, box_row, box_writes, cell_writes, cells_writes, centroid, exposed_dirs, facade_writes, has_cell,
    hip_writes, interior, round_div, roof_writes, sum_x, sum_z, tank_writes, vent_writes, wall_rows,
};
use super::slope::{air_run, fill_run, grade_cell, grade_writes, site_writes};
use super::{building_writes, buildings_writes, cell_ok, cells_max_x, cells_max_z, cells_min_x, cells_min_z, planned_ok, DetailLevel, PlannedBuilding};
use crate::world::BlockWrite;
use vstd::prelude::*;

verus! {

/// The footprint's smallest `x`.
pub open spec fn lx(cells: Seq<(i32, i32)>) -> int {
    cells_min_x(cells) as int
}

/// The footprint's largest `x`.
pub open spec fn hx(cells: Seq<(i32, i32)>) -> int {
    cells_max_x(cells) as int
}

/// The footprint's smallest `z`.
pub open spec fn lz(cells: Seq<(i32, i32)>) -> int {
    cells_min_z(cells) as int
}

/// The footprint's largest `z`.
pub open spec fn hz(cells: Seq<(i32, i32)>) -> int {
    cells_max_z(cells) as int
}

/// Every write of `s` lies in `[lx, hx] × [lz, hz]`.
pub open spec fn all_in(s: Seq<BlockWrite>, lx: int, hx: int, lz: int, hz: int) -> bool {
    forall|i: int| 0 <= i < s.len() ==> lx <= (#[trigger] s[i]).x <= hx && lz <= s[i].z <= hz
}

/// The box of a non-empty footprint (what `PlannedBuilding::aabb` returns).
pub open spec fn building_box(cells: Seq<(i32, i32)>) -> (int, int, int, int) {
    (
        lx(cells) - 4,
        hx(cells) + 4,
        lz(cells) - 4,
        hz(cells) + 4,
    )
}

proof fn lemma_concat_in(a: Seq<BlockWrite>, b: Seq<BlockWrite>, lx: int, hx: int, lz: int, hz: int)
    requires
        all_in(a, lx, hx, lz, hz),
        all_in(b, lx, hx, lz, hz),
    ensures
        all_in(a + b, lx, hx, lz, hz),
{
    assert forall|i: int| 0 <= i < (a + b).len() implies lx <= (#[trigger] (a + b)[i]).x <= hx && lz <= (a + b)[i].z
        <= hz by {
        if i < a.len() {
            assert((a + b)[i] == a[i]);
        } else {
            assert((a + b)[i] == b[i - a.len()]);
        }
    }
}

proof fn lemma_cells_bounds(s: Seq<(i32, i32)>, j: int)
    requires
        0 <= j < s.len(),
    ensures
        lx(s) <= s[j].0 <= hx(s),
        lz(s) <= s[j].1 <= hz(s),
    decreases s.len(),
{
    if s.len() > 1 {
        if j < s.len() - 1 {
            lemma_cells_bounds(s.drop_last(), j);
        }
    }
}

/// The extent of the footprint, with every cell in range.
pub open spec fn extent_ok(cells: Seq<(i32, i32)>) -> bool {
    &&& cells.len() > 0
    &&& forall|i: int| 0 <= i < cells.len() ==> cell_ok(#[trigger] cells[i])
}

proof fn lemma_has_cell_bounds(cells: Seq<(i32, i32)>, x: int, z: int)
    requires
        has_cell(cells, x, z),
    ensures
        lx(cells) <= x <= hx(cells),
        lz(cells) <= z <= hz(cells),
{
    let j = choose|j: int| 0 <= j < cells.len() && cells[j].0 == x && cells[j].1 == z;
    lemma_cells_bounds(cells, j);
}

proof fn lemma_extent_ok(cells: Seq<(i32, i32)>)
    requires
        extent_ok(cells),
    ensures
        cell_ok((cells_min_x(cells), cells_min_z(cells))),
        cell_ok((cells_max_x(cells), cells_max_z(cells))),
    decreases cells.len(),
{
    if cells.len() > 1 {
        lemma_extent_ok(cells.drop_last());
        assert(cell_ok(cells.last()));
    } else {
        assert(cell_ok(cells[0]));
    }
}

proof fn lemma_cell_writes_in(b: PlannedBuilding, j: int)
    requires
        b.inv(),
        0 <= j < b.spec_cells().len(),
    ensures
        all_in(
            cell_writes(b, b.spec_cells()[j].0 as int, b.spec_cells()[j].1 as int),
            b.spec_cells()[j].0 - 1,
            b.spec_cells()[j].0 + 1,
            b.spec_cells()[j].1 - 1,
            b.spec_cells()[j].1 + 1,
        ),
{
    let cells = b.spec_cells();
    let x = cells[j].0 as int;
    let z = cells[j].1 as int;
    assert(cell_ok(cells[j]));
    super::facade::lemma_exposed_units(cells, x, z);
    let s = cell_writes(b, x, z);
    assert forall|i: int| 0 <= i < s.len() implies x - 1 <= (#[trigger] s[i]).x <= x + 1 && z - 1 <= s[i].z <= z + 1 by {
        let ex = exposed_dirs(cells, x, z);
        if ex.len() > 0 {
            assert(-1 <= ex[0].0 <= 1 && -1 <= ex[0].1 <= 1);
        }
    }
}

proof fn lemma_cells_writes_in(b: PlannedBuilding, n: int)
    requires
        b.inv(),
        0 <= n <= b.spec_cells().len(),
        b.spec_cells().len() > 0,
    ensures
        all_in(
            cells_writes(b, n),
            lx(b.spec_cells()) - 1,
            hx(b.spec_cells()) + 1,
            lz(b.spec_cells()) - 1,
            hz(b.spec_cells()) + 1,
        ),
    decreases n,
{
    let cells = b.spec_cells();
    if n > 0 {
        lemma_cells_writes_in(b, n - 1);
        lemma_cell_writes_in(b, n - 1);
        lemma_cells_bounds(cells, n - 1);
        let c = cell_writes(b, cells[n - 1].0 as int, cells[n - 1].1 as int);
        assert(all_in(c, lx(cells) - 1, hx(cells) + 1, lz(cells) - 1, hz(cells) + 1));
        lemma_concat_in(
            cells_writes(b, n - 1),
            c,
            lx(cells) - 1,
            hx(cells) + 1,
            lz(cells) - 1,
            hz(cells) + 1,
        );
    }
}

proof fn lemma_hip_in(b: PlannedBuilding, n: int, stair: super::super::world::Block)
    requires
        b.inv(),
        0 <= n <= b.spec_cells().len(),
        b.spec_cells().len() > 0,
    ensures
        all_in(
            hip_writes(b, n, stair),
            lx(b.spec_cells()),
            hx(b.spec_cells()),
            lz(b.spec_cells()),
            hz(b.spec_cells()),
        ),
    decreases n,
{
    let cells = b.spec_cells();
    if n > 0 {
        lemma_hip_in(b, n - 1, stair);
        lemma_cells_bounds(cells, n - 1);
        assert(cell_ok(cells[n - 1]));
        let c = cells[n - 1];
        let t = if exposed_dirs(cells, c.0 as int, c.1 as int).len() > 0 {
            seq![super::super::world::write_of(stair, c.0 as int, b.spec_ground_y() + b.spec_total_height(), c.1 as int)]
        } else {
            Seq::empty()
        };
        assert(all_in(t, lx(cells), hx(cells), lz(cells), hz(cells)));
        lemma_concat_in(hip_writes(b, n - 1, stair), t, lx(cells), hx(cells), lz(cells), hz(cells));
    }
}

proof fn lemma_interior_in(cells: Seq<(i32, i32)>, x: int, z: int)
    requires
        interior(cells, x, z),
        extent_ok(cells),
    ensures
        lx(cells) <= x <= hx(cells),
        lz(cells) <= z <= hz(cells),
        cell_ok((x as i32, z as i32)),
        x as i32 == x && z as i32 == z,
{
    lemma_has_cell_bounds(cells, x, z);
    lemma_extent_ok(cells);
}

proof fn lemma_box_row_in(cells: Seq<(i32, i32)>, x: int, cz: int, y: int, half: int, block: super::super::world::Block, k: int)
    requires
        extent_ok(cells),
    ensures
        all_in(
            box_row(cells, x, cz, y, half, block, k),
            lx(cells),
            hx(cells),
            lz(cells),
            hz(cells),
        ),
    decreases k,
{
    if k > 0 {
        lemma_box_row_in(cells, x, cz, y, half, block, k - 1);
        let zz = cz - half + k - 1;
        if interior(cells, x, zz) {
            lemma_interior_in(cells, x, zz);
        }
        let c = box_column(cells, x, zz, y, block);
        assert(all_in(c, lx(cells), hx(cells), lz(cells), hz(cells)));
        lemma_concat_in(
            box_row(cells, x, cz, y, half, block, k - 1),
            c,
            lx(cells),
            hx(cells),
            lz(cells),
            hz(cells),
        );
    }
}

proof fn lemma_box_in(cells: Seq<(i32, i32)>, cx: int, cz: int, y: int, half: int, block: super::super::world::Block, k: int)
    requires
        extent_ok(cells),
    ensures
        all_in(
            box_writes(cells, cx, cz, y, half, block, k),
            lx(cells),
            hx(cells),
            lz(cells),
            hz(cells),
        ),
    decreases k,
{
    if k > 0 {
        lemma_box_in(cells, cx, cz, y, half, block, k - 1);
        lemma_box_row_in(cells, cx - half + k - 1, cz, y, half, block, 2 * half + 1);
        lemma_concat_in(
            box_writes(cells, cx, cz, y, half, block, k - 1),
            box_row(cells, cx - half + k - 1, cz, y, half, block, 2 * half + 1),
            lx(cells),
            hx(cells),
            lz(cells),
            hz(cells),
        );
    }
}

proof fn lemma_vent_in(cells: Seq<(i32, i32)>, cx: int, cz: int, y: int)
    requires
        extent_ok(cells),
    ensures
        all_in(vent_writes(cells, cx, cz, y), lx(cells), hx(cells), lz(cells), hz(cells)),
{
    if interior(cells, cx - 1, cz - 1) {
        lemma_interior_in(cells, cx - 1, cz - 1);
    }
    if interior(cells, cx + 1, cz - 1) {
        lemma_interior_in(cells, cx + 1, cz - 1);
    }
    if interior(cells, cx - 1, cz + 1) {
        lemma_interior_in(cells, cx - 1, cz + 1);
    }
}

proof fn lemma_sums_between(cells: Seq<(i32, i32)>, n: int)
    requires
        0 <= n <= cells.len(),
        cells.len() > 0,
    ensures
        n * lx(cells) <= sum_x(cells, n) <= n * hx(cells),
        n * lz(cells) <= sum_z(cells, n) <= n * hz(cells),
    decreases n,
{
    if n > 0 {
        lemma_sums_between(cells, n - 1);
        lemma_cells_bounds(cells, n - 1);
        let a = lx(cells);
        let b = hx(cells);
        let c = lz(cells);
        let d = hz(cells);
        assert(sum_x(cells, n) == sum_x(cells, n - 1) + cells[n - 1].0);
        assert(sum_z(cells, n) == sum_z(cells, n - 1) + cells[n - 1].1);
        assert(n * a == (n - 1) * a + a && n * b == (n - 1) * b + b) by (nonlinear_arith);
        assert(n * c == (n - 1) * c + c && n * d == (n - 1) * d + d) by (nonlinear_arith);
        assert(a <= cells[n - 1].0 <= b);
        assert((n - 1) * a <= sum_x(cells, n - 1) <= (n - 1) * b);
        assert(n * a <= sum_x(cells, n) <= n * b);
    } else {
        assert(0 * lx(cells) == 0 && 0 * hx(cells) == 0 && 0 * lz(cells) == 0 && 0 * hz(cells) == 0);
    }
}

proof fn lemma_round_div_between(s: int, n: int, lo: int, hi: int)
    requires
        n >= 1,
        n * lo <= s <= n * hi,
    ensures
        lo <= round_div(s, n) <= hi,
{
    if s >= 0 {
        let a = 2 * s + n;
        vstd::arithmetic::div_mod::lemma_fundamental_div_mod(a, 2 * n);
        let q = a / (2 * n);
        let r = a % (2 * n);
        assert(lo <= q <= hi) by (nonlinear_arith)
            requires
                a == 2 * n * q + r,
                0 <= r < 2 * n,
                a == 2 * s + n,
                n * lo <= s <= n * hi,
                s >= 0,
                n >= 1,
        ;
    } else {
        let a = -2 * s + n;
        vstd::arithmetic::div_mod::lemma_fundamental_div_mod(a, 2 * n);
        let q = a / (2 * n);
        let r = a % (2 * n);
        assert(lo <= -q <= hi) by (nonlinear_arith)
            requires
                a == 2 * n * q + r,
                0 <= r < 2 * n,
                a == -2 * s + n,
                n * lo <= s <= n * hi,
                s < 0,
                n >= 1,
        ;
    }
}

proof fn lemma_centroid_in(cells: Seq<(i32, i32)>)
    requires
        cells.len() > 0,
    ensures
        lx(cells) <= centroid(cells).0 <= hx(cells),
        lz(cells) <= centroid(cells).1 <= hz(cells),
{
    let n = cells.len() as int;
    lemma_sums_between(cells, n);
    lemma_round_div_between(sum_x(cells, n), n, lx(cells), hx(cells));
    lemma_round_div_between(sum_z(cells, n), n, lz(cells), hz(cells));
}

proof fn lemma_tank_in(cx: int, cz: int, y: int)
    requires
        -1_100_000_000 <= cx <= 1_100_000_000,
        -1_100_000_000 <= cz <= 1_100_000_000,
    ensures
        all_in(tank_writes(cx, cz, y), cx, cx + 1, cz, cz + 1),
{
    let t = tank_writes(cx, cz, y);
    assert forall|i: int| 0 <= i < t.len() implies cx <= (#[trigger] t[i]).x <= cx + 1 && cz <= t[i].z <= cz + 1 by {
        assert(0 <= i / 4 <= 1 && 0 <= (i / 2) % 2 <= 1);
    }
}

proof fn lemma_roof_in(b: PlannedBuilding)
    requires
        b.inv(),
        b.spec_cells().len() > 0,
    ensures
        all_in(
            roof_writes(b),
            lx(b.spec_cells()),
            hx(b.spec_cells()) + 4,
            lz(b.spec_cells()),
            hz(b.spec_cells()) + 1,
        ),
{
    let cells = b.spec_cells();
    let lx = lx(cells);
    let hx = hx(cells);
    let lz = lz(cells);
    let hz = hz(cells);
    assert(extent_ok(cells));
    lemma_extent_ok(cells);
    lemma_centroid_in(cells);
    let (cx, cz) = centroid(cells);
    let y = b.spec_ground_y() + b.spec_total_height() + 1;
    let n = cells.len() as int;
    lemma_hip_in(b, n, super::super::world::Block::StoneBrickStairs);
    lemma_box_in(cells, cx, cz, y, 1, super::super::world::Block::Brick, 3);
    lemma_box_in(cells, cx, cz, y, 1, super::super::world::Block::GrayConcrete, 3);
    lemma_vent_in(cells, cx, cz, y);
    lemma_tank_in(cx, cz, y);
    lemma_tank_in(cx + 3, cz, y);
    let r = roof_writes(b);
    assert forall|i: int| 0 <= i < r.len() implies lx <= (#[trigger] r[i]).x <= hx + 4 && lz <= r[i].z <= hz + 1 by {
        match b.spec_group() {
            super::UseGroup::R => {
                if b.spec_era() == super::Era::E2 {
                    let a = box_writes(cells, cx, cz, y, 1, super::super::world::Block::Brick, 3);
                    let t = tank_writes(cx + 3, cz, y);
                    assert(r == a + t);
                    if i < a.len() {
                        assert(r[i] == a[i]);
                    } else {
                        assert(r[i] == t[i - a.len()]);
                    }
                }
            },
            _ => {},
        }
    }
}

proof fn lemma_grade_in(cells: Seq<(i32, i32)>, terrain: Seq<i32>, f: int, n: int)
    requires
        0 <= n <= cells.len(),
        extent_ok(cells),
    ensures
        all_in(grade_writes(cells, terrain, f, n), lx(cells), hx(cells), lz(cells), hz(cells)),
    decreases n,
{
    if n > 0 {
        lemma_grade_in(cells, terrain, f, n - 1);
        lemma_cells_bounds(cells, n - 1);
        assert(cell_ok(cells[n - 1]));
        let x = cells[n - 1].0 as int;
        let z = cells[n - 1].1 as int;
        let g = grade_cell(x, z, terrain[n - 1] as int, f);
        assert(all_in(g, x, x, z, z)) by {
            let t = terrain[n - 1] as int;
            let diff = t - f;
            if diff >= 3 {
                let a = air_run(x, z, f + 1, t + 4);
                assert forall|i: int| 0 <= i < g.len() implies x <= (#[trigger] g[i]).x <= x && z <= g[i].z <= z by {
                    if i < a.len() {
                        assert(g[i] == a[i]);
                    }
                }
            } else if diff <= -3 {
                let lo = if t > f - super::slope::MAX_SINGLE_TIER_BLOCKS - 1 { t } else { f - super::slope::MAX_SINGLE_TIER_BLOCKS - 1 };
                let a = fill_run(x, z, lo, f);
                assert forall|i: int| 0 <= i < g.len() implies x <= (#[trigger] g[i]).x <= x && z <= g[i].z <= z by {
                    if i < a.len() {
                        assert(g[i] == a[i]);
                    }
                }
            }
        }
        lemma_concat_in(
            grade_writes(cells, terrain, f, n - 1),
            g,
            lx(cells),
            hx(cells),
            lz(cells),
            hz(cells),
        );
    }
}

/// A building's box (see `PlannedBuilding::aabb`) holds every block its
/// site grading and its facade write: the walls, eaves and parapets stay
/// within one column of the footprint, the rooftop structures within the
/// footprint's extent except the water tank beside an era-2 house's
/// rooftop room, which reaches 4 columns past the centroid.
pub proof fn lemma_building_box_holds_its_writes(b: PlannedBuilding)
    requires
        b.inv(),
        b.spec_cells().len() > 0,
    ensures
        ({
            let bx = building_box(b.spec_cells());
            &&& all_in(facade_writes(b), bx.0, bx.1, bx.2, bx.3)
            &&& all_in(site_writes(b), bx.0, bx.1, bx.2, bx.3)
        }),
{
    let cells = b.spec_cells();
    let bx = building_box(cells);
    assert(extent_ok(cells));
    let n = cells.len() as int;
    lemma_cells_writes_in(b, n);
    lemma_roof_in(b);
    lemma_grade_in(cells, b.spec_terrain_y(), b.spec_ground_y() as int, n);
    let cw = cells_writes(b, n);
    let rw = if b.spec_detail_level() == DetailLevel::L2 { roof_writes(b) } else { Seq::empty() };
    assert(all_in(cw, bx.0, bx.1, bx.2, bx.3));
    assert(all_in(rw, bx.0, bx.1, bx.2, bx.3));
    lemma_concat_in(cw, rw, bx.0, bx.1, bx.2, bx.3);
    assert(facade_writes(b) == cw + rw);
    let g = site_writes(b);
    assert(all_in(g, bx.0, bx.1, bx.2, bx.3));
}

/// Everything one building's placement writes lies in its box.
proof fn lemma_building_writes_in_box(b: PlannedBuilding)
    requires
        b.inv(),
    ensures
        b.spec_cells().len() > 0 ==> ({
            let bx = building_box(b.spec_cells());
            all_in(building_writes(b), bx.0, bx.1, bx.2, bx.3)
        }),
        b.spec_cells().len() == 0 ==> building_writes(b).len() == 0,
{
    if b.spec_cells().len() > 0 {
        lemma_building_box_holds_its_writes(b);
        if !b.spec_omitted() {
            let bx = building_box(b.spec_cells());
            lemma_concat_in(site_writes(b), facade_writes(b), bx.0, bx.1, bx.2, bx.3);
        }
    }
}

/// Building placement reaches no farther than the buildings' boxes: every
/// block `place_buildings` writes comes from one of the buildings and lies
/// inside that building's box (`PlannedBuilding::aabb`); a building
/// without cells writes nothing.
pub proof fn lemma_placed_buildings_stay_in_boxes(bs: Seq<&PlannedBuilding>, n: int)
    requires
        0 <= n <= bs.len(),
        forall|k: int| 0 <= k < bs.len() ==> (#[trigger] bs[k]).inv(),
    ensures
        forall|i: int|
            0 <= i < buildings_writes(bs, n).len() ==> exists|k: int|
                0 <= k < n && (#[trigger] bs[k]).spec_cells().len() > 0 && ({
                    let bx = building_box(bs[k].spec_cells());
                    let w = #[trigger] buildings_writes(bs, n)[i];
                    bx.0 <= w.x <= bx.1 && bx.2 <= w.z <= bx.3
                }),
    decreases n,
{
    if n > 0 {
        lemma_placed_buildings_stay_in_boxes(bs, n - 1);
        let b = *bs[n - 1];
        assert(b.inv());
        lemma_building_writes_in_box(b);
        let a = buildings_writes(bs, n - 1);
        let c = building_writes(b);
        assert(buildings_writes(bs, n) == a + c);
        assert forall|i: int| 0 <= i < (a + c).len() implies exists|k: int|
            0 <= k < n && (#[trigger] bs[k]).spec_cells().len() > 0 && ({
                let bx = building_box(bs[k].spec_cells());
                let w = #[trigger] (a + c)[i];
                bx.0 <= w.x <= bx.1 && bx.2 <= w.z <= bx.3
            }) by {
            if i < a.len() {
                assert((a + c)[i] == a[i]);
                let k = choose|k: int|
                    0 <= k < n - 1 && (#[trigger] bs[k]).spec_cells().len() > 0 && ({
                        let bx = building_box(bs[k].spec_cells());
                        let w = a[i];
                        bx.0 <= w.x <= bx.1 && bx.2 <= w.z <= bx.3
                    });
                assert(0 <= k < n);
            } else {
                assert((a + c)[i] == c[i - a.len()]);
                assert(b.spec_cells().len() > 0);
                assert(bs[n - 1].spec_cells().len() > 0);
            }
        }
    }
}

} // verus!
