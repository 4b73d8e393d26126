//! Which building a utility pole's service drop reaches: every footprint
//! cell of a placed commercial or residential building is indexed to that
//! building, and a pole looks for the nearest such building within a fixed
//! radius by scanning the square window around it.

use crate::buildings::{PlannedBuilding, UseGroup};
use fnv::{FnvHashMap, FnvHasher};
use std::collections::HashSet;
use std::hash::BuildHasherDefault;
use vstd::prelude::*;

verus! {

broadcast use vstd::std_specs::hash::group_hash_axioms;

#[verifier::external_type_specification]
#[verifier::external_body]
pub struct ExFnvHasher(FnvHasher);

#[verifier::external_type_specification]
#[verifier::external_body]
#[verifier::reject_recursive_types(H)]
pub struct ExBuildHasherDefault<H>(BuildHasherDefault<H>);

/// A footprint cell's service-drop building, by cell.
pub type CellIndex = FnvHashMap<(i32, i32), usize>;

/// The index with no cells.
pub open spec fn no_cells() -> Map<(i32, i32), usize> {
    Map::empty()
}

/// `FnvHashMap::default()` (std's `HashMap::default` with fnv's hasher):
/// an empty map.
#[verifier::external_body]
fn fnv_map_default() -> (empty: CellIndex)
    ensures
        empty@ == no_cells(),
{
    FnvHashMap::default()
}

/// std's `HashMap::insert` on an fnv-hashed map: afterwards `cell` maps to
/// `building` and every other key maps as before.
#[verifier::external_body]
fn fnv_map_insert(m: &mut CellIndex, cell: (i32, i32), building: usize)
    ensures
        final(m)@ == old(m)@.insert(cell, building),
{
    m.insert(cell, building);
}

/// std's `HashMap::get` on an fnv-hashed map: the value `cell` maps to, if
/// it is a key.
#[verifier::external_body]
fn fnv_map_get(m: &CellIndex, cell: (i32, i32)) -> (r: Option<usize>)
    ensures
        m@.contains_key(cell) ==> r == Some(m@[cell]),
        !m@.contains_key(cell) ==> r is None,
{
    m.get(&cell).copied()
}

/// How far from a pole, in blocks, a service drop may reach.
pub const SERVICE_DROP_RADIUS: i32 = 12;

/// A placed building of the commercial or residential group: the ones a
/// service drop can reach.
pub open spec fn drop_eligible(b: PlannedBuilding) -> bool {
    !b.spec_omitted() && (b.spec_group() == UseGroup::C || b.spec_group() == UseGroup::R)
}

/// Building `i` of `bs` is eligible and covers cell `c`.
pub open spec fn covers(bs: Seq<PlannedBuilding>, i: int, c: (i32, i32)) -> bool {
    0 <= i < bs.len() && drop_eligible(bs[i]) && bs[i].spec_cells().contains(c)
}

/// `m` indexes every cell to the last eligible building of `bs[..n]` that
/// covers it, and holds no other cell.
pub open spec fn indexes(m: Map<(i32, i32), usize>, bs: Seq<PlannedBuilding>, n: int) -> bool {
    &&& forall|c: (i32, i32)|
        #![trigger m.contains_key(c)]
        m.contains_key(c) ==> {
            &&& covers(bs, m[c] as int, c)
            &&& m[c] < n
            &&& forall|j: int| m[c] < j < n ==> !#[trigger] covers(bs, j, c)
        }
    &&& forall|j: int, c: (i32, i32)| 0 <= j < n && #[trigger] covers(bs, j, c) ==> m.contains_key(c)
}

/// The service-drop index of `buildings`: each footprint cell of an
/// eligible building maps to that building's position, the later building
/// where two share a cell.
pub fn index_service_drop_buildings(buildings: &[PlannedBuilding]) -> (m: CellIndex)
    ensures
        indexes(m@, buildings@, buildings@.len() as int),
{
    let mut m = fnv_map_default();
    let mut i: usize = 0;
    while i < buildings.len()
        invariant
            i <= buildings@.len(),
            indexes(m@, buildings@, i as int),
        decreases buildings@.len() - i,
    {
        let b = &buildings[i];
        match b.service_drop_info() {
            Some((cells, _roof_y, group, _id)) => {
                if group == UseGroup::C || group == UseGroup::R {
                    let ghost before = m@;
                    let mut k: usize = 0;
                    while k < cells.len()
                        invariant
                            i < buildings@.len(),
                            b == buildings@[i as int],
                            drop_eligible(*b),
                            cells@ == b.spec_cells(),
                            k <= cells@.len(),
                            indexes(before, buildings@, i as int),
                            forall|c: (i32, i32)|
                                #![trigger m@.contains_key(c)]
                                m@.contains_key(c) <==> (before.contains_key(c) || cells@.take(k as int).contains(c)),
                            forall|c: (i32, i32)|
                                #![trigger m@.contains_key(c)]
                                m@.contains_key(c) ==> (if cells@.take(k as int).contains(c) {
                                    m@[c] == i
                                } else {
                                    m@[c] == before[c]
                                }),
                        decreases cells@.len() - k,
                    {
                        let c = cells[k];
                        let ghost old_m = m@;
                        fnv_map_insert(&mut m, c, i);
                        proof {
                            assert forall|d: (i32, i32)|
                                cells@.take(k + 1).contains(d) <==> (cells@.take(k as int).contains(d) || d == c) by {
                                if cells@.take(k + 1).contains(d) {
                                    let t = choose|t: int| 0 <= t < k + 1 && #[trigger] cells@.take(k + 1)[t] == d;
                                    if t < k {
                                        assert(cells@.take(k as int)[t] == d);
                                    }
                                }
                                if cells@.take(k as int).contains(d) {
                                    let t = choose|t: int| 0 <= t < k && #[trigger] cells@.take(k as int)[t] == d;
                                    assert(cells@.take(k + 1)[t] == d);
                                }
                                if d == c {
                                    assert(cells@.take(k + 1)[k as int] == d);
                                }
                            }
                            assert forall|d: (i32, i32)| #[trigger] m@.contains_key(d) <==> (before.contains_key(d)
                                || cells@.take(k + 1).contains(d)) by {
                                if d != c {
                                    assert(m@.contains_key(d) == old_m.contains_key(d));
                                }
                            }
                            assert forall|d: (i32, i32)| #[trigger] m@.contains_key(d) implies (if cells@.take(k + 1).contains(d) {
                                m@[d] == i
                            } else {
                                m@[d] == before[d]
                            }) by {
                                assert(cells@.take(k + 1).contains(d) <==> (cells@.take(k as int).contains(d) || d == c));
                                if d != c {
                                    assert(old_m.contains_key(d));
                                    assert(m@[d] == old_m[d]);
                                    if cells@.take(k as int).contains(d) {
                                        assert(old_m[d] == i);
                                    } else {
                                        assert(old_m[d] == before[d]);
                                    }
                                } else {
                                    assert(m@[d] == i);
                                }
                            }
                        }
                        k += 1;
                    }
                    proof {
                        assert(cells@.take(k as int) =~= cells@);
                        assert forall|c: (i32, i32)| #[trigger] m@.contains_key(c) implies {
                            &&& covers(buildings@, m@[c] as int, c)
                            &&& m@[c] < i + 1
                            &&& forall|j: int| m@[c] < j < i + 1 ==> !#[trigger] covers(buildings@, j, c)
                        } by {
                            if cells@.contains(c) {
                                assert(covers(buildings@, i as int, c));
                            } else {
                                assert(before.contains_key(c));
                                assert(!covers(buildings@, i as int, c));
                            }
                        }
                        assert forall|j: int, c: (i32, i32)| 0 <= j < i + 1 && #[trigger] covers(buildings@, j, c) implies m@.contains_key(c) by {
                            if j < i {
                                assert(before.contains_key(c));
                            } else {
                                assert(cells@.contains(c));
                            }
                        }
                    }
                } else {
                    proof {
                        assert forall|c: (i32, i32)| #[trigger] m@.contains_key(c) implies forall|j: int|
                            m@[c] < j < i + 1 ==> !#[trigger] covers(buildings@, j, c) by {
                            assert(!drop_eligible(buildings@[i as int]));
                        }
                    }
                }
            },
            None => {
                proof {
                    assert forall|c: (i32, i32)| #[trigger] m@.contains_key(c) implies forall|j: int|
                        m@[c] < j < i + 1 ==> !#[trigger] covers(buildings@, j, c) by {
                        assert(!drop_eligible(buildings@[i as int]));
                    }
                }
            },
        }
        i += 1;
    }
    m
}

/// The `x` offset of step `k` of a pole's scan: the window is walked
/// column by column, `x` from `-12` to `12`, and within each column `z`
/// from `-12` to `12`.
pub open spec fn scan_dx(k: int) -> int {
    k / 25 - 12
}

/// The `z` offset of step `k` of a pole's scan (see [`scan_dx`]).
pub open spec fn scan_dz(k: int) -> int {
    k % 25 - 12
}

/// The cell that step `k` of the scan around `(px, pz)` looks at.
pub open spec fn scan_cell(px: i32, pz: i32, k: int) -> (i32, i32) {
    ((px + scan_dx(k)) as i32, (pz + scan_dz(k)) as i32)
}

/// Squared distance from the pole to the cell of step `k`.
pub open spec fn scan_dist2(k: int) -> int {
    scan_dx(k) * scan_dx(k) + scan_dz(k) * scan_dz(k)
}

/// Step `k` finds an indexed cell.
pub open spec fn indexed_at(m: Map<(i32, i32), usize>, px: i32, pz: i32, k: int) -> bool {
    m.contains_key(scan_cell(px, pz, k))
}

/// Step `k` meets the building of its cell for the first time in the scan.
pub open spec fn first_sight(m: Map<(i32, i32), usize>, px: i32, pz: i32, k: int) -> bool {
    &&& indexed_at(m, px, pz, k)
    &&& forall|j: int|
        0 <= j < k && #[trigger] indexed_at(m, px, pz, j) ==> m[scan_cell(px, pz, j)] != m[scan_cell(px, pz, k)]
}

/// Step `k` offers a service drop: the first sight of its building, within
/// the radius, and the building is placed.
pub open spec fn drop_candidate(m: Map<(i32, i32), usize>, bs: Seq<PlannedBuilding>, px: i32, pz: i32, k: int) -> bool {
    &&& 0 <= k < 625
    &&& first_sight(m, px, pz, k)
    &&& scan_dist2(k) <= 144
    &&& !bs[m[scan_cell(px, pz, k) ] as int].spec_omitted()
}

/// Step `k` offers the nearest drop, the earliest in the scan among equally
/// near ones.
pub open spec fn is_nearest_drop(m: Map<(i32, i32), usize>, bs: Seq<PlannedBuilding>, px: i32, pz: i32, k: int) -> bool {
    &&& drop_candidate(m, bs, px, pz, k)
    &&& forall|j: int|
        #[trigger] drop_candidate(m, bs, px, pz, j) ==> scan_dist2(k) < scan_dist2(j) || (scan_dist2(k) == scan_dist2(j)
            && k <= j)
}

/// The buildings seen in the first `k` steps.
pub open spec fn seen_in(m: Map<(i32, i32), usize>, px: i32, pz: i32, k: int) -> Set<usize> {
    Set::new(|v: usize| exists|j: int| 0 <= j < k && #[trigger] indexed_at(m, px, pz, j) && m[scan_cell(px, pz, j)] == v)
}

/// The service drop of a pole at `(px, pz)`: the cell, roof height and
/// position of the nearest building `index` reaches within the radius
/// (see [`is_nearest_drop`]); `None` when there is none.
pub fn nearest_service_drop_building(
    px: i32,
    pz: i32,
    index: &CellIndex,
    buildings: &[PlannedBuilding],
) -> (r: Option<(i32, i32, i32, usize)>)
    requires
        i32::MIN + SERVICE_DROP_RADIUS <= px <= i32::MAX - SERVICE_DROP_RADIUS,
        i32::MIN + SERVICE_DROP_RADIUS <= pz <= i32::MAX - SERVICE_DROP_RADIUS,
        forall|c: (i32, i32)| #[trigger] index@.contains_key(c) ==> index@[c] < buildings@.len(),
    ensures
        r is None <==> forall|k: int| !drop_candidate(index@, buildings@, px, pz, k),
        r matches Some(t) ==> exists|k: int|
            {
                &&& is_nearest_drop(index@, buildings@, px, pz, k)
                &&& (t.0, t.1) == scan_cell(px, pz, k)
                &&& t.3 == index@[scan_cell(px, pz, k)]
                &&& t.2 == buildings@[t.3 as int].spec_ground_y() + buildings@[t.3 as int].spec_total_height()
            },
{
    let ghost m = index@;
    let ghost bs = buildings@;
    let mut seen: HashSet<usize> = HashSet::new();
    let mut best: Option<(i32, i32, i32, i32, usize)> = None;
    let ghost mut kb: int = 0;
    let mut k: usize = 0;
    while k < 625
        invariant
            m == index@,
            bs == buildings@,
            i32::MIN + SERVICE_DROP_RADIUS <= px <= i32::MAX - SERVICE_DROP_RADIUS,
            i32::MIN + SERVICE_DROP_RADIUS <= pz <= i32::MAX - SERVICE_DROP_RADIUS,
            forall|c: (i32, i32)| #[trigger] m.contains_key(c) ==> m[c] < bs.len(),
            k <= 625,
            seen@ == seen_in(m, px, pz, k as int),
            best is None <==> forall|j: int| 0 <= j < k ==> !drop_candidate(m, bs, px, pz, j),
            best matches Some(b) ==> {
                &&& 0 <= kb < k
                &&& drop_candidate(m, bs, px, pz, kb)
                &&& b.0 == scan_dist2(kb)
                &&& (b.1, b.2) == scan_cell(px, pz, kb)
                &&& b.4 == m[scan_cell(px, pz, kb)]
                &&& b.3 == bs[b.4 as int].spec_ground_y() + bs[b.4 as int].spec_total_height()
                &&& forall|j: int|
                    0 <= j < k && #[trigger] drop_candidate(m, bs, px, pz, j) ==> scan_dist2(kb) < scan_dist2(j) || (
                    scan_dist2(kb) == scan_dist2(j) && kb <= j)
            },
        decreases 625 - k,
    {
        let dx: i32 = (k / 25) as i32 - SERVICE_DROP_RADIUS;
        let dz: i32 = (k % 25) as i32 - SERVICE_DROP_RADIUS;
        assert(dx == scan_dx(k as int) && dz == scan_dz(k as int));
        let cell = (px + dx, pz + dz);
        assert(cell == scan_cell(px, pz, k as int));
        let ghost seen_before = seen@;
        match fnv_map_get(index, cell) {
            None => {
                assert(!indexed_at(m, px, pz, k as int));
                assert(seen_in(m, px, pz, k + 1) =~= seen_in(m, px, pz, k as int)) by {
                    assert forall|v: usize| #[trigger] seen_in(m, px, pz, k + 1).contains(v) implies seen_in(m, px, pz, k as int).contains(v) by {
                        let j = choose|j: int| 0 <= j < k + 1 && #[trigger] indexed_at(m, px, pz, j) && m[scan_cell(px, pz, j)] == v;
                        assert(j < k);
                    }
                }
            },
            Some(idx) => {
                assert(indexed_at(m, px, pz, k as int) && m[scan_cell(px, pz, k as int)] == idx);
                let fresh = seen.insert(idx);
                assert(seen_in(m, px, pz, k + 1) =~= seen_before.insert(idx)) by {
                    assert forall|v: usize| #[trigger] seen_in(m, px, pz, k + 1).contains(v) implies seen_before.insert(idx).contains(v) by {
                        let j = choose|j: int| 0 <= j < k + 1 && #[trigger] indexed_at(m, px, pz, j) && m[scan_cell(px, pz, j)] == v;
                        if j < k {
                            assert(seen_in(m, px, pz, k as int).contains(v));
                        }
                    }
                    assert forall|v: usize| #[trigger] seen_before.insert(idx).contains(v) implies seen_in(m, px, pz, k + 1).contains(v) by {
                        if v == idx {
                            assert(indexed_at(m, px, pz, k as int));
                        } else {
                            let j = choose|j: int| 0 <= j < k && #[trigger] indexed_at(m, px, pz, j) && m[scan_cell(px, pz, j)] == v;
                            assert(0 <= j < k + 1);
                        }
                    }
                }
                assert(fresh == first_sight(m, px, pz, k as int)) by {
                    if !fresh {
                        assert(seen_in(m, px, pz, k as int).contains(idx));
                        let j = choose|j: int| 0 <= j < k && #[trigger] indexed_at(m, px, pz, j) && m[scan_cell(px, pz, j)] == idx;
                        assert(!first_sight(m, px, pz, k as int));
                    } else {
                        assert forall|j: int| 0 <= j < k && #[trigger] indexed_at(m, px, pz, j) implies m[scan_cell(px, pz, j)] != m[scan_cell(px, pz, k as int)] by {
                            if m[scan_cell(px, pz, j)] == idx {
                                assert(seen_in(m, px, pz, k as int).contains(idx));
                            }
                        }
                    }
                }
                if fresh {
                    assert(-12 <= dx <= 12 && -12 <= dz <= 12);
                    assert(0 <= dx * dx <= 144 && 0 <= dz * dz <= 144) by (nonlinear_arith)
                        requires
                            -12 <= dx <= 12,
                            -12 <= dz <= 12,
                    ;
                    let dist2 = dx * dx + dz * dz;
                    if dist2 <= SERVICE_DROP_RADIUS * SERVICE_DROP_RADIUS {
                        match buildings[idx].service_drop_info() {
                            Some((_cells, roof_y, _group, _id)) => {
                                assert(drop_candidate(m, bs, px, pz, k as int));
                                let better = match best {
                                    None => true,
                                    Some(b) => dist2 < b.0,
                                };
                                if better {
                                    best = Some((dist2, cell.0, cell.1, roof_y, idx));
                                    proof {
                                        kb = k as int;
                                    }
                                }
                            },
                            None => {
                                assert(!drop_candidate(m, bs, px, pz, k as int));
                            },
                        }
                    } else {
                        assert(!drop_candidate(m, bs, px, pz, k as int));
                    }
                } else {
                    assert(!drop_candidate(m, bs, px, pz, k as int));
                }
            },
        }
        k += 1;
    }
    match best {
        None => None,
        Some((_, x, z, roof_y, idx)) => {
            assert(is_nearest_drop(m, bs, px, pz, kb));
            Some((x, z, roof_y, idx))
        },
    }
}

} // verus!
