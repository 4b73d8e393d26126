//! How far a segment's placement reaches: every block it writes lies
//! within its grade's full cross-section width of one of its centerline
//! points, so inside the segment's box (`Segment::aabb`), and a tile the
//! box misses has nothing of the segment to write.

use super::place::{
    class_columns, column_writes, is_rounded_ratio, rounded_ratio, segment_writes, segments_writes, sweep_column,
    sweep_prefix, sweep_writes, window_writes,
};
use super::{class_width, coord_ok, layout_column, point_xs, point_zs, section_bands, seq_max, seq_min, spec_section};
use super::{ProfilePoint, Segment};
use crate::world::{Block, BlockWrite};
use vstd::prelude::*;

verus! {

/// `w` lies within `reach` blocks of `(x, z)` on both axes.
pub open spec fn within(w: BlockWrite, x: int, z: int, reach: int) -> bool {
    x - reach <= w.x <= x + reach && z - reach <= w.z <= z + reach
}

/// Every write of `s` lies within `reach` blocks of `(x, z)`.
pub open spec fn all_within(s: Seq<BlockWrite>, x: int, z: int, reach: int) -> bool {
    forall|i: int| 0 <= i < s.len() ==> within(#[trigger] s[i], x, z, reach)
}

/// The box `(min_x, max_x, min_z, max_z)` holds `w`.
pub open spec fn in_box(w: BlockWrite, b: (int, int, int, int)) -> bool {
    b.0 <= w.x <= b.1 && b.2 <= w.z <= b.3
}

/// The box of a segment's points padded by its grade's width (what
/// `Segment::aabb` returns).
pub open spec fn segment_box(pts: Seq<ProfilePoint>, class: super::RoadClass) -> (int, int, int, int) {
    (
        seq_min(point_xs(pts), i32::MAX as int) - class_width(class),
        seq_max(point_xs(pts), i32::MIN as int) + class_width(class),
        seq_min(point_zs(pts), i32::MAX as int) - class_width(class),
        seq_max(point_zs(pts), i32::MIN as int) + class_width(class),
    )
}

proof fn lemma_rounded_ratio_search(a: int, b: int, m: int, k: int)
    requires
        b >= 1,
        0 <= k <= m,
        a * a <= m * m * b,
        k == 0 || (2 * k - 1) * (2 * k - 1) * b <= 4 * a * a,
    ensures
        -m <= rounded_ratio(a, b) <= m,
    decreases m - k,
{
    if k < m && (2 * (k + 1) - 1) * (2 * (k + 1) - 1) * b <= 4 * a * a {
        lemma_rounded_ratio_search(a, b, m, k + 1);
    } else {
        let r = if a < 0 { -k } else { k };
        if k == m {
            assert(4 * a * a < (2 * k + 1) * (2 * k + 1) * b) by (nonlinear_arith)
                requires
                    a * a <= m * m * b,
                    k == m,
                    b >= 1,
                    m >= 0,
            ;
        } else {
            assert(2 * (k + 1) - 1 == 2 * k + 1);
        }
        assert(is_rounded_ratio(r, a, b));
        super::place::lemma_rounded_ratio_is(r, a, b);
    }
}

/// `a / √b` rounded stays within `m` when `|a| <= m·√b`.
proof fn lemma_rounded_ratio_within(a: int, b: int, m: int)
    requires
        b >= 0,
        m >= 0,
        a * a <= m * m * b,
    ensures
        -m <= rounded_ratio(a, b) <= m,
{
    if b >= 1 {
        lemma_rounded_ratio_search(a, b, m, 0);
    }
}

proof fn lemma_column_within(x: int, z: int, y2: int, dx: int, dz: int, col: (i32, super::Band), reach: int)
    requires
        coord_ok(x),
        coord_ok(z),
        0 <= reach <= 50,
        -reach <= col.0 <= reach,
    ensures
        all_within(sweep_column(x, z, y2, dx, dz, col), x, z, reach),
{
    let b = dx * dx + dz * dz;
    let off = col.0 as int;
    let m = if off < 0 { -off } else { off };
    assert(b >= 0 && m * m == off * off) by (nonlinear_arith)
        requires
            b == dx * dx + dz * dz,
            m == (if off < 0 { -off } else { off }),
    ;
    assert((-dz * off) * (-dz * off) <= m * m * b) by (nonlinear_arith)
        requires
            b == dx * dx + dz * dz,
            m * m == off * off,
    ;
    assert((dx * off) * (dx * off) <= m * m * b) by (nonlinear_arith)
        requires
            b == dx * dx + dz * dz,
            m * m == off * off,
    ;
    lemma_rounded_ratio_within(-dz * off, b, m);
    lemma_rounded_ratio_within(dx * off, b, m);
    let px = x + rounded_ratio(-dz * off, b);
    let pz = z + rounded_ratio(dx * off, b);
    let s = sweep_column(x, z, y2, dx, dz, col);
    assert forall|i: int| 0 <= i < s.len() implies within(#[trigger] s[i], x, z, reach) by {
        assert(s[i].x == px as i32 && s[i].z == pz as i32);
    }
}

proof fn lemma_prefix_within(x: int, z: int, y2: int, dx: int, dz: int, cols: Seq<(i32, super::Band)>, n: int, reach: int)
    requires
        coord_ok(x),
        coord_ok(z),
        0 <= reach <= 50,
        n <= cols.len(),
        forall|k: int| 0 <= k < n ==> -reach <= (#[trigger] cols[k]).0 <= reach,
    ensures
        all_within(sweep_prefix(x, z, y2, dx, dz, cols, n), x, z, reach),
    decreases n,
{
    if n > 0 {
        lemma_prefix_within(x, z, y2, dx, dz, cols, n - 1, reach);
        let a = sweep_prefix(x, z, y2, dx, dz, cols, n - 1);
        let c = sweep_column(x, z, y2, dx, dz, cols[n - 1]);
        lemma_column_within(x, z, y2, dx, dz, cols[n - 1], reach);
        assert forall|i: int| 0 <= i < (a + c).len() implies within(#[trigger] (a + c)[i], x, z, reach) by {
            if i >= a.len() {
                assert((a + c)[i] == c[i - a.len()]);
            } else {
                assert((a + c)[i] == a[i]);
            }
        }
    }
}

/// One sweep writes within its grade's width of the point it sweeps at.
proof fn lemma_sweep_within(x: int, z: int, y2: int, class: super::RoadClass, dx: int, dz: int)
    requires
        coord_ok(x),
        coord_ok(z),
    ensures
        all_within(sweep_writes(x, z, y2, class, dx, dz), x, z, class_width(class)),
{
    let bands = section_bands(spec_section(class));
    let cols = class_columns(class);
    let w = class_width(class);
    super::place::lemma_section_width(class);
    assert forall|k: int| 0 <= k < cols.len() implies -w <= (#[trigger] cols[k]).0 <= w by {
        assert(cols[k] == layout_column(bands, k));
    }
    lemma_prefix_within(x, z, y2, dx, dz, cols, cols.len() as int, w);
}

proof fn lemma_seq_min_le(s: Seq<int>, init: int, j: int)
    requires
        0 <= j < s.len(),
    ensures
        seq_min(s, init) <= s[j],
    decreases s.len(),
{
    if j < s.len() - 1 {
        lemma_seq_min_le(s.drop_last(), init, j);
    }
}

proof fn lemma_seq_max_ge(s: Seq<int>, init: int, j: int)
    requires
        0 <= j < s.len(),
    ensures
        seq_max(s, init) >= s[j],
    decreases s.len(),
{
    if j < s.len() - 1 {
        lemma_seq_max_ge(s.drop_last(), init, j);
    }
}

/// A sweep at point `j` of `pts` writes inside the segment's box.
proof fn lemma_sweep_in_box(pts: Seq<ProfilePoint>, class: super::RoadClass, j: int, dx: int, dz: int)
    requires
        0 <= j < pts.len(),
        coord_ok(pts[j].x as int),
        coord_ok(pts[j].z as int),
    ensures
        forall|i: int|
            0 <= i < sweep_writes(pts[j].x as int, pts[j].z as int, pts[j].y2 as int, class, dx, dz).len() ==> in_box(
                #[trigger] sweep_writes(pts[j].x as int, pts[j].z as int, pts[j].y2 as int, class, dx, dz)[i],
                segment_box(pts, class),
            ),
{
    let p = pts[j];
    lemma_sweep_within(p.x as int, p.z as int, p.y2 as int, class, dx, dz);
    lemma_seq_min_le(point_xs(pts), i32::MAX as int, j);
    lemma_seq_max_ge(point_xs(pts), i32::MIN as int, j);
    lemma_seq_min_le(point_zs(pts), i32::MAX as int, j);
    lemma_seq_max_ge(point_zs(pts), i32::MIN as int, j);
    assert(point_xs(pts)[j] == p.x as int && point_zs(pts)[j] == p.z as int);
}

proof fn lemma_windows_in_box(pts: Seq<ProfilePoint>, class: super::RoadClass, n: int)
    requires
        0 <= n < pts.len(),
        forall|j: int| #![trigger pts[j]] 0 <= j < pts.len() ==> coord_ok(pts[j].x as int) && coord_ok(pts[j].z as int),
    ensures
        forall|i: int| 0 <= i < window_writes(pts, class, n).len() ==> in_box(
            #[trigger] window_writes(pts, class, n)[i],
            segment_box(pts, class),
        ),
    decreases n,
{
    if n > 0 {
        lemma_windows_in_box(pts, class, n - 1);
        let prev = window_writes(pts, class, n - 1);
        let p = pts[n - 1];
        let dx = pts[n].x - p.x;
        let dz = pts[n].z - p.z;
        let sw = sweep_writes(p.x as int, p.z as int, p.y2 as int, class, dx, dz);
        lemma_sweep_in_box(pts, class, n - 1, dx, dz);
        assert(window_writes(pts, class, n) == prev + sw);
        assert forall|i: int| 0 <= i < (prev + sw).len() implies in_box(#[trigger] (prev + sw)[i], segment_box(pts, class)) by {
            if i >= prev.len() {
                assert((prev + sw)[i] == sw[i - prev.len()]);
            } else {
                assert((prev + sw)[i] == prev[i]);
            }
        }
    }
}

/// A segment's box holds every block its placement writes: each write lies
/// within the grade's full cross-section width of some centerline point,
/// and the box is the points' extent padded by that width.
pub proof fn lemma_segment_box_holds_its_writes(seg: Segment)
    requires
        seg.wf(),
    ensures
        forall|i: int|
            0 <= i < segment_writes(seg.spec_points(), seg.spec_class()).len() ==> in_box(
                #[trigger] segment_writes(seg.spec_points(), seg.spec_class())[i],
                segment_box(seg.spec_points(), seg.spec_class()),
            ),
{
    let pts = seg.spec_points();
    let class = seg.spec_class();
    if pts.len() > 0 {
        let n = pts.len() as int;
        assert forall|j: int| #![trigger pts[j]] 0 <= j < pts.len() implies coord_ok(pts[j].x as int) && coord_ok(pts[j].z as int) by {}
        lemma_windows_in_box(pts, class, n - 1);
        let prev = window_writes(pts, class, n - 1);
        let last = pts[n - 1];
        let dx = if n >= 2 { last.x - pts[n - 2].x } else { 1 };
        let dz = if n >= 2 { last.z - pts[n - 2].z } else { 0 };
        let sw = sweep_writes(last.x as int, last.z as int, last.y2 as int, class, dx, dz);
        lemma_sweep_in_box(pts, class, n - 1, dx, dz);
        let all = segment_writes(pts, class);
        assert(all == prev + sw);
        assert forall|i: int| 0 <= i < all.len() implies in_box(#[trigger] all[i], segment_box(pts, class)) by {
            if i >= prev.len() {
                assert(all[i] == sw[i - prev.len()]);
            } else {
                assert(all[i] == prev[i]);
            }
        }
    }
}

/// The blocks a road sweep writes: the roadway and sidewalk concrete, the
/// curb slab, the painted median and the divider bricks.
pub open spec fn is_sweep_block(b: Block) -> bool {
    b == Block::RedConcrete || b == Block::SmoothStoneSlab || b == Block::YellowConcrete || b == Block::StoneBricks
}

/// `w` is a sweep block written at the full-block height of a surface at
/// `y2` half-blocks or one block above it.
pub open spec fn at_surface(w: BlockWrite, y2: int) -> bool {
    y2 / 2 <= w.y <= y2 / 2 + 1 && is_sweep_block(w.block)
}

/// Every write of `s` is a sweep block at the surface `y2`.
pub open spec fn all_at_surface(s: Seq<BlockWrite>, y2: int) -> bool {
    forall|i: int| 0 <= i < s.len() ==> at_surface(#[trigger] s[i], y2)
}

/// `w` lies in the box of segment points `pts` of grade `class` and is a
/// sweep block at the surface of one of the points.
pub open spec fn placed_from(w: BlockWrite, pts: Seq<ProfilePoint>, class: super::RoadClass) -> bool {
    &&& in_box(w, segment_box(pts, class))
    &&& exists|j: int| 0 <= j < pts.len() && at_surface(w, #[trigger] pts[j].y2 as int)
}

proof fn lemma_concat_surface(a: Seq<BlockWrite>, b: Seq<BlockWrite>, y2: int)
    requires
        all_at_surface(a, y2),
        all_at_surface(b, y2),
    ensures
        all_at_surface(a + b, y2),
{
    assert forall|i: int| 0 <= i < (a + b).len() implies at_surface(#[trigger] (a + b)[i], y2) by {
        if i < a.len() {
            assert((a + b)[i] == a[i]);
        } else {
            assert((a + b)[i] == b[i - a.len()]);
        }
    }
}

proof fn lemma_column_surface(band: super::Band, px: int, pz: int, y2: int)
    requires
        coord_ok(y2),
    ensures
        all_at_surface(column_writes(band, px, pz, y2), y2),
{
    let c = column_writes(band, px, pz, y2);
    assert((y2 + 1) / 2 == if y2 % 2 == 0 { y2 / 2 } else { y2 / 2 + 1 });
    assert forall|i: int| 0 <= i < c.len() implies at_surface(#[trigger] c[i], y2) by {}
}

proof fn lemma_prefix_surface(x: int, z: int, y2: int, dx: int, dz: int, cols: Seq<(i32, super::Band)>, n: int)
    requires
        coord_ok(y2),
        n <= cols.len(),
    ensures
        all_at_surface(sweep_prefix(x, z, y2, dx, dz, cols, n), y2),
    decreases n,
{
    if n > 0 {
        lemma_prefix_surface(x, z, y2, dx, dz, cols, n - 1);
        let b = dx * dx + dz * dz;
        let col = cols[n - 1];
        lemma_column_surface(col.1, x + rounded_ratio(-dz * col.0, b), z + rounded_ratio(dx * col.0, b), y2);
        lemma_concat_surface(sweep_prefix(x, z, y2, dx, dz, cols, n - 1), sweep_column(x, z, y2, dx, dz, col), y2);
    }
}

/// A sweep at point `j` of `pts` writes sweep blocks at that point's
/// surface, inside the segment's box.
proof fn lemma_sweep_placed(pts: Seq<ProfilePoint>, class: super::RoadClass, j: int, dx: int, dz: int)
    requires
        0 <= j < pts.len(),
        coord_ok(pts[j].x as int),
        coord_ok(pts[j].z as int),
        coord_ok(pts[j].y2 as int),
    ensures
        forall|i: int|
            0 <= i < sweep_writes(pts[j].x as int, pts[j].z as int, pts[j].y2 as int, class, dx, dz).len() ==> placed_from(
                #[trigger] sweep_writes(pts[j].x as int, pts[j].z as int, pts[j].y2 as int, class, dx, dz)[i],
                pts,
                class,
            ),
{
    let p = pts[j];
    let sw = sweep_writes(p.x as int, p.z as int, p.y2 as int, class, dx, dz);
    lemma_sweep_in_box(pts, class, j, dx, dz);
    lemma_prefix_surface(p.x as int, p.z as int, p.y2 as int, dx, dz, class_columns(class), class_columns(class).len() as int);
    assert forall|i: int| 0 <= i < sw.len() implies placed_from(#[trigger] sw[i], pts, class) by {
        assert(at_surface(sw[i], pts[j].y2 as int));
    }
}

/// Every write of `s` comes from a sweep of the segment `pts`.
pub open spec fn all_placed_from(s: Seq<BlockWrite>, pts: Seq<ProfilePoint>, class: super::RoadClass) -> bool {
    forall|i: int| 0 <= i < s.len() ==> placed_from(#[trigger] s[i], pts, class)
}

proof fn lemma_concat_placed(a: Seq<BlockWrite>, b: Seq<BlockWrite>, pts: Seq<ProfilePoint>, class: super::RoadClass)
    requires
        all_placed_from(a, pts, class),
        all_placed_from(b, pts, class),
    ensures
        all_placed_from(a + b, pts, class),
{
    assert forall|i: int| 0 <= i < (a + b).len() implies placed_from(#[trigger] (a + b)[i], pts, class) by {
        if i < a.len() {
            assert((a + b)[i] == a[i]);
        } else {
            assert((a + b)[i] == b[i - a.len()]);
        }
    }
}

proof fn lemma_windows_placed(pts: Seq<ProfilePoint>, class: super::RoadClass, n: int)
    requires
        0 <= n < pts.len(),
        forall|j: int| #![trigger pts[j]] 0 <= j < pts.len() ==> coord_ok(pts[j].x as int) && coord_ok(pts[j].z as int)
            && coord_ok(pts[j].y2 as int),
    ensures
        all_placed_from(window_writes(pts, class, n), pts, class),
    decreases n,
{
    if n > 0 {
        lemma_windows_placed(pts, class, n - 1);
        let p = pts[n - 1];
        let dx = pts[n].x - p.x;
        let dz = pts[n].z - p.z;
        lemma_sweep_placed(pts, class, n - 1, dx, dz);
        let sw = sweep_writes(p.x as int, p.z as int, p.y2 as int, class, dx, dz);
        assert(all_placed_from(sw, pts, class));
        lemma_concat_placed(window_writes(pts, class, n - 1), sw, pts, class);
        assert(window_writes(pts, class, n) == window_writes(pts, class, n - 1) + sw);
    }
}

/// Every write of one segment's placement lies in the segment's box and is
/// a sweep block at the surface of one of its points.
pub proof fn lemma_segment_writes_placed(seg: Segment)
    requires
        seg.wf(),
    ensures
        all_placed_from(segment_writes(seg.spec_points(), seg.spec_class()), seg.spec_points(), seg.spec_class()),
{
    let pts = seg.spec_points();
    let class = seg.spec_class();
    if pts.len() > 0 {
        let n = pts.len() as int;
        assert forall|j: int| #![trigger pts[j]] 0 <= j < pts.len() implies coord_ok(pts[j].x as int) && coord_ok(
            pts[j].z as int,
        ) && coord_ok(pts[j].y2 as int) by {}
        lemma_windows_placed(pts, class, n - 1);
        let last = pts[n - 1];
        let dx = if n >= 2 { last.x - pts[n - 2].x } else { 1 };
        let dz = if n >= 2 { last.z - pts[n - 2].z } else { 0 };
        lemma_sweep_placed(pts, class, n - 1, dx, dz);
        let sw = sweep_writes(last.x as int, last.z as int, last.y2 as int, class, dx, dz);
        assert(all_placed_from(sw, pts, class));
        lemma_concat_placed(window_writes(pts, class, n - 1), sw, pts, class);
        assert(segment_writes(pts, class) == window_writes(pts, class, n - 1) + sw);
    }
}

/// Road placement reaches no farther than the segments' boxes: every block
/// `place_segments` writes for a list of segments comes from one of them,
/// lies inside that segment's box, and is a roadway, curb, median or
/// divider block at the full-block surface height of one of its points or
/// one block above it.  A segment without points writes nothing.
pub proof fn lemma_road_writes_stay_in_boxes(segs: Seq<&Segment>, n: int)
    requires
        0 <= n <= segs.len(),
        forall|k: int| 0 <= k < segs.len() ==> (#[trigger] segs[k]).wf(),
    ensures
        forall|i: int|
            0 <= i < segments_writes(segs, n).len() ==> exists|k: int|
                0 <= k < n && placed_from(
                    #[trigger] segments_writes(segs, n)[i],
                    (#[trigger] segs[k]).spec_points(),
                    segs[k].spec_class(),
                ),
        forall|i: int| 0 <= i < segments_writes(segs, n).len() ==> is_sweep_block(#[trigger] segments_writes(segs, n)[i].block),
        forall|k: int| 0 <= k < segs.len() && (#[trigger] segs[k]).spec_points().len() == 0 ==> segment_writes(
            segs[k].spec_points(),
            segs[k].spec_class(),
        ).len() == 0,
    decreases n,
{
    lemma_road_writes_placed(segs, n);
    let w = segments_writes(segs, n);
    assert forall|i: int| 0 <= i < w.len() implies is_sweep_block(#[trigger] w[i].block) by {
        let k = choose|k: int| 0 <= k < n && placed_from(w[i], (#[trigger] segs[k]).spec_points(), segs[k].spec_class());
        let pts = segs[k].spec_points();
        let j = choose|j: int| 0 <= j < pts.len() && at_surface(w[i], #[trigger] pts[j].y2 as int);
    }
}

proof fn lemma_road_writes_placed(segs: Seq<&Segment>, n: int)
    requires
        0 <= n <= segs.len(),
        forall|k: int| 0 <= k < segs.len() ==> (#[trigger] segs[k]).wf(),
    ensures
        forall|i: int|
            0 <= i < segments_writes(segs, n).len() ==> exists|k: int|
                0 <= k < n && placed_from(
                    #[trigger] segments_writes(segs, n)[i],
                    (#[trigger] segs[k]).spec_points(),
                    segs[k].spec_class(),
                ),
        forall|k: int| 0 <= k < segs.len() && (#[trigger] segs[k]).spec_points().len() == 0 ==> segment_writes(
            segs[k].spec_points(),
            segs[k].spec_class(),
        ).len() == 0,
    decreases n,
{
    if n > 0 {
        lemma_road_writes_placed(segs, n - 1);
        let s = segs[n - 1];
        assert(s.wf());
        lemma_segment_writes_placed(*s);
        let a = segments_writes(segs, n - 1);
        let b = segment_writes(s.spec_points(), s.spec_class());
        assert(segments_writes(segs, n) == a + b);
        assert forall|i: int| 0 <= i < (a + b).len() implies exists|k: int|
            0 <= k < n && placed_from(#[trigger] (a + b)[i], (#[trigger] segs[k]).spec_points(), segs[k].spec_class()) by {
            if i < a.len() {
                assert((a + b)[i] == a[i]);
                let k = choose|k: int| 0 <= k < n - 1 && placed_from(a[i], (#[trigger] segs[k]).spec_points(), segs[k].spec_class());
                assert(placed_from((a + b)[i], segs[k].spec_points(), segs[k].spec_class()));
            } else {
                assert((a + b)[i] == b[i - a.len()]);
                assert(placed_from((a + b)[i], segs[n - 1].spec_points(), segs[n - 1].spec_class()));
            }
        }
    }
}

} // verus!
