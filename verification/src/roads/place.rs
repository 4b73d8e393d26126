//! Writing a solved road network into the world: the cross-section swept
//! across the perpendicular at every centerline point, and the continuity
//! check over what was written.

use super::{
    class_width, cross_section_layout, layout_column, median_bands, repeat_band, section_bands,
    section_spec, spec_section, Band, ProfilePoint, RoadClass, Segment,
};
use crate::world::{write_of, Block, BlockWrite, WorldEditor};
use vstd::prelude::*;

verus! {

/// `r` is the integer nearest to `a / √b` (for `b > 0`), halves rounded
/// away from zero.
pub open spec fn is_rounded_ratio(r: int, a: int, b: int) -> bool {
    let k = if r < 0 { -r } else { r };
    &&& (a > 0 ==> r >= 0)
    &&& (a < 0 ==> r <= 0)
    &&& (k == 0 || (2 * k - 1) * (2 * k - 1) * b <= 4 * a * a)
    &&& 4 * a * a < (2 * k + 1) * (2 * k + 1) * b
}

/// `a / √b` rounded to the nearest integer, halves away from zero; `0` when
/// `b` is `0` (a zero-length direction has a zero perpendicular).
pub open spec fn rounded_ratio(a: int, b: int) -> int {
    if b <= 0 {
        0
    } else {
        choose|r: int| is_rounded_ratio(r, a, b)
    }
}

proof fn lemma_rounded_ratio_unique(r1: int, r2: int, a: int, b: int)
    requires
        b >= 1,
        is_rounded_ratio(r1, a, b),
        is_rounded_ratio(r2, a, b),
    ensures
        r1 == r2,
{
    let k1 = if r1 < 0 { -r1 } else { r1 };
    let k2 = if r2 < 0 { -r2 } else { r2 };
    if k1 < k2 {
        assert((2 * k1 + 1) * (2 * k1 + 1) * b <= (2 * k2 - 1) * (2 * k2 - 1) * b) by (nonlinear_arith)
            requires
                0 <= k1 < k2,
                b >= 1,
        ;
    }
    if k2 < k1 {
        assert((2 * k2 + 1) * (2 * k2 + 1) * b <= (2 * k1 - 1) * (2 * k1 - 1) * b) by (nonlinear_arith)
            requires
                0 <= k2 < k1,
                b >= 1,
        ;
    }
    if a == 0 {
        assert(k1 == 0) by (nonlinear_arith)
            requires
                k1 >= 0,
                b >= 1,
                k1 == 0 || (2 * k1 - 1) * (2 * k1 - 1) * b <= 4 * a * a,
                a == 0,
        ;
        assert(k2 == 0) by (nonlinear_arith)
            requires
                k2 >= 0,
                b >= 1,
                k2 == 0 || (2 * k2 - 1) * (2 * k2 - 1) * b <= 4 * a * a,
                a == 0,
        ;
    }
}

pub(crate) proof fn lemma_rounded_ratio_is(r: int, a: int, b: int)
    requires
        b >= 1,
        is_rounded_ratio(r, a, b),
    ensures
        rounded_ratio(a, b) == r,
{
    let c = choose|q: int| is_rounded_ratio(q, a, b);
    assert(is_rounded_ratio(c, a, b));
    lemma_rounded_ratio_unique(r, c, a, b);
}

/// The nearest integer to `a / √b`, halves away from zero, for a ratio of
/// at most 25 in magnitude.
fn round_ratio(a: i128, b: i128) -> (r: i32)
    requires
        1 <= b <= 100_000_000_000_000_000_000,
        a * a <= 625 * b,
    ensures
        is_rounded_ratio(r as int, a as int, b as int),
        -25 <= r <= 25,
{
    assert(a * a <= 62_500_000_000_000_000_000_000) by (nonlinear_arith)
        requires
            a * a <= 625 * b,
            b <= 100_000_000_000_000_000_000,
    ;
    assert(a * a >= 0) by (nonlinear_arith);
    let q: i128 = 4 * (a * a);
    assert(q == 4 * a * a) by (nonlinear_arith)
        requires
            q == 4 * (a * a),
    ;
    let mut k: i128 = 0;
    let mut sq: i128 = b;
    assert(sq == (2 * k + 1) * (2 * k + 1) * b) by (nonlinear_arith)
        requires
            k == 0,
            sq == b,
    ;
    while sq <= q
        invariant
            0 <= k <= 25,
            1 <= b <= 100_000_000_000_000_000_000,
            q == 4 * a * a,
            a * a <= 625 * b,
            k == 0 || (2 * k - 1) * (2 * k - 1) * b <= q,
            sq == (2 * k + 1) * (2 * k + 1) * b,
        decreases 26 - k,
    {
        assert(k <= 24) by (nonlinear_arith)
            requires
                (2 * k + 1) * (2 * k + 1) * b <= q,
                q == 4 * a * a,
                a * a <= 625 * b,
                b >= 1,
                k >= 0,
        ;
        k = k + 1;
        assert((2 * k + 1) * (2 * k + 1) <= 2601) by (nonlinear_arith)
            requires
                1 <= k <= 25,
        ;
        let t: i128 = (2 * k + 1) * (2 * k + 1);
        assert(t * b <= 260_100_000_000_000_000_000_000) by (nonlinear_arith)
            requires
                1 <= k <= 25,
                t == (2 * k + 1) * (2 * k + 1),
                1 <= b <= 100_000_000_000_000_000_000,
        ;
        sq = t * b;
    }
    let r = if a < 0 {
        -(k as i32)
    } else {
        k as i32
    };
    assert(is_rounded_ratio(r as int, a as int, b as int));
    r
}

/// Floor division and non-negative remainder of `v` by 2.
fn halve_floor(v: i32) -> (r: (i32, i32))
    ensures
        r.0 == v as int / 2,
        r.1 == v as int % 2,
{
    let q = v / 2;
    let m = v % 2;
    if m < 0 {
        assert((q - 1) * 2 + (m + 2) == v);
        (q - 1, m + 2)
    } else {
        assert(q * 2 + m == v);
        (q, m)
    }
}

/// A full block at height `y`, and on top of it a second block (`top`)
/// when the surface sits half a block higher.
pub open spec fn full_and_half(full: Block, top: Block, px: int, pz: int, y: int, half: bool) -> Seq<BlockWrite> {
    seq![write_of(full, px, y, pz)] + if half {
        seq![write_of(top, px, y + 1, pz)]
    } else {
        Seq::empty()
    }
}

/// The writes of one cross-section column at `(px, pz)` for a surface at
/// `y2` half-blocks: roadway and sidewalk in red concrete (so roads stand
/// out in the top-down preview), curb in smooth stone slab, painted median
/// in yellow concrete, divider in stone bricks; the sidewalk sits one
/// half-block above the roadway and is topped with a slab when it ends on
/// a half-block.
pub open spec fn column_writes(band: Band, px: int, pz: int, y2: int) -> Seq<BlockWrite> {
    let y = y2 / 2;
    let half = y2 % 2 == 1;
    match band {
        Band::Sidewalk => {
            let s = y2 + 1;
            seq![write_of(Block::RedConcrete, px, s / 2, pz)] + if s % 2 == 1 {
                seq![write_of(Block::SmoothStoneSlab, px, s / 2 + 1, pz)]
            } else {
                Seq::empty()
            }
        },
        Band::Curb => full_and_half(Block::SmoothStoneSlab, Block::SmoothStoneSlab, px, pz, y, half),
        Band::MedianPaint => full_and_half(Block::YellowConcrete, Block::YellowConcrete, px, pz, y, half),
        Band::MedianPhysical => full_and_half(Block::StoneBricks, Block::StoneBricks, px, pz, y, half),
        Band::Shoulder | Band::Carriage => full_and_half(Block::RedConcrete, Block::RedConcrete, px, pz, y, half),
    }
}

/// The writes of one layout column `col = (offset, band)` swept from the
/// centerline point `(x, z)` along the perpendicular of the direction
/// `(dx, dz)`: the column lands at `x + round(-dz·offset/|d|)`,
/// `z + round(dx·offset/|d|)`.
pub open spec fn sweep_column(x: int, z: int, y2: int, dx: int, dz: int, col: (i32, Band)) -> Seq<BlockWrite> {
    let b = dx * dx + dz * dz;
    column_writes(
        col.1,
        x + rounded_ratio(-dz * col.0, b),
        z + rounded_ratio(dx * col.0, b),
        y2,
    )
}

/// The writes of the first `n` layout columns, in order.
pub open spec fn sweep_prefix(x: int, z: int, y2: int, dx: int, dz: int, cols: Seq<(i32, Band)>, n: int) -> Seq<BlockWrite>
    decreases n,
{
    if n <= 0 {
        Seq::empty()
    } else {
        sweep_prefix(x, z, y2, dx, dz, cols, n - 1) + sweep_column(x, z, y2, dx, dz, cols[n - 1])
    }
}

/// The layout columns of a grade's cross-section.
pub open spec fn class_columns(class: RoadClass) -> Seq<(i32, Band)> {
    let bands = section_bands(spec_section(class));
    Seq::new(bands.len(), |i: int| layout_column(bands, i))
}

/// Everything one sweep of `class` at `(x, z, y2)` along `(dx, dz)` writes.
pub open spec fn sweep_writes(x: int, z: int, y2: int, class: RoadClass, dx: int, dz: int) -> Seq<BlockWrite> {
    sweep_prefix(x, z, y2, dx, dz, class_columns(class), class_columns(class).len() as int)
}

pub(crate) proof fn lemma_section_width(class: RoadClass)
    ensures
        section_bands(spec_section(class)).len() == class_width(class),
        class_width(class) <= 50,
{
    let s = spec_section(class);
    assert(median_bands(s.median_total as int).len() == s.median_total);
}

/// Each band has its own material: a painted-median column is yellow
/// concrete from the surface up, a roadway column red concrete, a curb
/// smooth stone slab and a divider stone bricks, so the centre line stands
/// apart from the carriageway on either side; the sidewalk is red concrete
/// raised half a block above the roadway.
pub proof fn lemma_band_colours(px: int, pz: int, y2: int)
    ensures
        forall|i: int|
            0 <= i < column_writes(Band::MedianPaint, px, pz, y2).len() ==> (#[trigger] column_writes(
                Band::MedianPaint,
                px,
                pz,
                y2,
            )[i]).block == Block::YellowConcrete,
        forall|i: int|
            0 <= i < column_writes(Band::Carriage, px, pz, y2).len() ==> (#[trigger] column_writes(
                Band::Carriage,
                px,
                pz,
                y2,
            )[i]).block == Block::RedConcrete,
        forall|i: int|
            0 <= i < column_writes(Band::Curb, px, pz, y2).len() ==> (#[trigger] column_writes(
                Band::Curb,
                px,
                pz,
                y2,
            )[i]).block == Block::SmoothStoneSlab,
        forall|i: int|
            0 <= i < column_writes(Band::MedianPhysical, px, pz, y2).len() ==> (#[trigger] column_writes(
                Band::MedianPhysical,
                px,
                pz,
                y2,
            )[i]).block == Block::StoneBricks,
        column_writes(Band::MedianPaint, px, pz, y2).len() >= 1,
        column_writes(Band::MedianPaint, px, pz, y2)[0] == write_of(Block::YellowConcrete, px, y2 / 2, pz),
        column_writes(Band::MedianPhysical, px, pz, y2)[0] == write_of(Block::StoneBricks, px, y2 / 2, pz),
        column_writes(Band::Carriage, px, pz, y2)[0] == write_of(Block::RedConcrete, px, y2 / 2, pz),
        column_writes(Band::Sidewalk, px, pz, y2)[0] == write_of(Block::RedConcrete, px, (y2 + 1) / 2, pz),
        Block::YellowConcrete != Block::RedConcrete,
{
}

proof fn lemma_zero_ratio(b: int)
    ensures
        rounded_ratio(0, b) == 0,
{
    if b > 0 {
        assert(4 * 0int * 0int < (2 * 0int + 1) * (2 * 0int + 1) * b) by (nonlinear_arith)
            requires
                b > 0,
        ;
        assert(is_rounded_ratio(0, 0, b));
        let r = choose|r: int| is_rounded_ratio(r, 0, b);
        lemma_rounded_ratio_unique(r, 0, 0, b);
    }
}

/// The writes of column `k` appear in every prefix that takes it in.
proof fn lemma_prefix_has_column(
    x: int,
    z: int,
    y2: int,
    dx: int,
    dz: int,
    cols: Seq<(i32, Band)>,
    n: int,
    k: int,
    j: int,
)
    requires
        0 <= k < n <= cols.len(),
        0 <= j < sweep_column(x, z, y2, dx, dz, cols[k]).len(),
    ensures
        sweep_prefix(x, z, y2, dx, dz, cols, n).contains(sweep_column(x, z, y2, dx, dz, cols[k])[j]),
    decreases n,
{
    let prev = sweep_prefix(x, z, y2, dx, dz, cols, n - 1);
    let last = sweep_column(x, z, y2, dx, dz, cols[n - 1]);
    assert(sweep_prefix(x, z, y2, dx, dz, cols, n) == prev + last);
    if k < n - 1 {
        lemma_prefix_has_column(x, z, y2, dx, dz, cols, n - 1, k, j);
        let i = choose|i: int| 0 <= i < prev.len() && prev[i] == sweep_column(x, z, y2, dx, dz, cols[k])[j];
        assert((prev + last)[i] == prev[i]);
    } else {
        assert((prev + last)[prev.len() + j] == last[j]);
    }
}

/// The centre of every sweep shows the grade's median: grades A and B
/// write a stone-brick divider on the centerline point, grades C and D a
/// painted yellow centre line, and grades E and F, which have no median,
/// red roadway; each at the full-block surface height, whatever the sweep
/// direction.
pub proof fn lemma_centre_line_painted(x: int, z: int, y2: int, class: RoadClass, dx: int, dz: int)
    ensures
        class == RoadClass::C || class == RoadClass::D ==> sweep_writes(x, z, y2, class, dx, dz).contains(
            write_of(Block::YellowConcrete, x, y2 / 2, z),
        ),
        class == RoadClass::A || class == RoadClass::B ==> sweep_writes(x, z, y2, class, dx, dz).contains(
            write_of(Block::StoneBricks, x, y2 / 2, z),
        ),
        class == RoadClass::E || class == RoadClass::F ==> sweep_writes(x, z, y2, class, dx, dz).contains(
            write_of(Block::RedConcrete, x, y2 / 2, z),
        ),
{
    let bands = section_bands(spec_section(class));
    let cols = class_columns(class);
    let centre: int = match class {
        RoadClass::A | RoadClass::B => 25,
        RoadClass::C => 15,
        RoadClass::D | RoadClass::E => 10,
        RoadClass::F => 4,
    };
    let band = match class {
        RoadClass::A | RoadClass::B => Band::MedianPhysical,
        RoadClass::C | RoadClass::D => Band::MedianPaint,
        RoadClass::E | RoadClass::F => Band::Carriage,
    };
    assert(bands.len() / 2 == centre);
    assert(bands[centre] == band);
    assert(cols[centre] == layout_column(bands, centre));
    assert(cols[centre] == (0i32, band));
    lemma_zero_ratio(dx * dx + dz * dz);
    assert(-dz * 0 == 0 && dx * 0 == 0);
    let c = sweep_column(x, z, y2, dx, dz, cols[centre]);
    assert(c == column_writes(band, x, z, y2));
    lemma_band_colours(x, z, y2);
    lemma_prefix_has_column(x, z, y2, dx, dz, cols, cols.len() as int, centre, 0);
}

/// Coordinates the sweep handles: well inside the `i32` range.
pub open spec fn sweep_ok(v: int) -> bool {
    -2_147_483_000 <= v <= 2_147_483_000
}

/// Sweeps the fixed cross-section of `class` across the perpendicular of
/// `(dx, dz)` at the centerline point `(x, z)`, writing each column at
/// the surface height `y2` (half-blocks).
pub fn sweep_and_place(editor: &mut WorldEditor, x: i32, z: i32, y2: i32, class: RoadClass, dx: i64, dz: i64)
    requires
        sweep_ok(x as int),
        sweep_ok(z as int),
        sweep_ok(y2 as int),
        -4_294_967_296 <= dx <= 4_294_967_296,
        -4_294_967_296 <= dz <= 4_294_967_296,
    ensures
        final(editor)@ == old(editor)@ + sweep_writes(x as int, z as int, y2 as int, class, dx as int, dz as int),
{
    let spec = section_spec(class);
    let cols = cross_section_layout(&spec);
    proof {
        lemma_section_width(class);
        assert(cols@ =~= class_columns(class));
    }
    let (y_full, rem) = halve_floor(y2);
    let has_slab = rem == 1;
    let (s_full, s_rem) = halve_floor(y2 + 1);
    let dxx = dx as i128;
    let dzz = dz as i128;
    assert(dxx * dxx <= 18_446_744_073_709_551_616) by (nonlinear_arith)
        requires
            -4_294_967_296 <= dxx <= 4_294_967_296,
    ;
    assert(dzz * dzz <= 18_446_744_073_709_551_616) by (nonlinear_arith)
        requires
            -4_294_967_296 <= dzz <= 4_294_967_296,
    ;
    assert(dxx * dxx >= 0 && dzz * dzz >= 0) by (nonlinear_arith);
    let b: i128 = dxx * dxx + dzz * dzz;
    let ghost start = editor@;
    let ghost all_cols = class_columns(class);
    let n = cols.len();
    let mut i: usize = 0;
    while i < n
        invariant
            n == cols@.len(),
            cols@ == all_cols,
            all_cols == class_columns(class),
            n <= 50,
            i <= n,
            sweep_ok(x as int),
            sweep_ok(z as int),
            sweep_ok(y2 as int),
            -4_294_967_296 <= dxx <= 4_294_967_296,
            -4_294_967_296 <= dzz <= 4_294_967_296,
            dxx == dx,
            dzz == dz,
            b == dxx * dxx + dzz * dzz,
            0 <= b <= 36_893_488_147_419_103_232,
            y_full == y2 as int / 2,
            has_slab == (y2 as int % 2 == 1),
            s_full == (y2 as int + 1) / 2,
            s_rem == (y2 as int + 1) % 2,
            editor@ == start + sweep_prefix(x as int, z as int, y2 as int, dx as int, dz as int, all_cols, i as int),
        decreases n - i,
    {
        let (off, band) = cols[i];
        assert(-25 <= off <= 25) by {
            assert(all_cols[i as int] == layout_column(section_bands(spec_section(class)), i as int));
        }
        let o = off as i128;
        let (ox, oz) = if b == 0 {
            (0i32, 0i32)
        } else {
            assert(-200_000_000_000 <= -dzz * o <= 200_000_000_000) by (nonlinear_arith)
                requires
                    -4_294_967_296 <= dzz <= 4_294_967_296,
                    -25 <= o <= 25,
            ;
            assert(-200_000_000_000 <= dxx * o <= 200_000_000_000) by (nonlinear_arith)
                requires
                    -4_294_967_296 <= dxx <= 4_294_967_296,
                    -25 <= o <= 25,
            ;
            let ax: i128 = -dzz * o;
            let az: i128 = dxx * o;
            assert(ax * ax <= 625 * b) by (nonlinear_arith)
                requires
                    ax == -dzz * o,
                    -25 <= o <= 25,
                    b == dxx * dxx + dzz * dzz,
            ;
            assert(az * az <= 625 * b) by (nonlinear_arith)
                requires
                    az == dxx * o,
                    -25 <= o <= 25,
                    b == dxx * dxx + dzz * dzz,
            ;
            let rx = round_ratio(ax, b);
            let rz = round_ratio(az, b);
            proof {
                lemma_rounded_ratio_is(rx as int, ax as int, b as int);
                lemma_rounded_ratio_is(rz as int, az as int, b as int);
            }
            (rx, rz)
        };
        assert(ox == rounded_ratio(-dz * off, dx * dx + dz * dz));
        assert(oz == rounded_ratio(dx * off, dx * dx + dz * dz));
        let px = x + ox;
        let pz = z + oz;
        match band {
            Band::Sidewalk => {
                editor.set_block_absolute(Block::RedConcrete, px, s_full, pz);
                if s_rem == 1 {
                    editor.set_block_absolute(Block::SmoothStoneSlab, px, s_full + 1, pz);
                }
            },
            Band::Curb => {
                editor.set_block_absolute(Block::SmoothStoneSlab, px, y_full, pz);
                if has_slab {
                    editor.set_block_absolute(Block::SmoothStoneSlab, px, y_full + 1, pz);
                }
            },
            Band::MedianPaint => {
                editor.set_block_absolute(Block::YellowConcrete, px, y_full, pz);
                if has_slab {
                    editor.set_block_absolute(Block::YellowConcrete, px, y_full + 1, pz);
                }
            },
            Band::MedianPhysical => {
                editor.set_block_absolute(Block::StoneBricks, px, y_full, pz);
                if has_slab {
                    editor.set_block_absolute(Block::StoneBricks, px, y_full + 1, pz);
                }
            },
            Band::Shoulder | Band::Carriage => {
                editor.set_block_absolute(Block::RedConcrete, px, y_full, pz);
                if has_slab {
                    editor.set_block_absolute(Block::RedConcrete, px, y_full + 1, pz);
                }
            },
        }
        assert(editor@ =~= start + sweep_prefix(x as int, z as int, y2 as int, dx as int, dz as int, all_cols, i + 1));
        i += 1;
    }
}

/// The sweeps along the first `n` windows of consecutive points: each
/// window sweeps at its first point, along the step to its second.
pub open spec fn window_writes(pts: Seq<ProfilePoint>, class: RoadClass, n: int) -> Seq<BlockWrite>
    decreases n,
{
    if n <= 0 {
        Seq::empty()
    } else {
        window_writes(pts, class, n - 1) + sweep_writes(
            pts[n - 1].x as int,
            pts[n - 1].z as int,
            pts[n - 1].y2 as int,
            class,
            pts[n].x - pts[n - 1].x,
            pts[n].z - pts[n - 1].z,
        )
    }
}

/// Everything placing one segment writes: a sweep at every point but the
/// last along the step to the next point, then one at the last point along
/// the step that reached it (along `+x` for a single-point segment).
pub open spec fn segment_writes(pts: Seq<ProfilePoint>, class: RoadClass) -> Seq<BlockWrite> {
    if pts.len() == 0 {
        Seq::empty()
    } else {
        let n = pts.len() as int;
        let last = pts[n - 1];
        let dx = if n >= 2 { last.x - pts[n - 2].x } else { 1 };
        let dz = if n >= 2 { last.z - pts[n - 2].z } else { 0 };
        window_writes(pts, class, n - 1) + sweep_writes(last.x as int, last.z as int, last.y2 as int, class, dx, dz)
    }
}

/// Everything placing the first `n` segments writes, in order.
pub open spec fn segments_writes(segs: Seq<&Segment>, n: int) -> Seq<BlockWrite>
    decreases n,
{
    if n <= 0 {
        Seq::empty()
    } else {
        segments_writes(segs, n - 1) + segment_writes(segs[n - 1].spec_points(), segs[n - 1].spec_class())
    }
}

/// Sweeps and writes blocks for every point of every segment, in order.
pub fn place_segments(editor: &mut WorldEditor, segments: &[&Segment])
    ensures
        final(editor)@ == old(editor)@ + segments_writes(segments@, segments@.len() as int),
{
    let ghost start = editor@;
    let mut s: usize = 0;
    while s < segments.len()
        invariant
            s <= segments@.len(),
            editor@ == start + segments_writes(segments@, s as int),
        decreases segments.len() - s,
    {
        let seg: &Segment = segments[s];
        proof {
            use_type_invariant(seg);
        }
        let pts = seg.points();
        let class = seg.class();
        let ghost before = editor@;
        let n = pts.len();
        let mut j: usize = 0;
        while j + 1 < n
            invariant
                n == pts@.len(),
                pts@ == seg.spec_points(),
                seg.wf(),
                j < n || n == 0,
                j == 0 || j < n,
                editor@ == before + window_writes(pts@, class, j as int),
            decreases n - j,
        {
            let p = pts[j];
            let q = pts[j + 1];
            assert(sweep_ok(p.x as int) && sweep_ok(p.z as int) && sweep_ok(p.y2 as int)) by {
                assert(super::coord_ok(seg.spec_points()[j as int].x as int));
            }
            assert(sweep_ok(q.x as int) && sweep_ok(q.z as int)) by {
                assert(super::coord_ok(seg.spec_points()[j + 1].x as int));
            }
            sweep_and_place(editor, p.x, p.z, p.y2, class, (q.x as i64) - (p.x as i64), (q.z as i64) - (p.z as i64));
            j += 1;
        }
        if n >= 1 {
            let last = pts[n - 1];
            let (dx, dz) = if n >= 2 {
                let p = pts[n - 2];
                assert(sweep_ok(p.x as int) && sweep_ok(p.z as int)) by {
                    assert(super::coord_ok(seg.spec_points()[n - 2].x as int));
                }
                ((last.x as i64) - (p.x as i64), (last.z as i64) - (p.z as i64))
            } else {
                (1i64, 0i64)
            };
            assert(sweep_ok(last.x as int) && sweep_ok(last.z as int) && sweep_ok(last.y2 as int)) by {
                assert(super::coord_ok(seg.spec_points()[n - 1].x as int));
            }
            assert(j == n - 1);
            sweep_and_place(editor, last.x, last.z, last.y2, class, dx, dz);
        }
        assert(editor@ =~= start + segments_writes(segments@, s + 1));
        s += 1;
    }
}

/// The block that the last write to `(x, y, z)` in `log` put there, if
/// any write reached that position.
pub open spec fn last_write_at(log: Seq<BlockWrite>, x: int, y: int, z: int) -> Option<Block>
    decreases log.len(),
{
    if log.len() == 0 {
        None
    } else if log.last().x == x && log.last().y == y && log.last().z == z {
        Some(log.last().block)
    } else {
        last_write_at(log.drop_last(), x, y, z)
    }
}

/// The blocks a road sweep may leave at a centerline point: the roadway,
/// curb and median materials, plus the weathered-asphalt palette.
pub open spec fn is_road_family(b: Block) -> bool {
    matches!(b, Block::GrayConcrete | Block::LightGrayConcrete | Block::PolishedAndesite
        | Block::BlackConcrete | Block::SmoothStoneSlab | Block::StoneBricks | Block::YellowConcrete
        | Block::RedConcrete)
}

/// Whether a road-family block was written within one block of the
/// point's full-block height.
pub open spec fn road_written_near(log: Seq<BlockWrite>, p: ProfilePoint) -> bool {
    let y = p.y2 / 2;
    ||| (last_write_at(log, p.x as int, y - 1, p.z as int) matches Some(b) && is_road_family(b))
    ||| (last_write_at(log, p.x as int, y, p.z as int) matches Some(b) && is_road_family(b))
    ||| (last_write_at(log, p.x as int, y + 1, p.z as int) matches Some(b) && is_road_family(b))
}

/// Whether `p` lies in the owned area `(min_x, min_z, max_x, max_z)`, max
/// exclusive.
pub open spec fn owns(owned: (i32, i32, i32, i32), p: ProfilePoint) -> bool {
    owned.0 <= p.x < owned.2 && owned.1 <= p.z < owned.3
}

/// The owned points among the first `n` of `pts` with no road block near
/// them, in order.
pub open spec fn unplaced_points(log: Seq<BlockWrite>, pts: Seq<ProfilePoint>, owned: (i32, i32, i32, i32), n: int) -> Seq<(i32, i32)>
    decreases n,
{
    if n <= 0 {
        Seq::empty()
    } else {
        let p = pts[n - 1];
        unplaced_points(log, pts, owned, n - 1) + if owns(owned, p) && !road_written_near(log, p) {
            seq![(p.x, p.z)]
        } else {
            Seq::empty()
        }
    }
}

/// The unplaced points of the first `n` segments, in order.
pub open spec fn unplaced_in(log: Seq<BlockWrite>, segs: Seq<&Segment>, owned: (i32, i32, i32, i32), n: int) -> Seq<(i32, i32)>
    decreases n,
{
    if n <= 0 {
        Seq::empty()
    } else {
        unplaced_in(log, segs, owned, n - 1) + unplaced_points(
            log,
            segs[n - 1].spec_points(),
            owned,
            segs[n - 1].spec_points().len() as int,
        )
    }
}

fn block_at(writes: &[BlockWrite], x: i32, y: i32, z: i32) -> (r: Option<Block>)
    ensures
        r == last_write_at(writes@, x as int, y as int, z as int),
{
    let mut i: usize = writes.len();
    assert(writes@.take(i as int) =~= writes@);
    while i > 0
        invariant
            i <= writes@.len(),
            last_write_at(writes@, x as int, y as int, z as int) == last_write_at(
                writes@.take(i as int),
                x as int,
                y as int,
                z as int,
            ),
        decreases i,
    {
        let w = writes[i - 1];
        assert(writes@.take(i as int).last() == w);
        assert(writes@.take(i as int).drop_last() =~= writes@.take(i - 1));
        if w.x == x && w.y == y && w.z == z {
            return Some(w.block);
        }
        i -= 1;
    }
    None
}

fn is_road_block(b: Block) -> (r: bool)
    ensures
        r == is_road_family(b),
{
    match b {
        Block::GrayConcrete | Block::LightGrayConcrete | Block::PolishedAndesite | Block::BlackConcrete
        | Block::SmoothStoneSlab | Block::StoneBricks | Block::YellowConcrete | Block::RedConcrete => true,
        _ => false,
    }
}

/// The road-continuity check over what was written: every centerline point
/// in the owned area `(min_x, min_z, max_x, max_z)` (max exclusive) whose
/// full-block height, or the block just above or below it, did not end up
/// holding a road-family block.  Positions the log never wrote read as
/// holding nothing.  Returns those points in order.
pub fn verify_placement(editor: &WorldEditor, segments: &[&Segment], owned: (i32, i32, i32, i32)) -> (r: Vec<(i32, i32)>)
    ensures
        r@ == unplaced_in(editor@, segments@, owned, segments@.len() as int),
{
    let writes = editor.writes();
    let (min_x, min_z, max_x, max_z) = owned;
    let mut out: Vec<(i32, i32)> = Vec::new();
    let mut s: usize = 0;
    while s < segments.len()
        invariant
            s <= segments@.len(),
            writes@ == editor@,
            owned == (min_x, min_z, max_x, max_z),
            out@ == unplaced_in(editor@, segments@, owned, s as int),
        decreases segments.len() - s,
    {
        let seg: &Segment = segments[s];
        proof {
            use_type_invariant(seg);
        }
        let pts = seg.points();
        let ghost before = out@;
        let mut j: usize = 0;
        while j < pts.len()
            invariant
                j <= pts@.len(),
                pts@ == seg.spec_points(),
                seg.wf(),
                writes@ == editor@,
                owned == (min_x, min_z, max_x, max_z),
                out@ == before + unplaced_points(editor@, pts@, owned, j as int),
            decreases pts.len() - j,
        {
            let p = pts[j];
            assert(super::coord_ok(seg.spec_points()[j as int].x as int));
            if !(p.x < min_x || p.x >= max_x || p.z < min_z || p.z >= max_z) {
                let (y_full, _) = halve_floor(p.y2);
                let below = block_at(writes, p.x, y_full - 1, p.z);
                let at = block_at(writes, p.x, y_full, p.z);
                let above = block_at(writes, p.x, y_full + 1, p.z);
                let found = (match below {
                    Some(b) => is_road_block(b),
                    None => false,
                }) || (match at {
                    Some(b) => is_road_block(b),
                    None => false,
                }) || (match above {
                    Some(b) => is_road_block(b),
                    None => false,
                });
                if !found {
                    out.push((p.x, p.z));
                }
            }
            assert(out@ =~= before + unplaced_points(editor@, pts@, owned, j + 1));
            j += 1;
        }
        assert(out@ =~= unplaced_in(editor@, segments@, owned, s + 1));
        s += 1;
    }
    out
}

/// Every write in `log` puts a road-family block.
pub open spec fn all_road(log: Seq<BlockWrite>) -> bool {
    forall|k: int| 0 <= k < log.len() ==> is_road_family(#[trigger] log[k].block)
}

proof fn lemma_last_write_append(a: Seq<BlockWrite>, m: Seq<BlockWrite>, x: int, y: int, z: int)
    ensures
        last_write_at(a + m, x, y, z) == (match last_write_at(m, x, y, z) {
            Some(b) => Some(b),
            None => last_write_at(a, x, y, z),
        }),
    decreases m.len(),
{
    if m.len() == 0 {
        assert(a + m =~= a);
    } else {
        assert((a + m).drop_last() =~= a + m.drop_last());
        lemma_last_write_append(a, m.drop_last(), x, y, z);
    }
}

proof fn lemma_last_write_road(m: Seq<BlockWrite>, x: int, y: int, z: int)
    requires
        all_road(m),
    ensures
        last_write_at(m, x, y, z) matches Some(b) ==> is_road_family(b),
    decreases m.len(),
{
    if m.len() > 0 {
        assert(all_road(m.drop_last()));
        lemma_last_write_road(m.drop_last(), x, y, z);
    }
}

proof fn lemma_near_preserved(a: Seq<BlockWrite>, m: Seq<BlockWrite>, p: ProfilePoint)
    requires
        road_written_near(a, p),
        all_road(m),
    ensures
        road_written_near(a + m, p),
{
    let y = p.y2 / 2;
    lemma_last_write_append(a, m, p.x as int, y - 1, p.z as int);
    lemma_last_write_append(a, m, p.x as int, y, p.z as int);
    lemma_last_write_append(a, m, p.x as int, y + 1, p.z as int);
    lemma_last_write_road(m, p.x as int, y - 1, p.z as int);
    lemma_last_write_road(m, p.x as int, y, p.z as int);
    lemma_last_write_road(m, p.x as int, y + 1, p.z as int);
}

proof fn lemma_sweep_prefix_road(x: int, z: int, y2: int, dx: int, dz: int, cols: Seq<(i32, Band)>, n: int)
    ensures
        all_road(sweep_prefix(x, z, y2, dx, dz, cols, n)),
    decreases n,
{
    if n > 0 {
        lemma_sweep_prefix_road(x, z, y2, dx, dz, cols, n - 1);
        let a = sweep_prefix(x, z, y2, dx, dz, cols, n - 1);
        let c = sweep_column(x, z, y2, dx, dz, cols[n - 1]);
        assert(all_road(c));
        assert forall|k: int| 0 <= k < (a + c).len() implies is_road_family(#[trigger] (a + c)[k].block) by {
            if k >= a.len() {
                assert((a + c)[k] == c[k - a.len()]);
            }
        }
    }
}

proof fn lemma_all_road_concat(a: Seq<BlockWrite>, b: Seq<BlockWrite>)
    requires
        all_road(a),
        all_road(b),
    ensures
        all_road(a + b),
{
    assert forall|k: int| 0 <= k < (a + b).len() implies is_road_family(#[trigger] (a + b)[k].block) by {
        if k >= a.len() {
            assert((a + b)[k] == b[k - a.len()]);
        }
    }
}

proof fn lemma_sweep_road(x: int, z: int, y2: int, class: RoadClass, dx: int, dz: int)
    ensures
        all_road(sweep_writes(x, z, y2, class, dx, dz)),
{
    lemma_sweep_prefix_road(x, z, y2, dx, dz, class_columns(class), class_columns(class).len() as int);
}

proof fn lemma_sweep_prefix_split(x: int, z: int, y2: int, dx: int, dz: int, cols: Seq<(i32, Band)>, i: int, n: int)
    requires
        0 <= i < n,
    ensures
        exists|a: Seq<BlockWrite>, b: Seq<BlockWrite>|
            sweep_prefix(x, z, y2, dx, dz, cols, n) == a + sweep_column(x, z, y2, dx, dz, cols[i]) + b && all_road(b),
    decreases n,
{
    if i == n - 1 {
        let a = sweep_prefix(x, z, y2, dx, dz, cols, n - 1);
        let e = Seq::<BlockWrite>::empty();
        assert(sweep_prefix(x, z, y2, dx, dz, cols, n) =~= a + sweep_column(x, z, y2, dx, dz, cols[i]) + e);
    } else {
        lemma_sweep_prefix_split(x, z, y2, dx, dz, cols, i, n - 1);
        let (a, b) = choose|a: Seq<BlockWrite>, b: Seq<BlockWrite>|
            sweep_prefix(x, z, y2, dx, dz, cols, n - 1) == a + sweep_column(x, z, y2, dx, dz, cols[i]) + b && all_road(b);
        let c = sweep_column(x, z, y2, dx, dz, cols[n - 1]);
        lemma_sweep_prefix_road(x, z, y2, dx, dz, cols, n);
        assert(all_road(c));
        lemma_all_road_concat(b, c);
        assert(sweep_prefix(x, z, y2, dx, dz, cols, n) =~= a + sweep_column(x, z, y2, dx, dz, cols[i]) + (b + c));
    }
}

/// Sweeping at a point leaves a road-family block within one block of its
/// height, right at the point itself: the layout's centre column (offset 0)
/// lands on the point whatever the direction.
proof fn lemma_sweep_establishes(a: Seq<BlockWrite>, p: ProfilePoint, class: RoadClass, dx: int, dz: int)
    ensures
        road_written_near(a + sweep_writes(p.x as int, p.z as int, p.y2 as int, class, dx, dz), p),
{
    let cols = class_columns(class);
    let bands = section_bands(spec_section(class));
    lemma_section_width(class);
    let w = class_width(class);
    assert(w >= 8) by {
        assert(spec_section(class).spec_total_width() >= 8);
    }
    let i: int = (bands.len() / 2) as int;
    assert(cols[i].0 == 0);
    let (x, z, y2) = (p.x as int, p.z as int, p.y2 as int);
    lemma_sweep_prefix_split(x, z, y2, dx, dz, cols, i, cols.len() as int);
    let (pre, post) = choose|pre: Seq<BlockWrite>, post: Seq<BlockWrite>|
        sweep_prefix(x, z, y2, dx, dz, cols, cols.len() as int) == pre + sweep_column(x, z, y2, dx, dz, cols[i]) + post
            && all_road(post);
    let b = dx * dx + dz * dz;
    if b > 0 {
        assert(is_rounded_ratio(0, -dz * 0, b)) by (nonlinear_arith)
            requires
                b > 0,
        ;
        assert(is_rounded_ratio(0, dx * 0, b)) by (nonlinear_arith)
            requires
                b > 0,
        ;
        lemma_rounded_ratio_is(0, -dz * 0, b);
        lemma_rounded_ratio_is(0, dx * 0, b);
    }
    let c = sweep_column(x, z, y2, dx, dz, cols[i]);
    assert(c == column_writes(cols[i].1, x, z, y2));
    let y = y2 / 2;
    let pos_y = if cols[i].1 == Band::Sidewalk { (y2 + 1) / 2 } else { y };
    assert(c[0] == write_of(c[0].block, x, pos_y, z));
    assert(c[0].x == p.x && c[0].z == p.z && c[0].y == pos_y);
    assert(pos_y == y || pos_y == y + 1);
    let s = sweep_writes(x, z, y2, class, dx, dz);
    lemma_sweep_road(x, z, y2, class, dx, dz);
    // the centre column's first write, then only road-family writes after it
    let before = a + pre;
    let rest = c.drop_first() + post;
    assert(all_road(c)) by {
        assert forall|k: int| 0 <= k < c.len() implies is_road_family(#[trigger] c[k].block) by {
            assert(s == pre + c + post);
            assert(s[pre.len() + k] == c[k]);
        }
    }
    assert(all_road(c.drop_first()));
    lemma_all_road_concat(c.drop_first(), post);
    assert(a + s =~= (before + seq![c[0]]) + rest);
    assert(last_write_at(before + seq![c[0]], x, pos_y, z) == Some(c[0].block)) by {
        assert((before + seq![c[0]]).last() == c[0]);
    }
    lemma_last_write_append(before + seq![c[0]], rest, x, pos_y, z);
    lemma_last_write_road(rest, x, pos_y, z);
    assert(is_road_family(c[0].block));
}

proof fn lemma_windows_cover(
    a: Seq<BlockWrite>,
    pts: Seq<ProfilePoint>,
    class: RoadClass,
    n: int,
)
    requires
        0 <= n < pts.len(),
    ensures
        forall|j: int| 0 <= j < n ==> road_written_near(a + window_writes(pts, class, n), #[trigger] pts[j]),
        all_road(window_writes(pts, class, n)),
    decreases n,
{
    if n > 0 {
        lemma_windows_cover(a, pts, class, n - 1);
        let prev = window_writes(pts, class, n - 1);
        let p = pts[n - 1];
        let sw = sweep_writes(p.x as int, p.z as int, p.y2 as int, class, pts[n].x - p.x, pts[n].z - p.z);
        lemma_sweep_road(p.x as int, p.z as int, p.y2 as int, class, pts[n].x - p.x, pts[n].z - p.z);
        lemma_all_road_concat(prev, sw);
        assert(window_writes(pts, class, n) == prev + sw);
        assert(a + window_writes(pts, class, n) =~= (a + prev) + sw);
        assert forall|j: int| 0 <= j < n implies road_written_near(a + window_writes(pts, class, n), #[trigger] pts[j]) by {
            if j < n - 1 {
                lemma_near_preserved(a + prev, sw, pts[j]);
            } else {
                lemma_sweep_establishes(a + prev, p, class, pts[n].x - p.x, pts[n].z - p.z);
            }
        }
    }
}

proof fn lemma_segment_cover(a: Seq<BlockWrite>, pts: Seq<ProfilePoint>, class: RoadClass)
    ensures
        forall|j: int| 0 <= j < pts.len() ==> road_written_near(a + segment_writes(pts, class), #[trigger] pts[j]),
        all_road(segment_writes(pts, class)),
{
    if pts.len() > 0 {
        let n = pts.len() as int;
        lemma_windows_cover(a, pts, class, n - 1);
        let prev = window_writes(pts, class, n - 1);
        let last = pts[n - 1];
        let dx = if n >= 2 { last.x - pts[n - 2].x } else { 1 };
        let dz = if n >= 2 { last.z - pts[n - 2].z } else { 0 };
        let sw = sweep_writes(last.x as int, last.z as int, last.y2 as int, class, dx, dz);
        lemma_sweep_road(last.x as int, last.z as int, last.y2 as int, class, dx, dz);
        lemma_all_road_concat(prev, sw);
        assert(a + segment_writes(pts, class) =~= (a + prev) + sw);
        assert forall|j: int| 0 <= j < pts.len() implies road_written_near(a + segment_writes(pts, class), #[trigger] pts[j]) by {
            if j < n - 1 {
                lemma_near_preserved(a + prev, sw, pts[j]);
            } else {
                lemma_sweep_establishes(a + prev, last, class, dx, dz);
            }
        }
    }
}

proof fn lemma_segments_cover(a: Seq<BlockWrite>, segs: Seq<&Segment>, n: int)
    requires
        0 <= n <= segs.len(),
    ensures
        forall|i: int, j: int|
            0 <= i < n && 0 <= j < segs[i].spec_points().len() ==> road_written_near(
                a + segments_writes(segs, n),
                #[trigger] segs[i].spec_points()[j],
            ),
        all_road(segments_writes(segs, n)),
    decreases n,
{
    if n > 0 {
        lemma_segments_cover(a, segs, n - 1);
        let prev = segments_writes(segs, n - 1);
        let sg = segment_writes(segs[n - 1].spec_points(), segs[n - 1].spec_class());
        lemma_segment_cover(a + prev, segs[n - 1].spec_points(), segs[n - 1].spec_class());
        lemma_all_road_concat(prev, sg);
        assert(a + segments_writes(segs, n) =~= (a + prev) + sg);
        assert forall|i: int, j: int|
            0 <= i < n && 0 <= j < segs[i].spec_points().len() implies road_written_near(
                a + segments_writes(segs, n),
                #[trigger] segs[i].spec_points()[j],
            ) by {
            if i < n - 1 {
                lemma_near_preserved(a + prev, sg, segs[i].spec_points()[j]);
            }
        }
    }
}

proof fn lemma_unplaced_points_empty(log: Seq<BlockWrite>, pts: Seq<ProfilePoint>, owned: (i32, i32, i32, i32), n: int)
    requires
        n <= pts.len(),
        forall|j: int| 0 <= j < n ==> road_written_near(log, #[trigger] pts[j]),
    ensures
        unplaced_points(log, pts, owned, n) == Seq::<(i32, i32)>::empty(),
    decreases n,
{
    if n > 0 {
        lemma_unplaced_points_empty(log, pts, owned, n - 1);
        assert(road_written_near(log, pts[n - 1]));
        assert(unplaced_points(log, pts, owned, n) =~= Seq::<(i32, i32)>::empty());
    }
}

proof fn lemma_unplaced_in_empty(log: Seq<BlockWrite>, segs: Seq<&Segment>, owned: (i32, i32, i32, i32), n: int)
    requires
        n <= segs.len(),
        forall|i: int, j: int|
            0 <= i < n && 0 <= j < segs[i].spec_points().len() ==> road_written_near(log, #[trigger] segs[i].spec_points()[j]),
    ensures
        unplaced_in(log, segs, owned, n) == Seq::<(i32, i32)>::empty(),
    decreases n,
{
    if n > 0 {
        lemma_unplaced_in_empty(log, segs, owned, n - 1);
        let pts = segs[n - 1].spec_points();
        assert forall|j: int| 0 <= j < pts.len() implies road_written_near(log, #[trigger] pts[j]) by {
            assert(road_written_near(log, segs[n - 1].spec_points()[j]));
        }
        lemma_unplaced_points_empty(log, pts, owned, pts.len() as int);
        assert(unplaced_in(log, segs, owned, n) =~= Seq::<(i32, i32)>::empty());
    }
}

/// Road continuity: whatever the editor held before, running the
/// continuity check right after placing a set of segments finds no
/// unplaced point of those segments, in any owned area -- every sweep
/// writes only road-family blocks, and each centerline point gets one at
/// its own position within a block of its height.
pub proof fn lemma_placement_is_continuous(before: Seq<BlockWrite>, segs: Seq<&Segment>, owned: (i32, i32, i32, i32))
    ensures
        unplaced_in(before + segments_writes(segs, segs.len() as int), segs, owned, segs.len() as int)
            == Seq::<(i32, i32)>::empty(),
{
    lemma_segments_cover(before, segs, segs.len() as int);
    lemma_unplaced_in_empty(before + segments_writes(segs, segs.len() as int), segs, owned, segs.len() as int);
}

} // verus!
