//! ESRI shapefile (`.shp`) geometry: the point records of a node layer and
//! the polyline records of a link layer, in file order (index-aligned with
//! the paired `.dbf`). Coordinates are kept as the `f64` bit patterns the
//! file stores.

use crate::terrain_cache::bytes::{le_value, lemma_le_value_bound, lemma_pow256_values, read_le};
use crate::terrain_cache::decode::{i32_at, i32_of_bits, le_at};
use crate::text::{dec_padded_chars, dec_signed, push_chars, push_str};
use vstd::prelude::*;

verus! {

broadcast use vstd::string::group_string_axioms;

/// The shape type code of a point layer.
pub const SHAPE_TYPE_POINT: i32 = 1;

/// The shape type code of a polyline layer.
pub const SHAPE_TYPE_POLYLINE: i32 = 3;

/// The big-endian `u32` at `i`.
pub open spec fn be_u32(d: Seq<u8>, i: int) -> nat {
    (d[i] * 0x100_0000 + d[i + 1] * 0x1_0000 + d[i + 2] * 0x100 + d[i + 3]) as nat
}

/// The file's shape type (the little-endian `i32` at byte 32).
pub open spec fn shape_type_of(d: Seq<u8>) -> i32 {
    i32_of_bits(le_at(d, 32, 4))
}

/// The content length in bytes of the record whose header is at `pos`
/// (the header gives it in 16-bit words).
pub open spec fn content_len(d: Seq<u8>, pos: nat) -> nat {
    2 * be_u32(d, pos + 4int)
}

/// The points of the records from `pos` on: each record whose content fits
/// in the data gives the `x` and `y` after its shape type; reading stops
/// at the first record that does not fit.
pub open spec fn point_records(d: Seq<u8>, pos: nat) -> Seq<(u64, u64)>
    decreases d.len() - pos,
{
    if pos + 8 <= d.len() {
        let start = pos + 8;
        if start + content_len(d, pos) > d.len() {
            Seq::empty()
        } else {
            seq![(le_at(d, start + 4, 8) as u64, le_at(d, start + 12, 8) as u64)] + point_records(
                d,
                start + content_len(d, pos),
            )
        }
    } else {
        Seq::empty()
    }
}

/// Whether every record read from `pos` on holds its 20 bytes of shape
/// type and coordinates.
pub open spec fn points_readable(d: Seq<u8>, pos: nat) -> bool
    decreases d.len() - pos,
{
    if pos + 8 <= d.len() {
        let start = pos + 8;
        if start + content_len(d, pos) > d.len() {
            true
        } else {
            start + 20 <= d.len() && points_readable(d, start + content_len(d, pos))
        }
    } else {
        true
    }
}

/// How many of `n` points from `ps` lie wholly in the data.
pub open spec fn line_count(d: Seq<u8>, ps: nat, n: nat) -> nat {
    if ps <= d.len() {
        let fit = ((d.len() - ps) / 16) as nat;
        if n <= fit {
            n
        } else {
            fit
        }
    } else {
        0
    }
}

/// The points of a polyline record whose point array starts at `ps` and
/// declares `n` points, as far as they lie in the data.
pub open spec fn line_points(d: Seq<u8>, ps: nat, n: nat) -> Seq<(u64, u64)> {
    Seq::new(
        line_count(d, ps, n),
        |i: int| (le_at(d, (ps + 16 * i) as nat, 8) as u64, le_at(d, (ps + 16 * i + 8) as nat, 8) as u64),
    )
}

/// The polylines of the records from `pos` on, all parts of a record in
/// one point sequence; reading stops at the first record that does not fit
/// or is shorter than a polyline header.
pub open spec fn polyline_records(d: Seq<u8>, pos: nat) -> Seq<Seq<(u64, u64)>>
    decreases d.len() - pos,
{
    if pos + 8 <= d.len() {
        let start = pos + 8;
        let n = content_len(d, pos);
        if start + n > d.len() || n < 44 {
            Seq::empty()
        } else {
            let parts = le_at(d, start + 36, 4);
            let points = le_at(d, start + 40, 4);
            seq![line_points(d, start + 44 + 4 * parts, points)] + polyline_records(d, start + n)
        }
    } else {
        Seq::empty()
    }
}

/// Whether every polyline record read from `pos` on declares a part count
/// and a point count that are not negative.
pub open spec fn polylines_readable(d: Seq<u8>, pos: nat) -> bool
    decreases d.len() - pos,
{
    if pos + 8 <= d.len() {
        let start = pos + 8;
        let n = content_len(d, pos);
        if start + n > d.len() || n < 44 {
            true
        } else {
            le_at(d, start + 36, 4) < 0x8000_0000 && le_at(d, start + 40, 4) < 0x8000_0000
                && polylines_readable(d, start + n)
        }
    } else {
        true
    }
}

/// The error for a file of the wrong shape type.
pub open spec fn shape_type_message(expected: Seq<char>, found: i32) -> Seq<char> {
    "expected "@ + expected + ", got shape type "@ + dec_signed(found as int)
}

fn be_u32_at(d: &[u8], i: usize) -> (v: u64)
    requires
        i + 4 <= d@.len(),
    ensures
        v == be_u32(d@, i as int),
{
    (d[i] as u64) * 0x100_0000 + (d[i + 1] as u64) * 0x1_0000 + (d[i + 2] as u64) * 0x100 + (d[i + 3] as u64)
}

fn shape_type(d: &[u8]) -> (t: i32)
    requires
        36 <= d@.len(),
    ensures
        t == shape_type_of(d@),
{
    i32_at(d, 32)
}

fn wrong_type(expected: &str, found: i32) -> (s: String)
    ensures
        s@ == shape_type_message(expected@, found),
{
    let mut s = String::new();
    push_str(&mut s, "expected ");
    push_str(&mut s, expected);
    push_str(&mut s, ", got shape type ");
    push_chars(&mut s, dec_padded_chars(found as i64, 0).as_slice());
    assert(s@ =~= shape_type_message(expected@, found));
    s
}

/// The point records of a point shapefile's bytes, in file order, or the
/// error for another shape type.
pub fn read_points(data: &[u8]) -> (r: Result<Vec<(u64, u64)>, String>)
    requires
        36 <= data@.len(),
        shape_type_of(data@) == SHAPE_TYPE_POINT ==> points_readable(data@, 100),
    ensures
        shape_type_of(data@) == SHAPE_TYPE_POINT ==> (r matches Ok(v) && v@ == point_records(data@, 100)),
        shape_type_of(data@) != SHAPE_TYPE_POINT ==> (r matches Err(e) && e@ == shape_type_message(
            "Point (1)"@,
            shape_type_of(data@),
        )),
{
    let t = shape_type(data);
    if t != SHAPE_TYPE_POINT {
        return Err(wrong_type("Point (1)", t));
    }
    let mut points: Vec<(u64, u64)> = Vec::new();
    let mut pos: usize = 100;
    loop
        invariant
            points_readable(data@, pos as nat),
            points@ + point_records(data@, pos as nat) == point_records(data@, 100),
        ensures
            points@ == point_records(data@, 100),
        decreases data.len() - pos,
    {
        if pos > data.len() || data.len() - pos < 8 {
            assert(point_records(data@, pos as nat) =~= Seq::<(u64, u64)>::empty());
            assert(points@ + point_records(data@, pos as nat) =~= points@);
            break;
        }
        let n = 2 * be_u32_at(data, pos + 4);
        let start = pos + 8;
        if ((data.len() - start) as u64) < n {
            assert(point_records(data@, pos as nat) =~= Seq::<(u64, u64)>::empty());
            assert(points@ + point_records(data@, pos as nat) =~= points@);
            break;
        }
        let x = read_le(data, start + 4, 8);
        let y = read_le(data, start + 12, 8);
        let ghost before = points@;
        points.push((x, y));
        assert(before + point_records(data@, pos as nat) =~= points@ + point_records(data@, (start + n) as nat));
        pos = start + n as usize;
    }
    Ok(points)
}

fn read_line_points(d: &[u8], ps: u64, n: u64) -> (r: Vec<(u64, u64)>)
    ensures
        r@ == line_points(d@, ps as nat, n as nat),
{
    let len = d.len() as u64;
    let count: u64 = if ps <= len {
        let fit = (len - ps) / 16;
        if n <= fit {
            n
        } else {
            fit
        }
    } else {
        0
    };
    assert(ps + 16 * count <= len || count == 0) by (nonlinear_arith)
        requires
            count == 0 || (ps <= len && count <= (len - ps) / 16),
    ;
    let ghost want = line_points(d@, ps as nat, n as nat);
    let mut v: Vec<(u64, u64)> = Vec::new();
    let mut i: u64 = 0;
    while i < count
        invariant
            i <= count,
            count == line_count(d@, ps as nat, n as nat),
            len == d@.len(),
            ps + 16 * count <= len || count == 0,
            want == line_points(d@, ps as nat, n as nat),
            v@ == want.take(i as int),
        decreases count - i,
    {
        assert(ps + 16 * i + 16 <= ps + 16 * count);
        assert(ps + 16 * i + 16 <= d.len());
        let p = (ps + 16 * i) as usize;
        assert(p == ps + 16 * i);
        let x = read_le(d, p, 8);
        let y = read_le(d, p + 8, 8);
        v.push((x, y));
        assert(v@ =~= want.take(i + 1));
        i += 1;
    }
    assert(want.take(count as int) =~= want);
    v
}

/// The polyline records of a polyline shapefile's bytes, in file order,
/// each record's parts joined into one point sequence, or the error for
/// another shape type.
pub fn read_polylines(data: &[u8]) -> (r: Result<Vec<Vec<(u64, u64)>>, String>)
    requires
        36 <= data@.len(),
        shape_type_of(data@) == SHAPE_TYPE_POLYLINE ==> polylines_readable(data@, 100),
    ensures
        shape_type_of(data@) == SHAPE_TYPE_POLYLINE ==> (r matches Ok(v) && v@.map_values(
            |l: Vec<(u64, u64)>| l@,
        ) == polyline_records(data@, 100)),
        shape_type_of(data@) != SHAPE_TYPE_POLYLINE ==> (r matches Err(e) && e@ == shape_type_message(
            "PolyLine (3)"@,
            shape_type_of(data@),
        )),
{
    let t = shape_type(data);
    if t != SHAPE_TYPE_POLYLINE {
        return Err(wrong_type("PolyLine (3)", t));
    }
    let mut lines: Vec<Vec<(u64, u64)>> = Vec::new();
    let mut pos: usize = 100;
    loop
        invariant
            polylines_readable(data@, pos as nat),
            lines@.map_values(|l: Vec<(u64, u64)>| l@) + polyline_records(data@, pos as nat) == polyline_records(
                data@,
                100,
            ),
        ensures
            lines@.map_values(|l: Vec<(u64, u64)>| l@) == polyline_records(data@, 100),
        decreases data.len() - pos,
    {
        if pos > data.len() || data.len() - pos < 8 {
            assert(polyline_records(data@, pos as nat) =~= Seq::<Seq<(u64, u64)>>::empty());
            assert(lines@.map_values(|l: Vec<(u64, u64)>| l@) + polyline_records(data@, pos as nat)
                =~= lines@.map_values(|l: Vec<(u64, u64)>| l@));
            break;
        }
        let n = 2 * be_u32_at(data, pos + 4);
        let start = pos + 8;
        if ((data.len() - start) as u64) < n || n < 44 {
            assert(polyline_records(data@, pos as nat) =~= Seq::<Seq<(u64, u64)>>::empty());
            assert(lines@.map_values(|l: Vec<(u64, u64)>| l@) + polyline_records(data@, pos as nat)
                =~= lines@.map_values(|l: Vec<(u64, u64)>| l@));
            break;
        }
        let parts = read_le(data, start + 36, 4);
        let count = read_le(data, start + 40, 4);
        proof {
            lemma_le_value_bound(data@.subrange(start + 36, start + 40));
            lemma_pow256_values();
        }
        let base = start as u64 + 44;
        let pts = if parts <= (u64::MAX - base) / 4 {
            read_line_points(data, base + 4 * parts, count)
        } else {
            assert(line_points(data@, (start + 44 + 4 * parts) as nat, count as nat) =~= Seq::<(u64, u64)>::empty());
            Vec::new()
        };
        let ghost before = lines@.map_values(|l: Vec<(u64, u64)>| l@);
        lines.push(pts);
        assert(lines@.map_values(|l: Vec<(u64, u64)>| l@) =~= before.push(pts@));
        assert(before + polyline_records(data@, pos as nat) =~= lines@.map_values(|l: Vec<(u64, u64)>| l@)
            + polyline_records(data@, (start + n) as nat));
        pos = start + n as usize;
    }
    Ok(lines)
}

/// Whether every point record of `data` from byte 100 on holds its
/// coordinates (see [`points_readable`]), so that [`read_points`] can read
/// it.
pub fn points_in_bounds(data: &[u8]) -> (r: bool)
    ensures
        r == points_readable(data@, 100),
{
    let mut pos: usize = 100;
    loop
        invariant
            points_readable(data@, 100) == points_readable(data@, pos as nat),
        decreases data.len() - pos,
    {
        if pos > data.len() || data.len() - pos < 8 {
            return true;
        }
        let n = 2 * be_u32_at(data, pos + 4);
        let start = pos + 8;
        if ((data.len() - start) as u64) < n {
            return true;
        }
        if data.len() - start < 20 {
            return false;
        }
        pos = start + n as usize;
    }
}

/// Whether every polyline record of `data` from byte 100 on declares
/// counts that are not negative (see [`polylines_readable`]), so that
/// [`read_polylines`] can read it.
pub fn polylines_in_bounds(data: &[u8]) -> (r: bool)
    ensures
        r == polylines_readable(data@, 100),
{
    let mut pos: usize = 100;
    loop
        invariant
            polylines_readable(data@, 100) == polylines_readable(data@, pos as nat),
        decreases data.len() - pos,
    {
        if pos > data.len() || data.len() - pos < 8 {
            return true;
        }
        let n = 2 * be_u32_at(data, pos + 4);
        let start = pos + 8;
        if ((data.len() - start) as u64) < n || n < 44 {
            return true;
        }
        let parts = read_le(data, start + 36, 4);
        let count = read_le(data, start + 40, 4);
        if parts >= 0x8000_0000 || count >= 0x8000_0000 {
            return false;
        }
        pos = start + n as usize;
    }
}

} // verus!
