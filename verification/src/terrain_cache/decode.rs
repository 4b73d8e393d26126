//! Reading a cache file back: what each part of the layout decodes to, as
//! spec functions over the file's bytes and a read position, and the
//! readers that follow them.

use super::bytes::{le_value, lemma_le_value_bound, lemma_pow256_values, read_le};
use vstd::utf8::valid_utf8;
use super::{
    body_from_tag, body_of_tag, canopy_model, climate_from_tag, climate_of_tag, elevation_model, ground_model,
    land_cover_model, CacheError, CacheKey, CanopyModel, CanopyParts, CelestialBody, Climate, ElevationModel,
    ElevationParts, GroundModel, GroundParts, LandCoverModel, LandCoverParts, CACHE_FORMAT_VERSION, MAGIC,
};
use vstd::prelude::*;

verus! {

/// What a reader gave back, against what the layout says is there: the
/// value (by `view`) and the position after it, or the same error.
pub open spec fn read_as<T, V>(
    r: Result<(T, usize), CacheError>,
    s: Result<(V, nat), CacheError>,
    view: spec_fn(T) -> V,
) -> bool {
    match s {
        Ok((v, q)) => match r {
            Ok((x, q2)) => view(x) == v && q2 == q,
            Err(_) => false,
        },
        Err(e) => match r {
            Ok(_) => false,
            Err(e2) => e2 == e,
        },
    }
}

/// The little-endian value of the `n` bytes of `d` at `p`.
pub open spec fn le_at(d: Seq<u8>, p: nat, n: nat) -> nat {
    le_value(d.subrange(p as int, (p + n) as int))
}

/// `n` little-endian bytes at `p`, and the position after them.
pub open spec fn sp_le(d: Seq<u8>, p: nat, n: nat) -> Result<(nat, nat), CacheError> {
    if p + n <= d.len() {
        Ok((le_at(d, p, n), p + n))
    } else {
        Err(CacheError::Truncated)
    }
}

/// The `i32` of a 32-bit two's-complement pattern.
pub open spec fn i32_of_bits(v: nat) -> i32 {
    if v >= 0x8000_0000 {
        (v - 0x1_0000_0000) as i32
    } else {
        v as i32
    }
}

/// A byte string: a `u64` length, then that many bytes.
pub open spec fn sp_bytes(d: Seq<u8>, p: nat) -> Result<(Seq<u8>, nat), CacheError> {
    match sp_le(d, p, 8) {
        Ok((n, q)) => if q + n <= d.len() {
            Ok((d.subrange(q as int, (q + n) as int), q + n))
        } else {
            Err(CacheError::Truncated)
        },
        Err(e) => Err(e),
    }
}

/// The `i`-th `u32` of a run starting at `q`.
pub open spec fn u32_at(d: Seq<u8>, q: nat, i: int) -> u32 {
    le_value(d.subrange(q + 4 * i, q + 4 * i + 4)) as u32
}

/// A row of `f32` bit patterns: a `u64` count, then four bytes each.
pub open spec fn sp_f32_row(d: Seq<u8>, p: nat) -> Result<(Seq<u32>, nat), CacheError> {
    match sp_le(d, p, 8) {
        Ok((n, q)) => if q + 4 * n <= d.len() {
            Ok((Seq::new(n, |i: int| u32_at(d, q, i)), q + 4 * n))
        } else {
            Err(CacheError::Truncated)
        },
        Err(e) => Err(e),
    }
}

/// `n` byte rows back to back from `p`.
pub open spec fn sp_rows_u8(d: Seq<u8>, p: nat, n: nat) -> Result<(Seq<Seq<u8>>, nat), CacheError>
    decreases n,
{
    if n == 0 {
        Ok((Seq::empty(), p))
    } else {
        match sp_rows_u8(d, p, (n - 1) as nat) {
            Ok((rows, q)) => match sp_bytes(d, q) {
                Ok((row, q2)) => Ok((rows.push(row), q2)),
                Err(e) => Err(e),
            },
            Err(e) => Err(e),
        }
    }
}

/// A byte grid: a `u64` row count, then the rows.
pub open spec fn sp_grid_u8(d: Seq<u8>, p: nat) -> Result<(Seq<Seq<u8>>, nat), CacheError> {
    match sp_le(d, p, 8) {
        Ok((n, q)) => sp_rows_u8(d, q, n),
        Err(e) => Err(e),
    }
}

/// `n` `f32` rows back to back from `p`.
pub open spec fn sp_rows_f32(d: Seq<u8>, p: nat, n: nat) -> Result<(Seq<Seq<u32>>, nat), CacheError>
    decreases n,
{
    if n == 0 {
        Ok((Seq::empty(), p))
    } else {
        match sp_rows_f32(d, p, (n - 1) as nat) {
            Ok((rows, q)) => match sp_f32_row(d, q) {
                Ok((row, q2)) => Ok((rows.push(row), q2)),
                Err(e) => Err(e),
            },
            Err(e) => Err(e),
        }
    }
}

/// An `f32` grid: a `u64` row count, then the rows.
pub open spec fn sp_grid_f32(d: Seq<u8>, p: nat) -> Result<(Seq<Seq<u32>>, nat), CacheError> {
    match sp_le(d, p, 8) {
        Ok((n, q)) => sp_rows_f32(d, q, n),
        Err(e) => Err(e),
    }
}

/// The key: 56 bytes (five `u64`, two `i32`, a flag, an `i32`, two flags,
/// the body tag); an unknown body tag is an error.
pub open spec fn sp_key(d: Seq<u8>, p: nat) -> Result<(CacheKey, nat), CacheError> {
    if p + 56 <= d.len() {
        match body_of_tag(d[p + 55int]) {
            Some(body) => Ok(
                (
                    CacheKey {
                        min_lat: le_at(d, p, 8) as u64,
                        min_lng: le_at(d, p + 8, 8) as u64,
                        max_lat: le_at(d, p + 16, 8) as u64,
                        max_lng: le_at(d, p + 24, 8) as u64,
                        scale: le_at(d, p + 32, 8) as u64,
                        ground_level: i32_of_bits(le_at(d, p + 40, 4)),
                        min_ground_level: i32_of_bits(le_at(d, p + 44, 4)),
                        disable_height_limit: d[p + 48int] != 0,
                        extended_max_y: i32_of_bits(le_at(d, p + 49, 4)),
                        aws_only_elevation: d[p + 53int] != 0,
                        canopy_height: d[p + 54int] != 0,
                        body,
                    },
                    p + 56,
                ),
            ),
            None => Err(CacheError::UnknownBody(d[p + 55int])),
        }
    } else {
        Err(CacheError::Truncated)
    }
}

fn r_u64(d: &[u8], p: usize) -> (r: Result<(u64, usize), CacheError>)
    requires
        p <= d@.len(),
    ensures
        read_as(r, sp_le(d@, p as nat, 8), |x: u64| x as nat),
        r is Ok ==> r->Ok_0.1 <= d@.len(),
{
    if d.len() - p < 8 {
        return Err(CacheError::Truncated);
    }
    let v = read_le(d, p, 8);
    Ok((v, p + 8))
}

fn r_bytes(d: &[u8], p: usize) -> (r: Result<(Vec<u8>, usize), CacheError>)
    requires
        p <= d@.len(),
    ensures
        read_as(r, sp_bytes(d@, p as nat), |x: Vec<u8>| x@),
        r is Ok ==> r->Ok_0.1 <= d@.len(),
{
    let (n, q) = match r_u64(d, p) {
        Ok(x) => x,
        Err(e) => return Err(e),
    };
    if ((d.len() - q) as u64) < n {
        return Err(CacheError::Truncated);
    }
    let n = n as usize;
    let mut v: Vec<u8> = Vec::new();
    let mut i: usize = 0;
    while i < n
        invariant
            q + n <= d.len(),
            i <= n,
            v@ == d@.subrange(q as int, q + i),
        decreases n - i,
    {
        v.push(d[q + i]);
        assert(v@ =~= d@.subrange(q as int, q + i + 1));
        i += 1;
    }
    Ok((v, q + n))
}

fn r_f32_row(d: &[u8], p: usize) -> (r: Result<(Vec<u32>, usize), CacheError>)
    requires
        p <= d@.len(),
    ensures
        read_as(r, sp_f32_row(d@, p as nat), |x: Vec<u32>| x@),
        r is Ok ==> r->Ok_0.1 <= d@.len(),
{
    let (n, q) = match r_u64(d, p) {
        Ok(x) => x,
        Err(e) => return Err(e),
    };
    if (((d.len() - q) / 4) as u64) < n {
        return Err(CacheError::Truncated);
    }
    let n = n as usize;
    assert(4 * n <= d@.len() - q);
    let ghost row = Seq::new(n as nat, |i: int| u32_at(d@, q as nat, i));
    let mut v: Vec<u32> = Vec::new();
    let mut i: usize = 0;
    while i < n
        invariant
            q + 4 * n <= d.len(),
            i <= n,
            row == Seq::new(n as nat, |i: int| u32_at(d@, q as nat, i)),
            v@ == row.take(i as int),
        decreases n - i,
    {
        assert(4 * i + 4 <= 4 * n);
        let x = read_le(d, q + 4 * i, 4);
        proof {
            lemma_le_value_bound(d@.subrange(q + 4 * i, q + 4 * i + 4));
            lemma_pow256_values();
        }
        v.push(x as u32);
        assert(v@ =~= row.take(i + 1));
        i += 1;
    }
    assert(v@ =~= row);
    Ok((v, q + 4 * n))
}

/// Once a row fails to read, every longer run of rows fails the same way.
proof fn lemma_rows_u8_err(d: Seq<u8>, p: nat, i: nat, n: nat)
    requires
        i <= n,
        sp_rows_u8(d, p, i) is Err,
    ensures
        sp_rows_u8(d, p, n) == sp_rows_u8(d, p, i),
    decreases n,
{
    if i < n {
        lemma_rows_u8_err(d, p, i, (n - 1) as nat);
    }
}

proof fn lemma_rows_f32_err(d: Seq<u8>, p: nat, i: nat, n: nat)
    requires
        i <= n,
        sp_rows_f32(d, p, i) is Err,
    ensures
        sp_rows_f32(d, p, n) == sp_rows_f32(d, p, i),
    decreases n,
{
    if i < n {
        lemma_rows_f32_err(d, p, i, (n - 1) as nat);
    }
}

fn r_grid_u8(d: &[u8], p: usize) -> (r: Result<(Vec<Vec<u8>>, usize), CacheError>)
    requires
        p <= d@.len(),
    ensures
        read_as(r, sp_grid_u8(d@, p as nat), |x: Vec<Vec<u8>>| x@.map_values(|row: Vec<u8>| row@)),
        r is Ok ==> r->Ok_0.1 <= d@.len(),
{
    let (n, q) = match r_u64(d, p) {
        Ok(x) => x,
        Err(e) => return Err(e),
    };
    let mut rows: Vec<Vec<u8>> = Vec::new();
    assert(rows@.map_values(|row: Vec<u8>| row@) =~= Seq::<Seq<u8>>::empty());
    let mut pos = q;
    let mut i: u64 = 0;
    while i < n
        invariant
            q <= d@.len(),
            sp_le(d@, p as nat, 8) == Ok::<(nat, nat), CacheError>((n as nat, q as nat)),
            pos <= d@.len(),
            i <= n,
            sp_rows_u8(d@, q as nat, i as nat) == Ok::<(Seq<Seq<u8>>, nat), CacheError>(
                (rows@.map_values(|row: Vec<u8>| row@), pos as nat),
            ),
        decreases n - i,
    {
        match r_bytes(d, pos) {
            Ok((row, next)) => {
                let ghost before = rows@.map_values(|row: Vec<u8>| row@);
                rows.push(row);
                assert(rows@.map_values(|row: Vec<u8>| row@) =~= before.push(row@));
                pos = next;
                i += 1;
            },
            Err(e) => {
                assert(sp_rows_u8(d@, q as nat, (i + 1) as nat) == Err::<(Seq<Seq<u8>>, nat), CacheError>(e));
                proof {
                    lemma_rows_u8_err(d@, q as nat, (i + 1) as nat, n as nat);
                }
                return Err(e);
            },
        }
    }
    Ok((rows, pos))
}

fn r_grid_f32(d: &[u8], p: usize) -> (r: Result<(Vec<Vec<u32>>, usize), CacheError>)
    requires
        p <= d@.len(),
    ensures
        read_as(r, sp_grid_f32(d@, p as nat), |x: Vec<Vec<u32>>| x@.map_values(|row: Vec<u32>| row@)),
        r is Ok ==> r->Ok_0.1 <= d@.len(),
{
    let (n, q) = match r_u64(d, p) {
        Ok(x) => x,
        Err(e) => return Err(e),
    };
    let mut rows: Vec<Vec<u32>> = Vec::new();
    assert(rows@.map_values(|row: Vec<u32>| row@) =~= Seq::<Seq<u32>>::empty());
    let mut pos = q;
    let mut i: u64 = 0;
    while i < n
        invariant
            q <= d@.len(),
            sp_le(d@, p as nat, 8) == Ok::<(nat, nat), CacheError>((n as nat, q as nat)),
            pos <= d@.len(),
            i <= n,
            sp_rows_f32(d@, q as nat, i as nat) == Ok::<(Seq<Seq<u32>>, nat), CacheError>(
                (rows@.map_values(|row: Vec<u32>| row@), pos as nat),
            ),
        decreases n - i,
    {
        match r_f32_row(d, pos) {
            Ok((row, next)) => {
                let ghost before = rows@.map_values(|row: Vec<u32>| row@);
                rows.push(row);
                assert(rows@.map_values(|row: Vec<u32>| row@) =~= before.push(row@));
                pos = next;
                i += 1;
            },
            Err(e) => {
                assert(sp_rows_f32(d@, q as nat, (i + 1) as nat) == Err::<(Seq<Seq<u32>>, nat), CacheError>(e));
                proof {
                    lemma_rows_f32_err(d@, q as nat, (i + 1) as nat, n as nat);
                }
                return Err(e);
            },
        }
    }
    Ok((rows, pos))
}

/// A presence flag: one byte, set when not zero.
pub open spec fn sp_flag(d: Seq<u8>, p: nat) -> Result<(bool, nat), CacheError> {
    if p + 1 <= d.len() {
        Ok((d[p as int] != 0, p + 1))
    } else {
        Err(CacheError::Truncated)
    }
}

/// The elevation data: the height grid, then 84 bytes of sizes and
/// parameters.
pub open spec fn sp_elevation(d: Seq<u8>, p: nat) -> Result<(ElevationModel, nat), CacheError> {
    match sp_grid_f32(d, p) {
        Ok((heights, q)) => if q + 84 <= d.len() {
            Ok(
                (
                    ElevationModel {
                        heights,
                        width: le_at(d, q, 8) as u64,
                        height: le_at(d, q + 8, 8) as u64,
                        world_width: le_at(d, q + 16, 8) as u64,
                        world_height: le_at(d, q + 24, 8) as u64,
                        min_height_m: le_at(d, q + 32, 8) as u64,
                        blocks_per_meter: le_at(d, q + 40, 8) as u64,
                        slope_correction: le_at(d, q + 48, 8) as u64,
                        ground_level: i32_of_bits(le_at(d, q + 56, 4)),
                        h_linear_m: le_at(d, q + 60, 8) as u64,
                        compression: le_at(d, q + 68, 8) as u64,
                        max_source_elevation_m: le_at(d, q + 76, 8) as u64,
                    },
                    q + 84,
                ),
            )
        } else {
            Err(CacheError::Truncated)
        },
        Err(e) => Err(e),
    }
}

/// The land-cover data: both grids, then 24 bytes of size and resolution.
pub open spec fn sp_land_cover(d: Seq<u8>, p: nat) -> Result<(LandCoverModel, nat), CacheError> {
    match sp_grid_u8(d, p) {
        Ok((grid, q)) => match sp_grid_u8(d, q) {
            Ok((water_distance, q2)) => if q2 + 24 <= d.len() {
                Ok(
                    (
                        LandCoverModel {
                            grid,
                            water_distance,
                            width: le_at(d, q2, 8) as u64,
                            height: le_at(d, q2 + 8, 8) as u64,
                            cells_per_meter: le_at(d, q2 + 16, 8) as u64,
                        },
                        q2 + 24,
                    ),
                )
            } else {
                Err(CacheError::Truncated)
            },
            Err(e) => Err(e),
        },
        Err(e) => Err(e),
    }
}

/// The canopy data: the grid bytes, then 16 bytes of size.
pub open spec fn sp_canopy(d: Seq<u8>, p: nat) -> Result<(CanopyModel, nat), CacheError> {
    match sp_bytes(d, p) {
        Ok((grid, q)) => if q + 16 <= d.len() {
            Ok((CanopyModel { grid, width: le_at(d, q, 8) as u64, height: le_at(d, q + 8, 8) as u64 }, q + 16))
        } else {
            Err(CacheError::Truncated)
        },
        Err(e) => Err(e),
    }
}

pub open spec fn sp_opt_elevation(d: Seq<u8>, p: nat) -> Result<(Option<ElevationModel>, nat), CacheError> {
    match sp_flag(d, p) {
        Ok((present, q)) => if present {
            match sp_elevation(d, q) {
                Ok((e, q2)) => Ok((Some(e), q2)),
                Err(e) => Err(e),
            }
        } else {
            Ok((None, q))
        },
        Err(e) => Err(e),
    }
}

pub open spec fn sp_opt_land_cover(d: Seq<u8>, p: nat) -> Result<(Option<LandCoverModel>, nat), CacheError> {
    match sp_flag(d, p) {
        Ok((present, q)) => if present {
            match sp_land_cover(d, q) {
                Ok((l, q2)) => Ok((Some(l), q2)),
                Err(e) => Err(e),
            }
        } else {
            Ok((None, q))
        },
        Err(e) => Err(e),
    }
}

pub open spec fn sp_opt_canopy(d: Seq<u8>, p: nat) -> Result<(Option<CanopyModel>, nat), CacheError> {
    match sp_flag(d, p) {
        Ok((present, q)) => if present {
            match sp_canopy(d, q) {
                Ok((c, q2)) => Ok((Some(c), q2)),
                Err(e) => Err(e),
            }
        } else {
            Ok((None, q))
        },
        Err(e) => Err(e),
    }
}

/// The end of the terrain record: world width and height, snow line, then
/// the climate tag and the body tag, each checked as it is read.
pub open spec fn sp_ground_tail(d: Seq<u8>, p: nat) -> Result<((u64, u64, i32, Climate, CelestialBody), nat), CacheError> {
    if p + 21 <= d.len() {
        match climate_of_tag(d[p + 20int]) {
            Some(climate) => if p + 22 <= d.len() {
                match body_of_tag(d[p + 21int]) {
                    Some(body) => Ok(
                        (
                            (
                                le_at(d, p, 8) as u64,
                                le_at(d, p + 8, 8) as u64,
                                i32_of_bits(le_at(d, p + 16, 4)),
                                climate,
                                body,
                            ),
                            p + 22,
                        ),
                    ),
                    None => Err(CacheError::UnknownBody(d[p + 21int])),
                }
            } else {
                Err(CacheError::Truncated)
            },
            None => Err(CacheError::UnknownClimate(d[p + 20int])),
        }
    } else {
        Err(CacheError::Truncated)
    }
}

/// The terrain record: two flags and the base level (6 bytes), the three
/// optional parts, then the tail.
pub open spec fn sp_ground(d: Seq<u8>, p: nat) -> Result<(GroundModel, nat), CacheError> {
    if p + 6 <= d.len() {
        match sp_opt_elevation(d, p + 6) {
            Ok((elevation, p2)) => match sp_opt_land_cover(d, p2) {
                Ok((land_cover, p3)) => match sp_opt_canopy(d, p3) {
                    Ok((canopy, p4)) => match sp_ground_tail(d, p4) {
                        Ok(((world_width, world_height, snow_threshold_y, climate, body), p5)) => Ok(
                            (
                                GroundModel {
                                    elevation_enabled: d[p as int] != 0,
                                    extended_ceiling: d[p + 1int] != 0,
                                    ground_level: i32_of_bits(le_at(d, p + 2, 4)),
                                    elevation,
                                    land_cover,
                                    canopy,
                                    world_width,
                                    world_height,
                                    snow_threshold_y,
                                    climate,
                                    body,
                                },
                                p5,
                            ),
                        ),
                        Err(e) => Err(e),
                    },
                    Err(e) => Err(e),
                },
                Err(e) => Err(e),
            },
            Err(e) => Err(e),
        }
    } else {
        Err(CacheError::Truncated)
    }
}

fn i32_from_bits(v: u64) -> (r: i32)
    requires
        v < 0x1_0000_0000,
    ensures
        r == i32_of_bits(v as nat),
{
    if v >= 0x8000_0000 {
        (v as i64 - 0x1_0000_0000) as i32
    } else {
        v as i32
    }
}

/// The little-endian `u64` at `p`, which the caller has checked is in the data.
fn u64_at(d: &[u8], p: usize) -> (v: u64)
    requires
        p + 8 <= d@.len(),
    ensures
        v == le_at(d@, p as nat, 8),
{
    read_le(d, p, 8)
}

/// The little-endian `i32` at `p`, which the caller has checked is in the data.
pub(crate) fn i32_at(d: &[u8], p: usize) -> (v: i32)
    requires
        p + 4 <= d@.len(),
    ensures
        v == i32_of_bits(le_at(d@, p as nat, 4)),
{
    let x = read_le(d, p, 4);
    proof {
        lemma_le_value_bound(d@.subrange(p as int, p + 4));
        lemma_pow256_values();
    }
    i32_from_bits(x)
}

fn read_key(d: &[u8], p: usize) -> (r: Result<(CacheKey, usize), CacheError>)
    requires
        p <= d@.len(),
    ensures
        read_as(r, sp_key(d@, p as nat), |k: CacheKey| k),
        r is Ok ==> r->Ok_0.1 <= d@.len(),
{
    if d.len() - p < 56 {
        return Err(CacheError::Truncated);
    }
    let body = match body_from_tag(d[p + 55]) {
        Ok(b) => b,
        Err(e) => return Err(e),
    };
    let key = CacheKey {
        min_lat: u64_at(d, p),
        min_lng: u64_at(d, p + 8),
        max_lat: u64_at(d, p + 16),
        max_lng: u64_at(d, p + 24),
        scale: u64_at(d, p + 32),
        ground_level: i32_at(d, p + 40),
        min_ground_level: i32_at(d, p + 44),
        disable_height_limit: d[p + 48] != 0,
        extended_max_y: i32_at(d, p + 49),
        aws_only_elevation: d[p + 53] != 0,
        canopy_height: d[p + 54] != 0,
        body,
    };
    Ok((key, p + 56))
}

fn read_elevation(d: &[u8], p: usize) -> (r: Result<(ElevationParts, usize), CacheError>)
    requires
        p <= d@.len(),
    ensures
        read_as(r, sp_elevation(d@, p as nat), |e: ElevationParts| elevation_model(e)),
        r is Ok ==> r->Ok_0.1 <= d@.len(),
{
    let (heights, q) = match r_grid_f32(d, p) {
        Ok(x) => x,
        Err(e) => return Err(e),
    };
    if d.len() - q < 84 {
        return Err(CacheError::Truncated);
    }
    let e = ElevationParts {
        heights,
        width: u64_at(d, q),
        height: u64_at(d, q + 8),
        world_width: u64_at(d, q + 16),
        world_height: u64_at(d, q + 24),
        min_height_m: u64_at(d, q + 32),
        blocks_per_meter: u64_at(d, q + 40),
        slope_correction: u64_at(d, q + 48),
        ground_level: i32_at(d, q + 56),
        h_linear_m: u64_at(d, q + 60),
        compression: u64_at(d, q + 68),
        max_source_elevation_m: u64_at(d, q + 76),
    };
    Ok((e, q + 84))
}

fn read_land_cover(d: &[u8], p: usize) -> (r: Result<(LandCoverParts, usize), CacheError>)
    requires
        p <= d@.len(),
    ensures
        read_as(r, sp_land_cover(d@, p as nat), |l: LandCoverParts| land_cover_model(l)),
        r is Ok ==> r->Ok_0.1 <= d@.len(),
{
    let (grid, q) = match r_grid_u8(d, p) {
        Ok(x) => x,
        Err(e) => return Err(e),
    };
    let (water_distance, q2) = match r_grid_u8(d, q) {
        Ok(x) => x,
        Err(e) => return Err(e),
    };
    if d.len() - q2 < 24 {
        return Err(CacheError::Truncated);
    }
    let l = LandCoverParts {
        grid,
        water_distance,
        width: u64_at(d, q2),
        height: u64_at(d, q2 + 8),
        cells_per_meter: u64_at(d, q2 + 16),
    };
    Ok((l, q2 + 24))
}

fn read_canopy(d: &[u8], p: usize) -> (r: Result<(CanopyParts, usize), CacheError>)
    requires
        p <= d@.len(),
    ensures
        read_as(r, sp_canopy(d@, p as nat), |c: CanopyParts| canopy_model(c)),
        r is Ok ==> r->Ok_0.1 <= d@.len(),
{
    let (grid, q) = match r_bytes(d, p) {
        Ok(x) => x,
        Err(e) => return Err(e),
    };
    if d.len() - q < 16 {
        return Err(CacheError::Truncated);
    }
    let c = CanopyParts { grid, width: u64_at(d, q), height: u64_at(d, q + 8) };
    Ok((c, q + 16))
}

fn read_flag(d: &[u8], p: usize) -> (r: Result<(bool, usize), CacheError>)
    requires
        p <= d@.len(),
    ensures
        read_as(r, sp_flag(d@, p as nat), |b: bool| b),
        r is Ok ==> r->Ok_0.1 <= d@.len(),
{
    if p < d.len() {
        Ok((d[p] != 0, p + 1))
    } else {
        Err(CacheError::Truncated)
    }
}

fn read_opt_elevation(d: &[u8], p: usize) -> (r: Result<(Option<ElevationParts>, usize), CacheError>)
    requires
        p <= d@.len(),
    ensures
        read_as(
            r,
            sp_opt_elevation(d@, p as nat),
            |o: Option<ElevationParts>|
                match o {
                    Some(e) => Some(elevation_model(e)),
                    None => None,
                },
        ),
        r is Ok ==> r->Ok_0.1 <= d@.len(),
{
    let (present, q) = match read_flag(d, p) {
        Ok(x) => x,
        Err(e) => return Err(e),
    };
    if present {
        match read_elevation(d, q) {
            Ok((e, q2)) => Ok((Some(e), q2)),
            Err(e) => Err(e),
        }
    } else {
        Ok((None, q))
    }
}

fn read_opt_land_cover(d: &[u8], p: usize) -> (r: Result<(Option<LandCoverParts>, usize), CacheError>)
    requires
        p <= d@.len(),
    ensures
        read_as(
            r,
            sp_opt_land_cover(d@, p as nat),
            |o: Option<LandCoverParts>|
                match o {
                    Some(l) => Some(land_cover_model(l)),
                    None => None,
                },
        ),
        r is Ok ==> r->Ok_0.1 <= d@.len(),
{
    let (present, q) = match read_flag(d, p) {
        Ok(x) => x,
        Err(e) => return Err(e),
    };
    if present {
        match read_land_cover(d, q) {
            Ok((l, q2)) => Ok((Some(l), q2)),
            Err(e) => Err(e),
        }
    } else {
        Ok((None, q))
    }
}

fn read_opt_canopy(d: &[u8], p: usize) -> (r: Result<(Option<CanopyParts>, usize), CacheError>)
    requires
        p <= d@.len(),
    ensures
        read_as(
            r,
            sp_opt_canopy(d@, p as nat),
            |o: Option<CanopyParts>|
                match o {
                    Some(c) => Some(canopy_model(c)),
                    None => None,
                },
        ),
        r is Ok ==> r->Ok_0.1 <= d@.len(),
{
    let (present, q) = match read_flag(d, p) {
        Ok(x) => x,
        Err(e) => return Err(e),
    };
    if present {
        match read_canopy(d, q) {
            Ok((c, q2)) => Ok((Some(c), q2)),
            Err(e) => Err(e),
        }
    } else {
        Ok((None, q))
    }
}

fn read_ground_tail(d: &[u8], p: usize) -> (r: Result<((u64, u64, i32, Climate, CelestialBody), usize), CacheError>)
    requires
        p <= d@.len(),
    ensures
        read_as(r, sp_ground_tail(d@, p as nat), |t: (u64, u64, i32, Climate, CelestialBody)| t),
        r is Ok ==> r->Ok_0.1 <= d@.len(),
{
    if d.len() - p < 21 {
        return Err(CacheError::Truncated);
    }
    let climate = match climate_from_tag(d[p + 20]) {
        Ok(c) => c,
        Err(e) => return Err(e),
    };
    if d.len() - p < 22 {
        return Err(CacheError::Truncated);
    }
    let body = match body_from_tag(d[p + 21]) {
        Ok(b) => b,
        Err(e) => return Err(e),
    };
    Ok(((u64_at(d, p), u64_at(d, p + 8), i32_at(d, p + 16), climate, body), p + 22))
}

fn read_ground(d: &[u8], p: usize) -> (r: Result<(GroundParts, usize), CacheError>)
    requires
        p <= d@.len(),
    ensures
        read_as(r, sp_ground(d@, p as nat), |g: GroundParts| ground_model(g)),
        r is Ok ==> r->Ok_0.1 <= d@.len(),
{
    if d.len() - p < 6 {
        return Err(CacheError::Truncated);
    }
    let elevation_enabled = d[p] != 0;
    let extended_ceiling = d[p + 1] != 0;
    let ground_level = i32_at(d, p + 2);
    let (elevation, p2) = match read_opt_elevation(d, p + 6) {
        Ok(x) => x,
        Err(e) => return Err(e),
    };
    let (land_cover, p3) = match read_opt_land_cover(d, p2) {
        Ok(x) => x,
        Err(e) => return Err(e),
    };
    let (canopy, p4) = match read_opt_canopy(d, p3) {
        Ok(x) => x,
        Err(e) => return Err(e),
    };
    let ((world_width, world_height, snow_threshold_y, climate, body), p5) = match read_ground_tail(d, p4) {
        Ok(x) => x,
        Err(e) => return Err(e),
    };
    let g = GroundParts {
        elevation_enabled,
        extended_ceiling,
        ground_level,
        elevation,
        land_cover,
        canopy,
        world_width,
        world_height,
        snow_threshold_y,
        climate,
        body,
    };
    Ok((g, p5))
}

/// An `f64` bit pattern without its sign bit.
pub open spec fn f64_magnitude(b: u64) -> nat {
    (b % 0x8000_0000_0000_0000) as nat
}

/// Whether an `f64` bit pattern is a NaN (all exponent bits set, mantissa
/// not zero).
pub open spec fn f64_is_nan(b: u64) -> bool {
    f64_magnitude(b) > 0x7FF0_0000_0000_0000
}

/// IEEE-754 equality of two `f64` given by their bit patterns: no NaN is
/// equal to anything, the two zeros are equal, otherwise the bits decide.
pub open spec fn f64_bits_eq(a: u64, b: u64) -> bool {
    &&& !f64_is_nan(a)
    &&& !f64_is_nan(b)
    &&& (a == b || (f64_magnitude(a) == 0 && f64_magnitude(b) == 0))
}

/// Whether a stored key is the key asked for: the bounding boxes equal as
/// numbers, the scales equal bit for bit, every other field equal.
pub open spec fn key_matches(stored: CacheKey, wanted: CacheKey) -> bool {
    &&& f64_bits_eq(stored.min_lat, wanted.min_lat)
    &&& f64_bits_eq(stored.min_lng, wanted.min_lng)
    &&& f64_bits_eq(stored.max_lat, wanted.max_lat)
    &&& f64_bits_eq(stored.max_lng, wanted.max_lng)
    &&& stored.scale == wanted.scale
    &&& stored.ground_level == wanted.ground_level
    &&& stored.min_ground_level == wanted.min_ground_level
    &&& stored.disable_height_limit == wanted.disable_height_limit
    &&& stored.extended_max_y == wanted.extended_max_y
    &&& stored.aws_only_elevation == wanted.aws_only_elevation
    &&& stored.canopy_height == wanted.canopy_height
    &&& stored.body == wanted.body
}

/// What a cache file holds for `key`: an error for a file that is not a
/// cache file or is cut short or corrupt, `None` for a file of another
/// layout version or of another key, else the stored terrain. Bytes after
/// the terrain record are ignored.
pub open spec fn spec_decode(d: Seq<u8>, key: CacheKey) -> Result<Option<GroundModel>, CacheError> {
    if d.len() < 4 {
        Err(CacheError::Truncated)
    } else if le_at(d, 0, 4) != MAGIC as nat {
        Err(CacheError::BadMagic)
    } else if d.len() < 8 {
        Err(CacheError::Truncated)
    } else if le_at(d, 4, 4) != CACHE_FORMAT_VERSION as nat {
        Ok(None)
    } else {
        match sp_bytes(d, 8) {
            Ok((version, p)) => if !valid_utf8(version) {
                Err(CacheError::BadText)
            } else {
                match sp_key(d, p) {
                    Ok((stored, q)) => if !key_matches(stored, key) {
                        Ok(None)
                    } else {
                        match sp_ground(d, q) {
                            Ok((g, _)) => Ok(Some(g)),
                            Err(e) => Err(e),
                        }
                    },
                    Err(e) => Err(e),
                }
            },
            Err(e) => Err(e),
        }
    }
}

/// `std::str::from_utf8`, which accepts exactly the byte strings that are
/// valid UTF-8; only whether it accepted is kept.
#[verifier::external_body]
fn is_utf8(b: &[u8]) -> (ok: bool)
    ensures
        ok == valid_utf8(b@),
{
    std::str::from_utf8(b).is_ok()
}

fn f64_eq_bits(a: u64, b: u64) -> (r: bool)
    ensures
        r == f64_bits_eq(a, b),
{
    let ma = a % 0x8000_0000_0000_0000;
    let mb = b % 0x8000_0000_0000_0000;
    if ma > 0x7FF0_0000_0000_0000 || mb > 0x7FF0_0000_0000_0000 {
        false
    } else {
        a == b || (ma == 0 && mb == 0)
    }
}

impl CacheKey {
    /// Whether this (stored) key is the key `wanted`.
    pub fn matches(&self, wanted: &CacheKey) -> (r: bool)
        ensures
            r == key_matches(*self, *wanted),
    {
        f64_eq_bits(self.min_lat, wanted.min_lat) && f64_eq_bits(self.min_lng, wanted.min_lng)
            && f64_eq_bits(self.max_lat, wanted.max_lat) && f64_eq_bits(self.max_lng, wanted.max_lng)
            && self.scale == wanted.scale && self.ground_level == wanted.ground_level
            && self.min_ground_level == wanted.min_ground_level
            && self.disable_height_limit == wanted.disable_height_limit
            && self.extended_max_y == wanted.extended_max_y
            && self.aws_only_elevation == wanted.aws_only_elevation
            && self.canopy_height == wanted.canopy_height && self.body == wanted.body
    }
}

/// Reads a cache file's bytes for `key`: `Ok(Some(..))` is a hit with the
/// stored terrain, `Ok(None)` a plain miss (another layout version or
/// another key), `Err` a file that is not a readable cache file.
pub fn decode_cache(data: &[u8], key: &CacheKey) -> (r: Result<Option<GroundParts>, CacheError>)
    ensures
        match spec_decode(data@, *key) {
            Ok(Some(g)) => r matches Ok(Some(x)) && ground_model(x) == g,
            Ok(None) => r matches Ok(None),
            Err(e) => r matches Err(e2) && e2 == e,
        },
{
    if data.len() < 4 {
        return Err(CacheError::Truncated);
    }
    proof {
        lemma_le_value_bound(data@.subrange(0, 4));
        lemma_pow256_values();
    }
    if read_le(data, 0, 4) != MAGIC as u64 {
        return Err(CacheError::BadMagic);
    }
    if data.len() < 8 {
        return Err(CacheError::Truncated);
    }
    if read_le(data, 4, 4) != CACHE_FORMAT_VERSION as u64 {
        return Ok(None);
    }
    let (version, p) = match r_bytes(data, 8) {
        Ok(x) => x,
        Err(e) => return Err(e),
    };
    if !is_utf8(version.as_slice()) {
        return Err(CacheError::BadText);
    }
    let (stored, q) = match read_key(data, p) {
        Ok(x) => x,
        Err(e) => return Err(e),
    };
    if !stored.matches(key) {
        return Ok(None);
    }
    match read_ground(data, q) {
        Ok((g, _)) => Ok(Some(g)),
        Err(e) => Err(e),
    }
}

} // verus!
