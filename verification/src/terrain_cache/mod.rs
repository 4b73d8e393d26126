//! The terrain computation cache: a flat binary file of the terrain grids
//! (heights, land-cover classes, canopy heights) plus a header recording
//! exactly which run produced them, so a repeat run with the same key loads
//! instead of recomputing.

pub mod bytes;
pub mod decode;
pub mod round_trip;

use self::bytes::{le_bytes, le_value, lemma_le_bytes_len, lemma_le_round_trip, lemma_pow256_values, pow256, push_le, read_le};
use crate::buildings::{fnv1a, fnv1a_bytes};
use crate::text::string_from_chars;
use vstd::prelude::*;
use vstd::string::StringSliceAdditionalSpecFns;
use vstd::utf8::valid_utf8;

verus! {

broadcast use vstd::string::group_string_axioms;

/// The file's magic number (`"TCAC"`).
pub const MAGIC: u32 = 0x5443_4143;

/// The layout version; a file of any other version is a plain miss.
pub const CACHE_FORMAT_VERSION: u32 = 1;

/// The body the world is generated for.
#[derive(Clone, Copy, PartialEq, Eq, Structural, Debug)]
pub enum CelestialBody {
    Earth,
    Moon,
    Mars,
}

/// The climate zone the terrain was generated with.
#[derive(Clone, Copy, PartialEq, Eq, Structural, Debug)]
pub enum Climate {
    Temperate,
    TropicalSavanna,
    HotDesert,
    HotSteppe,
    ColdDesert,
    ColdSteppe,
    DryContinental,
    Boreal,
    Tundra,
    IceCap,
}

/// Why a cache file could not be read.
#[derive(Clone, Copy, PartialEq, Eq, Structural, Debug)]
pub enum CacheError {
    /// The file ends before a value it declares.
    Truncated,
    /// The file does not start with the magic number.
    BadMagic,
    /// The recorded crate version is not UTF-8.
    BadText,
    /// An unknown celestial-body tag.
    UnknownBody(u8),
    /// An unknown climate tag.
    UnknownClimate(u8),
}

/// Every input that determines the terrain, floats held as their IEEE-754
/// bit patterns: the bounding box (min lat, min lng, max lat, max lng), the
/// scale, the ground levels, the height-limit and elevation-source flags,
/// and the body.
#[derive(Clone, Copy, PartialEq, Eq, Structural, Debug)]
pub struct CacheKey {
    pub min_lat: u64,
    pub min_lng: u64,
    pub max_lat: u64,
    pub max_lng: u64,
    pub scale: u64,
    pub ground_level: i32,
    pub min_ground_level: i32,
    pub disable_height_limit: bool,
    pub extended_max_y: i32,
    pub aws_only_elevation: bool,
    pub canopy_height: bool,
    pub body: CelestialBody,
}

/// The elevation grid and its parameters (`heights` as `f32` bit
/// patterns, the `f64` parameters as bit patterns).
pub struct ElevationParts {
    pub heights: Vec<Vec<u32>>,
    pub width: u64,
    pub height: u64,
    pub world_width: u64,
    pub world_height: u64,
    pub min_height_m: u64,
    pub blocks_per_meter: u64,
    pub slope_correction: u64,
    pub ground_level: i32,
    pub h_linear_m: u64,
    pub compression: u64,
    pub max_source_elevation_m: u64,
}

/// The land-cover grid, the distance-to-water grid and their size
/// (`cells_per_meter` as an `f64` bit pattern).
pub struct LandCoverParts {
    pub grid: Vec<Vec<u8>>,
    pub water_distance: Vec<Vec<u8>>,
    pub width: u64,
    pub height: u64,
    pub cells_per_meter: u64,
}

/// The canopy-height grid, row-major, and its size.
pub struct CanopyParts {
    pub grid: Vec<u8>,
    pub width: u64,
    pub height: u64,
}

/// Everything the cache stores of the computed terrain.
pub struct GroundParts {
    pub elevation_enabled: bool,
    pub extended_ceiling: bool,
    pub ground_level: i32,
    pub elevation: Option<ElevationParts>,
    pub land_cover: Option<LandCoverParts>,
    pub canopy: Option<CanopyParts>,
    pub world_width: u64,
    pub world_height: u64,
    pub snow_threshold_y: i32,
    pub climate: Climate,
    pub body: CelestialBody,
}

/// [`ElevationParts`] by value.
pub struct ElevationModel {
    pub heights: Seq<Seq<u32>>,
    pub width: u64,
    pub height: u64,
    pub world_width: u64,
    pub world_height: u64,
    pub min_height_m: u64,
    pub blocks_per_meter: u64,
    pub slope_correction: u64,
    pub ground_level: i32,
    pub h_linear_m: u64,
    pub compression: u64,
    pub max_source_elevation_m: u64,
}

/// [`LandCoverParts`] by value.
pub struct LandCoverModel {
    pub grid: Seq<Seq<u8>>,
    pub water_distance: Seq<Seq<u8>>,
    pub width: u64,
    pub height: u64,
    pub cells_per_meter: u64,
}

/// [`CanopyParts`] by value.
pub struct CanopyModel {
    pub grid: Seq<u8>,
    pub width: u64,
    pub height: u64,
}

/// [`GroundParts`] by value.
pub struct GroundModel {
    pub elevation_enabled: bool,
    pub extended_ceiling: bool,
    pub ground_level: i32,
    pub elevation: Option<ElevationModel>,
    pub land_cover: Option<LandCoverModel>,
    pub canopy: Option<CanopyModel>,
    pub world_width: u64,
    pub world_height: u64,
    pub snow_threshold_y: i32,
    pub climate: Climate,
    pub body: CelestialBody,
}

pub open spec fn elevation_model(e: ElevationParts) -> ElevationModel {
    ElevationModel {
        heights: e.heights@.map_values(|r: Vec<u32>| r@),
        width: e.width,
        height: e.height,
        world_width: e.world_width,
        world_height: e.world_height,
        min_height_m: e.min_height_m,
        blocks_per_meter: e.blocks_per_meter,
        slope_correction: e.slope_correction,
        ground_level: e.ground_level,
        h_linear_m: e.h_linear_m,
        compression: e.compression,
        max_source_elevation_m: e.max_source_elevation_m,
    }
}

pub open spec fn land_cover_model(l: LandCoverParts) -> LandCoverModel {
    LandCoverModel {
        grid: l.grid@.map_values(|r: Vec<u8>| r@),
        water_distance: l.water_distance@.map_values(|r: Vec<u8>| r@),
        width: l.width,
        height: l.height,
        cells_per_meter: l.cells_per_meter,
    }
}

pub open spec fn canopy_model(c: CanopyParts) -> CanopyModel {
    CanopyModel { grid: c.grid@, width: c.width, height: c.height }
}

/// The value of stored terrain parts.
pub open spec fn ground_model(g: GroundParts) -> GroundModel {
    GroundModel {
        elevation_enabled: g.elevation_enabled,
        extended_ceiling: g.extended_ceiling,
        ground_level: g.ground_level,
        elevation: match g.elevation {
            Some(e) => Some(elevation_model(e)),
            None => None,
        },
        land_cover: match g.land_cover {
            Some(l) => Some(land_cover_model(l)),
            None => None,
        },
        canopy: match g.canopy {
            Some(c) => Some(canopy_model(c)),
            None => None,
        },
        world_width: g.world_width,
        world_height: g.world_height,
        snow_threshold_y: g.snow_threshold_y,
        climate: g.climate,
        body: g.body,
    }
}

/// The tag of a body.
pub open spec fn body_tag_of(b: CelestialBody) -> u8 {
    match b {
        CelestialBody::Earth => 0,
        CelestialBody::Moon => 1,
        CelestialBody::Mars => 2,
    }
}

/// The body of a tag, if it names one.
pub open spec fn body_of_tag(t: u8) -> Option<CelestialBody> {
    if t == 0 {
        Some(CelestialBody::Earth)
    } else if t == 1 {
        Some(CelestialBody::Moon)
    } else if t == 2 {
        Some(CelestialBody::Mars)
    } else {
        None
    }
}

/// The tag of a climate.
pub open spec fn climate_tag_of(c: Climate) -> u8 {
    match c {
        Climate::Temperate => 0,
        Climate::TropicalSavanna => 1,
        Climate::HotDesert => 2,
        Climate::HotSteppe => 3,
        Climate::ColdDesert => 4,
        Climate::ColdSteppe => 5,
        Climate::DryContinental => 6,
        Climate::Boreal => 7,
        Climate::Tundra => 8,
        Climate::IceCap => 9,
    }
}

/// The climate of a tag, if it names one.
pub open spec fn climate_of_tag(t: u8) -> Option<Climate> {
    if t == 0 {
        Some(Climate::Temperate)
    } else if t == 1 {
        Some(Climate::TropicalSavanna)
    } else if t == 2 {
        Some(Climate::HotDesert)
    } else if t == 3 {
        Some(Climate::HotSteppe)
    } else if t == 4 {
        Some(Climate::ColdDesert)
    } else if t == 5 {
        Some(Climate::ColdSteppe)
    } else if t == 6 {
        Some(Climate::DryContinental)
    } else if t == 7 {
        Some(Climate::Boreal)
    } else if t == 8 {
        Some(Climate::Tundra)
    } else if t == 9 {
        Some(Climate::IceCap)
    } else {
        None
    }
}

/// The tag of a body.
pub fn body_tag(b: CelestialBody) -> (t: u8)
    ensures
        t == body_tag_of(b),
{
    match b {
        CelestialBody::Earth => 0,
        CelestialBody::Moon => 1,
        CelestialBody::Mars => 2,
    }
}

/// The body of a tag.
pub fn body_from_tag(t: u8) -> (r: Result<CelestialBody, CacheError>)
    ensures
        r == (match body_of_tag(t) {
            Some(b) => Ok(b),
            None => Err(CacheError::UnknownBody(t)),
        }),
{
    if t == 0 {
        Ok(CelestialBody::Earth)
    } else if t == 1 {
        Ok(CelestialBody::Moon)
    } else if t == 2 {
        Ok(CelestialBody::Mars)
    } else {
        Err(CacheError::UnknownBody(t))
    }
}

/// The tag of a climate.
pub fn climate_tag(c: Climate) -> (t: u8)
    ensures
        t == climate_tag_of(c),
{
    match c {
        Climate::Temperate => 0,
        Climate::TropicalSavanna => 1,
        Climate::HotDesert => 2,
        Climate::HotSteppe => 3,
        Climate::ColdDesert => 4,
        Climate::ColdSteppe => 5,
        Climate::DryContinental => 6,
        Climate::Boreal => 7,
        Climate::Tundra => 8,
        Climate::IceCap => 9,
    }
}

/// The climate of a tag.
pub fn climate_from_tag(t: u8) -> (r: Result<Climate, CacheError>)
    ensures
        r == (match climate_of_tag(t) {
            Some(c) => Ok(c),
            None => Err(CacheError::UnknownClimate(t)),
        }),
{
    if t == 0 {
        Ok(Climate::Temperate)
    } else if t == 1 {
        Ok(Climate::TropicalSavanna)
    } else if t == 2 {
        Ok(Climate::HotDesert)
    } else if t == 3 {
        Ok(Climate::HotSteppe)
    } else if t == 4 {
        Ok(Climate::ColdDesert)
    } else if t == 5 {
        Ok(Climate::ColdSteppe)
    } else if t == 6 {
        Ok(Climate::DryContinental)
    } else if t == 7 {
        Ok(Climate::Boreal)
    } else if t == 8 {
        Ok(Climate::Tundra)
    } else if t == 9 {
        Ok(Climate::IceCap)
    } else {
        Err(CacheError::UnknownClimate(t))
    }
}

/// One byte.
pub open spec fn enc_u8(v: u8) -> Seq<u8> {
    seq![v]
}

/// A flag as one byte, `1` or `0`.
pub open spec fn enc_bool(b: bool) -> Seq<u8> {
    seq![if b { 1u8 } else { 0u8 }]
}

/// A `u32`, little-endian.
pub open spec fn enc_u32(v: u32) -> Seq<u8> {
    le_bytes(v as nat, 4)
}

/// A `u64`, little-endian.
pub open spec fn enc_u64(v: u64) -> Seq<u8> {
    le_bytes(v as nat, 8)
}

/// The two's-complement bit pattern of an `i32`.
pub open spec fn i32_bits(v: i32) -> nat {
    if v < 0 {
        (v + 0x1_0000_0000) as nat
    } else {
        v as nat
    }
}

/// An `i32`, little-endian two's complement.
pub open spec fn enc_i32(v: i32) -> Seq<u8> {
    le_bytes(i32_bits(v), 4)
}

/// A byte string: its length as a `u64`, then the bytes.
pub open spec fn enc_bytes(s: Seq<u8>) -> Seq<u8> {
    le_bytes(s.len(), 8) + s
}

/// `u32` values back to back.
pub open spec fn enc_u32s(s: Seq<u32>) -> Seq<u8>
    decreases s.len(),
{
    if s.len() == 0 {
        Seq::empty()
    } else {
        enc_u32s(s.drop_last()) + enc_u32(s.last())
    }
}

/// A row of `f32` bit patterns: its length as a `u64`, then the values.
pub open spec fn enc_f32_row(s: Seq<u32>) -> Seq<u8> {
    le_bytes(s.len(), 8) + enc_u32s(s)
}

/// Byte rows back to back, each as [`enc_bytes`].
pub open spec fn enc_rows_u8(g: Seq<Seq<u8>>) -> Seq<u8>
    decreases g.len(),
{
    if g.len() == 0 {
        Seq::empty()
    } else {
        enc_rows_u8(g.drop_last()) + enc_bytes(g.last())
    }
}

/// A byte grid: its row count as a `u64`, then the rows.
pub open spec fn enc_grid_u8(g: Seq<Seq<u8>>) -> Seq<u8> {
    le_bytes(g.len(), 8) + enc_rows_u8(g)
}

/// `f32` rows back to back, each as [`enc_f32_row`].
pub open spec fn enc_rows_f32(g: Seq<Seq<u32>>) -> Seq<u8>
    decreases g.len(),
{
    if g.len() == 0 {
        Seq::empty()
    } else {
        enc_rows_f32(g.drop_last()) + enc_f32_row(g.last())
    }
}

/// An `f32` grid: its row count as a `u64`, then the rows.
pub open spec fn enc_grid_f32(g: Seq<Seq<u32>>) -> Seq<u8> {
    le_bytes(g.len(), 8) + enc_rows_f32(g)
}

/// The key, field by field in declaration order, the body as its tag.
pub open spec fn enc_key(k: CacheKey) -> Seq<u8> {
    enc_u64(k.min_lat) + enc_u64(k.min_lng) + enc_u64(k.max_lat) + enc_u64(k.max_lng) + enc_u64(k.scale)
        + enc_i32(k.ground_level) + enc_i32(k.min_ground_level) + enc_bool(k.disable_height_limit)
        + enc_i32(k.extended_max_y) + enc_bool(k.aws_only_elevation) + enc_bool(k.canopy_height)
        + enc_u8(body_tag_of(k.body))
}

/// The elevation data: the grid, then the sizes and parameters.
pub open spec fn enc_elevation(e: ElevationModel) -> Seq<u8> {
    enc_grid_f32(e.heights) + enc_u64(e.width) + enc_u64(e.height) + enc_u64(e.world_width) + enc_u64(
        e.world_height,
    ) + enc_u64(e.min_height_m) + enc_u64(e.blocks_per_meter) + enc_u64(e.slope_correction) + enc_i32(
        e.ground_level,
    ) + enc_u64(e.h_linear_m) + enc_u64(e.compression) + enc_u64(e.max_source_elevation_m)
}

/// The land-cover data: both grids, then the size and resolution.
pub open spec fn enc_land_cover(l: LandCoverModel) -> Seq<u8> {
    enc_grid_u8(l.grid) + enc_grid_u8(l.water_distance) + enc_u64(l.width) + enc_u64(l.height) + enc_u64(
        l.cells_per_meter,
    )
}

/// The canopy data: the grid bytes, then the size.
pub open spec fn enc_canopy(c: CanopyModel) -> Seq<u8> {
    enc_bytes(c.grid) + enc_u64(c.width) + enc_u64(c.height)
}

/// An optional elevation part behind its presence flag.
pub open spec fn enc_opt_elevation(e: Option<ElevationModel>) -> Seq<u8> {
    match e {
        Some(e) => enc_bool(true) + enc_elevation(e),
        None => enc_bool(false),
    }
}

/// An optional land-cover part behind its presence flag.
pub open spec fn enc_opt_land_cover(l: Option<LandCoverModel>) -> Seq<u8> {
    match l {
        Some(l) => enc_bool(true) + enc_land_cover(l),
        None => enc_bool(false),
    }
}

/// An optional canopy part behind its presence flag.
pub open spec fn enc_opt_canopy(c: Option<CanopyModel>) -> Seq<u8> {
    match c {
        Some(c) => enc_bool(true) + enc_canopy(c),
        None => enc_bool(false),
    }
}

/// The terrain: flags and base level, each optional grid behind a
/// presence flag, world size, snow line, climate and body tags.
pub open spec fn enc_ground(g: GroundModel) -> Seq<u8> {
    enc_bool(g.elevation_enabled) + enc_bool(g.extended_ceiling) + enc_i32(g.ground_level) + enc_opt_elevation(
        g.elevation,
    ) + enc_opt_land_cover(g.land_cover) + enc_opt_canopy(g.canopy) + enc_u64(g.world_width) + enc_u64(
        g.world_height,
    ) + enc_i32(g.snow_threshold_y) + enc_u8(climate_tag_of(g.climate)) + enc_u8(body_tag_of(g.body))
}

/// A whole cache file: magic, layout version, the writing crate's version
/// text, the key, the terrain.
pub open spec fn enc_cache(version: Seq<u8>, k: CacheKey, g: GroundModel) -> Seq<u8> {
    enc_u32(MAGIC) + enc_u32(CACHE_FORMAT_VERSION) + enc_bytes(version) + enc_key(k) + enc_ground(g)
}

fn w_u8(out: &mut Vec<u8>, v: u8)
    ensures
        final(out)@ == old(out)@ + enc_u8(v),
{
    out.push(v);
}

fn w_bool(out: &mut Vec<u8>, v: bool)
    ensures
        final(out)@ == old(out)@ + enc_bool(v),
{
    out.push(if v { 1 } else { 0 });
}

fn w_u32(out: &mut Vec<u8>, v: u32)
    ensures
        final(out)@ == old(out)@ + enc_u32(v),
{
    push_le(out, v as u64, 4);
}

fn w_u64(out: &mut Vec<u8>, v: u64)
    ensures
        final(out)@ == old(out)@ + enc_u64(v),
{
    push_le(out, v, 8);
}

fn w_i32(out: &mut Vec<u8>, v: i32)
    ensures
        final(out)@ == old(out)@ + enc_i32(v),
{
    let u: u64 = if v < 0 {
        (v as i64 + 0x1_0000_0000) as u64
    } else {
        v as u64
    };
    push_le(out, u, 4);
}

fn w_bytes(out: &mut Vec<u8>, v: &[u8])
    ensures
        final(out)@ == old(out)@ + enc_bytes(v@),
{
    push_le(out, v.len() as u64, 8);
    let ghost mid = out@;
    let mut i: usize = 0;
    while i < v.len()
        invariant
            i <= v@.len(),
            out@ == mid + v@.take(i as int),
        decreases v.len() - i,
    {
        out.push(v[i]);
        assert(out@ =~= mid + v@.take(i + 1));
        i += 1;
    }
    assert(v@.take(v.len() as int) =~= v@);
    assert(out@ =~= old(out)@ + enc_bytes(v@));
}

fn w_f32_row(out: &mut Vec<u8>, v: &[u32])
    ensures
        final(out)@ == old(out)@ + enc_f32_row(v@),
{
    push_le(out, v.len() as u64, 8);
    let ghost mid = out@;
    let mut i: usize = 0;
    while i < v.len()
        invariant
            i <= v@.len(),
            out@ == mid + enc_u32s(v@.take(i as int)),
        decreases v.len() - i,
    {
        assert(v@.take(i + 1).drop_last() =~= v@.take(i as int));
        w_u32(out, v[i]);
        assert(out@ =~= mid + enc_u32s(v@.take(i + 1)));
        i += 1;
    }
    assert(v@.take(v.len() as int) =~= v@);
    assert(out@ =~= old(out)@ + enc_f32_row(v@));
}

fn w_grid_u8(out: &mut Vec<u8>, g: &Vec<Vec<u8>>)
    ensures
        final(out)@ == old(out)@ + enc_grid_u8(g@.map_values(|r: Vec<u8>| r@)),
{
    let ghost gv = g@.map_values(|r: Vec<u8>| r@);
    push_le(out, g.len() as u64, 8);
    let ghost mid = out@;
    let mut i: usize = 0;
    while i < g.len()
        invariant
            i <= g@.len(),
            gv == g@.map_values(|r: Vec<u8>| r@),
            out@ == mid + enc_rows_u8(gv.take(i as int)),
        decreases g.len() - i,
    {
        assert(gv.take(i + 1).drop_last() =~= gv.take(i as int));
        w_bytes(out, g[i].as_slice());
        assert(out@ =~= mid + enc_rows_u8(gv.take(i + 1)));
        i += 1;
    }
    assert(gv.take(g.len() as int) =~= gv);
    assert(out@ =~= old(out)@ + enc_grid_u8(gv));
}

fn w_grid_f32(out: &mut Vec<u8>, g: &Vec<Vec<u32>>)
    ensures
        final(out)@ == old(out)@ + enc_grid_f32(g@.map_values(|r: Vec<u32>| r@)),
{
    let ghost gv = g@.map_values(|r: Vec<u32>| r@);
    push_le(out, g.len() as u64, 8);
    let ghost mid = out@;
    let mut i: usize = 0;
    while i < g.len()
        invariant
            i <= g@.len(),
            gv == g@.map_values(|r: Vec<u32>| r@),
            out@ == mid + enc_rows_f32(gv.take(i as int)),
        decreases g.len() - i,
    {
        assert(gv.take(i + 1).drop_last() =~= gv.take(i as int));
        w_f32_row(out, g[i].as_slice());
        assert(out@ =~= mid + enc_rows_f32(gv.take(i + 1)));
        i += 1;
    }
    assert(gv.take(g.len() as int) =~= gv);
    assert(out@ =~= old(out)@ + enc_grid_f32(gv));
}

fn write_key(out: &mut Vec<u8>, k: &CacheKey)
    ensures
        final(out)@ == old(out)@ + enc_key(*k),
{
    w_u64(out, k.min_lat);
    w_u64(out, k.min_lng);
    w_u64(out, k.max_lat);
    w_u64(out, k.max_lng);
    w_u64(out, k.scale);
    w_i32(out, k.ground_level);
    w_i32(out, k.min_ground_level);
    w_bool(out, k.disable_height_limit);
    w_i32(out, k.extended_max_y);
    w_bool(out, k.aws_only_elevation);
    w_bool(out, k.canopy_height);
    w_u8(out, body_tag(k.body));
    assert(out@ =~= old(out)@ + enc_key(*k));
}

fn write_elevation(out: &mut Vec<u8>, e: &ElevationParts)
    ensures
        final(out)@ == old(out)@ + enc_elevation(elevation_model(*e)),
{
    w_grid_f32(out, &e.heights);
    w_u64(out, e.width);
    w_u64(out, e.height);
    w_u64(out, e.world_width);
    w_u64(out, e.world_height);
    w_u64(out, e.min_height_m);
    w_u64(out, e.blocks_per_meter);
    w_u64(out, e.slope_correction);
    w_i32(out, e.ground_level);
    w_u64(out, e.h_linear_m);
    w_u64(out, e.compression);
    w_u64(out, e.max_source_elevation_m);
    assert(out@ =~= old(out)@ + enc_elevation(elevation_model(*e)));
}

fn write_land_cover(out: &mut Vec<u8>, l: &LandCoverParts)
    ensures
        final(out)@ == old(out)@ + enc_land_cover(land_cover_model(*l)),
{
    w_grid_u8(out, &l.grid);
    w_grid_u8(out, &l.water_distance);
    w_u64(out, l.width);
    w_u64(out, l.height);
    w_u64(out, l.cells_per_meter);
    assert(out@ =~= old(out)@ + enc_land_cover(land_cover_model(*l)));
}

fn write_opt_elevation(out: &mut Vec<u8>, e: &Option<ElevationParts>)
    ensures
        final(out)@ == old(out)@ + enc_opt_elevation(
            match *e {
                Some(x) => Some(elevation_model(x)),
                None => None,
            },
        ),
{
    match e {
        Some(x) => {
            w_bool(out, true);
            write_elevation(out, x);
        },
        None => {
            w_bool(out, false);
        },
    }
    assert(out@ =~= old(out)@ + enc_opt_elevation(
        match *e {
            Some(x) => Some(elevation_model(x)),
            None => None,
        },
    ));
}

fn write_opt_land_cover(out: &mut Vec<u8>, l: &Option<LandCoverParts>)
    ensures
        final(out)@ == old(out)@ + enc_opt_land_cover(
            match *l {
                Some(x) => Some(land_cover_model(x)),
                None => None,
            },
        ),
{
    match l {
        Some(x) => {
            w_bool(out, true);
            write_land_cover(out, x);
        },
        None => {
            w_bool(out, false);
        },
    }
    assert(out@ =~= old(out)@ + enc_opt_land_cover(
        match *l {
            Some(x) => Some(land_cover_model(x)),
            None => None,
        },
    ));
}

fn write_opt_canopy(out: &mut Vec<u8>, c: &Option<CanopyParts>)
    ensures
        final(out)@ == old(out)@ + enc_opt_canopy(
            match *c {
                Some(x) => Some(canopy_model(x)),
                None => None,
            },
        ),
{
    match c {
        Some(x) => {
            w_bool(out, true);
            w_bytes(out, x.grid.as_slice());
            w_u64(out, x.width);
            w_u64(out, x.height);
        },
        None => {
            w_bool(out, false);
        },
    }
    assert(out@ =~= old(out)@ + enc_opt_canopy(
        match *c {
            Some(x) => Some(canopy_model(x)),
            None => None,
        },
    ));
}

fn write_ground(out: &mut Vec<u8>, ground: &GroundParts)
    ensures
        final(out)@ == old(out)@ + enc_ground(ground_model(*ground)),
{
    let ghost s0 = old(out)@;
    let ghost g = ground_model(*ground);
    let ghost mut acc: Seq<u8> = Seq::empty();
    assert(s0 + acc =~= s0);
    w_bool(out, ground.elevation_enabled);
    proof {
        vstd::seq_lib::lemma_concat_associative(s0, acc, enc_bool(g.elevation_enabled));
        acc = acc + enc_bool(g.elevation_enabled);
    }
    w_bool(out, ground.extended_ceiling);
    proof {
        vstd::seq_lib::lemma_concat_associative(s0, acc, enc_bool(g.extended_ceiling));
        acc = acc + enc_bool(g.extended_ceiling);
    }
    w_i32(out, ground.ground_level);
    proof {
        vstd::seq_lib::lemma_concat_associative(s0, acc, enc_i32(g.ground_level));
        acc = acc + enc_i32(g.ground_level);
    }
    write_opt_elevation(out, &ground.elevation);
    proof {
        vstd::seq_lib::lemma_concat_associative(s0, acc, enc_opt_elevation(g.elevation));
        acc = acc + enc_opt_elevation(g.elevation);
    }
    write_opt_land_cover(out, &ground.land_cover);
    proof {
        vstd::seq_lib::lemma_concat_associative(s0, acc, enc_opt_land_cover(g.land_cover));
        acc = acc + enc_opt_land_cover(g.land_cover);
    }
    write_opt_canopy(out, &ground.canopy);
    proof {
        vstd::seq_lib::lemma_concat_associative(s0, acc, enc_opt_canopy(g.canopy));
        acc = acc + enc_opt_canopy(g.canopy);
    }
    w_u64(out, ground.world_width);
    proof {
        vstd::seq_lib::lemma_concat_associative(s0, acc, enc_u64(g.world_width));
        acc = acc + enc_u64(g.world_width);
    }
    w_u64(out, ground.world_height);
    proof {
        vstd::seq_lib::lemma_concat_associative(s0, acc, enc_u64(g.world_height));
        acc = acc + enc_u64(g.world_height);
    }
    w_i32(out, ground.snow_threshold_y);
    proof {
        vstd::seq_lib::lemma_concat_associative(s0, acc, enc_i32(g.snow_threshold_y));
        acc = acc + enc_i32(g.snow_threshold_y);
    }
    w_u8(out, climate_tag(ground.climate));
    proof {
        vstd::seq_lib::lemma_concat_associative(s0, acc, enc_u8(climate_tag_of(g.climate)));
        acc = acc + enc_u8(climate_tag_of(g.climate));
    }
    w_u8(out, body_tag(ground.body));
    proof {
        vstd::seq_lib::lemma_concat_associative(s0, acc, enc_u8(body_tag_of(g.body)));
        acc = acc + enc_u8(body_tag_of(g.body));
    }
    assert(acc == enc_ground(g));
}

/// The bytes of a cache file holding `ground` under `key`, recording the
/// writing crate's `version`.
pub fn encode_cache(version: &str, key: &CacheKey, ground: &GroundParts) -> (out: Vec<u8>)
    ensures
        out@ == enc_cache(version.spec_bytes(), *key, ground_model(*ground)),
{
    let mut out: Vec<u8> = Vec::new();
    w_u32(&mut out, MAGIC);
    w_u32(&mut out, CACHE_FORMAT_VERSION);
    w_bytes(&mut out, version.as_bytes());
    write_key(&mut out, key);
    write_ground(&mut out, ground);
    assert(out@ =~= enc_cache(version.spec_bytes(), *key, ground_model(*ground)));
    out
}

/// `16` to the power `n`.
pub open spec fn pow16(n: nat) -> nat
    decreases n,
{
    if n == 0 {
        1
    } else {
        16 * pow16((n - 1) as nat)
    }
}

/// The lowercase hexadecimal digit of `d` (below 16).
pub open spec fn hex_char(d: nat) -> char {
    if d < 10 {
        (48 + d) as char
    } else {
        (87 + d) as char
    }
}

/// The `n` low-order hexadecimal digits of `v`, most significant first.
pub open spec fn hex_fixed(v: nat, n: nat) -> Seq<char> {
    Seq::new(n, |i: int| hex_char((v / pow16((n - 1 - i) as nat)) % 16))
}

/// The file name stem of a key: `terrain_` and the FNV-1a hash of the
/// key's bytes as 16 lowercase hexadecimal digits.
pub open spec fn file_stem_of(k: CacheKey) -> Seq<char> {
    seq!['t', 'e', 'r', 'r', 'a', 'i', 'n', '_'] + hex_fixed(fnv1a(enc_key(k)) as nat, 16)
}

fn hex_digit(d: u64) -> (c: char)
    requires
        d < 16,
    ensures
        c == hex_char(d as nat),
{
    if d < 10 {
        ((48 + d) as u8) as char
    } else {
        ((87 + d) as u8) as char
    }
}

impl CacheKey {
    /// The short, filename-safe name of a key's cache file (without its
    /// extension). Only a name: loading still compares the whole stored key.
    pub fn file_stem(&self) -> (s: String)
        ensures
            s@ == file_stem_of(*self),
    {
        let mut bytes: Vec<u8> = Vec::new();
        write_key(&mut bytes, self);
        assert(bytes@ =~= enc_key(*self));
        let h = fnv1a_bytes(bytes.as_slice());
        let mut chars: Vec<char> = vec!['t', 'e', 'r', 'r', 'a', 'i', 'n', '_'];
        let ghost digits = hex_fixed(h as nat, 16);
        let mut div: u64 = 0x1000_0000_0000_0000;
        assert(pow16(15) == 0x1000_0000_0000_0000) by {
            reveal_with_fuel(pow16, 16);
        }
        let mut i: u64 = 0;
        while i < 16
            invariant
                i <= 16,
                div == pow16((15 - i) as nat) || (i == 16 && div == 0),
                digits == hex_fixed(h as nat, 16),
                chars@ == seq!['t', 'e', 'r', 'r', 'a', 'i', 'n', '_'] + digits.take(i as int),
            decreases 16 - i,
        {
            assert(div > 0) by {
                lemma_pow16_pos((15 - i) as nat);
            }
            let c = hex_digit((h / div) % 16);
            chars.push(c);
            assert(digits.take(i + 1) =~= digits.take(i as int).push(c));
            if i < 15 {
                assert(pow16((15 - i) as nat) == 16 * pow16((14 - i) as nat));
                div = div / 16;
            } else {
                div = 0;
            }
            i += 1;
        }
        assert(digits.take(16) =~= digits);
        string_from_chars(chars.as_slice())
    }
}

proof fn lemma_pow16_pos(n: nat)
    ensures
        pow16(n) > 0,
    decreases n,
{
    if n > 0 {
        lemma_pow16_pos((n - 1) as nat);
    }
}

} // verus!
