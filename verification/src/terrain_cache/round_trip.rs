//! Reading back what was written: each part of the layout, found at a
//! position of the data, decodes to the value it was made from, and so a
//! whole cache file decodes, for its own key, to the terrain it holds.

use super::bytes::{le_bytes, lemma_le_bytes_len, lemma_le_round_trip, lemma_pow256_values, pow256};
use super::decode::{
    f64_is_nan, i32_of_bits, key_matches, le_at, sp_bytes, sp_canopy, sp_elevation, sp_f32_row, sp_grid_f32,
    sp_grid_u8, sp_ground, sp_ground_tail, sp_key, sp_land_cover, sp_opt_canopy, sp_opt_elevation,
    sp_opt_land_cover, sp_rows_f32, sp_rows_u8, spec_decode, u32_at,
};
use super::{
    body_of_tag, body_tag_of, enc_bool, enc_bytes, enc_canopy, enc_elevation, enc_f32_row, enc_grid_f32,
    enc_grid_u8, enc_i32, enc_key, enc_land_cover, enc_rows_f32, enc_rows_u8, enc_u32, enc_u32s, enc_u64, enc_u8,
    i32_bits, CacheError, CacheKey, CanopyModel, ElevationModel, GroundModel, LandCoverModel, enc_opt_elevation,
    enc_opt_land_cover, enc_opt_canopy, enc_ground, enc_cache, climate_tag_of, climate_of_tag, Climate,
    CelestialBody, GroundParts, ground_model, MAGIC, CACHE_FORMAT_VERSION,
};
use vstd::prelude::*;
use vstd::utf8::valid_utf8;

verus! {

/// `e` stands in `d` from position `p`.
pub open spec fn at(d: Seq<u8>, p: nat, e: Seq<u8>) -> bool {
    &&& p + e.len() <= d.len()
    &&& d.subrange(p as int, (p + e.len()) as int) == e
}

/// A length that a `u64` count can record.
pub open spec fn fits64(n: nat) -> bool {
    n < 0x1_0000_0000_0000_0000
}

/// A grid whose row count and row lengths a `u64` can record.
pub open spec fn rows_fit<T>(g: Seq<Seq<T>>) -> bool {
    &&& fits64(g.len())
    &&& forall|i: int| 0 <= i < g.len() ==> fits64(#[trigger] g[i].len())
}

/// Terrain whose every length a `u64` can record.
pub open spec fn ground_fits(g: GroundModel) -> bool {
    &&& (g.elevation matches Some(e) ==> rows_fit(e.heights))
    &&& (g.land_cover matches Some(l) ==> rows_fit(l.grid) && rows_fit(l.water_distance))
    &&& (g.canopy matches Some(c) ==> fits64(c.grid.len()))
}

proof fn lemma_at_split(d: Seq<u8>, p: nat, a: Seq<u8>, b: Seq<u8>)
    requires
        at(d, p, a + b),
    ensures
        at(d, p, a),
        at(d, p + a.len(), b),
{
    let whole = d.subrange(p as int, (p + a.len() + b.len()) as int);
    assert(whole == a + b);
    assert(d.subrange(p as int, (p + a.len()) as int) =~= whole.subrange(0, a.len() as int));
    assert(whole.subrange(0, a.len() as int) =~= a);
    assert(d.subrange((p + a.len()) as int, (p + a.len() + b.len()) as int) =~= whole.subrange(
        a.len() as int,
        (a.len() + b.len()) as int,
    ));
    assert(whole.subrange(a.len() as int, (a.len() + b.len()) as int) =~= b);
}

proof fn lemma_u64_at(d: Seq<u8>, p: nat, v: u64)
    requires
        at(d, p, enc_u64(v)),
    ensures
        le_at(d, p, 8) == v,
{
    lemma_le_bytes_len(v as nat, 8);
    lemma_pow256_values();
    lemma_le_round_trip(v as nat, 8);
}

proof fn lemma_i32_at(d: Seq<u8>, p: nat, v: i32)
    requires
        at(d, p, enc_i32(v)),
    ensures
        i32_of_bits(le_at(d, p, 4)) == v,
{
    lemma_le_bytes_len(i32_bits(v), 4);
    lemma_pow256_values();
    lemma_le_round_trip(i32_bits(v), 4);
}

proof fn lemma_byte_at(d: Seq<u8>, p: nat, b: u8)
    requires
        at(d, p, seq![b]),
    ensures
        d[p as int] == b,
{
    assert(d.subrange(p as int, p + 1int)[0] == d[p as int]);
}

proof fn lemma_lens_u64(v: u64)
    ensures
        enc_u64(v).len() == 8,
{
    lemma_le_bytes_len(v as nat, 8);
}

proof fn lemma_lens_i32(v: i32)
    ensures
        enc_i32(v).len() == 4,
{
    lemma_le_bytes_len(i32_bits(v), 4);
}

proof fn lemma_sp_bytes(d: Seq<u8>, p: nat, s: Seq<u8>)
    requires
        at(d, p, enc_bytes(s)),
        fits64(s.len()),
    ensures
        enc_bytes(s).len() == 8 + s.len(),
        sp_bytes(d, p) == Ok::<(Seq<u8>, nat), CacheError>((s, p + 8 + s.len())),
{
    lemma_le_bytes_len(s.len(), 8);
    lemma_at_split(d, p, le_bytes(s.len(), 8), s);
    lemma_pow256_values();
    lemma_le_round_trip(s.len(), 8);
}

proof fn lemma_u32s(s: Seq<u32>)
    ensures
        enc_u32s(s).len() == 4 * s.len(),
        forall|i: int|
            0 <= i < s.len() ==> enc_u32s(s).subrange(4 * i, 4 * i + 4) == #[trigger] enc_u32(s[i]),
    decreases s.len(),
{
    if s.len() > 0 {
        let s1 = s.drop_last();
        lemma_u32s(s1);
        lemma_le_bytes_len(s.last() as nat, 4);
        let a = enc_u32s(s1);
        let b = enc_u32(s.last());
        assert forall|i: int| 0 <= i < s.len() implies enc_u32s(s).subrange(4 * i, 4 * i + 4) == #[trigger] enc_u32(
            s[i],
        ) by {
            if i < s.len() - 1 {
                assert(enc_u32(s1[i]) == enc_u32(s[i]));
                assert((a + b).subrange(4 * i, 4 * i + 4) =~= a.subrange(4 * i, 4 * i + 4));
            } else {
                assert((a + b).subrange(4 * i, 4 * i + 4) =~= b);
            }
        }
    }
}

proof fn lemma_sp_f32_row(d: Seq<u8>, p: nat, s: Seq<u32>)
    requires
        at(d, p, enc_f32_row(s)),
        fits64(s.len()),
    ensures
        enc_f32_row(s).len() == 8 + 4 * s.len(),
        sp_f32_row(d, p) == Ok::<(Seq<u32>, nat), CacheError>((s, p + 8 + 4 * s.len())),
{
    lemma_le_bytes_len(s.len(), 8);
    lemma_u32s(s);
    lemma_at_split(d, p, le_bytes(s.len(), 8), enc_u32s(s));
    lemma_pow256_values();
    lemma_le_round_trip(s.len(), 8);
    let q = p + 8;
    let run = d.subrange(q as int, (q + 4 * s.len()) as int);
    assert forall|i: int| 0 <= i < s.len() implies u32_at(d, q, i) == s[i] by {
        assert(d.subrange(q + 4 * i, q + 4 * i + 4) =~= run.subrange(4 * i, 4 * i + 4));
        assert(enc_u32(s[i]) == le_bytes(s[i] as nat, 4));
        lemma_le_round_trip(s[i] as nat, 4);
    }
    assert(Seq::new(s.len(), |i: int| u32_at(d, q, i)) =~= s);
}

proof fn lemma_sp_rows_u8(d: Seq<u8>, p: nat, g: Seq<Seq<u8>>)
    requires
        at(d, p, enc_rows_u8(g)),
        forall|i: int| 0 <= i < g.len() ==> fits64(#[trigger] g[i].len()),
    ensures
        sp_rows_u8(d, p, g.len()) == Ok::<(Seq<Seq<u8>>, nat), CacheError>((g, p + enc_rows_u8(g).len())),
    decreases g.len(),
{
    if g.len() == 0 {
        assert(g =~= Seq::<Seq<u8>>::empty());
    } else {
        let g1 = g.drop_last();
        lemma_at_split(d, p, enc_rows_u8(g1), enc_bytes(g.last()));
        assert forall|i: int| 0 <= i < g1.len() implies fits64(#[trigger] g1[i].len()) by {
            assert(g1[i] == g[i]);
        }
        lemma_sp_rows_u8(d, p, g1);
        lemma_sp_bytes(d, p + enc_rows_u8(g1).len(), g.last());
        assert(g1.push(g.last()) =~= g);
    }
}

proof fn lemma_sp_grid_u8(d: Seq<u8>, p: nat, g: Seq<Seq<u8>>)
    requires
        at(d, p, enc_grid_u8(g)),
        rows_fit(g),
    ensures
        sp_grid_u8(d, p) == Ok::<(Seq<Seq<u8>>, nat), CacheError>((g, p + enc_grid_u8(g).len())),
{
    lemma_le_bytes_len(g.len(), 8);
    lemma_at_split(d, p, le_bytes(g.len(), 8), enc_rows_u8(g));
    lemma_pow256_values();
    lemma_le_round_trip(g.len(), 8);
    lemma_sp_rows_u8(d, p + 8, g);
}

proof fn lemma_sp_rows_f32(d: Seq<u8>, p: nat, g: Seq<Seq<u32>>)
    requires
        at(d, p, enc_rows_f32(g)),
        forall|i: int| 0 <= i < g.len() ==> fits64(#[trigger] g[i].len()),
    ensures
        sp_rows_f32(d, p, g.len()) == Ok::<(Seq<Seq<u32>>, nat), CacheError>((g, p + enc_rows_f32(g).len())),
    decreases g.len(),
{
    if g.len() == 0 {
        assert(g =~= Seq::<Seq<u32>>::empty());
    } else {
        let g1 = g.drop_last();
        lemma_at_split(d, p, enc_rows_f32(g1), enc_f32_row(g.last()));
        assert forall|i: int| 0 <= i < g1.len() implies fits64(#[trigger] g1[i].len()) by {
            assert(g1[i] == g[i]);
        }
        lemma_sp_rows_f32(d, p, g1);
        lemma_sp_f32_row(d, p + enc_rows_f32(g1).len(), g.last());
        assert(g1.push(g.last()) =~= g);
    }
}

proof fn lemma_sp_grid_f32(d: Seq<u8>, p: nat, g: Seq<Seq<u32>>)
    requires
        at(d, p, enc_grid_f32(g)),
        rows_fit(g),
    ensures
        sp_grid_f32(d, p) == Ok::<(Seq<Seq<u32>>, nat), CacheError>((g, p + enc_grid_f32(g).len())),
{
    lemma_le_bytes_len(g.len(), 8);
    lemma_at_split(d, p, le_bytes(g.len(), 8), enc_rows_f32(g));
    lemma_pow256_values();
    lemma_le_round_trip(g.len(), 8);
    lemma_sp_rows_f32(d, p + 8, g);
}

proof fn lemma_bool_at(d: Seq<u8>, p: nat, b: bool)
    requires
        at(d, p, enc_bool(b)),
    ensures
        (d[p as int] != 0) == b,
{
    lemma_byte_at(d, p, if b { 1u8 } else { 0u8 });
}

proof fn lemma_sp_key(d: Seq<u8>, p: nat, k: CacheKey)
    requires
        at(d, p, enc_key(k)),
    ensures
        enc_key(k).len() == 56,
        sp_key(d, p) == Ok::<(CacheKey, nat), CacheError>((k, p + 56)),
{
    let a1 = enc_u64(k.min_lat);
    let a2 = enc_u64(k.min_lng);
    let a3 = enc_u64(k.max_lat);
    let a4 = enc_u64(k.max_lng);
    let a5 = enc_u64(k.scale);
    let a6 = enc_i32(k.ground_level);
    let a7 = enc_i32(k.min_ground_level);
    let a8 = enc_bool(k.disable_height_limit);
    let a9 = enc_i32(k.extended_max_y);
    let a10 = enc_bool(k.aws_only_elevation);
    let a11 = enc_bool(k.canopy_height);
    let a12 = enc_u8(body_tag_of(k.body));
    lemma_lens_u64(k.min_lat);
    lemma_lens_u64(k.min_lng);
    lemma_lens_u64(k.max_lat);
    lemma_lens_u64(k.max_lng);
    lemma_lens_u64(k.scale);
    lemma_lens_i32(k.ground_level);
    lemma_lens_i32(k.min_ground_level);
    lemma_lens_i32(k.extended_max_y);
    let s2 = a1 + a2;
    let s3 = s2 + a3;
    let s4 = s3 + a4;
    let s5 = s4 + a5;
    let s6 = s5 + a6;
    let s7 = s6 + a7;
    let s8 = s7 + a8;
    let s9 = s8 + a9;
    let s10 = s9 + a10;
    let s11 = s10 + a11;
    lemma_at_split(d, p, s11, a12);
    lemma_at_split(d, p, s10, a11);
    lemma_at_split(d, p, s9, a10);
    lemma_at_split(d, p, s8, a9);
    lemma_at_split(d, p, s7, a8);
    lemma_at_split(d, p, s6, a7);
    lemma_at_split(d, p, s5, a6);
    lemma_at_split(d, p, s4, a5);
    lemma_at_split(d, p, s3, a4);
    lemma_at_split(d, p, s2, a3);
    lemma_at_split(d, p, a1, a2);
    lemma_u64_at(d, p, k.min_lat);
    lemma_u64_at(d, p + 8, k.min_lng);
    lemma_u64_at(d, p + 16, k.max_lat);
    lemma_u64_at(d, p + 24, k.max_lng);
    lemma_u64_at(d, p + 32, k.scale);
    lemma_i32_at(d, p + 40, k.ground_level);
    lemma_i32_at(d, p + 44, k.min_ground_level);
    lemma_bool_at(d, p + 48, k.disable_height_limit);
    lemma_i32_at(d, p + 49, k.extended_max_y);
    lemma_bool_at(d, p + 53, k.aws_only_elevation);
    lemma_bool_at(d, p + 54, k.canopy_height);
    lemma_byte_at(d, p + 55, body_tag_of(k.body));
}

proof fn lemma_sp_elevation(d: Seq<u8>, p: nat, e: ElevationModel)
    requires
        at(d, p, enc_elevation(e)),
        rows_fit(e.heights),
    ensures
        enc_elevation(e).len() == enc_grid_f32(e.heights).len() + 84,
        sp_elevation(d, p) == Ok::<(ElevationModel, nat), CacheError>((e, p + enc_elevation(e).len())),
{
    let a1 = enc_grid_f32(e.heights);
    let a2 = enc_u64(e.width);
    let a3 = enc_u64(e.height);
    let a4 = enc_u64(e.world_width);
    let a5 = enc_u64(e.world_height);
    let a6 = enc_u64(e.min_height_m);
    let a7 = enc_u64(e.blocks_per_meter);
    let a8 = enc_u64(e.slope_correction);
    let a9 = enc_i32(e.ground_level);
    let a10 = enc_u64(e.h_linear_m);
    let a11 = enc_u64(e.compression);
    let a12 = enc_u64(e.max_source_elevation_m);
    lemma_lens_u64(e.width);
    lemma_lens_u64(e.height);
    lemma_lens_u64(e.world_width);
    lemma_lens_u64(e.world_height);
    lemma_lens_u64(e.min_height_m);
    lemma_lens_u64(e.blocks_per_meter);
    lemma_lens_u64(e.slope_correction);
    lemma_lens_i32(e.ground_level);
    lemma_lens_u64(e.h_linear_m);
    lemma_lens_u64(e.compression);
    lemma_lens_u64(e.max_source_elevation_m);
    let s2 = a1 + a2;
    let s3 = s2 + a3;
    let s4 = s3 + a4;
    let s5 = s4 + a5;
    let s6 = s5 + a6;
    let s7 = s6 + a7;
    let s8 = s7 + a8;
    let s9 = s8 + a9;
    let s10 = s9 + a10;
    let s11 = s10 + a11;
    lemma_at_split(d, p, s11, a12);
    lemma_at_split(d, p, s10, a11);
    lemma_at_split(d, p, s9, a10);
    lemma_at_split(d, p, s8, a9);
    lemma_at_split(d, p, s7, a8);
    lemma_at_split(d, p, s6, a7);
    lemma_at_split(d, p, s5, a6);
    lemma_at_split(d, p, s4, a5);
    lemma_at_split(d, p, s3, a4);
    lemma_at_split(d, p, s2, a3);
    lemma_at_split(d, p, a1, a2);
    lemma_sp_grid_f32(d, p, e.heights);
    let q = p + a1.len();
    lemma_u64_at(d, q, e.width);
    lemma_u64_at(d, q + 8, e.height);
    lemma_u64_at(d, q + 16, e.world_width);
    lemma_u64_at(d, q + 24, e.world_height);
    lemma_u64_at(d, q + 32, e.min_height_m);
    lemma_u64_at(d, q + 40, e.blocks_per_meter);
    lemma_u64_at(d, q + 48, e.slope_correction);
    lemma_i32_at(d, q + 56, e.ground_level);
    lemma_u64_at(d, q + 60, e.h_linear_m);
    lemma_u64_at(d, q + 68, e.compression);
    lemma_u64_at(d, q + 76, e.max_source_elevation_m);
}

proof fn lemma_sp_land_cover(d: Seq<u8>, p: nat, l: LandCoverModel)
    requires
        at(d, p, enc_land_cover(l)),
        rows_fit(l.grid),
        rows_fit(l.water_distance),
    ensures
        sp_land_cover(d, p) == Ok::<(LandCoverModel, nat), CacheError>((l, p + enc_land_cover(l).len())),
{
    let a1 = enc_grid_u8(l.grid);
    let a2 = enc_grid_u8(l.water_distance);
    let a3 = enc_u64(l.width);
    let a4 = enc_u64(l.height);
    let a5 = enc_u64(l.cells_per_meter);
    lemma_lens_u64(l.width);
    lemma_lens_u64(l.height);
    lemma_lens_u64(l.cells_per_meter);
    let s2 = a1 + a2;
    let s3 = s2 + a3;
    let s4 = s3 + a4;
    lemma_at_split(d, p, s4, a5);
    lemma_at_split(d, p, s3, a4);
    lemma_at_split(d, p, s2, a3);
    lemma_at_split(d, p, a1, a2);
    lemma_sp_grid_u8(d, p, l.grid);
    lemma_sp_grid_u8(d, p + a1.len(), l.water_distance);
    let q = p + a1.len() + a2.len();
    lemma_u64_at(d, q, l.width);
    lemma_u64_at(d, q + 8, l.height);
    lemma_u64_at(d, q + 16, l.cells_per_meter);
}

proof fn lemma_sp_canopy(d: Seq<u8>, p: nat, c: CanopyModel)
    requires
        at(d, p, enc_canopy(c)),
        fits64(c.grid.len()),
    ensures
        sp_canopy(d, p) == Ok::<(CanopyModel, nat), CacheError>((c, p + enc_canopy(c).len())),
{
    let a1 = enc_bytes(c.grid);
    let a2 = enc_u64(c.width);
    let a3 = enc_u64(c.height);
    lemma_lens_u64(c.width);
    lemma_lens_u64(c.height);
    lemma_at_split(d, p, a1 + a2, a3);
    lemma_at_split(d, p, a1, a2);
    lemma_sp_bytes(d, p, c.grid);
    let q = p + a1.len();
    lemma_u64_at(d, q, c.width);
    lemma_u64_at(d, q + 8, c.height);
}

proof fn lemma_sp_opt_elevation(d: Seq<u8>, p: nat, e: Option<ElevationModel>)
    requires
        at(d, p, enc_opt_elevation(e)),
        e matches Some(x) ==> rows_fit(x.heights),
    ensures
        sp_opt_elevation(d, p) == Ok::<(Option<ElevationModel>, nat), CacheError>(
            (e, p + enc_opt_elevation(e).len()),
        ),
{
    match e {
        Some(x) => {
            lemma_at_split(d, p, enc_bool(true), enc_elevation(x));
            lemma_bool_at(d, p, true);
            lemma_sp_elevation(d, p + 1, x);
        },
        None => {
            lemma_bool_at(d, p, false);
        },
    }
}

proof fn lemma_sp_opt_land_cover(d: Seq<u8>, p: nat, l: Option<LandCoverModel>)
    requires
        at(d, p, enc_opt_land_cover(l)),
        l matches Some(x) ==> rows_fit(x.grid) && rows_fit(x.water_distance),
    ensures
        sp_opt_land_cover(d, p) == Ok::<(Option<LandCoverModel>, nat), CacheError>(
            (l, p + enc_opt_land_cover(l).len()),
        ),
{
    match l {
        Some(x) => {
            lemma_at_split(d, p, enc_bool(true), enc_land_cover(x));
            lemma_bool_at(d, p, true);
            lemma_sp_land_cover(d, p + 1, x);
        },
        None => {
            lemma_bool_at(d, p, false);
        },
    }
}

proof fn lemma_sp_opt_canopy(d: Seq<u8>, p: nat, c: Option<CanopyModel>)
    requires
        at(d, p, enc_opt_canopy(c)),
        c matches Some(x) ==> fits64(x.grid.len()),
    ensures
        sp_opt_canopy(d, p) == Ok::<(Option<CanopyModel>, nat), CacheError>((c, p + enc_opt_canopy(c).len())),
{
    match c {
        Some(x) => {
            lemma_at_split(d, p, enc_bool(true), enc_canopy(x));
            lemma_bool_at(d, p, true);
            lemma_sp_canopy(d, p + 1, x);
        },
        None => {
            lemma_bool_at(d, p, false);
        },
    }
}

proof fn lemma_sp_ground_tail(d: Seq<u8>, p: nat, ww: u64, wh: u64, snow: i32, climate: Climate, body: CelestialBody)
    requires
        at(d, p, enc_u64(ww)),
        at(d, p + 8, enc_u64(wh)),
        at(d, p + 16, enc_i32(snow)),
        at(d, p + 20, enc_u8(climate_tag_of(climate))),
        at(d, p + 21, enc_u8(body_tag_of(body))),
    ensures
        sp_ground_tail(d, p) == Ok::<((u64, u64, i32, Climate, CelestialBody), nat), CacheError>(
            ((ww, wh, snow, climate, body), p + 22),
        ),
{
    lemma_u64_at(d, p, ww);
    lemma_u64_at(d, p + 8, wh);
    lemma_i32_at(d, p + 16, snow);
    lemma_byte_at(d, p + 20, climate_tag_of(climate));
    lemma_byte_at(d, p + 21, body_tag_of(body));
}

proof fn lemma_sp_ground_from_parts(d: Seq<u8>, p: nat, g: GroundModel, p2: nat, p3: nat, p4: nat)
    requires
        p + 6 <= d.len(),
        (d[p as int] != 0) == g.elevation_enabled,
        (d[p + 1int] != 0) == g.extended_ceiling,
        i32_of_bits(le_at(d, p + 2, 4)) == g.ground_level,
        sp_opt_elevation(d, p + 6) == Ok::<(Option<ElevationModel>, nat), CacheError>((g.elevation, p2)),
        sp_opt_land_cover(d, p2) == Ok::<(Option<LandCoverModel>, nat), CacheError>((g.land_cover, p3)),
        sp_opt_canopy(d, p3) == Ok::<(Option<CanopyModel>, nat), CacheError>((g.canopy, p4)),
        sp_ground_tail(d, p4) == Ok::<((u64, u64, i32, Climate, CelestialBody), nat), CacheError>(
            ((g.world_width, g.world_height, g.snow_threshold_y, g.climate, g.body), p4 + 22),
        ),
    ensures
        sp_ground(d, p) matches Ok((x, _)) && x == g,
{
}

proof fn lemma_sp_ground(d: Seq<u8>, p: nat, g: GroundModel)
    requires
        at(d, p, enc_ground(g)),
        ground_fits(g),
    ensures
        sp_ground(d, p) matches Ok((x, _)) && x == g,
{
    let a1 = enc_bool(g.elevation_enabled);
    let a2 = enc_bool(g.extended_ceiling);
    let a3 = enc_i32(g.ground_level);
    let a4 = enc_opt_elevation(g.elevation);
    let a5 = enc_opt_land_cover(g.land_cover);
    let a6 = enc_opt_canopy(g.canopy);
    let a7 = enc_u64(g.world_width);
    let a8 = enc_u64(g.world_height);
    let a9 = enc_i32(g.snow_threshold_y);
    let a10 = enc_u8(climate_tag_of(g.climate));
    let a11 = enc_u8(body_tag_of(g.body));
    lemma_lens_i32(g.ground_level);
    lemma_lens_u64(g.world_width);
    lemma_lens_u64(g.world_height);
    lemma_lens_i32(g.snow_threshold_y);
    let s2 = a1 + a2;
    let s3 = s2 + a3;
    let s4 = s3 + a4;
    let s5 = s4 + a5;
    let s6 = s5 + a6;
    let s7 = s6 + a7;
    let s8 = s7 + a8;
    let s9 = s8 + a9;
    let s10 = s9 + a10;
    lemma_at_split(d, p, s10, a11);
    lemma_at_split(d, p, s9, a10);
    lemma_at_split(d, p, s8, a9);
    lemma_at_split(d, p, s7, a8);
    lemma_at_split(d, p, s6, a7);
    lemma_at_split(d, p, s5, a6);
    lemma_at_split(d, p, s4, a5);
    lemma_at_split(d, p, s3, a4);
    lemma_at_split(d, p, s2, a3);
    lemma_at_split(d, p, a1, a2);
    let p2 = p + s4.len();
    let p3 = p + s5.len();
    let p4 = p + s6.len();
    assert(s6.len() + 22 == s10.len() + 1);
    lemma_bool_at(d, p, g.elevation_enabled);
    lemma_bool_at(d, p + 1, g.extended_ceiling);
    lemma_i32_at(d, p + 2, g.ground_level);
    lemma_sp_opt_elevation(d, p + 6, g.elevation);
    lemma_sp_opt_land_cover(d, p2, g.land_cover);
    lemma_sp_opt_canopy(d, p3, g.canopy);
    lemma_sp_ground_tail(d, p4, g.world_width, g.world_height, g.snow_threshold_y, g.climate, g.body);
    lemma_sp_ground_from_parts(d, p, g, p2, p3, p4);
}

/// Every length in stored terrain parts fits a `u64` count.
proof fn lemma_parts_fit(g: GroundParts)
    ensures
        ground_fits(ground_model(g)),
{
    match g.elevation {
        Some(e) => {
            let h = e.heights@.map_values(|r: Vec<u32>| r@);
            vstd::std_specs::vec::axiom_spec_len(&e.heights);
            assert forall|i: int| 0 <= i < h.len() implies fits64(#[trigger] h[i].len()) by {
                assert(h[i] == e.heights@[i]@);
                vstd::std_specs::vec::axiom_spec_len(&e.heights@[i]);
            }
        },
        None => {},
    }
    match g.land_cover {
        Some(l) => {
            let a = l.grid@.map_values(|r: Vec<u8>| r@);
            let b = l.water_distance@.map_values(|r: Vec<u8>| r@);
            vstd::std_specs::vec::axiom_spec_len(&l.grid);
            vstd::std_specs::vec::axiom_spec_len(&l.water_distance);
            assert forall|i: int| 0 <= i < a.len() implies fits64(#[trigger] a[i].len()) by {
                assert(a[i] == l.grid@[i]@);
                vstd::std_specs::vec::axiom_spec_len(&l.grid@[i]);
            }
            assert forall|i: int| 0 <= i < b.len() implies fits64(#[trigger] b[i].len()) by {
                assert(b[i] == l.water_distance@[i]@);
                vstd::std_specs::vec::axiom_spec_len(&l.water_distance@[i]);
            }
        },
        None => {},
    }
    match g.canopy {
        Some(c) => {
            vstd::std_specs::vec::axiom_spec_len(&c.grid);
        },
        None => {},
    }
}

/// Reading a cache file back for the key it was written under gives back
/// the terrain that was written, whenever the recorded version text is
/// valid UTF-8 and no corner of the key's bounding box is NaN (a NaN is
/// equal to nothing, so such a key never matches, not even itself).
pub proof fn lemma_cache_round_trip(version: Seq<u8>, key: CacheKey, ground: GroundParts)
    requires
        valid_utf8(version),
        fits64(version.len()),
        !f64_is_nan(key.min_lat),
        !f64_is_nan(key.min_lng),
        !f64_is_nan(key.max_lat),
        !f64_is_nan(key.max_lng),
    ensures
        spec_decode(enc_cache(version, key, ground_model(ground)), key) == Ok::<Option<GroundModel>, CacheError>(
            Some(ground_model(ground)),
        ),
{
    let g = ground_model(ground);
    let d = enc_cache(version, key, g);
    let a1 = enc_u32(MAGIC);
    let a2 = enc_u32(CACHE_FORMAT_VERSION);
    let a3 = enc_bytes(version);
    let a4 = enc_key(key);
    let a5 = enc_ground(g);
    lemma_le_bytes_len(MAGIC as nat, 4);
    lemma_le_bytes_len(CACHE_FORMAT_VERSION as nat, 4);
    assert(d.subrange(0, d.len() as int) =~= d);
    lemma_at_split(d, 0, a1 + a2 + a3 + a4, a5);
    lemma_at_split(d, 0, a1 + a2 + a3, a4);
    lemma_at_split(d, 0, a1 + a2, a3);
    lemma_at_split(d, 0, a1, a2);
    lemma_pow256_values();
    lemma_le_round_trip(MAGIC as nat, 4);
    lemma_le_round_trip(CACHE_FORMAT_VERSION as nat, 4);
    lemma_sp_bytes(d, 8, version);
    lemma_sp_key(d, 16 + version.len(), key);
    assert(key_matches(key, key));
    lemma_parts_fit(ground);
    lemma_sp_ground(d, 16 + version.len() + 56, g);
}

/// A cache file written under one key answers a plain miss (`Ok(None)`,
/// not an error) to every key that does not match it.
pub proof fn lemma_other_key_is_a_miss(version: Seq<u8>, key: CacheKey, other: CacheKey, ground: GroundParts)
    requires
        valid_utf8(version),
        fits64(version.len()),
        !key_matches(key, other),
    ensures
        spec_decode(enc_cache(version, key, ground_model(ground)), other) == Ok::<Option<GroundModel>, CacheError>(None),
{
    let g = ground_model(ground);
    let d = enc_cache(version, key, g);
    let a1 = enc_u32(MAGIC);
    let a2 = enc_u32(CACHE_FORMAT_VERSION);
    let a3 = enc_bytes(version);
    let a4 = enc_key(key);
    let a5 = enc_ground(g);
    lemma_le_bytes_len(MAGIC as nat, 4);
    lemma_le_bytes_len(CACHE_FORMAT_VERSION as nat, 4);
    assert(d.subrange(0, d.len() as int) =~= d);
    lemma_at_split(d, 0, a1 + a2 + a3 + a4, a5);
    lemma_at_split(d, 0, a1 + a2 + a3, a4);
    lemma_at_split(d, 0, a1 + a2, a3);
    lemma_at_split(d, 0, a1, a2);
    lemma_pow256_values();
    lemma_le_round_trip(MAGIC as nat, 4);
    lemma_le_round_trip(CACHE_FORMAT_VERSION as nat, 4);
    lemma_sp_bytes(d, 8, version);
    lemma_sp_key(d, 16 + version.len(), key);
}

} // verus!
