use kr_worldgen::terrain_cache::decode::decode_cache;
use kr_worldgen::terrain_cache::{
    body_from_tag, climate_from_tag, encode_cache, CacheError, CacheKey, CanopyParts, CelestialBody,
    Climate, ElevationParts, GroundParts, LandCoverParts,
};

fn f32_row(v: &[f32]) -> Vec<u32> {
    v.iter().map(|x| x.to_bits()).collect()
}

fn test_ground() -> (CacheKey, GroundParts) {
    let key = CacheKey {
        min_lat: 35.0f64.to_bits(),
        min_lng: 129.0f64.to_bits(),
        max_lat: 35.01f64.to_bits(),
        max_lng: 129.01f64.to_bits(),
        scale: 1.75f64.to_bits(),
        ground_level: -62,
        min_ground_level: -88,
        disable_height_limit: false,
        extended_max_y: 319,
        aws_only_elevation: false,
        canopy_height: true,
        body: CelestialBody::Earth,
    };
    let elevation = ElevationParts {
        heights: vec![f32_row(&[1.0, 2.0, 3.0]), f32_row(&[4.0, 5.0, 6.0])],
        width: 3,
        height: 2,
        world_width: 3,
        world_height: 2,
        min_height_m: 0.0f64.to_bits(),
        blocks_per_meter: 1.75f64.to_bits(),
        slope_correction: 1.0f64.to_bits(),
        ground_level: -62,
        h_linear_m: 120.0f64.to_bits(),
        compression: 0.0f64.to_bits(),
        max_source_elevation_m: 50.0f64.to_bits(),
    };
    let land_cover = LandCoverParts {
        grid: vec![vec![10, 20, 30], vec![40, 50, 60]],
        water_distance: vec![vec![0, 0, 1], vec![0, 2, 3]],
        width: 3,
        height: 2,
        cells_per_meter: 1.0f64.to_bits(),
    };
    let canopy = CanopyParts { grid: vec![5, 6, 7, 8, 9, 10], width: 3, height: 2 };
    let ground = GroundParts {
        elevation_enabled: true,
        extended_ceiling: false,
        ground_level: -62,
        elevation: Some(elevation),
        land_cover: Some(land_cover),
        canopy: Some(canopy),
        world_width: 3,
        world_height: 2,
        snow_threshold_y: i32::MAX,
        climate: Climate::Temperate,
        body: CelestialBody::Earth,
    };
    (key, ground)
}

#[test]
fn stores_and_loads_an_identical_ground() {
    let (key, ground) = test_ground();
    let bytes = encode_cache("0.1.0", &key, &ground);
    let loaded = decode_cache(&bytes, &key).unwrap().expect("should be a hit");

    assert_eq!(loaded.ground_level, ground.ground_level);
    assert_eq!(loaded.elevation_enabled, ground.elevation_enabled);
    assert_eq!((loaded.world_width, loaded.world_height), (ground.world_width, ground.world_height));
    assert_eq!(loaded.elevation.as_ref().unwrap().heights, ground.elevation.as_ref().unwrap().heights);
    assert_eq!(loaded.land_cover.as_ref().unwrap().grid, ground.land_cover.as_ref().unwrap().grid);
    assert_eq!(
        loaded.land_cover.as_ref().unwrap().water_distance,
        ground.land_cover.as_ref().unwrap().water_distance
    );
    assert_eq!(loaded.canopy.as_ref().unwrap().grid, ground.canopy.as_ref().unwrap().grid);
}

#[test]
fn a_different_key_is_a_miss() {
    let (mut key, ground) = test_ground();
    let bytes = encode_cache("0.1.0", &key, &ground);
    let stem = key.file_stem();
    key.scale = 2.0f64.to_bits();
    assert_ne!(key.file_stem(), stem);
    assert!(decode_cache(&bytes, &key).unwrap().is_none());
}

#[test]
fn round_trip_keeps_every_scalar_and_tag() {
    let (key, mut ground) = test_ground();
    ground.climate = Climate::IceCap;
    ground.body = CelestialBody::Mars;
    ground.snow_threshold_y = -5;
    ground.extended_ceiling = true;
    ground.land_cover = None;
    let bytes = encode_cache("v", &key, &ground);
    let loaded = decode_cache(&bytes, &key).unwrap().unwrap();
    assert_eq!(loaded.climate, Climate::IceCap);
    assert_eq!(loaded.body, CelestialBody::Mars);
    assert_eq!(loaded.snow_threshold_y, -5);
    assert!(loaded.extended_ceiling);
    assert!(loaded.land_cover.is_none());
    let e = loaded.elevation.unwrap();
    assert_eq!(e.ground_level, -62);
    assert_eq!(f64::from_bits(e.h_linear_m), 120.0);
    assert_eq!(f64::from_bits(e.max_source_elevation_m), 50.0);
}

#[test]
fn layout_starts_with_magic_version_and_version_text() {
    let (key, ground) = test_ground();
    let bytes = encode_cache("ab", &key, &ground);
    assert_eq!(&bytes[0..4], &[0x43, 0x41, 0x43, 0x54]);
    assert_eq!(&bytes[4..8], &[1, 0, 0, 0]);
    assert_eq!(&bytes[8..16], &[2, 0, 0, 0, 0, 0, 0, 0]);
    assert_eq!(&bytes[16..18], b"ab");
    // the key follows: min_lat as little-endian f64 bits
    assert_eq!(&bytes[18..26], &35.0f64.to_le_bytes());
}

#[test]
fn bad_magic_is_an_error() {
    let (key, ground) = test_ground();
    let mut bytes = encode_cache("v", &key, &ground);
    bytes[0] = 0;
    assert_eq!(decode_cache(&bytes, &key).err(), Some(CacheError::BadMagic));
    assert_eq!(decode_cache(&[1, 2], &key).err(), Some(CacheError::Truncated));
}

#[test]
fn another_layout_version_is_a_plain_miss() {
    let (key, ground) = test_ground();
    let mut bytes = encode_cache("v", &key, &ground);
    bytes[4] = 2;
    assert!(decode_cache(&bytes, &key).unwrap().is_none());
}

#[test]
fn truncated_file_is_an_error() {
    let (key, ground) = test_ground();
    let bytes = encode_cache("v", &key, &ground);
    for cut in [6, 12, 20, 60, bytes.len() - 1] {
        assert_eq!(decode_cache(&bytes[..cut], &key).err(), Some(CacheError::Truncated), "cut at {cut}");
    }
}

#[test]
fn unknown_tags_and_bad_text_are_errors() {
    let (key, ground) = test_ground();
    let mut bytes = encode_cache("v", &key, &ground);
    let n = bytes.len();
    bytes[n - 2] = 42; // climate tag
    assert_eq!(decode_cache(&bytes, &key).err(), Some(CacheError::UnknownClimate(42)));
    let mut bytes = encode_cache("v", &key, &ground);
    let n = bytes.len();
    bytes[n - 1] = 7; // body tag
    assert_eq!(decode_cache(&bytes, &key).err(), Some(CacheError::UnknownBody(7)));
    let mut bytes = encode_cache("v", &key, &ground);
    bytes[16] = 0xFF; // the one version byte is no longer UTF-8
    assert_eq!(decode_cache(&bytes, &key).err(), Some(CacheError::BadText));
    assert_eq!(body_from_tag(3), Err(CacheError::UnknownBody(3)));
    assert_eq!(climate_from_tag(9), Ok(Climate::IceCap));
    assert_eq!(climate_from_tag(10), Err(CacheError::UnknownClimate(10)));
}

#[test]
fn file_stem_is_terrain_and_sixteen_hex_digits() {
    let (key, _) = test_ground();
    let stem = key.file_stem();
    assert!(stem.starts_with("terrain_"));
    assert_eq!(stem.len(), 8 + 16);
    assert!(stem[8..].chars().all(|c| c.is_ascii_hexdigit() && !c.is_ascii_uppercase()));
    assert_eq!(stem, key.file_stem());
}

#[test]
fn key_match_compares_the_bbox_as_numbers() {
    let (key, _) = test_ground();
    let mut other = key;
    other.min_lat = (-0.0f64).to_bits();
    let mut zero = key;
    zero.min_lat = 0.0f64.to_bits();
    assert!(zero.matches(&other));
    let mut nan = key;
    nan.max_lng = f64::NAN.to_bits();
    assert!(!nan.matches(&nan));
    let mut scaled = key;
    scaled.scale = (-1.75f64).to_bits();
    assert!(!scaled.matches(&key));
    assert!(key.matches(&key));
}
