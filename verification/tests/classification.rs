use kr_worldgen::buildings::{building_hash, classify_use_group, total_height_blocks, Era, UseGroup};
use kr_worldgen::roads::{cross_section_layout, road_class, section_spec, Band, RoadClass};

#[test]
fn building_hash_is_deterministic_and_id_sensitive() {
    assert_eq!(building_hash("B0010000000AWO4JV"), building_hash("B0010000000AWO4JV"));
    assert_ne!(building_hash("B0010000000AWO4JV"), building_hash("B0010000000AWO4JW"));
}

#[test]
fn building_hash_is_fnv1a_of_the_utf8_bytes() {
    // FNV-1a 64 of the empty input is the offset basis; of "a" a known value.
    assert_eq!(building_hash(""), 0xcbf29ce484222325);
    assert_eq!(building_hash("a"), 0xaf63dc4c8601ec8c);
}

#[test]
fn danjok_and_gongdong_low_rise_are_r() {
    assert_eq!(classify_use_group("단독주택", 1), UseGroup::R);
    assert_eq!(classify_use_group("공동주택", 3), UseGroup::R);
}

#[test]
fn gongdong_five_floors_or_more_is_a() {
    assert_eq!(classify_use_group("공동주택", 5), UseGroup::A);
    assert_eq!(classify_use_group("아파트", 2), UseGroup::A);
}

#[test]
fn neighborhood_facility_is_c_and_office_is_o() {
    assert_eq!(classify_use_group("제2종근린생활시설", 4), UseGroup::C);
    assert_eq!(classify_use_group("업무시설", 10), UseGroup::O);
}

#[test]
fn factory_is_i_and_missing_use_defaults_to_r() {
    assert_eq!(classify_use_group("공장", 1), UseGroup::I);
    assert_eq!(classify_use_group("", 2), UseGroup::R);
}

#[test]
fn unmatched_use_is_x() {
    assert_eq!(classify_use_group("종교시설", 3), UseGroup::X);
}

#[test]
fn era_boundaries_match_spec_table() {
    assert_eq!(Era::from_year(1979).code(), "e1");
    assert_eq!(Era::from_year(1980).code(), "e2");
    assert_eq!(Era::from_year(1994).code(), "e2");
    assert_eq!(Era::from_year(1995).code(), "e3");
    assert_eq!(Era::from_year(2009).code(), "e3");
    assert_eq!(Era::from_year(2010).code(), "e4");
}

#[test]
fn total_height_matches_worked_example() {
    assert_eq!(total_height_blocks(UseGroup::R, 4), 24);
    assert_eq!(total_height_blocks(UseGroup::C, 1), 8);
}

#[test]
fn total_height_counts_a_missing_floor_count_as_one_floor() {
    assert_eq!(total_height_blocks(UseGroup::A, 0), 6);
    assert_eq!(total_height_blocks(UseGroup::O, 3), 8 + 2 * 6);
    assert_eq!(total_height_blocks(UseGroup::I, 2), 24);
}

#[test]
fn rank_101_102_is_a_regardless_of_lanes() {
    assert_eq!(road_class("101", 2), RoadClass::A);
    assert_eq!(road_class("102", 8), RoadClass::A);
}

#[test]
fn lanes_overrides_rank_104() {
    assert_eq!(road_class("104", 2), RoadClass::D);
    assert_eq!(road_class("104", 6), RoadClass::B);
}

#[test]
fn rank_107_splits_on_lanes() {
    assert_eq!(road_class("107", 4), RoadClass::D);
    assert_eq!(road_class("107", 2), RoadClass::D);
    assert_eq!(road_class("107", 1), RoadClass::E);
    assert_eq!(road_class("107", 0), RoadClass::E);
}

#[test]
fn rank_104_at_four_lanes_is_c() {
    assert_eq!(road_class("104", 4), RoadClass::C);
    assert_eq!(road_class("104", 0), RoadClass::D);
}

#[test]
fn unknown_rank_falls_back_to_the_narrower_lanes_default() {
    assert_eq!(road_class("999", 4), RoadClass::C);
    assert_eq!(road_class("999", 6), RoadClass::B);
    assert_eq!(road_class("999", 2), RoadClass::E);
    assert_eq!(road_class("999", 0), RoadClass::F);
    assert_eq!(road_class("108", 1), RoadClass::F);
}

#[test]
fn section_spec_totals_match_spec_road_section_table() {
    let expected = [
        (RoadClass::A, 50),
        (RoadClass::B, 50),
        (RoadClass::C, 31),
        (RoadClass::D, 21),
        (RoadClass::E, 20),
        (RoadClass::F, 8),
    ];
    for (class, total) in expected {
        let spec = section_spec(class);
        assert_eq!(spec.total_width(), total, "{:?} total width", class);
        let layout = cross_section_layout(&spec);
        assert_eq!(layout.len() as i32, total, "{:?} layout column count", class);
    }
}

#[test]
fn cross_section_layout_places_an_explicit_curb_column_where_the_table_says_so() {
    for class in [RoadClass::A, RoadClass::B, RoadClass::C, RoadClass::D, RoadClass::E] {
        let spec = section_spec(class);
        let layout = cross_section_layout(&spec);
        let curb_columns = layout.iter().filter(|(_, b)| *b == Band::Curb).count();
        assert_eq!(curb_columns, 2, "{:?} must have exactly one curb column on each side", class);
    }
    let f_layout = cross_section_layout(&section_spec(RoadClass::F));
    assert!(f_layout.iter().all(|(_, b)| *b != Band::Curb), "F has no curb");
}

#[test]
fn cross_section_layout_is_centred_with_the_extra_column_on_the_left() {
    let layout = cross_section_layout(&section_spec(RoadClass::F));
    let offsets: Vec<i32> = layout.iter().map(|(o, _)| *o).collect();
    assert_eq!(offsets, vec![-4, -3, -2, -1, 0, 1, 2, 3]);
    let c = cross_section_layout(&section_spec(RoadClass::C));
    assert_eq!(c.first().unwrap().0, -15);
    assert_eq!(c.last().unwrap().0, 15);
    assert_eq!(c[15].1, Band::MedianPaint);
}
