use kr_worldgen::buildings::facade::{build, exposed_directions, glass_for, palette};
use kr_worldgen::buildings::plan::{buildings_report, detail_level_for, road_overlap};
use kr_worldgen::buildings::slope::{grade_site, retaining_material};
use kr_worldgen::buildings::{place_buildings, DetailLevel, Era, PlannedBuilding, UseGroup};
use kr_worldgen::world::{Block, WorldEditor};
use kr_worldgen::buildings::plan::{approval_year, floors_above_of, record_fields};
use kr_worldgen::buildings::plan::decode_main_use;
use kr_worldgen::buildings::resolution::{slope_resolution, SlopeResolution};
use kr_worldgen::buildings::service_drop::{index_service_drop_buildings, nearest_service_drop_building};

fn square(x0: i32, z0: i32, n: i32) -> Vec<(i32, i32)> {
    let mut cells = Vec::new();
    for x in x0..x0 + n {
        for z in z0..z0 + n {
            cells.push((x, z));
        }
    }
    cells
}

fn building(id: &str, cells: Vec<(i32, i32)>, terrain: i32, omitted: bool, detail: DetailLevel) -> PlannedBuilding {
    let n = cells.len();
    PlannedBuilding::new(
        id.to_string(),
        cells,
        10,
        12,
        3,
        UseGroup::R,
        Era::E2,
        detail,
        false,
        omitted,
        Some("s00001".to_string()),
        Some((0, -3)),
        vec![terrain; n],
    )
    .unwrap()
}

#[test]
fn overlap_below_thirty_percent_leaves_the_building_out() {
    assert_eq!(road_overlap(10, 2), (true, false));
    assert_eq!(road_overlap(10, 3), (false, true));
    assert_eq!(road_overlap(10, 10), (false, false));
    assert_eq!(road_overlap(10, 0), (true, false));
    assert_eq!(road_overlap(100, 29), (true, false));
    assert_eq!(road_overlap(100, 30), (false, true));
}

#[test]
fn only_high_rises_away_from_routes_are_simplified() {
    assert_eq!(detail_level_for(15, false), DetailLevel::L3);
    assert_eq!(detail_level_for(15, true), DetailLevel::L2);
    assert_eq!(detail_level_for(14, false), DetailLevel::L2);
    assert_eq!(detail_level_for(40, false), DetailLevel::L3);
}

#[test]
fn report_counts_placed_omitted_clipped_and_simplified() {
    let bs = vec![
        building("a", square(0, 0, 2), 10, false, DetailLevel::L2),
        building("b", square(5, 5, 2), 10, true, DetailLevel::L2),
        building("c", square(9, 9, 2), 10, false, DetailLevel::L3),
    ];
    let r = buildings_report(7, &bs);
    assert_eq!(r.loaded, 7);
    assert_eq!(r.placed, 2);
    assert_eq!(r.omitted_road_overlap, 1);
    assert_eq!(r.clipped_road_overlap, 0);
    assert_eq!(r.l3_simplified, 1);
    assert_eq!(r.placed + r.omitted_road_overlap, bs.len());
}

#[test]
fn planned_building_rejects_mismatched_terrain() {
    let b = PlannedBuilding::new(
        "x".to_string(),
        square(0, 0, 2),
        10,
        12,
        3,
        UseGroup::R,
        Era::E2,
        DetailLevel::L2,
        false,
        false,
        None,
        None,
        vec![1],
    );
    assert!(b.is_none());
}

#[test]
fn omitted_buildings_write_nothing() {
    let b = building("b", square(5, 5, 2), 10, true, DetailLevel::L2);
    let mut editor = WorldEditor::new();
    place_buildings(&mut editor, &[&b]);
    assert!(editor.writes().is_empty());
}

#[test]
fn placed_buildings_grade_and_build() {
    let b = building("a", square(0, 0, 3), 8, false, DetailLevel::L2);
    let mut all = WorldEditor::new();
    place_buildings(&mut all, &[&b]);
    let mut graded = WorldEditor::new();
    grade_site(&mut graded, &b);
    build(&mut graded, &b);
    assert_eq!(all.writes().len(), graded.writes().len());
    assert!(!graded.writes().is_empty());
    // the site below the floor (ground_y 10, terrain 8) is filled up to it
    assert!(graded.writes().iter().any(|w| w.x == 1 && w.z == 1 && w.y == 9 && w.block != Block::Air));
}

#[test]
fn retaining_wall_material_is_a_stable_function_of_position() {
    let a = retaining_material(3, 4, 5);
    assert_eq!(a, retaining_material(3, 4, 5));
    assert!(a == Block::Cobblestone || a == Block::MossyCobblestone);
}

#[test]
fn exposed_directions_face_cells_outside_the_footprint() {
    let cells = square(0, 0, 2);
    let dirs = exposed_directions(&cells, 0, 0);
    assert_eq!(dirs.len(), 2);
    assert!(dirs.contains(&(-1, 0)));
    assert!(dirs.contains(&(0, -1)));
    assert!(exposed_directions(&square(0, 0, 3), 1, 1).is_empty());
    let _ = palette(UseGroup::R, Era::E1);
}

#[test]
fn record_fields_follow_the_floor_count_and_the_approval_date() {
    assert_eq!(floors_above_of("12"), 12);
    assert_eq!(floors_above_of(" 3"), 0);
    assert_eq!(approval_year("19870512"), Some(1987));
    assert_eq!(approval_year("198"), None);
    assert_eq!(approval_year("2a01"), None);
    assert_eq!(approval_year("가1"), None);
    assert_eq!(approval_year("12가"), None);
    assert_eq!(approval_year("-123"), Some(-123));
    assert_eq!(approval_year("+999x"), Some(999));
    assert_eq!(record_fields("0", "단독주택", "19870512"), None);
    assert_eq!(record_fields("x", "단독주택", "19870512"), None);
    assert_eq!(record_fields("3", "단독주택", "19870512"), Some((3, 1987, false, false)));
    assert_eq!(record_fields("3", "", ""), Some((3, 2000, true, true)));
}

#[test]
fn main_use_is_decoded_from_euc_kr_and_trimmed() {
    let (bytes, _, _) = encoding_rs::EUC_KR.encode(" 공동주택 ");
    assert_eq!(decode_main_use(Some(&bytes)), "공동주택");
    assert_eq!(decode_main_use(Some(b"office ")), "office");
    assert_eq!(decode_main_use(None), "");
}

#[test]
fn terrain_spread_is_highest_minus_lowest() {
    let cells = square(0, 0, 2);
    let b = PlannedBuilding::new(
        "t".to_string(),
        cells,
        10,
        12,
        3,
        UseGroup::R,
        Era::E2,
        DetailLevel::L2,
        false,
        false,
        None,
        None,
        vec![12, 7, 15, 9],
    )
    .unwrap();
    assert_eq!(b.terrain_spread(), Some(8));
    let empty = PlannedBuilding::new(
        "e".to_string(),
        Vec::new(),
        10,
        12,
        3,
        UseGroup::R,
        Era::E2,
        DetailLevel::L2,
        false,
        true,
        None,
        None,
        Vec::new(),
    )
    .unwrap();
    assert_eq!(empty.terrain_spread(), None);
}

#[test]
fn slope_resolution_reports_percentiles_and_buckets() {
    assert_eq!(slope_resolution(&[]), None);
    let r = slope_resolution(&[9, 0, 4, 2, 7, 3, 12, 1, 6, 5, 8]).unwrap();
    assert_eq!(
        r,
        SlopeResolution { buildings: 11, median: 5, p90: 9, max: 12, flat: 3, retain: 4, tiered: 4 }
    );
    let one = slope_resolution(&[4]).unwrap();
    assert_eq!(one, SlopeResolution { buildings: 1, median: 4, p90: 4, max: 4, flat: 0, retain: 1, tiered: 0 });
    // Six spreads: the 90th percentile sits at 4.5 of 0..5 and rounds up.
    let six = slope_resolution(&[10, 20, 30, 40, 50, 60]).unwrap();
    assert_eq!((six.median, six.p90, six.max), (40, 60, 60));
}

fn grouped(id: &str, cells: Vec<(i32, i32)>, group: UseGroup, omitted: bool) -> PlannedBuilding {
    let n = cells.len();
    PlannedBuilding::new(
        id.to_string(),
        cells,
        10,
        12,
        3,
        group,
        Era::E3,
        DetailLevel::L2,
        false,
        omitted,
        None,
        None,
        vec![10; n],
    )
    .unwrap()
}

#[test]
fn service_drop_index_keeps_placed_commercial_and_residential_cells() {
    let bs = vec![
        grouped("r", vec![(0, 0), (1, 0)], UseGroup::R, false),
        grouped("o", vec![(5, 5)], UseGroup::O, false),
        grouped("c", vec![(1, 0), (2, 0)], UseGroup::C, false),
        grouped("gone", vec![(9, 9)], UseGroup::R, true),
    ];
    let index = index_service_drop_buildings(&bs);
    assert_eq!(index.len(), 3);
    assert_eq!(index.get(&(0, 0)), Some(&0));
    assert_eq!(index.get(&(1, 0)), Some(&2));
    assert_eq!(index.get(&(2, 0)), Some(&2));
    assert_eq!(index.get(&(5, 5)), None);
    assert_eq!(index.get(&(9, 9)), None);
}

#[test]
fn nearest_service_drop_takes_the_closest_building_in_reach() {
    let bs = vec![
        grouped("r", vec![(0, 0), (1, 0)], UseGroup::R, false),
        grouped("c", vec![(1, 0), (2, 0)], UseGroup::C, false),
    ];
    let index = index_service_drop_buildings(&bs);
    // Cell (0, 0) is 3 away; building "c" is first met at (1, 0), sqrt(10) away.
    assert_eq!(nearest_service_drop_building(0, 3, &index, &bs), Some((0, 0, 22, 0)));
    // Nothing within 12 blocks.
    assert_eq!(nearest_service_drop_building(0, 40, &index, &bs), None);
    let empty = index_service_drop_buildings(&[]);
    assert_eq!(nearest_service_drop_building(0, 0, &empty, &bs), None);
}

#[test]
fn a_building_first_met_outside_the_radius_is_not_reached() {
    // The scan meets this building first at the window's corner (-12, -12),
    // beyond the radius, and does not consider it again at (0, 1).
    let bs = vec![grouped("r", vec![(-12, -12), (0, 1)], UseGroup::R, false)];
    let index = index_service_drop_buildings(&bs);
    assert_eq!(nearest_service_drop_building(0, 0, &index, &bs), None);
    // From a pole where the near cell comes first, it is reached.
    let bs2 = vec![grouped("r", vec![(0, 1), (12, 12)], UseGroup::R, false)];
    let index2 = index_service_drop_buildings(&bs2);
    assert_eq!(nearest_service_drop_building(0, 0, &index2, &bs2), Some((0, 1, 22, 0)));
}

#[test]
fn broken_windows_are_glass_and_ribbon_windows_are_panes() {
    for era in [Era::E1, Era::E2, Era::E3, Era::E4] {
        assert_eq!(glass_for(UseGroup::R, era), Block::Glass);
        assert_eq!(glass_for(UseGroup::A, era), Block::Glass);
        assert_eq!(glass_for(UseGroup::I, era), Block::LightGrayConcrete);
    }
    assert_eq!(glass_for(UseGroup::C, Era::E1), Block::Glass);
    assert_eq!(glass_for(UseGroup::C, Era::E3), Block::Glass);
    assert_eq!(glass_for(UseGroup::C, Era::E4), Block::GlassPane);
    assert_eq!(glass_for(UseGroup::O, Era::E2), Block::Glass);
    assert_eq!(glass_for(UseGroup::O, Era::E3), Block::Glass);
    assert_eq!(glass_for(UseGroup::O, Era::E4), Block::GlassPane);
}

#[test]
fn every_block_a_building_writes_lies_in_its_box() {
    // A one-cell era-2 house: its water tank sits 3 to 4 columns past the
    // centroid, the farthest write of any building.
    let b = PlannedBuilding::new(
        "h".to_string(),
        vec![(5, 5)],
        10,
        12,
        2,
        UseGroup::R,
        Era::E2,
        DetailLevel::L2,
        false,
        false,
        None,
        None,
        vec![14],
    )
    .unwrap();
    let (x0, x1, z0, z1) = b.aabb();
    assert_eq!((x0, x1, z0, z1), (1, 9, 1, 9));
    let mut editor = WorldEditor::new();
    place_buildings(&mut editor, &[&b]);
    assert!(editor.writes().iter().any(|w| w.x == 9 && w.block == Block::LightBlueConcrete));
    for w in editor.writes() {
        assert!(x0 <= w.x && w.x <= x1 && z0 <= w.z && w.z <= z1, "{w:?} outside the box");
    }
}
