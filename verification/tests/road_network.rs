use kr_worldgen::roads::network::{graph_node, segments_at};
use kr_worldgen::roads::crosswalk::crosswalk_ends;
use kr_worldgen::roads::network::{
    bridge_id, bridge_lanes, count_node_height_mismatches, count_slope_violations, limit_profile_slopes,
    segment_id, verify_fields, MAX_SLOPE_Y2,
};
use kr_worldgen::roads::place::{place_segments, sweep_and_place, verify_placement};
use kr_worldgen::roads::shapefile::{
    assert_row_counts_match, classify_cpg, dbf_header_in_bounds, DbfTable, TextEncoding,
};
use kr_worldgen::roads::shp::{points_in_bounds, polylines_in_bounds, read_points, read_polylines};
use kr_worldgen::roads::{coord_hash, road_total_width, ProfilePoint, RoadClass, Segment};
use kr_worldgen::world::{Block, WorldEditor};
use kr_worldgen::roads::records::lanes_from_text;
use kr_worldgen::buildings::plan::verify_layout;
use kr_worldgen::roads::records::{raw_links, raw_nodes};
use kr_worldgen::roads::records::{drop_excluded_links, usable_links};

fn pt(x: i32, z: i32, y2: i32) -> ProfilePoint {
    ProfilePoint { x, z, y2 }
}

fn seg(id: &str, f: &str, t: &str, class: RoadClass, points: Vec<ProfilePoint>) -> Segment {
    Segment::new(
        id.to_string(),
        format!("L{id}"),
        2,
        class,
        "000".to_string(),
        f.to_string(),
        t.to_string(),
        points,
        false,
    )
}

/// A dBASE table with character fields `fields` (name, width) and rows.
fn dbf(fields: &[(&str, u8)], rows: &[(bool, Vec<&str>)]) -> Vec<u8> {
    let header_len = 32 + 32 * fields.len() + 1;
    let record_len: usize = 1 + fields.iter().map(|f| f.1 as usize).sum::<usize>();
    let mut d = vec![0u8; 32];
    d[0] = 3;
    d[4..8].copy_from_slice(&(rows.len() as u32).to_le_bytes());
    d[8..10].copy_from_slice(&(header_len as u16).to_le_bytes());
    d[10..12].copy_from_slice(&(record_len as u16).to_le_bytes());
    for (name, width) in fields {
        let mut desc = [0u8; 32];
        desc[..name.len()].copy_from_slice(name.as_bytes());
        desc[11] = b'C';
        desc[16] = *width;
        d.extend_from_slice(&desc);
    }
    d.push(0x0D);
    for (deleted, values) in rows {
        d.push(if *deleted { b'*' } else { b' ' });
        for ((_, width), v) in fields.iter().zip(values) {
            let mut cell = vec![b' '; *width as usize];
            cell[..v.len()].copy_from_slice(v.as_bytes());
            d.extend_from_slice(&cell);
        }
    }
    d
}

fn table(bytes: &[u8]) -> DbfTable {
    assert!(dbf_header_in_bounds(bytes));
    DbfTable::parse(bytes, TextEncoding::AsciiLossy).unwrap()
}

#[test]
fn slope_limit_moves_each_too_steep_step_to_the_limit() {
    let mut y2 = vec![0, 5, 5, 1, 1];
    limit_profile_slopes(&mut y2);
    assert_eq!(y2, vec![0, 2, 4, 2, 1]);
    let mut flat = vec![3, 4, 5, 3];
    limit_profile_slopes(&mut flat);
    assert_eq!(flat, vec![3, 4, 5, 3]);
    let mut empty: Vec<i32> = vec![];
    limit_profile_slopes(&mut empty);
    assert!(empty.is_empty());
}

#[test]
fn limited_profiles_report_no_slope_violations() {
    let mut y2 = vec![0, 9, -9, 30, 30, 0];
    limit_profile_slopes(&mut y2);
    assert!(y2.windows(2).all(|w| (w[1] - w[0]).abs() <= MAX_SLOPE_Y2));
    let points: Vec<ProfilePoint> = y2.iter().enumerate().map(|(i, &h)| pt(i as i32, 0, h)).collect();
    let segments = vec![seg("a", "n1", "n2", RoadClass::C, points)];
    assert_eq!(count_slope_violations(&segments), 0);
}

#[test]
fn slope_violations_count_every_steep_step() {
    let segments = vec![
        seg("a", "n1", "n2", RoadClass::C, vec![pt(0, 0, 0), pt(1, 0, 3), pt(2, 0, 3), pt(3, 0, -1)]),
        seg("b", "n2", "n3", RoadClass::D, vec![pt(3, 0, -1)]),
        seg("c", "n3", "n4", RoadClass::D, vec![pt(4, 0, 0), pt(5, 0, 2)]),
    ];
    assert_eq!(count_slope_violations(&segments), 2);
}

#[test]
fn node_height_mismatches_compare_against_the_first_height_seen() {
    let segments = vec![
        seg("a", "n1", "n2", RoadClass::C, vec![pt(0, 0, 10), pt(1, 0, 12)]),
        seg("b", "n2", "n3", RoadClass::C, vec![pt(1, 0, 12), pt(2, 0, 14)]),
        seg("c", "n3", "n1", RoadClass::C, vec![pt(2, 0, 15), pt(0, 0, 11)]),
        seg("d", "n1", "n9", RoadClass::C, vec![]),
        seg("e", "n1", "n3", RoadClass::C, vec![pt(0, 0, 10), pt(2, 0, 14)]),
    ];
    // c's start (15 vs 14 for n3) and c's end (11 vs 10 for n1) disagree;
    // e agrees with the first heights seen.
    assert_eq!(count_node_height_mismatches(&segments), 2);
}

#[test]
fn segment_and_bridge_naming() {
    assert_eq!(segment_id(7), "s00007");
    assert_eq!(segment_id(123456), "s123456");
    assert_eq!(bridge_id(1), "bridge01");
    assert_eq!(bridge_lanes(RoadClass::A), 6);
    assert_eq!(bridge_lanes(RoadClass::B), 6);
    assert_eq!(bridge_lanes(RoadClass::C), 4);
    assert_eq!(bridge_lanes(RoadClass::E), 2);
    assert_eq!(bridge_lanes(RoadClass::F), 1);
}

#[test]
fn verify_fields_accepts_complete_tables_and_names_the_first_missing_field() {
    let link = dbf(
        &[("LINK_ID", 10), ("F_NODE", 10), ("T_NODE", 10), ("LANES", 2), ("ROAD_RANK", 3), ("ROAD_NAME", 20)],
        &[],
    );
    let node = dbf(&[("NODE_ID", 10)], &[]);
    assert!(verify_fields(&table(&link), &table(&node)).is_ok());

    let partial = dbf(&[("LINK_ID", 10), ("T_NODE", 10)], &[]);
    let err = verify_fields(&table(&partial), &table(&node)).unwrap_err();
    assert_eq!(err, "MOCT_LINK.dbf is missing field F_NODE. Actual fields: [\"LINK_ID\", \"T_NODE\"]");

    let no_node = dbf(&[("ID", 10)], &[]);
    let err = verify_fields(&table(&link), &table(&no_node)).unwrap_err();
    assert_eq!(err, "MOCT_NODE.dbf is missing field NODE_ID. Actual fields: [\"ID\"]");
}

#[test]
fn dbf_rows_read_back_trimmed_and_deletions_are_counted() {
    let bytes = dbf(&[("NODE_ID", 6), ("NAME", 4)], &[(false, vec!["  12", "ab"]), (true, vec!["7", "x"])]);
    let t = table(&bytes);
    assert_eq!(t.len(), 2);
    assert_eq!(t.field_names(), vec!["NODE_ID", "NAME"]);
    assert_eq!(t.get(0, "NODE_ID"), "12");
    assert_eq!(t.get(1, "NAME"), "x");
    assert_eq!(t.get(0, "MISSING"), "");
    let (deleted, verdict) = assert_row_counts_match(&t, 2, "MOCT_NODE");
    assert_eq!(deleted, 1);
    assert!(verdict.is_ok());
    let (_, verdict) = assert_row_counts_match(&t, 3, "MOCT_NODE");
    assert_eq!(verdict.unwrap_err(), "MOCT_NODE: dbf has 2 records but shp has 3 shapes");
}

#[test]
fn cpg_declaration_picks_the_text_encoding() {
    assert_eq!(classify_cpg(" utf-8\n"), TextEncoding::Utf8);
    assert_eq!(classify_cpg("UTF8"), TextEncoding::Utf8);
    assert_eq!(classify_cpg("CP949"), TextEncoding::AsciiLossy);
}

fn shp_header(shape_type: i32) -> Vec<u8> {
    let mut d = vec![0u8; 100];
    d[32..36].copy_from_slice(&shape_type.to_le_bytes());
    d
}

fn record(content: &[u8]) -> Vec<u8> {
    let mut r = vec![0, 0, 0, 1];
    r.extend_from_slice(&((content.len() / 2) as u32).to_be_bytes());
    r.extend_from_slice(content);
    r
}

#[test]
fn point_records_read_in_file_order() {
    let mut d = shp_header(1);
    for (x, y) in [(1.5f64, -2.0f64), (385820.0, 280070.4)] {
        let mut c = 1i32.to_le_bytes().to_vec();
        c.extend_from_slice(&x.to_le_bytes());
        c.extend_from_slice(&y.to_le_bytes());
        d.extend_from_slice(&record(&c));
    }
    d.extend_from_slice(&[0, 0, 0, 3, 0, 0, 1, 0]); // a record longer than the data: reading stops
    let pts = read_points(&d).unwrap();
    let pts: Vec<(f64, f64)> = pts.iter().map(|&(x, y)| (f64::from_bits(x), f64::from_bits(y))).collect();
    assert_eq!(pts, vec![(1.5, -2.0), (385820.0, 280070.4)]);
}

#[test]
fn wrong_shape_type_is_refused_with_its_code() {
    assert_eq!(read_points(&shp_header(3)).unwrap_err(), "expected Point (1), got shape type 3");
    assert_eq!(read_polylines(&shp_header(-1)).unwrap_err(), "expected PolyLine (3), got shape type -1");
}

#[test]
fn polyline_parts_are_joined_and_cut_points_dropped() {
    let mut d = shp_header(3);
    let mut c = 3i32.to_le_bytes().to_vec();
    c.extend_from_slice(&[0u8; 32]);
    c.extend_from_slice(&2i32.to_le_bytes()); // two parts
    c.extend_from_slice(&3i32.to_le_bytes()); // three points
    c.extend_from_slice(&0i32.to_le_bytes());
    c.extend_from_slice(&2i32.to_le_bytes());
    for (x, y) in [(0.0f64, 0.0f64), (1.0, 0.0), (1.0, 1.0)] {
        c.extend_from_slice(&x.to_le_bytes());
        c.extend_from_slice(&y.to_le_bytes());
    }
    d.extend_from_slice(&record(&c));
    let short = record(&[0u8; 20]); // shorter than a polyline header: reading stops
    d.extend_from_slice(&short);
    let lines = read_polylines(&d).unwrap();
    assert_eq!(lines.len(), 1);
    let xs: Vec<(f64, f64)> = lines[0].iter().map(|&(x, y)| (f64::from_bits(x), f64::from_bits(y))).collect();
    assert_eq!(xs, vec![(0.0, 0.0), (1.0, 0.0), (1.0, 1.0)]);
}

#[test]
fn placed_segments_pass_the_continuity_check() {
    let s = seg("a", "n1", "n2", RoadClass::D, vec![pt(0, 0, 20), pt(1, 0, 21), pt(2, 0, 22), pt(3, 1, 22)]);
    let mut editor = WorldEditor::new();
    place_segments(&mut editor, &[&s]);
    assert!(!editor.writes().is_empty());
    assert!(verify_placement(&editor, &[&s], (-100, -100, 100, 100)).is_empty());
    // An empty world has every centerline point missing.
    let empty = WorldEditor::new();
    assert_eq!(verify_placement(&empty, &[&s], (-100, -100, 100, 100)).len(), 4);
    // Points outside the owned area are not checked.
    assert!(verify_placement(&empty, &[&s], (50, 50, 60, 60)).is_empty());
}

#[test]
fn segment_box_is_padded_by_the_cross_section_width() {
    let s = seg("a", "n1", "n2", RoadClass::C, vec![pt(10, -5, 0), pt(14, 3, 0)]);
    let w = road_total_width(RoadClass::C);
    assert_eq!(s.aabb(), (10 - w, 14 + w, -5 - w, 3 + w));
}

#[test]
fn sweep_writes_road_blocks_across_the_section() {
    let mut editor = WorldEditor::new();
    sweep_and_place(&mut editor, 0, 0, 20, RoadClass::F, 1, 0);
    let writes = editor.writes();
    assert!(!writes.is_empty());
    assert!(writes.iter().any(|w| w.x == 0 && w.z == 0 && w.y == 10 && w.block != Block::Air));
}

#[test]
fn lanes_text_parses_as_i32_or_zero() {
    assert_eq!(lanes_from_text("4"), 4);
    assert_eq!(lanes_from_text("-2"), -2);
    assert_eq!(lanes_from_text("+7"), 7);
    assert_eq!(lanes_from_text(""), 0);
    assert_eq!(lanes_from_text("2a"), 0);
    assert_eq!(lanes_from_text("2147483648"), 0);
    assert_eq!(lanes_from_text("-2147483648"), i32::MIN);
}

#[test]
fn raw_layers_pair_records_with_geometry_by_position() {
    let nodes = dbf(&[("NODE_ID", 4)], &[(false, vec!["n1"]), (false, vec!["n2"])]);
    let nodes = table(&nodes);
    let r = raw_nodes(&nodes, &[(1, 2), (3, 4)]);
    assert_eq!(r.len(), 2);
    assert_eq!((r[1].id.as_str(), r[1].e, r[1].n), ("n2", 3, 4));

    let links = dbf(
        &[("LINK_ID", 3), ("F_NODE", 3), ("T_NODE", 3), ("LANES", 2), ("ROAD_RANK", 3), ("ROAD_NAME", 4), ("ROAD_TYPE", 3)],
        &[
            (false, vec!["L1", "n1", "n2", "2", "104", "A", "000"]),
            (false, vec!["L2", "n2", "n3", "x", "107", "B", "001"]),
            (false, vec!["L3", "n3", "n1", "4", "101", "C", "002"]),
        ],
    );
    let links = table(&links);
    let lines = vec![vec![(0, 0), (1, 1)], vec![(5, 5)], vec![(2, 2), (3, 3), (4, 4)]];
    let r = raw_links(&links, lines);
    assert_eq!(r.len(), 2);
    assert_eq!(r[0].link_id, "L1");
    assert_eq!(r[0].lanes, 2);
    assert_eq!(r[1].link_id, "L3");
    assert_eq!(r[1].road_rank, "101");
    assert_eq!(r[1].road_type, "002");
    assert_eq!(r[1].points_en.len(), 3);
}

#[test]
fn link_selection_skips_missing_nodes_and_bridge_replaced_links() {
    let s = |v: &str| v.to_string();
    let ends = vec![(s("a"), s("b")), (s("b"), s("z")), (s("c"), s("a"))];
    let nodes = vec![s("a"), s("b"), s("c")];
    let (keep, skipped) = usable_links(&ends, &nodes);
    assert_eq!(keep, vec![0, 2]);
    assert_eq!(skipped, 1);
    let ids = vec![s("1330019200"), s("9"), s("1330019100")];
    let excluded = vec![s("1330019200"), s("1330019201"), s("1330019100"), s("1330019102")];
    assert_eq!(drop_excluded_links(&ids, &excluded), vec![1]);
}

#[test]
fn bounds_checks_find_records_too_short_to_read() {
    let mut d = shp_header(1);
    d.extend_from_slice(&record(&[1, 0, 0, 0]));
    assert!(!points_in_bounds(&d));
    let mut ok = shp_header(1);
    let mut c = 1i32.to_le_bytes().to_vec();
    c.extend_from_slice(&[0u8; 16]);
    ok.extend_from_slice(&record(&c));
    assert!(points_in_bounds(&ok));
    let mut neg = shp_header(3);
    let mut c = 3i32.to_le_bytes().to_vec();
    c.extend_from_slice(&[0u8; 32]);
    c.extend_from_slice(&(-1i32).to_le_bytes());
    c.extend_from_slice(&0i32.to_le_bytes());
    neg.extend_from_slice(&record(&c));
    assert!(!polylines_in_bounds(&neg));
    assert!(polylines_in_bounds(&shp_header(3)));
}

#[test]
fn coord_hash_matches_known_values() {
    assert_eq!(coord_hash(0, 0), 0);
    assert_eq!(coord_hash(1, 0), 2034669550);
    assert_eq!(coord_hash(0, 1), 3938161208);
    assert_eq!(coord_hash(-5, 7), 2081891938);
    assert_eq!(coord_hash(123456, -98765), 4058436045);
    assert_eq!(coord_hash(i32::MAX, i32::MIN), 3734659685);
}

#[test]
fn building_layout_needs_twenty_nine_columns() {
    let names: Vec<String> = (0..29).map(|i| format!("A{i}")).collect();
    let fields: Vec<(&str, u8)> = names.iter().map(|n| (n.as_str(), 2)).collect();
    let full = table(&dbf(&fields, &[]));
    assert_eq!(verify_layout(&full), Ok(()));
    let short = table(&dbf(&[("A0", 2), ("A1", 2)], &[]));
    assert_eq!(
        verify_layout(&short),
        Err("건물통합정보 .dbf: expected 29 columns (A0..A28, this distribution's own anonymised layout), got 2 ([\"A0\", \"A1\"])".to_string())
    );
}

#[test]
fn segments_meeting_at_a_node_are_listed_in_order() {
    let pts = vec![pt(0, 0, 0), pt(1, 0, 0)];
    let segs = vec![
        seg("s00000", "n1", "n2", RoadClass::C, pts.clone()),
        seg("s00001", "n2", "n3", RoadClass::C, pts.clone()),
        seg("s00002", "n3", "n3", RoadClass::D, pts.clone()),
        seg("s00003", "n4", "n2", RoadClass::E, pts),
    ];
    assert_eq!(segments_at(&segs, "n2"), vec!["s00000", "s00001", "s00003"]);
    assert_eq!(segments_at(&segs, "n3"), vec!["s00001", "s00002", "s00002"]);
    assert_eq!(segments_at(&segs, "n9"), Vec::<String>::new());
}

#[test]
fn every_block_a_segment_writes_lies_in_its_box() {
    let s = seg(
        "s00007",
        "a",
        "b",
        RoadClass::A,
        vec![pt(10, 10, 4), pt(11, 11, 5), pt(12, 13, 5), pt(12, 14, 6), pt(15, 14, 6)],
    );
    let mut editor = WorldEditor::new();
    place_segments(&mut editor, &[&s]);
    let (min_x, max_x, min_z, max_z) = s.aabb();
    assert!(!editor.writes().is_empty());
    for w in editor.writes() {
        assert!(min_x <= w.x && w.x <= max_x && min_z <= w.z && w.z <= max_z, "{w:?} outside the box");
    }
}

#[test]
fn a_record_at_or_past_the_count_reads_empty() {
    let mut bytes = dbf(&[("NODE_ID", 4)], &[(false, vec!["12"])]);
    // Trailing bytes after the last record: an end-of-file marker and a
    // second record's worth of data the count does not include.
    bytes.push(0x1A);
    bytes.extend_from_slice(b" 99  ");
    let t = table(&bytes);
    assert_eq!(t.len(), 1);
    assert_eq!(t.get(0, "NODE_ID"), "12");
    assert_eq!(t.get(1, "NODE_ID"), "");
    assert_eq!(t.get(7, "NODE_ID"), "");
    assert_eq!(t.get(usize::MAX, "NODE_ID"), "");
    assert!(!t.is_deleted(0));
    assert!(!t.is_deleted(usize::MAX));
}

#[test]
fn a_graph_node_lists_the_segments_meeting_there() {
    let pts = vec![pt(0, 0, 0), pt(1, 0, 0)];
    let segs = vec![
        seg("s00000", "n1", "n2", RoadClass::C, pts.clone()),
        seg("s00001", "n2", "n3", RoadClass::C, pts.clone()),
        seg("s00003", "n4", "n2", RoadClass::E, pts),
    ];
    let e = graph_node(&segs, "n2", Some((3, -4)), 17).expect("a node with a position");
    assert_eq!(e.id, "n2");
    assert_eq!((e.x, e.z, e.y2), (3, -4, 17));
    assert_eq!(e.segments, vec!["s00000", "s00001", "s00003"]);
    assert_eq!(e.degree, 3);
    let lone = graph_node(&segs, "n9", Some((0, 0)), 0).expect("a node with a position");
    assert_eq!(lone.degree, 0);
    assert!(graph_node(&segs, "n2", None, 17).is_none());
}

#[test]
fn crosswalks_go_on_grade_a_to_c_approaches_to_intersections() {
    let two = vec![pt(0, 0, 0), pt(1, 0, 0)];
    let one = vec![pt(0, 0, 0)];
    let segs = vec![
        seg("s00000", "x", "n1", RoadClass::C, two.clone()),  // both ends at 3-way nodes
        seg("s00001", "x", "n2", RoadClass::D, two.clone()),  // grade D: none
        seg("s00002", "n3", "x", RoadClass::B, two.clone()),  // its end at x
        seg("s00003", "n1", "n4", RoadClass::A, two.clone()), // n4 has only two ends
        seg("s00004", "n4", "n1", RoadClass::A, one),         // a single point: none
    ];
    let refs: Vec<&Segment> = segs.iter().collect();
    assert_eq!(crosswalk_ends(&refs), vec![(0, false), (0, true), (2, true), (3, false)]);
    assert_eq!(crosswalk_ends(&[]), Vec::<(usize, bool)>::new());
}
