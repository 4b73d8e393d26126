use kr_worldgen::bus_routes::RouteStop;
use kr_worldgen::bus_stops::matching::{
    build_name_index, match_without_geometry, normalize_name, partition_route_stops, token_set_key, Confidence,
    UnplacedReason,
};

fn route_stop(seq: u32, code: &str, name: &str) -> RouteStop {
    RouteStop { route_no: "508".to_string(), seq, stop_code: code.to_string(), stop_name: name.to_string() }
}

fn chars(s: &str) -> Vec<char> {
    s.chars().collect()
}

fn text(v: &[char]) -> String {
    v.iter().collect()
}

#[test]
fn ambiguous_name_with_no_route_context_is_left_unplaced() {
    let stops = vec![(1u64, "겹침".to_string()), (2u64, "겹침".to_string())];
    let index = build_name_index(&stops);
    let route = vec![route_stop(0, "c0", "겹침")];
    let (placeable, unplaced) = partition_route_stops(&route, &index);
    let (matched, unplaced) = match_without_geometry(&route, &placeable, unplaced);
    assert!(matched.is_empty());
    assert_eq!(unplaced.len(), 1);
    assert_eq!(unplaced[0].reason, UnplacedReason::AmbiguousNoRouteContext { candidates: 2 });
}

#[test]
fn missing_name_is_reported_distinctly() {
    let stops: Vec<(u64, String)> = Vec::new();
    let index = build_name_index(&stops);
    let route = vec![route_stop(0, "c0", "없는역")];
    let (placeable, unplaced) = partition_route_stops(&route, &index);
    let (_, unplaced) = match_without_geometry(&route, &placeable, unplaced);
    assert_eq!(unplaced[0].reason, UnplacedReason::NoNameMatch);
}

#[test]
fn a_single_unique_stop_is_placed_with_high_confidence() {
    let stops = vec![(1u64, "역A".to_string()), (2u64, "역B".to_string())];
    let index = build_name_index(&stops);
    let route = vec![route_stop(4, "c4", "역B")];
    let (placeable, unplaced) = partition_route_stops(&route, &index);
    let (matched, unplaced) = match_without_geometry(&route, &placeable, unplaced);
    assert!(unplaced.is_empty());
    assert_eq!(matched.len(), 1);
    assert_eq!(matched[0].bstopid, 2);
    assert_eq!(matched[0].seq, 4);
    assert_eq!(matched[0].confidence, Confidence::High);
    assert_eq!(matched[0].candidate_count, 1);
}

#[test]
fn a_substring_only_match_is_pinned_low() {
    let stops = vec![(1u64, "역A".to_string()), (2u64, "동삼혁신지구입구".to_string())];
    let index = build_name_index(&stops);
    let route = vec![route_stop(1, "c1", "동삼혁신지구")];
    let (placeable, unplaced) = partition_route_stops(&route, &index);
    let (matched, _) = match_without_geometry(&route, &placeable, unplaced);
    assert_eq!(matched[0].bstopid, 2);
    assert!(matched[0].via_substring);
    assert_eq!(matched[0].confidence, Confidence::Low);
}

#[test]
fn candidate_cascade_tiers() {
    let stops = vec![
        (1u64, "역A".to_string()),
        (2u64, "좌천동가구거리(좌천역)".to_string()),
        (3u64, "롯데호텔백화점.서면역".to_string()),
        (4u64, "동삼혁신지구입구".to_string()),
        (5u64, "역A".to_string()),
    ];
    let index = build_name_index(&stops);
    assert_eq!(index.candidates_for("역A"), (vec![1, 5], false));
    assert_eq!(index.candidates_for("좌천동가구거리.좌천역"), (vec![2], false));
    assert_eq!(index.candidates_for("서면역.롯데호텔백화점"), (vec![3], false));
    assert_eq!(index.candidates_for("동삼혁신지구"), (vec![4], true));
    assert_eq!(index.candidates_for("없음"), (vec![], false));
    // a stripped name shorter than two characters never takes the substring tier
    assert_eq!(index.candidates_for("역"), (vec![], false));
}

#[test]
fn normalization_strips_every_separator() {
    assert_eq!(text(&normalize_name(&chars("갈림 (역)·A/B-C_D,E."))), "갈림역ABCDE");
    assert_eq!(text(&normalize_name(&chars(""))), "");
}

#[test]
fn token_set_key_ignores_word_order() {
    let a = token_set_key(&chars("서면역.롯데호텔백화점"));
    let b = token_set_key(&chars("롯데호텔백화점 서면역"));
    assert_eq!(a, b);
    assert_eq!(text(&token_set_key(&chars("b.a..c"))), "a\u{1}b\u{1}c");
}
