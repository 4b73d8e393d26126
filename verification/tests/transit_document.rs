use kr_worldgen::bus_stops::matching::{Confidence, MatchedStop, UnplacedReason, UnplacedStop};
use kr_worldgen::route_report::route_report_lines;
use kr_worldgen::transit::append_path_links;
use kr_worldgen::transit::{
    build_stops_document, confidence_str, match_method, reason_str, route_qualifies, route_report, RouteOutcome,
    RouteReport, StopInfo,
};

fn matched(seq: u32, id: u64, confidence: Confidence, via_substring: bool) -> MatchedStop {
    MatchedStop {
        seq,
        stop_code: format!("c{seq}"),
        stop_name: format!("n{seq}"),
        bstopid: id,
        confidence,
        candidate_count: 1,
        via_substring,
    }
}

fn stop(id: u64, x: i32, z: i32) -> StopInfo {
    StopInfo { bstopid: id, name: format!("stop{id}"), x, z }
}

fn outcome(route: &str, m: Vec<MatchedStop>, in_scope: Vec<bool>, unplaced: Vec<UnplacedStop>) -> RouteOutcome {
    RouteOutcome {
        route_no: route.to_string(),
        total_csv_stops: m.len() + unplaced.len(),
        matched: m,
        in_scope,
        unplaced,
        abnormal_hop_count: 0,
    }
}

fn report(route: &str, unplaced: usize, abnormal: usize) -> RouteReport {
    RouteReport {
        route_no: route.to_string(),
        total_csv_stops: 12,
        high: 9,
        medium: 1,
        low: 0,
        unplaced,
        abnormal_hop_count: abnormal,
        kept: 7,
        cut: 3,
    }
}

#[test]
fn labels_of_confidence_reason_and_method() {
    assert_eq!(confidence_str(Confidence::High), "high");
    assert_eq!(confidence_str(Confidence::Medium), "medium");
    assert_eq!(confidence_str(Confidence::Low), "low");
    assert_eq!(reason_str(UnplacedReason::NoNameMatch), "no_name_match");
    assert_eq!(reason_str(UnplacedReason::AmbiguousNoRouteContext { candidates: 2 }), "ambiguous_no_route_context");
    assert_eq!(match_method(true, 1), "substring_fallback");
    assert_eq!(match_method(false, 1), "unambiguous");
    assert_eq!(match_method(false, 3), "route_geometry");
}

#[test]
fn a_route_qualifies_only_through_an_in_scope_non_substring_stop() {
    let a = outcome("1", vec![matched(0, 1, Confidence::High, true)], vec![true], vec![]);
    assert!(!route_qualifies(&a));
    let b = outcome("2", vec![matched(0, 1, Confidence::High, false)], vec![false], vec![]);
    assert!(!route_qualifies(&b));
    let c = outcome(
        "3",
        vec![matched(0, 1, Confidence::Low, true), matched(1, 2, Confidence::High, false)],
        vec![true, true],
        vec![],
    );
    assert!(route_qualifies(&c));
}

#[test]
fn route_report_tallies_tiers_and_scope() {
    let o = outcome(
        "508",
        vec![
            matched(0, 1, Confidence::High, false),
            matched(1, 2, Confidence::Medium, false),
            matched(2, 3, Confidence::Low, true),
        ],
        vec![true, false, true],
        vec![UnplacedStop {
            seq: 3,
            stop_code: "c3".to_string(),
            stop_name: "n3".to_string(),
            reason: UnplacedReason::NoNameMatch,
        }],
    );
    let r = route_report(&o);
    assert_eq!((r.high, r.medium, r.low), (1, 1, 1));
    assert_eq!((r.kept, r.cut, r.unplaced), (2, 1, 1));
    assert_eq!(r.total_csv_stops, 4);
    assert!(r.flagged());
}

#[test]
fn stops_document_keeps_qualifying_routes_and_shares_stop_entries() {
    let stops = vec![stop(1, 0, 0), stop(2, 10, 0), stop(3, 20, 0)];
    let outcomes = vec![
        outcome(
            "10",
            vec![matched(0, 1, Confidence::High, false), matched(1, 2, Confidence::High, false)],
            vec![true, true],
            vec![],
        ),
        outcome(
            "20",
            vec![matched(0, 2, Confidence::High, false), matched(1, 3, Confidence::High, false)],
            vec![true, false],
            vec![],
        ),
        outcome("30", vec![matched(0, 3, Confidence::High, false)], vec![false], vec![]),
    ];
    let (doc, reports) = build_stops_document(&outcomes, &stops);
    assert_eq!(doc.routes().len(), 2);
    assert_eq!(reports.len(), 2);
    let ids: Vec<&str> = doc.stops().iter().map(|s| s.stop_id()).collect();
    assert_eq!(ids, vec!["1", "2"]);
    assert_eq!(doc.stops()[1].pos(), (10, 0));
    assert_eq!(doc.stops()[1].routes(), &["10".to_string(), "20".to_string()]);
    assert_eq!(doc.routes()[1].stops(), &["2".to_string()]);
    for e in doc.stops() {
        assert_eq!(e.y2(), None);
        assert_eq!(e.shelter(), None);
    }
    assert!(doc.routes().iter().all(|r| r.links().is_empty()));
    let route_ids: Vec<&str> = doc.routes().iter().map(|r| r.route_id()).collect();
    let report_ids: Vec<&str> = reports.iter().map(|r| r.route_no.as_str()).collect();
    assert_eq!(route_ids, vec!["10", "20"]);
    assert_eq!(report_ids, route_ids);
}

#[test]
fn report_table_aligns_columns_and_lists_flagged_routes() {
    let lines = route_report_lines(&[report("508", 0, 0), report("1011(급행)", 2, 1)]);
    assert_eq!(lines[0], "route      csv   hi    med   lo unpl abn.hop  kept  cut");
    assert_eq!(lines[1], "508         12    9      1    0    0       0     7    3");
    assert_eq!(lines[2], "1011(급행)    12    9      1    0    2       1     7    3  <-- review");
    assert_eq!(lines[3], "KR transit: 1 route(s) need review (unplaced stop(s) or abnormal hop(s)):");
    assert_eq!(lines[4], "  1011(급행) -- unplaced 2, abnormal hops 1");
    assert_eq!(lines.len(), 5);
}

#[test]
fn report_table_all_clear() {
    let lines = route_report_lines(&[report("7", 0, 0)]);
    assert_eq!(lines.len(), 3);
    assert_eq!(lines[2], "KR transit: no route has an unplaced stop or an abnormal hop.");
    let empty = route_report_lines(&[]);
    assert_eq!(empty.len(), 2);
}

#[test]
fn report_table_matches_std_formatting() {
    let r = report("99", 1, 0);
    let expected = format!(
        "{:<8} {:>5} {:>4} {:>6} {:>4} {:>4} {:>7} {:>5} {:>4}{}",
        r.route_no, r.total_csv_stops, r.high, r.medium, r.low, r.unplaced, r.abnormal_hop_count, r.kept, r.cut,
        "  <-- review"
    );
    assert_eq!(route_report_lines(&[r])[1], expected);
}

#[test]
fn hop_links_are_appended_without_immediate_repeats() {
    let s = |v: &str| v.to_string();
    let mut links = vec![s("a"), s("b")];
    append_path_links(&mut links, &[s("b"), s("c"), s("c"), s("b")]);
    assert_eq!(links, vec![s("a"), s("b"), s("c"), s("b")]);
    let mut empty: Vec<String> = Vec::new();
    append_path_links(&mut empty, &[s("x"), s("x")]);
    assert_eq!(empty, vec![s("x")]);
}
