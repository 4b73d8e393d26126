use kr_worldgen::manifest::unix_seconds_to_iso8601_utc;
use kr_worldgen::projection::ProjectionKind;

#[test]
fn epoch_is_1970_01_01() {
    assert_eq!(unix_seconds_to_iso8601_utc(0), "1970-01-01T00:00:00Z");
}

#[test]
fn known_date_roundtrips() {
    let cases: &[(i64, &str)] = &[
        (1_789_101_141, "2026-09-11T04:32:21Z"),
        (1_000_000_000, "2001-09-09T01:46:40Z"),
        (1_709_251_200, "2024-03-01T00:00:00Z"),
        (1_735_689_600, "2025-01-01T00:00:00Z"),
        (951_782_400, "2000-02-29T00:00:00Z"),
    ];
    for &(secs, expected) in cases {
        assert_eq!(unix_seconds_to_iso8601_utc(secs), expected);
    }
}

#[test]
fn negative_seconds_fall_on_the_previous_day() {
    assert_eq!(unix_seconds_to_iso8601_utc(-1), "1969-12-31T23:59:59Z");
    assert_eq!(unix_seconds_to_iso8601_utc(-86400), "1969-12-31T00:00:00Z");
}

#[test]
fn month_and_day_are_never_zero_or_out_of_range() {
    for day in 0..(365 * 5) {
        let s = unix_seconds_to_iso8601_utc(day * 86400);
        let month: u32 = s[5..7].parse().unwrap();
        let dom: u32 = s[8..10].parse().unwrap();
        assert!((1..=12).contains(&month), "{s}");
        assert!((1..=31).contains(&dom), "{s}");
    }
}

#[test]
fn test_projection_kind_display() {
    assert_eq!(ProjectionKind::WebMercator.to_string(), "web_mercator");
    assert_eq!(ProjectionKind::Local.to_string(), "local");
}

#[test]
fn test_projection_kind_from_str() {
    assert_eq!("web_mercator".parse::<ProjectionKind>().unwrap(), ProjectionKind::WebMercator);
    assert_eq!("webmercator".parse::<ProjectionKind>().unwrap(), ProjectionKind::WebMercator);
    assert_eq!("mercator".parse::<ProjectionKind>().unwrap(), ProjectionKind::WebMercator);
    assert_eq!("local".parse::<ProjectionKind>().unwrap(), ProjectionKind::Local);
    assert_eq!("LOCAL".parse::<ProjectionKind>().unwrap(), ProjectionKind::Local);
}

#[test]
fn test_projection_kind_from_str_invalid() {
    assert!("unknown".parse::<ProjectionKind>().is_err());
}

#[test]
fn test_projection_kind_roundtrip() {
    for kind in [ProjectionKind::WebMercator, ProjectionKind::Local, ProjectionKind::KoreaTm] {
        let s = kind.to_string();
        let parsed: ProjectionKind = s.parse().unwrap();
        assert_eq!(parsed, kind);
    }
}

#[test]
fn korea_tm_aliases_and_error_message() {
    assert_eq!(ProjectionKind::parse_name("EPSG:5186"), Ok(ProjectionKind::KoreaTm));
    assert_eq!(ProjectionKind::parse_name("koreatm"), Ok(ProjectionKind::KoreaTm));
    assert_eq!(
        ProjectionKind::parse_name("Polar"),
        Err("unknown projection kind: 'polar'".to_string())
    );
    assert_eq!(
        ProjectionKind::from_lowercase("utm"),
        Err("unknown projection kind: 'utm'".to_string())
    );
}
