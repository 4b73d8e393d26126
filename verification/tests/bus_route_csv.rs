use kr_worldgen::bus_routes::{parse_line, route_data_from_bytes, route_data_from_text, REFERENCE_DATE};

fn euc_kr(text: &str) -> Vec<u8> {
    let (bytes, _, _) = encoding_rs::EUC_KR.encode(text);
    bytes.into_owned()
}

#[test]
fn splits_first_four_columns_and_ignores_the_rest() {
    let bytes = euc_kr(
        "노선번호,정류장순서,정류장코드,정류장명,선탑건수합계\n508,0,2600391,남부여객(종점),12345\n508,1,2600392,광명고교,999\n",
    );
    let (data, malformed) = route_data_from_bytes(&bytes).unwrap();
    assert_eq!(malformed, 0);
    let stops = data.stops_for("508").unwrap();
    assert_eq!(stops.len(), 2);
    assert_eq!(stops[0].seq, 0);
    assert_eq!(stops[0].stop_code, "2600391");
    assert_eq!(stops[0].stop_name, "남부여객(종점)");
    assert_eq!(stops[1].stop_name, "광명고교");
}

#[test]
fn sorts_stops_by_sequence_regardless_of_file_order() {
    let bytes = euc_kr("노선번호,정류장순서,정류장코드,정류장명,x\n10,2,c2,n2,0\n10,0,c0,n0,0\n10,1,c1,n1,0\n");
    let (data, _) = route_data_from_bytes(&bytes).unwrap();
    let stops = data.stops_for("10").unwrap();
    assert_eq!(stops.iter().map(|s| s.seq).collect::<Vec<_>>(), vec![0, 1, 2]);
}

#[test]
fn malformed_rows_are_counted_and_skipped() {
    let bytes = euc_kr("h\n1,x,c,n\n2,3\n\n3, 7 ,code , name \n");
    let (data, malformed) = route_data_from_bytes(&bytes).unwrap();
    assert_eq!(malformed, 2);
    assert_eq!(data.route_count(), 1);
    assert_eq!(data.route_no(0), "3");
    let stops = data.route_stops(0);
    assert_eq!(stops[0].seq, 7);
    assert_eq!(stops[0].stop_code, "code");
    assert_eq!(stops[0].stop_name, "name");
    assert!(data.stops_for("1").is_none());
}

#[test]
fn routes_keep_first_appearance_order_and_stable_ties() {
    let bytes = euc_kr("h\nB,1,b1,x\nA,5,a5,first\nB,0,b0,y\nA,5,a5b,second\n");
    let (data, _) = route_data_from_bytes(&bytes).unwrap();
    assert_eq!(data.route_count(), 2);
    assert_eq!(data.route_no(0), "B");
    assert_eq!(data.route_no(1), "A");
    let a = data.stops_for("A").unwrap();
    assert_eq!(a[0].stop_name, "first");
    assert_eq!(a[1].stop_name, "second");
}

#[test]
fn undecodable_bytes_are_refused() {
    assert!(route_data_from_bytes(&[b'h', b'\n', 0xFF, 0xFF]).is_err());
}

#[test]
fn reference_date_is_the_file_snapshot_date() {
    assert_eq!(REFERENCE_DATE, "2023-07-31");
    let (data, _) = route_data_from_bytes(b"h\n").unwrap();
    assert_eq!(data.reference_date(), "2023-07-31");
    assert_eq!(data.route_count(), 0);
}

#[test]
fn parse_line_trims_columns_and_accepts_a_plus_sign() {
    let line: Vec<char> = " 7 , +3 ,c,n,extra,more".chars().collect();
    let stop = parse_line(&line).unwrap();
    assert_eq!(stop.route_no, "7");
    assert_eq!(stop.seq, 3);
    let short: Vec<char> = "1,2,3".chars().collect();
    assert!(parse_line(&short).is_none());
    let negative: Vec<char> = "1,-2,3,4".chars().collect();
    assert!(parse_line(&negative).is_none());
}

#[test]
fn decoded_text_groups_routes_in_order_of_first_appearance() {
    let (data, bad) = route_data_from_text("header\n86,2,c2,B\n11,1,c9,Z\n86,1,c1,A\nbroken line\n");
    assert_eq!(bad, 1);
    assert_eq!(data.route_count(), 2);
    assert_eq!(data.route_no(0), "86");
    assert_eq!(data.route_no(1), "11");
    let stops = data.route_stops(0);
    assert_eq!(stops.len(), 2);
    assert_eq!(stops[0].seq, 1);
    assert_eq!(stops[1].seq, 2);
}
