use adsb_trip_journal::calendar::UtcInstant;
use adsb_trip_journal::double::Double;
use adsb_trip_journal::json;
use adsb_trip_journal::segment::{
    ground_anchors, is_overnight_continuation, parse_point, parse_trace_json, segment_legs,
    Altitude, Leg, TraceFile, TracePoint, NEW_LEG_FLAG, STALE_FLAG,
};

const GROUND_DWELL_SECS: f64 = 900.0;
const TS_DAY: f64 = 1_705_276_800.0;

fn d(x: f64) -> Double {
    Double { bits: x.to_bits() }
}

fn f(x: Double) -> f64 {
    f64::from_bits(x.bits)
}

fn unix_to_utc(secs: f64) -> UtcInstant {
    UtcInstant {
        seconds: secs.floor() as i64,
        nanos: ((secs - secs.floor()) * 1_000_000_000.0).round() as u32,
    }
}

fn pt(secs: f64, lat: f64, lon: f64, alt: Altitude, gs: f64, flags: u32) -> TracePoint {
    TracePoint {
        seconds: d(secs),
        lat: Some(d(lat)),
        lon: Some(d(lon)),
        altitude: alt,
        gs: Some(d(gs)),
        flags,
    }
}

fn feet(x: f64) -> Altitude {
    Altitude::Feet(d(x))
}

fn file(points: Vec<TracePoint>) -> TraceFile {
    TraceFile { icao: Some("abcdef".into()), timestamp: d(TS_DAY), trace: points }
}

fn legs_of(file: &TraceFile) -> Vec<Leg> {
    let elapsed: Vec<Double> = ground_anchors(&file.trace)
        .iter()
        .zip(&file.trace)
        .map(|(a, p)| match a {
            Some(k) => d(f(p.seconds) - f(file.trace[*k].seconds)),
            None => d(0.0),
        })
        .collect();
    let clock: Vec<UtcInstant> = file
        .trace
        .iter()
        .map(|p| unix_to_utc(f(file.timestamp) + f(p.seconds)))
        .collect();
    segment_legs(file, &elapsed, &clock)
}

#[test]
fn flags_bit2_splits_legs() {
    let t = file(vec![
        pt(100.0, 39.57, -104.67, feet(500.0), 120.0, 0),
        pt(200.0, 39.58, -104.66, feet(800.0), 140.0, 0),
        pt(400.0, 39.57, -104.67, Altitude::Ground, 5.0, 0),
        pt(800.0, 39.57, -104.67, feet(400.0), 110.0, NEW_LEG_FLAG),
        pt(900.0, 39.59, -104.65, feet(900.0), 130.0, 0),
    ]);
    let legs = legs_of(&t);
    assert_eq!(legs.len(), 2);
    assert!(!legs[0].new_leg_boundary);
    assert!(legs[1].new_leg_boundary);
    assert_eq!(f(legs[0].dep_lat), 39.57);
    assert_eq!(f(legs[1].dep_lat), 39.57);
}

#[test]
fn ground_dwell_splits_without_flags() {
    let t = file(vec![
        pt(0.0, 39.57, -104.67, feet(500.0), 120.0, 0),
        pt(60.0, 39.57, -104.67, Altitude::Ground, 8.0, 0),
        pt(60.0 + GROUND_DWELL_SECS + 10.0, 39.57, -104.67, Altitude::Ground, 5.0, 0),
        pt(60.0 + GROUND_DWELL_SECS + 20.0, 39.57, -104.67, feet(400.0), 100.0, 0),
    ]);
    let legs = legs_of(&t);
    assert_eq!(legs.len(), 2);
    assert!(legs[1].new_leg_boundary);
}

#[test]
fn stale_coords_ignored_for_dep() {
    let t = file(vec![
        pt(10.0, 1.0, 1.0, feet(1000.0), 200.0, STALE_FLAG),
        pt(20.0, 39.57, -104.67, feet(1000.0), 200.0, 0),
        pt(80.0, 39.58, -104.66, feet(1200.0), 200.0, 0),
    ]);
    let legs = legs_of(&t);
    assert_eq!(legs.len(), 1);
    assert!((f(legs[0].dep_lat) - 39.57).abs() < 1e-9);
}

#[test]
fn still_airborne_leaves_arr_ts_null() {
    let t = file(vec![
        pt(100.0, 39.57, -104.67, feet(500.0), 120.0, 0),
        pt(80_000.0, 40.0, -100.0, feet(35000.0), 400.0, 0),
    ]);
    let legs = legs_of(&t);
    assert_eq!(legs.len(), 1);
    assert!(legs[0].still_airborne);
    assert!(legs[0].arr_ts.is_none());
    assert!((f(legs[0].arr_lat) - 40.0).abs() < 1e-9);
}

#[test]
fn no_coords_emits_nothing() {
    let t = file(vec![TracePoint {
        seconds: d(1.0),
        lat: None,
        lon: None,
        altitude: feet(1000.0),
        gs: Some(d(200.0)),
        flags: 0,
    }]);
    assert!(legs_of(&t).is_empty());
    assert!(legs_of(&file(Vec::new())).is_empty());
}

#[test]
fn parse_ground_string_altitude() {
    let text = br#"{
      "icao": "ABCDEF",
      "timestamp": 1705276800,
      "trace": [
        [10, 39.57, -104.67, "ground", 8, 90, 0],
        [20, 39.57, -104.67, 500, 110, 90, 2]
      ]
    }"#;
    let doc = json::parse(text).unwrap();
    let icao = doc.text_at("icao").cloned();
    let timestamp = doc.double_at("timestamp").unwrap();
    let t = parse_trace_json(&icao, timestamp, doc.array_at("trace").unwrap());
    assert_eq!(t.icao.as_deref(), Some("abcdef"));
    assert_eq!(t.trace[0].altitude, Altitude::Ground);
    assert_eq!(t.trace[1].flags, 2);
    let legs = legs_of(&t);
    assert_eq!(legs.len(), 1);
}

#[test]
fn continuation_window() {
    let mut leg = Leg {
        dep_ts: unix_to_utc(TS_DAY + 60.0),
        arr_ts: Some(unix_to_utc(TS_DAY + 120.0)),
        dep_lat: d(1.0),
        dep_lon: d(2.0),
        arr_lat: d(3.0),
        arr_lon: d(4.0),
        still_airborne: false,
        new_leg_boundary: false,
    };
    assert!(is_overnight_continuation(&leg));
    leg.new_leg_boundary = true;
    assert!(!is_overnight_continuation(&leg));
    leg.new_leg_boundary = false;
    leg.dep_ts = unix_to_utc(TS_DAY + 7_200.0);
    assert!(!is_overnight_continuation(&leg));
    leg.dep_ts = UtcInstant { seconds: -86_400 + 7_199, nanos: 0 };
    assert!(is_overnight_continuation(&leg));
    leg.dep_ts = UtcInstant { seconds: -1, nanos: 0 };
    assert!(!is_overnight_continuation(&leg));
}

#[test]
fn short_stay_on_the_ground_does_not_split() {
    let t = file(vec![
        pt(0.0, 1.0, 1.0, feet(500.0), 120.0, 0),
        pt(60.0, 1.0, 1.0, Altitude::Ground, 8.0, 0),
        pt(60.0 + GROUND_DWELL_SECS - 1.0, 2.0, 2.0, feet(400.0), 100.0, 0),
    ]);
    assert_eq!(legs_of(&t).len(), 1);
}

#[test]
fn ground_only_trace_is_no_leg() {
    let t = file(vec![
        pt(0.0, 1.0, 1.0, Altitude::Ground, 1.0, 0),
        pt(5.0, 1.0, 1.0, feet(50.0), 10.0, 0),
        pt(9.0, 1.0, 1.0, Altitude::Unknown, 10.0, 0),
    ]);
    assert!(legs_of(&t).is_empty());
}

#[test]
fn rows_without_a_point_are_passed_over() {
    let row = |text: &str| parse_point(&json::parse(text.as_bytes()).unwrap());
    assert!(row("[1, 2, 3]").is_none());
    assert!(row("[null, 2, 3, 4]").is_none());
    assert!(row("{}").is_none());
    let p = row(r#"[1.5, null, 3, "Ground"]"#).unwrap();
    assert_eq!(p.seconds, d(1.5));
    assert!(p.lat.is_none());
    assert_eq!(p.lon, Some(d(3.0)));
    assert_eq!(p.altitude, Altitude::Ground);
    assert!(p.gs.is_none());
    assert_eq!(p.flags, 0);
    assert_eq!(row(r#"[1, 2, 3, "x", 5, 6, 2.9]"#).unwrap().flags, 2);
    assert_eq!(row("[1, 2, 3, true, 5, 6, -7]").unwrap().flags, 0);
    assert_eq!(row("[1, 2, 3, null, 5, 6, 4294967299]").unwrap().flags, 3);
    assert_eq!(row("[1, 2, 3, 4e1, 5, 6]").unwrap().altitude, feet(40.0));
}
