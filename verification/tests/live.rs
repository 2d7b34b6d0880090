use adsb_trip_journal::calendar::UtcInstant;
use adsb_trip_journal::double::Double;
use adsb_trip_journal::fleet::FleetRow;
use adsb_trip_journal::live::{
    is_airborne, parse_live_aircraft, LiveAircraft, LiveAlt, LiveTracker,
};
use adsb_trip_journal::store::TripSource;

fn d(x: f64) -> Double {
    Double { bits: x.to_bits() }
}

fn at(minutes: i64) -> UtcInstant {
    UtcInstant { seconds: 1_705_320_000 + minutes * 60, nanos: 0 }
}

fn fleet() -> FleetRow {
    FleetRow {
        n_number: "N1".into(),
        icao24: "abcdef".into(),
        ticker: "AAA".into(),
        cik: None,
        company_name: None,
        make: None,
        model: None,
        registrant_name: None,
        match_method: None,
        aviation_issuer: 0,
        fleet_size: 1,
        as_of_date: None,
    }
}

fn ac(alt: LiveAlt, lat: f64, lon: f64, gs: f64) -> LiveAircraft {
    LiveAircraft {
        hex: "abcdef".into(),
        lat: Some(d(lat)),
        lon: Some(d(lon)),
        alt_baro: Some(alt),
        gs: Some(d(gs)),
    }
}

#[test]
fn ground_air_ground_emits_trip() {
    let mut t = LiveTracker::new(vec![fleet()]);
    assert!(t
        .ingest(&vec![ac(LiveAlt::Ground, 39.57, -104.67, 5.0)], at(0))
        .is_empty());
    assert!(t
        .ingest(&vec![ac(LiveAlt::Feet(d(2000.0)), 39.58, -104.66, 180.0)], at(5))
        .is_empty());
    let trips = t.ingest(&vec![ac(LiveAlt::Ground, 40.64, -73.78, 8.0)], at(45));
    assert_eq!(trips.len(), 1);
    assert_eq!(trips[0].dep_lat, d(39.58));
    assert_eq!(trips[0].arr_lat, d(40.64));
    assert_eq!(trips[0].source, TripSource::AdsBxLive);
    assert_eq!(trips[0].dep_ts, at(5));
    assert_eq!(trips[0].arr_ts, at(45));
}

#[test]
fn parse_live_json() {
    let body = br#"{"ac":[{"hex":"ABCDEF","lat":1.0,"lon":2.0,"alt_baro":"ground","gs":3}]}"#;
    let v = parse_live_aircraft(body).unwrap();
    assert_eq!(v.len(), 1);
    assert_eq!(v[0].hex, "abcdef");
    assert!(matches!(v[0].alt_baro, Some(LiveAlt::Ground)));
    assert_eq!(v[0].gs, Some(d(3.0)));
}

#[test]
fn live_items_without_an_address_are_passed_over() {
    let body = br#"{"ac":[{"lat":1},{"hex":""},{"hex":5},{"hex":"A1","alt_baro":"low"},{"hex":"b2","alt_baro":120.5}]}"#;
    let v = parse_live_aircraft(body).unwrap();
    let hexes: Vec<&str> = v.iter().map(|a| a.hex.as_str()).collect();
    assert_eq!(hexes, vec!["a1", "b2"]);
    assert!(v[0].alt_baro.is_none());
    assert!(matches!(v[1].alt_baro, Some(LiveAlt::Feet(x)) if x == d(120.5)));
    assert!(parse_live_aircraft(b"{}").unwrap().is_empty());
    assert!(parse_live_aircraft(b"{").is_err());
}

#[test]
fn missed_poll_leaves_the_leg_open() {
    let mut t = LiveTracker::new(vec![fleet()]);
    t.ingest(&vec![ac(LiveAlt::Feet(d(2000.0)), 1.0, 2.0, 180.0)], at(0));
    assert!(t.ingest(&Vec::new(), at(5)).is_empty());
    let mut blind = ac(LiveAlt::Ground, 0.0, 0.0, 0.0);
    blind.lat = None;
    assert!(t.ingest(&vec![blind], at(6)).is_empty());
    let trips = t.ingest(&vec![ac(LiveAlt::Ground, 3.0, 4.0, 8.0)], at(10));
    assert_eq!(trips.len(), 1);
    assert_eq!(trips[0].dep_ts, at(0));
}

#[test]
fn aircraft_outside_the_fleet_is_ignored() {
    let mut t = LiveTracker::new(Vec::new());
    t.ingest(&vec![ac(LiveAlt::Feet(d(2000.0)), 1.0, 2.0, 180.0)], at(0));
    assert!(t.ingest(&vec![ac(LiveAlt::Ground, 3.0, 4.0, 8.0)], at(10)).is_empty());
}

#[test]
fn airborne_by_altitude_and_speed() {
    assert!(!is_airborne(&ac(LiveAlt::Ground, 0.0, 0.0, 500.0)));
    assert!(!is_airborne(&ac(LiveAlt::Feet(d(100.0)), 0.0, 0.0, 39.9)));
    assert!(is_airborne(&ac(LiveAlt::Feet(d(100.0)), 0.0, 0.0, 40.0)));
    assert!(is_airborne(&ac(LiveAlt::Feet(d(100.1)), 0.0, 0.0, 0.0)));
    let mut a = ac(LiveAlt::Ground, 0.0, 0.0, 41.0);
    a.alt_baro = None;
    assert!(is_airborne(&a));
    a.gs = None;
    assert!(!is_airborne(&a));
}
