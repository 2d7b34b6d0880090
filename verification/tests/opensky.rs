use adsb_trip_journal::airports::{AirportIndex, AirportRow, Place};
use adsb_trip_journal::calendar::UtcDay;
use adsb_trip_journal::double::Double;
use adsb_trip_journal::fleet::FleetRow;
use adsb_trip_journal::json;
use adsb_trip_journal::opensky::{
    estimated_states_credits, filter_flights_to_fleet, flight_to_trip, placeable, states_request_count,
    utc_day_two_hour_slices, utc_day_window, utc_hours_window, CreditBucket, CreditInfo, Flight,
    EndDistances, OpenskyOutcome, TrackEnds, DEFAULT_MAX_FLIGHTS_CREDITS, FLIGHTS_ALL_LOOKBACK_DAYS,
    FLIGHTS_ALL_SLICE_CREDITS, FLIGHTS_ALL_SLICE_SECS, FLIGHTS_CALL_CREDITS, STATES_CALL_CREDITS,
};
use adsb_trip_journal::opensky_client::{
    check_flights_window, classify, credit_from_headers, flights_outcome, normalize_callsign,
    parse_flights, parse_states_hexes, parse_track_endpoints, token_lifetime_secs,
    token_still_good, tracks_outcome, transport_failure, ConfigSource, CredentialsError,
    HeaderField, OpenskyConfig, StatesPoll, WindowError,
};
use adsb_trip_journal::opensky_probe::{
    overlap_fleet_journal, probe_report, remaining_from_probe_json, token_failed_report,
};
use adsb_trip_journal::report::flights_all_probe_lines;
use adsb_trip_journal::sets::KeySet;
use adsb_trip_journal::store::{TripRow, TripSource};
use chrono::{TimeZone, Timelike, Utc};

fn d(x: f64) -> Double {
    Double { bits: x.to_bits() }
}

fn f(x: Double) -> f64 {
    f64::from_bits(x.bits)
}

fn day(text: &str) -> UtcDay {
    UtcDay::parse(text).unwrap()
}

fn set(hexes: &[&str]) -> KeySet<String> {
    let mut s = KeySet::new();
    for h in hexes {
        s.insert(h.to_string());
    }
    s
}

fn keys(items: &[(&str, i64)]) -> KeySet<(String, i64)> {
    let mut s = KeySet::new();
    for (h, t) in items {
        s.insert((h.to_string(), *t));
    }
    s
}

fn raw_flights(body: &[u8]) -> Result<Vec<Flight>, String> {
    let v: serde_json::Value = serde_json::from_slice(body).map_err(|e| e.to_string())?;
    let items = v.as_array().ok_or("not an array")?;
    let text = |o: &serde_json::Value, k: &str| o.get(k).and_then(|x| x.as_str()).map(String::from);
    let int = |o: &serde_json::Value, k: &str| o.get(k).and_then(|x| x.as_i64());
    items
        .iter()
        .map(|o| {
            Ok(Flight {
                icao24: text(o, "icao24").ok_or("no icao24")?,
                first_seen: int(o, "firstSeen").ok_or("no firstSeen")?,
                last_seen: int(o, "lastSeen"),
                est_departure_airport: text(o, "estDepartureAirport"),
                est_arrival_airport: text(o, "estArrivalAirport"),
                callsign: text(o, "callsign"),
                est_departure_airport_horiz_distance: int(o, "estDepartureAirportHorizDistance"),
                est_departure_airport_vert_distance: int(o, "estDepartureAirportVertDistance"),
                est_arrival_airport_horiz_distance: int(o, "estArrivalAirportHorizDistance"),
                est_arrival_airport_vert_distance: int(o, "estArrivalAirportVertDistance"),
                departure_airport_candidates_count: int(o, "departureAirportCandidatesCount"),
                arrival_airport_candidates_count: int(o, "arrivalAirportCandidatesCount"),
            })
        })
        .collect()
}

fn read_flights(body: &[u8]) -> Result<Vec<Flight>, String> {
    parse_flights(body, raw_flights(body))
}

fn airports(text: &str) -> AirportIndex {
    let mut reader = csv::Reader::from_reader(text.as_bytes());
    let rows: Vec<AirportRow> = reader
        .records()
        .map(|r| {
            let r = r.unwrap();
            AirportRow {
                ident: r[0].to_string(),
                type_field: r[1].to_string(),
                latitude_deg: r[2].parse::<f64>().ok().map(d),
                longitude_deg: r[3].parse::<f64>().ok().map(d),
            }
        })
        .collect();
    AirportIndex::from_rows(&rows)
}

fn fleet_row() -> FleetRow {
    FleetRow {
        n_number: "N1".into(),
        icao24: "abcdef".into(),
        ticker: "AAA".into(),
        cik: None,
        company_name: None,
        make: None,
        model: None,
        registrant_name: None,
        match_method: None,
        aviation_issuer: 0,
        fleet_size: 1,
        as_of_date: None,
    }
}

fn credit(remaining: Option<u32>, retry_after: Option<u64>, bucket: CreditBucket) -> CreditInfo {
    CreditInfo { remaining, retry_after, bucket }
}

#[test]
fn credentials_accept_camel_and_snake() {
    let a = OpenskyConfig::from_json_str(r#"{"clientId":"id-a","clientSecret":"sec-a"}"#).unwrap();
    assert_eq!(a.client_id, "id-a");
    let b =
        OpenskyConfig::from_json_str(r#"{"client_id":"id-b","client_secret":"sec-b"}"#).unwrap();
    assert_eq!(b.client_id, "id-b");
}

#[test]
fn credentials_that_are_missing_are_named() {
    let read = |s: &str| OpenskyConfig::from_json_str(s).map(|c| c.client_secret);
    assert_eq!(read("{"), Err(CredentialsError::NotJson));
    assert_eq!(read(r#"{"clientSecret":"s"}"#), Err(CredentialsError::MissingClientId));
    assert_eq!(read(r#"{"clientId":5,"client_id":"i"}"#), Err(CredentialsError::MissingClientId));
    assert_eq!(read(r#"{"clientId":""}"#), Err(CredentialsError::MissingClientSecret));
    assert_eq!(
        read(r#"{"clientId":"i","clientSecret":5}"#),
        Err(CredentialsError::MissingClientSecret)
    );
    assert_eq!(read(r#"{"clientId":"i","client_secret":"s"}"#), Ok("s".to_string()));
}

#[test]
fn settings_choose_where_credentials_come_from() {
    let some = |s: &str| Some(s.to_string());
    assert!(matches!(
        OpenskyConfig::from_settings(&some("i"), &some("s"), &some("p")),
        ConfigSource::Given(c) if c.client_id == "i" && c.client_secret == "s"
    ));
    assert!(matches!(
        OpenskyConfig::from_settings(&some("i"), &None, &some("p")),
        ConfigSource::File(p) if p == "p"
    ));
    assert!(matches!(OpenskyConfig::from_settings(&None, &None, &None), ConfigSource::Missing));
}

#[test]
fn day_window_is_under_24h_same_calendar_day() {
    let date = day("2024-01-15");
    let (b, e) = utc_day_window(date);
    assert_eq!(e - b, 86_399);
    assert_eq!(e - b + 1, 86_400);
    let start = Utc.timestamp_opt(b, 0).single().unwrap();
    let end = Utc.timestamp_opt(e, 0).single().unwrap();
    assert_eq!(start.date_naive().to_string(), date.to_text());
    assert_eq!(end.date_naive().to_string(), date.to_text());
}

#[test]
fn six_hour_window_stays_on_same_utc_day() {
    let date = day("2024-01-15");
    let (b, e) = utc_hours_window(date, 12, 6);
    assert_eq!(e - b, 6 * 3_600 - 1);
    let start = Utc.timestamp_opt(b, 0).single().unwrap();
    let end = Utc.timestamp_opt(e, 0).single().unwrap();
    assert_eq!(start.hour(), 12);
    assert_eq!(end.hour(), 17);
    assert_eq!(end.minute(), 59);
    assert_eq!(start.date_naive().to_string(), date.to_text());
    assert_eq!(end.date_naive().to_string(), date.to_text());
}

#[test]
fn twelve_slices_cover_utc_day_without_gaps() {
    let date = day("2024-01-15");
    let (day_b, day_e) = utc_day_window(date);
    let slices = utc_day_two_hour_slices(date);
    assert_eq!(slices.len(), 12);
    assert_eq!(slices[0].0, day_b);
    assert_eq!(slices[11].1, day_e);
    for i in 1..12 {
        assert_eq!(slices[i].0, slices[i - 1].1 + 1);
    }
    for (b, e) in &slices {
        assert_eq!(*e - *b, FLIGHTS_ALL_SLICE_SECS - 1);
    }
}

#[test]
fn filter_and_overlap_keep_fleet_keys() {
    let flights = read_flights(
        br#"[
          {"icao24":"abcdef","firstSeen":100,"estDepartureAirport":"KAPA"},
          {"icao24":"ffffff","firstSeen":100,"estDepartureAirport":"KJFK"},
          {"icao24":"abcdef","firstSeen":200}
        ]"#,
    )
    .unwrap();
    let fleet = set(&["abcdef"]);
    let kept = filter_flights_to_fleet(&flights, &fleet);
    assert_eq!(kept.len(), 2);
    let journal = keys(&[("abcdef", 100)]);
    let o = overlap_fleet_journal(&flights, &fleet, &journal);
    assert_eq!(o.fleet_count, 2);
    assert_eq!(o.fleet_hexes, 1);
    assert_eq!(o.matched_keys, 1);
    assert_eq!(o.extra_vs_journal, 1);
    assert_eq!(o.missing_from_journal, 0);
}

#[test]
fn overlap_accounts_for_every_key() {
    let flights = read_flights(
        br#"[{"icao24":"a","firstSeen":1},{"icao24":"a","firstSeen":1},{"icao24":"b","firstSeen":2},{"icao24":"c","firstSeen":3}]"#,
    )
    .unwrap();
    let o = overlap_fleet_journal(
        &flights,
        &set(&["a", "b"]),
        &keys(&[("a", 1), ("a", 9), ("z", 9)]),
    );
    assert_eq!((o.fleet_count, o.fleet_hexes, o.journal_trips_in_window), (3, 2, 3));
    assert_eq!((o.matched_keys, o.extra_vs_journal, o.missing_from_journal), (1, 1, 2));
}

#[test]
fn historical_flights_call_is_thirty_credits() {
    assert_eq!(FLIGHTS_CALL_CREDITS, 30);
    assert_eq!(FLIGHTS_ALL_SLICE_CREDITS, 30);
    assert_eq!(DEFAULT_MAX_FLIGHTS_CREDITS, 800);
    assert_eq!(FLIGHTS_ALL_LOOKBACK_DAYS, 90);
}

#[test]
fn icao24_filter_states_call_is_four_credits() {
    assert_eq!(STATES_CALL_CREDITS, 4);
    assert_eq!(estimated_states_credits(0), 0);
    assert_eq!(estimated_states_credits(1), 4);
    assert_eq!(estimated_states_credits(80), 4);
    assert_eq!(estimated_states_credits(81), 8);
    assert_eq!(estimated_states_credits(343), 20);
    assert_eq!(states_request_count(343), 5);
}

#[test]
fn parse_empty_and_array_are_no_legs() {
    assert!(read_flights(b"").unwrap().is_empty());
    assert!(read_flights(b"[]").unwrap().is_empty());
}

#[test]
fn flights_that_cannot_be_read_are_an_error() {
    assert_eq!(parse_flights(b"{}", Err("odd".into())).err().as_deref(), Some("odd"));
    assert!(parse_flights(b"", Err("odd".into())).unwrap().is_empty());
}

#[test]
fn outcome_404_advances_cursor_429_does_not() {
    let credit = CreditInfo {
        remaining: Some(10),
        retry_after: Some(30),
        bucket: CreditBucket::Flights,
    };
    assert!(OpenskyOutcome::<()>::NotFound {
        credit: credit.clone()
    }
    .advances_cursor());
    assert!(!OpenskyOutcome::<()>::RateLimited { credit }.advances_cursor());
}

#[test]
fn outcomes_speak_of_status_and_credit() {
    let c = credit(Some(7), None, CreditBucket::States);
    let none = credit(None, Some(3), CreditBucket::States);
    let limited = OpenskyOutcome::<()>::RateLimited { credit: none };
    assert_eq!(
        limited.error_message().as_deref(),
        Some("HTTP 429 retry-after=3s remaining=None")
    );
    let limited = OpenskyOutcome::<()>::RateLimited { credit: c };
    assert_eq!(
        limited.error_message().as_deref(),
        Some("HTTP 429 retry-after=0s remaining=Some(7)")
    );
    assert_eq!(limited.remaining(), Some(7));
    let denied = OpenskyOutcome::<()>::Denied { status: 401, message: "no".into() };
    assert_eq!(denied.error_message().as_deref(), Some("HTTP 401: no"));
    assert_eq!(denied.remaining(), None);
    let other = OpenskyOutcome::<()>::Other { status: 500, message: "x".into() };
    assert_eq!(other.error_message().as_deref(), Some("HTTP 500: x"));
    let good = OpenskyOutcome::Success { data: (), credit: c };
    assert!(good.error_message().is_none());
    assert!(good.advances_cursor());
    assert!(OpenskyOutcome::<()>::NotFound { credit: c }.error_message().is_none());
}

#[test]
fn parse_flight_object() {
    let json = br#"[{
      "icao24":"ABCDEF",
      "firstSeen":1705276800,
      "lastSeen":1705280400,
      "estDepartureAirport":"KAPA",
      "estArrivalAirport":"KJFK",
      "callsign":" dcm1  ",
      "estDepartureAirportHorizDistance": 1250,
      "estDepartureAirportVertDistance": 304,
      "estArrivalAirportHorizDistance": 800,
      "estArrivalAirportVertDistance": 50,
      "departureAirportCandidatesCount": 1,
      "arrivalAirportCandidatesCount": 2
    }]"#;
    let fl = read_flights(json).unwrap();
    assert_eq!(fl.len(), 1);
    assert_eq!(fl[0].icao24, "abcdef");
    assert_eq!(fl[0].est_departure_airport.as_deref(), Some("KAPA"));
    assert_eq!(fl[0].callsign.as_deref(), Some("DCM1"));
    assert_eq!(fl[0].est_departure_airport_horiz_distance, Some(1250));
    assert_eq!(fl[0].arrival_airport_candidates_count, Some(2));
}

#[test]
fn blank_labels_and_idents_are_none() {
    let fl = read_flights(
        br#"[{"icao24":" A1 ","firstSeen":1,"callsign":"   ","estDepartureAirport":" kapa ","estArrivalAirport":" "}]"#,
    )
    .unwrap();
    assert!(fl[0].callsign.is_none());
    assert_eq!(fl[0].est_departure_airport.as_deref(), Some("KAPA"));
    assert!(fl[0].est_arrival_airport.is_none());
    let once = normalize_callsign(&Some(" n1 x ".into()));
    assert_eq!(once.as_deref(), Some("N1 X"));
    assert_eq!(normalize_callsign(&once), once);
}

#[test]
fn parse_empty_states() {
    let json = br#"{"time":1,"states":null}"#;
    assert!(parse_states_hexes(json).unwrap().is_empty());
}

#[test]
fn parse_states_hex_list() {
    let json = br#"{"time":1,"states":[["aBcDeF","N1",null,1,1,1.0,2.0,1000,false]]}"#;
    assert_eq!(parse_states_hexes(json).unwrap(), vec!["abcdef".to_string()]);
}

#[test]
fn states_without_an_address_are_passed_over() {
    let json = br#"{"states":[[],[5],[""],{"a":1},["B2"],["b2"]]}"#;
    let found = parse_states_hexes(json).unwrap();
    assert!(found.contains(&"b2".to_string()));
    assert!(!found.contains(&"5".to_string()));
    assert!(parse_states_hexes(b"nope").is_err());
    assert!(parse_states_hexes(b"{}").unwrap().is_empty());
}

#[test]
fn parse_track_first_last() {
    let json = br#"{
      "calllsign":" n175ct ",
      "path":[
        [1,39.57,-104.67,100,90,false],
        [2,40.64,-73.78,200,90,true]
      ]
    }"#;
    let t = parse_track_endpoints(json).unwrap();
    assert!((f(t.dep_lat) - 39.57).abs() < 1e-9);
    assert!((f(t.arr_lat) - 40.64).abs() < 1e-9);
    assert_eq!(t.callsign.as_deref(), Some("N175CT"));
}

#[test]
fn track_without_positions_is_none() {
    assert!(parse_track_endpoints(b"").is_none());
    assert!(parse_track_endpoints(b"{}").is_none());
    assert!(parse_track_endpoints(br#"{"path":[]}"#).is_none());
    assert!(parse_track_endpoints(br#"{"path":[[1,null,2]]}"#).is_none());
}

#[test]
fn flight_to_trip_uses_airport_idents() {
    let csv = "ident,type,latitude_deg,longitude_deg\nKAPA,large_airport,39.5701,-104.6737\nKJFK,large_airport,40.6399,-73.7787\n";
    let idx = airports(csv);
    let flight = Flight {
        icao24: "abcdef".into(),
        first_seen: 1_705_276_800,
        last_seen: Some(1_705_280_400),
        est_departure_airport: Some("KAPA".into()),
        est_arrival_airport: Some("KJFK".into()),
        ..Default::default()
    };
    let trip = flight_to_trip(
        &flight,
        &fleet_row(),
        &idx,
        &None,
        &None,
        "2026-09-01T00:00:00Z",
        TripSource::OpenskyFlights,
    )
    .unwrap();
    assert_eq!(trip.dep_airport.as_deref(), Some("KAPA"));
    assert_eq!(trip.arr_airport.as_deref(), Some("KJFK"));
    assert_eq!(trip.source, "opensky_flights");
    assert!(f(trip.dep_lat.unwrap()) > 39.0);
    assert!(trip.arr_lat.is_some());
    assert_eq!(trip.dep_ts, "2024-01-15T00:00:00Z");
    assert_eq!(trip.arr_ts.as_deref(), Some("2024-01-15T01:00:00Z"));
    assert!(matches!(trip.dep_place, Some(Place::Ident(p)) if p == "KAPA"));
}

#[test]
fn flight_to_trip_does_not_copy_dep_as_arrival() {
    let csv = "ident,type,latitude_deg,longitude_deg\nKAPA,large_airport,39.5701,-104.6737\n";
    let idx = airports(csv);
    let flight = Flight {
        icao24: "abcdef".into(),
        first_seen: 1_705_276_800,
        last_seen: Some(1_705_280_400),
        est_departure_airport: Some("KAPA".into()),
        est_arrival_airport: None,
        ..Default::default()
    };
    let trip =
        flight_to_trip(&flight, &fleet_row(), &idx, &None, &None, "t", TripSource::OpenskyFlights)
            .unwrap();
    assert_eq!(trip.dep_airport.as_deref(), Some("KAPA"));
    assert!(trip.arr_airport.is_none());
    assert!(trip.arr_lat.is_none());
    assert!(trip.arr_lon.is_none());
    assert!(trip.arr_place.is_none());
}

#[test]
fn flight_without_coords_is_skipped() {
    let idx = AirportIndex::empty();
    let flight = Flight {
        icao24: "abcdef".into(),
        first_seen: 1_705_276_800,
        last_seen: None,
        est_departure_airport: None,
        est_arrival_airport: None,
        ..Default::default()
    };
    assert!(
        flight_to_trip(&flight, &fleet_row(), &idx, &None, &None, "t", TripSource::OpenskyFlights)
            .is_none()
    );
}

fn haversine_km(lat1: f64, lon1: f64, lat2: f64, lon2: f64) -> f64 {
    let p1 = lat1.to_radians();
    let p2 = lat2.to_radians();
    let dp = (lat2 - lat1).to_radians();
    let dl = (lon2 - lon1).to_radians();
    let a = (dp / 2.0).sin().powi(2) + p1.cos() * p2.cos() * (dl / 2.0).sin().powi(2);
    2.0 * 6371.0 * a.sqrt().asin()
}

fn distances(idx: &AirportIndex, lat: Double, lon: Double) -> Vec<Double> {
    let float = |x: Double| f64::from_bits(x.bits);
    (0..idx.len())
        .map(|i| {
            let a = idx.airport(i);
            d(haversine_km(float(lat), float(lon), float(a.lat), float(a.lon)))
        })
        .collect()
}

fn measure(idx: &AirportIndex, ends: &TrackEnds) -> EndDistances {
    EndDistances {
        dep: distances(idx, ends.dep_lat, ends.dep_lon),
        arr: distances(idx, ends.arr_lat, ends.arr_lon),
    }
}

fn ends(callsign: &str) -> TrackEnds {
    TrackEnds {
        dep_lat: d(39.57),
        dep_lon: d(-104.67),
        arr_lat: d(40.64),
        arr_lon: d(-73.78),
        callsign: Some(callsign.into()),
    }
}

#[test]
fn flight_fills_from_track_when_airports_null() {
    let idx = AirportIndex::empty();
    let flight = Flight {
        icao24: "abcdef".into(),
        first_seen: 1_705_276_800,
        last_seen: Some(1_705_280_400),
        est_departure_airport: None,
        est_arrival_airport: None,
        ..Default::default()
    };
    let trip = flight_to_trip(
        &flight,
        &fleet_row(),
        &idx,
        &Some(ends("N1")),
        &Some(measure(&idx, &ends("N1"))),
        "t",
        TripSource::OpenskyTrack,
    )
    .unwrap();
    assert!(trip.dep_airport.is_none());
    assert!((f(trip.dep_lat.unwrap()) - 39.57).abs() < 1e-9);
    assert!((f(trip.arr_lat.unwrap()) - 40.64).abs() < 1e-9);
    assert_eq!(trip.source, "opensky_track");
    assert_eq!(trip.callsign.as_deref(), Some("N1"));
}

#[test]
fn flight_callsign_wins_over_track() {
    let csv = "ident,type,latitude_deg,longitude_deg\nKAPA,large_airport,39.5701,-104.6737\nKJFK,large_airport,40.6399,-73.7787\n";
    let idx = airports(csv);
    let flight = Flight {
        icao24: "abcdef".into(),
        first_seen: 1_705_276_800,
        last_seen: Some(1_705_280_400),
        est_departure_airport: Some("KAPA".into()),
        est_arrival_airport: Some("KJFK".into()),
        callsign: Some("DCM123".into()),
        est_departure_airport_horiz_distance: Some(100),
        est_departure_airport_vert_distance: Some(20),
        est_arrival_airport_horiz_distance: Some(200),
        est_arrival_airport_vert_distance: Some(30),
        departure_airport_candidates_count: Some(1),
        arrival_airport_candidates_count: Some(2),
    };
    let trip: TripRow = flight_to_trip(
        &flight,
        &fleet_row(),
        &idx,
        &Some(ends("TRACK")),
        &Some(measure(&idx, &ends("TRACK"))),
        "t",
        TripSource::OpenskyFlights,
    )
    .unwrap();
    assert_eq!(trip.callsign.as_deref(), Some("DCM123"));
    assert_eq!(trip.dep_airport_horiz_m, Some(100));
    assert_eq!(trip.arr_airport_candidates, Some(2));
}

#[test]
fn flight_to_the_same_ident_is_no_trip() {
    let csv = "ident,type,latitude_deg,longitude_deg\nKAPA,large_airport,39.5701,-104.6737\n";
    let idx = airports(csv);
    let mut flight = Flight {
        icao24: "abcdef".into(),
        first_seen: 1_705_276_800,
        last_seen: Some(1_705_280_400),
        est_departure_airport: Some("KAPA".into()),
        est_arrival_airport: Some("KAPA".into()),
        ..Default::default()
    };
    let trip = |f: &Flight, t: Option<TrackEnds>| {
        let near = t.as_ref().map(|e| measure(&idx, e));
        flight_to_trip(f, &fleet_row(), &idx, &t, &near, "t", TripSource::OpenskyFlights)
    };
    assert!(trip(&flight, None).is_none());
    assert!(trip(&flight, Some(ends("X"))).is_none());
    flight.est_departure_airport = Some(String::new());
    flight.est_arrival_airport = Some(String::new());
    assert!(trip(&flight, Some(ends("X"))).is_some());
}

#[test]
fn far_ident_is_no_landing() {
    let csv = "ident,type,latitude_deg,longitude_deg\nKAPA,large_airport,39.5701,-104.6737\nKJFK,large_airport,40.6399,-73.7787\n";
    let idx = airports(csv);
    let mut flight = Flight {
        icao24: "abcdef".into(),
        first_seen: 1_705_276_800,
        last_seen: Some(1_705_280_400),
        est_departure_airport: Some("KAPA".into()),
        est_arrival_airport: Some("KJFK".into()),
        est_departure_airport_horiz_distance: Some(100),
        est_arrival_airport_horiz_distance: Some(9_000),
        ..Default::default()
    };
    let trip = |f: &Flight, t: Option<TrackEnds>| {
        let near = t.as_ref().map(|e| measure(&idx, e));
        flight_to_trip(f, &fleet_row(), &idx, &t, &near, "t", TripSource::OpenskyFlights)
    };
    assert!(!placeable(&flight, &idx));
    let alone = trip(&flight, None).unwrap();
    assert_eq!(alone.dep_airport.as_deref(), Some("KAPA"));
    assert!(alone.arr_airport.is_none());
    assert!(alone.arr_lat.is_none() && alone.arr_place.is_none());
    assert_eq!(alone.arr_airport_horiz_m, Some(9_000));
    let with_track = trip(&flight, Some(ends("X"))).unwrap();
    assert_eq!(with_track.arr_airport.as_deref(), Some("KJFK"), "the track ends at KJFK");
    assert!((f(with_track.arr_lat.unwrap()) - 40.64).abs() < 1e-9);
    let elsewhere = TrackEnds { arr_lat: d(41.5), ..ends("X") };
    let with_track = trip(&flight, Some(elsewhere)).unwrap();
    assert!(with_track.arr_airport.is_none());
    assert!(matches!(with_track.arr_place,
        Some(Place::LatLon(la, lo)) if f(la) == 41.5 && f(lo) == -73.78));
    flight.est_arrival_airport_horiz_distance = Some(8_000);
    assert!(placeable(&flight, &idx));
    assert_eq!(trip(&flight, None).unwrap().arr_airport.as_deref(), Some("KJFK"));
    flight.est_departure_airport_horiz_distance = Some(8_001);
    assert!(trip(&flight, None).is_none());
}

#[test]
fn track_ends_snap_to_airports() {
    let csv = "ident,type,latitude_deg,longitude_deg\nKAPA,large_airport,39.5701,-104.6737\nKJFK,large_airport,40.6399,-73.7787\nCO99,small_airport,39.5700,-104.6700\n";
    let idx = airports(csv);
    let flight = Flight {
        icao24: "abcdef".into(),
        first_seen: 1_705_276_800,
        last_seen: Some(1_705_280_400),
        est_departure_airport: Some("ZZZZ".into()),
        ..Default::default()
    };
    let track = TrackEnds {
        dep_lat: d(39.5701),
        dep_lon: d(-104.6737),
        arr_lat: d(40.64),
        arr_lon: d(-73.78),
        callsign: None,
    };
    let near = measure(&idx, &track);
    let trip = flight_to_trip(
        &flight,
        &fleet_row(),
        &idx,
        &Some(track.clone()),
        &Some(near),
        "t",
        TripSource::OpenskyFlights,
    )
    .unwrap();
    assert_eq!(trip.dep_airport.as_deref(), Some("KAPA"), "a large airport before a nearer field");
    assert_eq!(trip.arr_airport.as_deref(), Some("KJFK"));
    assert!(matches!(&trip.dep_place, Some(Place::Ident(p)) if p == "KAPA"));
    assert!(matches!(&trip.arr_place, Some(Place::Ident(p)) if p == "KJFK"));
    assert_eq!(trip.arr_lat, Some(d(40.64)), "the coordinate stays that of the track");
    let at = |km: f64| EndDistances {
        dep: vec![d(km), d(9_000.0), d(9_000.0)],
        arr: vec![d(9_000.0), d(9_000.0), d(km)],
    };
    let with = |near: EndDistances| {
        flight_to_trip(
            &flight,
            &fleet_row(),
            &idx,
            &Some(track.clone()),
            &Some(near),
            "t",
            TripSource::OpenskyFlights,
        )
        .unwrap()
    };
    let edge = with(at(8.0));
    assert_eq!(edge.dep_airport.as_deref(), Some("KAPA"));
    assert_eq!(edge.arr_airport.as_deref(), Some("CO99"));
    let beyond = with(at(8.000001));
    assert!(beyond.dep_airport.is_none() && beyond.arr_airport.is_none());
    assert!(matches!(beyond.dep_place, Some(Place::LatLon(..))), "not the unknown ident");
}

#[test]
fn round_trip_of_a_track_is_kept() {
    let csv = "ident,type,latitude_deg,longitude_deg\nKAPA,large_airport,39.5701,-104.6737\n";
    let idx = airports(csv);
    let flight =
        Flight { icao24: "abcdef".into(), first_seen: 1_705_276_800, ..Default::default() };
    let track = TrackEnds { arr_lat: d(39.57), arr_lon: d(-104.67), ..ends("X") };
    let near = measure(&idx, &track);
    let trip = flight_to_trip(
        &flight,
        &fleet_row(),
        &idx,
        &Some(track),
        &Some(near),
        "t",
        TripSource::OpenskyTrack,
    )
    .unwrap();
    assert_eq!(trip.dep_airport.as_deref(), Some("KAPA"));
    assert_eq!(trip.arr_airport.as_deref(), Some("KAPA"));
}

#[test]
fn filtering_twice_keeps_the_aircraft_in_both() {
    let flights: Vec<Flight> = ["a", "b", "c", "b"]
        .iter()
        .map(|h| Flight { icao24: h.to_string(), ..Default::default() })
        .collect();
    let once = filter_flights_to_fleet(&flights, &set(&["a", "b"]));
    let twice = filter_flights_to_fleet(&once, &set(&["b", "c"]));
    let both = filter_flights_to_fleet(&flights, &set(&["b"]));
    assert_eq!(twice.len(), 2);
    assert_eq!(both.len(), 2);
    assert!(twice.iter().all(|x| x.icao24 == "b"));
}

#[test]
fn overlap_rests_on_neither_order_nor_other_aircraft() {
    let at = |h: &str, t: i64| Flight { icao24: h.into(), first_seen: t, ..Default::default() };
    let flights = vec![at("a", 1), at("x", 1), at("b", 2), at("a", 3)];
    let mut reversed = flights.clone();
    reversed.reverse();
    let fleet = set(&["a", "b"]);
    let kept = filter_flights_to_fleet(&flights, &fleet);
    let journal = keys(&[("a", 1), ("b", 9)]);
    for list in [&flights, &reversed, &kept] {
        let o = overlap_fleet_journal(list, &fleet, &journal);
        assert_eq!((o.fleet_count, o.fleet_hexes, o.matched_keys), (3, 2, 1));
        assert_eq!((o.extra_vs_journal, o.missing_from_journal), (2, 1));
    }
}

#[test]
fn flight_beyond_the_calendar_is_no_trip() {
    let flight = Flight { icao24: "abcdef".into(), first_seen: i64::MAX, ..Default::default() };
    assert!(flight_to_trip(
        &flight,
        &fleet_row(),
        &AirportIndex::empty(),
        &Some(ends("X")),
        &Some(EndDistances { dep: Vec::new(), arr: Vec::new() }),
        "t",
        TripSource::OpenskyTrack
    )
    .is_none());
}

#[test]
fn tokens_are_refreshed_before_they_end() {
    assert!(token_still_good(1_000, 31_001));
    assert!(!token_still_good(1_000, 31_000));
    assert!(!token_still_good(u128::MAX, 5));
    assert_eq!(token_lifetime_secs(Some(60)), 60);
    assert_eq!(token_lifetime_secs(None), 1_800);
}

#[test]
fn responses_become_outcomes() {
    let c = credit(Some(5), None, CreditBucket::Flights);
    assert!(matches!(classify(200, vec![1], c),
        OpenskyOutcome::Success { data, .. } if data == vec![1]));
    assert!(matches!(classify(404, vec![], c), OpenskyOutcome::NotFound { credit } if credit == c));
    assert!(matches!(classify(429, vec![], c), OpenskyOutcome::RateLimited { .. }));
    assert!(matches!(classify(403, b"no".to_vec(), c),
        OpenskyOutcome::Denied { status: 403, message } if message == "no"));
    assert!(matches!(classify(503, vec![b'y'; 500], c),
        OpenskyOutcome::Other { status: 503, message } if message.len() == 200));
}

#[test]
fn headers_give_the_credit() {
    let text = |s: &str| HeaderField::Text(s.to_string());
    let c = credit_from_headers(&text("12"), &text("7"), &text("9"), CreditBucket::Tracks);
    assert_eq!(c, credit(Some(12), Some(7), CreditBucket::Tracks));
    let c = credit_from_headers(&text("x"), &HeaderField::Absent, &text("9"), CreditBucket::States);
    assert_eq!(c, credit(None, Some(9), CreditBucket::States));
    let c = credit_from_headers(&text("4294967296"), &HeaderField::Opaque, &HeaderField::Absent, CreditBucket::States);
    assert_eq!(c, credit(None, None, CreditBucket::States));
}

#[test]
fn flights_windows_are_at_most_two_hours() {
    assert_eq!(check_flights_window(0, 7_200), Ok(()));
    assert_eq!(check_flights_window(0, 7_201), Err(WindowError::TooLong));
    assert_eq!(check_flights_window(5, 5), Err(WindowError::EndNotAfterBegin));
    assert_eq!(check_flights_window(i64::MIN, i64::MAX), Err(WindowError::TooLong));
}

#[test]
fn flights_outcomes_carry_flights() {
    let c = credit(Some(5), None, CreditBucket::Flights);
    let ok = OpenskyOutcome::Success { data: b"[]".to_vec(), credit: c };
    assert!(matches!(flights_outcome(200, ok, Ok(vec![Flight::default()])),
        OpenskyOutcome::Success { data, .. } if data.len() == 1));
    let ok = OpenskyOutcome::Success { data: b"x".to_vec(), credit: c };
    assert!(matches!(flights_outcome(200, ok, Err("bad".into())),
        OpenskyOutcome::Other { status: 200, .. }));
    let missing = OpenskyOutcome::NotFound { credit: c };
    assert!(matches!(flights_outcome(404, missing, Err("bad".into())),
        OpenskyOutcome::NotFound { .. }));
    assert!(matches!(transport_failure(5, "gone"), OpenskyOutcome::Other { status: 0, .. }));
    let track = OpenskyOutcome::Success { data: b"{}".to_vec(), credit: c };
    assert!(matches!(tracks_outcome(track), OpenskyOutcome::Success { data: None, .. }));
}

#[test]
fn states_poll_asks_in_chunks_and_sorts() {
    let hexes: Vec<String> = (0..81).map(|i| format!("{i:06x}")).collect();
    let mut poll = StatesPoll::start(hexes);
    assert_eq!(poll.chunk().len(), 80);
    let c = credit(Some(9), None, CreditBucket::States);
    let body = br#"{"states":[["bb"],["aa"],["bb"]]}"#.to_vec();
    assert!(poll.answered(OpenskyOutcome::Success { data: body, credit: c }).unwrap().is_none());
    assert_eq!(poll.chunk(), vec!["000050".to_string()]);
    let body = br#"{"states":[["aa"]]}"#.to_vec();
    assert!(poll.answered(OpenskyOutcome::Success { data: body, credit: c }).unwrap().is_none());
    assert!(poll.chunk().is_empty());
    match poll.finish() {
        OpenskyOutcome::Success { data, credit } => {
            assert_eq!(data, vec!["aa".to_string(), "bb".to_string()]);
            assert_eq!(credit, c);
        }
        _ => panic!("no addresses"),
    }
    let mut poll = StatesPoll::start(vec!["aa".into()]);
    let step = poll.answered(OpenskyOutcome::RateLimited { credit: c }).unwrap();
    assert!(matches!(step, Some(OpenskyOutcome::RateLimited { .. })));
    let mut poll = StatesPoll::start(vec!["aa".into()]);
    assert!(poll.answered(OpenskyOutcome::Success { data: vec![b'x'], credit: c }).is_err());
}

#[test]
fn probe_reports_say_what_was_spent() {
    let date = day("2024-01-15");
    let c = credit(Some(70), None, CreditBucket::Flights);
    let flights = read_flights(br#"[{"icao24":"a","firstSeen":1705276801}]"#).unwrap();
    let r = probe_report(
        date,
        0,
        Some(100),
        &set(&["a"]),
        &keys(&[("a", 1_705_276_801)]),
        OpenskyOutcome::Success { data: flights, credit: c },
        33,
        5,
    );
    assert!(r.token_ok);
    assert_eq!(r.flights_status, Some(200));
    assert_eq!(r.flights_remaining, Some(70));
    assert_eq!(r.flights_credits_spent, Some(30));
    assert_eq!(r.flights_begin, Some(1_705_276_800));
    assert_eq!(r.flights_end, Some(1_705_283_999));
    assert_eq!((r.raw_count, r.fleet_count, r.matched_keys), (1, 1, 1));
    assert_eq!(r.body_bytes, 33);
    assert_eq!(
        flights_all_probe_lines(&r),
        vec![
            "opensky flights/all probe date=2024-01-15 window=2h from 00:00 UTC abort=false note=ok"
                .to_string(),
            "  status=200 bytes=33 elapsed_ms=5 raw_count=1".to_string(),
            "  remaining_before=Some(100) remaining_after=Some(70) spent=Some(30)".to_string(),
            "  fleet_flights=1 fleet_hexes=1 journal_in_window=1 matched=1 extra=0 missing=0"
                .to_string(),
        ]
    );
    let failed = token_failed_report(date, 0, None, &keys(&[]), "no token");
    assert!(!failed.token_ok);
    assert!(failed.abort);
    assert!(failed.note.contains("no token"));
}

#[test]
fn earlier_probe_gives_the_remaining_credits() {
    assert_eq!(remaining_from_probe_json(r#"{"flights_remaining": 12}"#), Some(12));
    assert_eq!(remaining_from_probe_json("{}"), None);
    assert_eq!(remaining_from_probe_json("x"), None);
}

#[test]
fn json_numbers_keep_their_kinds() {
    let v = json::parse(b"[1, -2, 1.5, 18446744073709551615]").unwrap();
    let items = v.as_array().unwrap();
    assert_eq!(items[0].as_u64(), Some(1));
    assert_eq!(items[1].as_u64(), None);
    assert_eq!(items[1].as_double(), Some(d(-2.0)));
    assert_eq!(items[2].as_double(), Some(d(1.5)));
    assert_eq!(items[3].as_u64(), Some(u64::MAX));
    assert!(json::parse(b"[1").is_none());
    assert!(json::parse(b"").is_none());
}
