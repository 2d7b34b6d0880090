use adsb_trip_journal::airports::Place;
use adsb_trip_journal::calendar::{iso_to_unix, unix_to_iso, utc_iso, UtcDay};
use adsb_trip_journal::double::Double;
use adsb_trip_journal::fleet::FleetRow;
use adsb_trip_journal::store::{JournalDb, StoreError, TripRow, TripSource};
use chrono::TimeZone;

const NOW: &str = "2026-09-04T06:00:00Z";

fn d(x: f64) -> Double {
    Double { bits: x.to_bits() }
}

fn day(text: &str) -> UtcDay {
    UtcDay::parse(text).unwrap()
}

fn days_before(date: UtcDay, n: u64) -> UtcDay {
    date.checked_sub_days(n).unwrap()
}

fn row() -> FleetRow {
    FleetRow {
        n_number: "N1".into(),
        icao24: "abcdef".into(),
        ticker: "AAA".into(),
        cik: None,
        company_name: None,
        make: None,
        model: None,
        registrant_name: None,
        match_method: None,
        aviation_issuer: 0,
        fleet_size: 1,
        as_of_date: Some("2026-08-31".into()),
    }
}

fn trip(dep_ts: &str) -> TripRow {
    TripRow {
        icao24: "abcdef".into(),
        dep_ts: dep_ts.into(),
        arr_ts: None,
        n_number: "N1".into(),
        ticker: "AAA".into(),
        cik: None,
        dep_lat: Some(d(1.0)),
        dep_lon: Some(d(2.0)),
        arr_lat: Some(d(3.0)),
        arr_lon: Some(d(4.0)),
        dep_airport: Some("KAPA".into()),
        arr_airport: Some("KJFK".into()),
        dep_place: Some(Place::Ident("KAPA".into())),
        arr_place: Some(Place::Ident("KJFK".into())),
        source: TripSource::OpenskyFlights.as_str().into(),
        fetched_at: "2026-09-04T06:00:00Z".into(),
        callsign: None,
        dep_airport_horiz_m: None,
        dep_airport_vert_m: None,
        arr_airport_horiz_m: None,
        arr_airport_vert_m: None,
        dep_airport_candidates: None,
        arr_airport_candidates: None,
    }
}

fn assert_utc_instant(s: &str) {
    let b = s.as_bytes();
    assert!(
        s.len() == 20
            && b[4] == b'-'
            && b[7] == b'-'
            && b[10] == b'T'
            && b[13] == b':'
            && b[16] == b':'
            && s.ends_with('Z')
            && b[..4].iter().all(u8::is_ascii_digit)
            && b[5..7].iter().all(u8::is_ascii_digit)
            && b[8..10].iter().all(u8::is_ascii_digit)
            && b[11..13].iter().all(u8::is_ascii_digit)
            && b[14..16].iter().all(u8::is_ascii_digit)
            && b[17..19].iter().all(u8::is_ascii_digit),
        "expected YYYY-MM-DDTHH:MM:SSZ, got {s:?}"
    );
    assert!(!s.contains("+00:00"), "{s}");
    assert!(!s.contains('.'), "{s}");
}

#[test]
fn utc_iso_is_zulu_second_resolution() {
    let dt = chrono::Utc.with_ymd_and_hms(2026, 9, 1, 21, 19, 58).unwrap();
    let s = utc_iso(dt.timestamp());
    assert_eq!(s, "2026-09-01T21:19:58Z");
    assert_utc_instant(&s);
    let rfc = dt.to_rfc3339();
    assert!(rfc.contains("+00:00") || rfc.contains('.'));
    assert_ne!(s, rfc);
}

#[test]
fn cursor_404_advances_auth_does_not() {
    let mut db = JournalDb::new();
    let d = day("2024-01-15");
    db.advance_cursor_ok("abcdef", d, NOW);
    assert_eq!(db.last_ok_date("abcdef"), Some(d));
    db.set_cursor_error("abcdef", "HTTP 403", NOW);
    assert_eq!(
        db.last_ok_date("abcdef"),
        Some(d),
        "auth failure must not rewind or skip last_ok_date"
    );
    let c = db.get_cursor("abcdef").unwrap();
    assert_eq!(c.last_error.as_deref(), Some("HTTP 403"));
    assert_eq!(c.last_ok_date.as_deref(), Some("2024-01-15"));
    assert_utc_instant(&c.updated_at);
}

#[test]
fn cursor_404_advances_429_does_not() {
    let mut db = JournalDb::new();
    let d = day("2024-01-15");
    db.advance_cursor_ok("abcdef", d, NOW);
    assert_eq!(db.last_ok_date("abcdef"), Some(d));
    assert_eq!(db.trip_count(), 0);
    db.set_cursor_error("abcdef", "HTTP 429 remaining=Some(0)", NOW);
    assert_eq!(
        db.last_ok_date("abcdef"),
        Some(d),
        "429 must not advance or rewind last_ok_date"
    );
    let c = db.get_cursor("abcdef").unwrap();
    assert!(c.last_error.unwrap().contains("429"));
}

#[test]
fn status_reports_flights_all_errors_not_leftover_cursors() {
    let mut db = JournalDb::new();
    let d = day("2026-09-05");
    db.set_cursor_error("ac7f36", "max-flights-credits cap", NOW);
    db.set_flights_all_error(d, "tracks HTTP 429 remaining=Some(0)", NOW);
    let status = db.status("t.sqlite");
    assert_eq!(
        status.flights_all_errors,
        vec![(
            "2026-09-05".to_string(),
            "tracks HTTP 429 remaining=Some(0)".to_string()
        )]
    );
    assert!(db.get_cursor("ac7f36").is_some());
    assert_eq!(status.path, "t.sqlite");
}

#[test]
fn trip_upsert_is_idempotent() {
    let mut db = JournalDb::new();
    let mut t = trip("2024-01-15T12:00:00Z");
    t.arr_ts = Some("2024-01-15T13:00:00Z".into());
    t.fetched_at = "2026-08-31T00:00:00Z".into();
    db.upsert_trip(&t);
    db.upsert_trip(&t);
    assert_eq!(db.trip_count(), 1);
    let got = db.get_trip("abcdef", "2024-01-15T12:00:00Z").unwrap();
    assert_eq!(got.arr_ts.as_deref(), Some("2024-01-15T13:00:00Z"));
    t.arr_ts = None;
    db.upsert_trip(&t);
    assert_eq!(db.trip_count(), 1);
    assert!(db.get_trip("abcdef", "2024-01-15T12:00:00Z").unwrap().arr_ts.is_none());
    assert!(db.get_trip("abcdef", "2024-01-15T12:00:01Z").is_none());
}

#[test]
fn fleet_snapshot_replaced_not_appended() {
    let mut db = JournalDb::new();
    let mut b = row();
    b.icao24 = "bbbbbb".into();
    db.replace_fleet_snapshot(&vec![row(), b], "2026-08-31", NOW).unwrap();
    let first = db.status("t");
    assert_eq!(first.fleet_hexes, 2);
    assert_eq!(first.snapshot_as_of.as_deref(), Some("2026-08-31"));
    assert_utc_instant(&first.recorded_at.unwrap());
    let mut gone = row();
    gone.icao24 = "ffffff".into();
    db.replace_fleet_snapshot(&vec![gone], "2026-08-31", NOW).unwrap();
    assert!(!db.in_fleet("abcdef"));
    assert!(db.in_fleet("ffffff"));
    let second = db.status("t");
    assert_eq!(second.fleet_hexes, 1);
    assert_eq!(second.snapshot_as_of.as_deref(), Some("2026-08-31"));
    assert_utc_instant(&second.recorded_at.unwrap());
}

#[test]
fn snapshot_with_one_aircraft_twice_is_refused_and_changes_nothing() {
    let mut db = JournalDb::new();
    db.replace_fleet_snapshot(&vec![row()], "2026-08-30", NOW).unwrap();
    db.upsert_trip(&trip("2024-01-15T12:00:00Z"));
    let refused = db.replace_fleet_snapshot(&vec![row(), row()], "2026-08-31", NOW);
    assert_eq!(refused, Err(StoreError::DuplicateHex));
    assert_eq!(db.status("t").snapshot_as_of.as_deref(), Some("2026-08-30"));
    assert_eq!(db.trip_count(), 1);
}

#[test]
fn snapshot_without_an_aircraft_keeps_its_trips() {
    let mut db = JournalDb::new();
    db.replace_fleet_snapshot(&vec![row()], "2026-08-31", NOW).unwrap();
    db.upsert_trip(&trip("2024-01-15T12:00:00Z"));
    let trips_before = db.trip_count();
    db.replace_fleet_snapshot(&Vec::new(), "2026-08-31", NOW).unwrap();
    assert_eq!(db.trip_count(), trips_before);
    assert!(!db.in_fleet("abcdef"));
}

#[test]
fn seen_airborne_is_idempotent_per_day() {
    let mut db = JournalDb::new();
    let d = day("2024-01-15");
    db.mark_seen_airborne("abcdef", d, NOW);
    db.mark_seen_airborne("abcdef", d, "2026-09-05T00:00:00Z");
    db.mark_seen_airborne("ffffff", d, NOW);
    let seen = db.seen_airborne_on(d);
    assert_eq!(seen, vec!["abcdef".to_string(), "ffffff".to_string()]);
    assert!(db.seen_airborne_on(day("2024-01-16")).is_empty());
    let first_seen_at = db.first_seen_at("abcdef", d).unwrap();
    assert_utc_instant(&first_seen_at);
    assert_eq!(first_seen_at, NOW, "the first record of the day stays");
    assert!(db.first_seen_at("abcdef", day("2024-01-16")).is_none());
}

#[test]
fn flights_all_slice_resume_and_default_from() {
    let mut db = JournalDb::new();
    let d = day("2026-09-03");
    let yesterday = day("2026-09-04");
    db.mark_flights_all_slice_ok(d, 0, NOW);
    db.mark_flights_all_slice_ok(d, 1, NOW);
    assert_eq!(db.flights_all_slices_done(d), 2);
    assert!(!db.flights_all_day_complete(d, 12));
    let start = db.default_opensky_collect_from(yesterday, 12, 14);
    let floor = days_before(yesterday, 14);
    assert_eq!(
        start, floor,
        "never-started days in lookback resume from the floor; incomplete Sep 3 is not older"
    );
    for i in 2..12 {
        db.mark_flights_all_slice_ok(d, i, NOW);
    }
    assert!(db.flights_all_day_complete(d, 12));
    let start = db.default_opensky_collect_from(yesterday, 12, 14);
    assert_eq!(
        start, floor,
        "complete Sep 3 does not skip empty lookback days behind it"
    );
}

#[test]
fn default_from_empty_window_starts_at_lookback_floor() {
    let db = JournalDb::new();
    let yesterday = day("2026-09-04");
    assert_eq!(
        db.default_opensky_collect_from(yesterday, 12, 14),
        days_before(yesterday, 14)
    );
    assert_eq!(
        db.default_opensky_collect_from(yesterday, 12, 90),
        days_before(yesterday, 90)
    );
}

#[test]
fn default_from_resumes_incomplete_slices_older_than_lookback() {
    let mut db = JournalDb::new();
    let yesterday = day("2026-09-04");
    let old = day("2026-08-01");
    db.mark_flights_all_slice_ok(old, 0, NOW);
    assert_eq!(db.default_opensky_collect_from(yesterday, 12, 14), old);
}

#[test]
fn default_from_yesterday_only_when_lookback_complete() {
    let mut db = JournalDb::new();
    let yesterday = day("2026-09-04");
    let mut d = days_before(yesterday, 14);
    while d.number <= yesterday.number {
        for i in 0..12 {
            db.mark_flights_all_slice_ok(d, i, NOW);
        }
        d = d.succ_opt().unwrap();
    }
    assert_eq!(db.default_opensky_collect_from(yesterday, 12, 14), yesterday);
}

#[test]
fn default_from_uses_never_started_days_inside_lookback() {
    let mut db = JournalDb::new();
    let d = day("2026-09-03");
    let yesterday = day("2026-09-04");
    db.upsert_trip(&trip("2026-09-03T08:00:00Z"));
    assert_eq!(
        db.default_opensky_collect_from(yesterday, 12, 14),
        days_before(yesterday, 14),
        "trips are not required; never-started days pull to the lookback floor"
    );
    for i in 0..11 {
        db.mark_flights_all_slice_ok(d, i, NOW);
    }
    assert!(!db.flights_all_day_complete(d, 12));
    db.set_flights_all_error(d, "flights/all HTTP 429", NOW);
    assert!(!db.flights_all_day_complete(d, 12));
}

#[test]
fn default_from_ignores_seen_airborne() {
    let mut db = JournalDb::new();
    let d = day("2026-09-03");
    let yesterday = day("2026-09-04");
    let without = JournalDb::new().default_opensky_collect_from(yesterday, 12, 14);
    db.mark_seen_airborne("abcdef", d, NOW);
    let with = db.default_opensky_collect_from(yesterday, 12, 14);
    assert_eq!(with, without);
    assert_eq!(with, days_before(yesterday, 14));
}

#[test]
fn trip_keys_between_uses_utc_iso() {
    let mut db = JournalDb::new();
    db.upsert_trip(&trip("2026-09-03T12:30:00Z"));
    let begin = iso_to_unix("2026-09-03T12:00:00Z").unwrap();
    let end = iso_to_unix("2026-09-03T13:59:59Z").unwrap();
    let keys = db.trip_keys_between(begin, end);
    assert_eq!(keys, vec![("abcdef".to_string(), begin + 30 * 60)]);
    assert!(db.has_trips_on(day("2026-09-03")));
    assert!(!db.has_trips_on(day("2026-09-04")));
    assert!(db.trip_keys_between(i64::MIN, end).is_empty());
}

#[test]
fn written_trips_are_found_by_their_time() {
    let mut db = JournalDb::new();
    let noon = iso_to_unix("2024-02-29T12:00:00Z").unwrap();
    for t in [noon - 43_200, noon + 43_199] {
        db.upsert_trip(&trip(&unix_to_iso(t).unwrap()));
    }
    assert!(db.has_trips_on(day("2024-02-29")));
    assert!(!db.has_trips_on(day("2024-02-28")));
    assert!(!db.has_trips_on(day("2024-03-01")));
    assert_eq!(db.trip_keys_between(noon - 43_200, noon + 43_199).len(), 2);
    assert_eq!(
        db.trip_keys_between(noon, noon + 43_199),
        vec![("abcdef".to_string(), noon + 43_199)]
    );
    assert!(db.trip_keys_between(noon - 43_199, noon + 43_198).is_empty());
}

#[test]
fn instant_texts_stand_in_the_order_of_time() {
    let times = [
        -62_167_219_200i64,
        -62_135_596_801,
        -62_135_596_800,
        -30_610_224_001,
        -1,
        0,
        86_399,
        86_400,
        951_782_400,
        1_705_276_800,
        253_402_214_399,
        253_402_300_799,
    ];
    for a in times {
        let text = unix_to_iso(a).unwrap();
        let date = UtcDay { number: a.div_euclid(86_400) as i32 }.to_text();
        assert_eq!(text.len(), 20);
        assert_eq!(&text[..10], date);
        for b in times {
            assert_eq!(text < unix_to_iso(b).unwrap(), a < b);
            let midnight = UtcDay { number: b.div_euclid(86_400) as i32 }.to_text() + "T00:00:00Z";
            assert_eq!(text < midnight, a < b.div_euclid(86_400) * 86_400);
        }
    }
    assert_eq!(unix_to_iso(times[0]).unwrap(), "0000-01-01T00:00:00Z");
}

#[test]
fn days_with_slices_are_told_apart() {
    let mut db = JournalDb::new();
    let d = day("2026-09-03");
    assert!(!db.has_slices_on(d));
    assert_eq!(db.newest_slice_day_before(d), None);
    db.mark_flights_all_slice_ok(d, 3, NOW);
    db.mark_flights_all_slice_ok(days_before(d, 400), 0, NOW);
    db.set_flights_all_error(days_before(d, 2), "HTTP 500: x", NOW);
    assert!(db.has_slices_on(d));
    assert!(!db.has_slices_on(days_before(d, 2)));
    assert_eq!(db.newest_slice_day_before(d), Some(days_before(d, 400)));
    assert_eq!(db.newest_slice_day_before(days_before(d, 400)), None);
}

#[test]
fn day_constants_match_unix() {
    assert_eq!(UtcDay { number: 1_705_276_800 / 86_400 }.to_text(), "2024-01-15");
    assert_eq!(UtcDay { number: 1_705_363_200 / 86_400 }.to_text(), "2024-01-16");
}

#[test]
fn instants_read_back_and_fail_out_of_range() {
    for t in [0i64, 1_705_276_800, -1, -62_167_219_200, 253_402_300_799] {
        assert_eq!(iso_to_unix(&unix_to_iso(t).unwrap()), Some(t));
    }
    assert_eq!(iso_to_unix("2024-01-15T01:00:00+01:00"), Some(1_705_276_800));
    assert!(iso_to_unix("yesterday").is_none());
    assert!(unix_to_iso(i64::MAX).is_none());
    let last = 95_026_236i64 * 86_400 + 86_399;
    assert!(unix_to_iso(last).is_some());
    assert!(unix_to_iso(last + 1).is_none());
    let first = -96_465_292i64 * 86_400;
    assert!(unix_to_iso(first).is_some());
    assert!(unix_to_iso(first - 1).is_none());
}

#[test]
fn days_read_back_over_the_whole_calendar() {
    for number in [-96_465_292, -719_529, -719_528, 0, 19_737, 2_932_896, 2_932_897, 95_026_236] {
        let text = UtcDay { number }.to_text();
        assert_eq!(UtcDay::parse(&text), Some(UtcDay { number }), "{text}");
    }
    assert!(UtcDay::parse("2024-13-01").is_none());
    assert!(UtcDay { number: -96_465_292 }.pred_opt().is_none());
    assert!(UtcDay { number: 95_026_236 }.succ_opt().is_none());
    assert!(UtcDay { number: 0 }.checked_sub_days(u64::MAX).is_none());
}

#[test]
fn status_lists_days_by_date() {
    let mut db = JournalDb::new();
    for (text, n) in [("2026-09-03", 12), ("2026-09-01", 12), ("2026-09-05", 3), ("2026-09-04", 1)] {
        for i in 0..n {
            db.mark_flights_all_slice_ok(day(text), i, NOW);
        }
    }
    db.set_flights_all_error(day("2026-09-05"), "later", NOW);
    db.set_flights_all_error(day("2026-09-04"), "sooner", NOW);
    db.set_flights_all_error(day("2026-09-02"), "", NOW);
    let s = db.status("p");
    assert_eq!(s.flights_all_complete_max.as_deref(), Some("2026-09-03"));
    assert_eq!(
        s.flights_all_incomplete,
        vec![("2026-09-04".to_string(), 1), ("2026-09-05".to_string(), 3)]
    );
    assert_eq!(
        s.flights_all_errors,
        vec![
            ("2026-09-04".to_string(), "sooner".to_string()),
            ("2026-09-05".to_string(), "later".to_string())
        ]
    );
    db.mark_flights_all_slice_ok(day("2026-09-04"), 1, NOW);
    assert_eq!(db.status("p").flights_all_errors.len(), 1, "a completed slice clears the error");
    assert!(JournalDb::new().status("p").flights_all_complete_max.is_none());
}

#[test]
fn slices_count_once_and_stay() {
    let mut db = JournalDb::new();
    let d = day("2026-09-03");
    db.mark_flights_all_slice_ok(d, 4, NOW);
    db.mark_flights_all_slice_ok(d, 4, NOW);
    assert_eq!(db.flights_all_slices_done(d), 1);
    assert!(db.flights_all_slice_complete(d, 4));
    assert!(!db.flights_all_slice_complete(d, 5));
    assert!(!db.flights_all_slice_complete(day("2026-09-04"), 4));
    db.set_flights_all_error(d, "x", NOW);
    assert!(db.flights_all_slice_complete(d, 4));
}

#[test]
fn source_names() {
    assert_eq!(TripSource::OpenskyFlights.as_str(), "opensky_flights");
    assert_eq!(TripSource::OpenskyTrack.as_str(), "opensky_track");
    assert_eq!(TripSource::AdsBxLive.as_str(), "adsbx_live");
}
