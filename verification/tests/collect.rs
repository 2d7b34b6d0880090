use std::collections::{HashMap, VecDeque};

use adsb_trip_journal::airports::{AirportIndex, AirportRow};
use adsb_trip_journal::cache::{read_gzip_cache, write_gzip_cache};
use adsb_trip_journal::calendar::UtcDay;
use adsb_trip_journal::collapse::{collapse_near_duplicate_flights, is_fuller};
use adsb_trip_journal::collect::{
    clean_hexes, flights_all_slice_cache_path, flights_all_tracks_cache_path, opensky_hex_sets,
    track_attempt_key, CollectError, CollectOptions, CollectReport,
};
use adsb_trip_journal::collector::{Ask, Collector, Effect};
use adsb_trip_journal::double::Double;
use adsb_trip_journal::fleet::{query_fleet, FleetQuery, FleetRow, MappingRow};
use adsb_trip_journal::ingest::ingest_opensky_flights;
use adsb_trip_journal::opensky::{
    CreditBucket, CreditInfo, EndDistances, Flight, MeasuredTrack, OpenskyOutcome, TrackEnds,
    DEFAULT_MAX_FLIGHTS_CREDITS,
};
use adsb_trip_journal::opensky_client::parse_flights;
use adsb_trip_journal::report::{report_lines, status_lines};
use adsb_trip_journal::sets::KeySet;
use adsb_trip_journal::store::JournalDb;
use adsb_trip_journal::watch::{WatchStep, Watcher};

const HEX: &str = "abcdef";
const DAY: &str = "2024-01-15";
const NOW: &str = "2026-09-01T00:00:00Z";
const AIRPORTS: &str = "ident,type,latitude_deg,longitude_deg
KAPA,large_airport,39.5701,-104.6737
KJFK,large_airport,40.6399,-73.7787
CO99,small_airport,39.5750,-104.6700
HEL1,heliport,39.5710,-104.6740
FAR,small_airport,0.0,0.0
";

fn d(x: f64) -> Double {
    Double { bits: x.to_bits() }
}

fn day(text: &str) -> UtcDay {
    UtcDay::parse(text).unwrap()
}

fn set(hexes: &[&str]) -> KeySet<String> {
    let mut s = KeySet::new();
    for h in hexes {
        s.insert(h.to_string());
    }
    s
}

fn read_flights(body: &[u8]) -> Vec<Flight> {
    let v: serde_json::Value = serde_json::from_slice(body).unwrap();
    let text = |o: &serde_json::Value, k: &str| o.get(k).and_then(|x| x.as_str()).map(String::from);
    let int = |o: &serde_json::Value, k: &str| o.get(k).and_then(|x| x.as_i64());
    let raw = v
        .as_array()
        .unwrap()
        .iter()
        .map(|o| Flight {
            icao24: text(o, "icao24").unwrap(),
            first_seen: int(o, "firstSeen").unwrap(),
            last_seen: int(o, "lastSeen"),
            est_departure_airport: text(o, "estDepartureAirport"),
            est_arrival_airport: text(o, "estArrivalAirport"),
            callsign: text(o, "callsign"),
            est_departure_airport_horiz_distance: int(o, "estDepartureAirportHorizDistance"),
            est_arrival_airport_horiz_distance: int(o, "estArrivalAirportHorizDistance"),
            ..Default::default()
        })
        .collect();
    parse_flights(body, Ok(raw)).unwrap()
}

fn airports() -> AirportIndex {
    let mut reader = csv::Reader::from_reader(AIRPORTS.as_bytes());
    let rows: Vec<AirportRow> = reader
        .records()
        .map(|r| {
            let r = r.unwrap();
            AirportRow {
                ident: r[0].to_string(),
                type_field: r[1].to_string(),
                latitude_deg: r[2].parse::<f64>().ok().map(d),
                longitude_deg: r[3].parse::<f64>().ok().map(d),
            }
        })
        .collect();
    AirportIndex::from_rows(&rows)
}

fn fleet_row(hex: &str) -> FleetRow {
    FleetRow {
        n_number: format!("N{hex}"),
        icao24: hex.to_string(),
        ticker: "AAA".into(),
        cik: None,
        company_name: None,
        make: None,
        model: None,
        registrant_name: None,
        match_method: None,
        aviation_issuer: 0,
        fleet_size: 1,
        as_of_date: None,
    }
}

fn fleet(hexes: &[&str]) -> FleetQuery {
    FleetQuery {
        rows: hexes.iter().map(|h| fleet_row(h)).collect(),
        skipped_empty_icao24: 0,
        snapshot_as_of: "2026-08-31".into(),
    }
}

fn collect_opts(date: UtcDay, hex_filter: Vec<String>, tracks_fallback: bool) -> CollectOptions {
    CollectOptions {
        from: Some(date),
        to: Some(date),
        max_flights_credits: DEFAULT_MAX_FLIGHTS_CREDITS,
        tracks_fallback,
        hex_filter,
    }
}

fn flights_credit(remaining: u32) -> CreditInfo {
    CreditInfo { remaining: Some(remaining), retry_after: None, bucket: CreditBucket::Flights }
}

fn tracks_credit() -> CreditInfo {
    CreditInfo { remaining: Some(1000), retry_after: Some(1), bucket: CreditBucket::Tracks }
}

fn haversine_km(lat1: f64, lon1: f64, lat2: f64, lon2: f64) -> f64 {
    let p1 = lat1.to_radians();
    let p2 = lat2.to_radians();
    let dp = (lat2 - lat1).to_radians();
    let dl = (lon2 - lon1).to_radians();
    let a = (dp / 2.0).sin().powi(2) + p1.cos() * p2.cos() * (dl / 2.0).sin().powi(2);
    2.0 * 6371.0 * a.sqrt().asin()
}

fn distances(idx: &AirportIndex, lat: Double, lon: Double) -> Vec<Double> {
    let float = |x: Double| f64::from_bits(x.bits);
    (0..idx.len())
        .map(|i| {
            let a = idx.airport(i);
            d(haversine_km(float(lat), float(lon), float(a.lat), float(a.lon)))
        })
        .collect()
}

fn measure(idx: &AirportIndex, ends: &TrackEnds) -> EndDistances {
    EndDistances {
        dep: distances(idx, ends.dep_lat, ends.dep_lon),
        arr: distances(idx, ends.arr_lat, ends.arr_lon),
    }
}

fn measured(idx: &AirportIndex, ends: &TrackEnds) -> MeasuredTrack {
    MeasuredTrack { ends: ends.clone(), near: measure(idx, ends) }
}

/// A service that answers from a script, and a cache in memory.
struct Fake {
    flights_payload: Vec<Flight>,
    flights_http: u32,
    fail_on_flights_http: Option<u32>,
    tracks: VecDeque<OpenskyOutcome<Option<TrackEnds>>>,
    tracks_http: u32,
    slices: HashMap<String, Vec<Flight>>,
    attempts: HashMap<String, Vec<(String, Option<TrackEnds>)>>,
    windows: Vec<(i64, i64)>,
    trips_written: u64,
    today: UtcDay,
}

impl Fake {
    fn new(flights_payload: Vec<Flight>) -> Fake {
        Fake {
            flights_payload,
            flights_http: 0,
            fail_on_flights_http: None,
            tracks: VecDeque::new(),
            tracks_http: 0,
            slices: HashMap::new(),
            attempts: HashMap::new(),
            windows: Vec::new(),
            trips_written: 0,
            today: day("2026-09-01"),
        }
    }

    fn get_flights_all(&mut self) -> OpenskyOutcome<Vec<Flight>> {
        self.flights_http += 1;
        let n = self.flights_http;
        if self.fail_on_flights_http == Some(n) {
            return OpenskyOutcome::RateLimited { credit: flights_credit(0) };
        }
        let data = if n == 1 { self.flights_payload.clone() } else { Vec::new() };
        OpenskyOutcome::Success { data, credit: flights_credit(1000) }
    }

    fn get_tracks(&mut self) -> OpenskyOutcome<Option<TrackEnds>> {
        self.tracks_http += 1;
        match self.tracks.pop_front() {
            Some(o) => o,
            None => OpenskyOutcome::Success { data: None, credit: tracks_credit() },
        }
    }

    fn perform(&mut self, effects: Vec<Effect>) {
        for e in effects {
            match e {
                Effect::WriteSlice { day, slice_idx, flights } => {
                    self.slices.insert(flights_all_slice_cache_path(day, slice_idx), flights);
                }
                Effect::WriteTracks { day, slice_idx, attempts } => {
                    self.attempts.insert(flights_all_tracks_cache_path(day, slice_idx), attempts);
                }
                Effect::Trip { .. } => self.trips_written += 1,
                Effect::SliceOk { .. } => {}
                Effect::DayError { .. } => {}
            }
        }
    }

    fn run(
        &mut self,
        opts: &CollectOptions,
        fleet: FleetQuery,
        db: &mut JournalDb,
        airports: AirportIndex,
    ) -> CollectReport {
        let mut c = Collector::start(fleet, airports, opts, self.today, NOW, db).unwrap();
        loop {
            let effects = match c.ask() {
                Ask::Finished => return c.report(),
                Ask::LoadSlice { day, slice_idx } => {
                    let cached = self.slices.get(&flights_all_slice_cache_path(day, slice_idx));
                    c.slice_loaded(cached.cloned(), db, NOW)
                }
                Ask::FetchFlights { begin, end, .. } => {
                    self.windows.push((begin, end));
                    let outcome = self.get_flights_all();
                    c.flights_fetched(outcome, db, NOW)
                }
                Ask::LoadTracks { day, slice_idx } => {
                    let path = flights_all_tracks_cache_path(day, slice_idx);
                    let held = match self.attempts.get(&path) {
                        Some(list) => {
                            let idx = c.airports();
                            list.iter()
                                .map(|(k, t)| (k.clone(), t.as_ref().map(|e| measured(idx, e))))
                                .collect()
                        }
                        None => Vec::new(),
                    };
                    c.tracks_loaded(held, db, NOW)
                }
                Ask::FetchTrack { .. } => {
                    let outcome = self.get_tracks();
                    let near = match &outcome {
                        OpenskyOutcome::Success { data: Some(e), .. } => {
                            Some(measure(c.airports(), e))
                        }
                        _ => None,
                    };
                    c.track_fetched(outcome, &near, db, NOW)
                }
            };
            self.perform(effects);
        }
    }
}

#[test]
fn cache_path_layout() {
    let s = std::path::Path::new("cache").join(flights_all_slice_cache_path(day(DAY), 7));
    assert_eq!(s, std::path::PathBuf::from("cache/flights_all/2024-01-15/07.json.gz"));
    let t = std::path::Path::new("cache").join(flights_all_tracks_cache_path(day(DAY), 7));
    assert_eq!(t, std::path::PathBuf::from("cache/flights_all/2024-01-15/07.tracks.json.gz"));
}

#[test]
fn opensky_hex_sets_cache_is_full_fleet() {
    let fleet = set(&["abcdef", "ffffff"]);
    let (cache, ingest) = opensky_hex_sets(&fleet, &vec![]).unwrap();
    assert_eq!(cache.len(), 2);
    assert_eq!(ingest.len(), 2);
    let (cache, ingest) = opensky_hex_sets(&fleet, &vec!["abcdef".into()]).unwrap();
    assert_eq!(cache.len(), 2);
    assert_eq!(ingest.len(), 1);
    assert!(ingest.contains(&"abcdef".to_string()));
}

#[test]
fn hexes_outside_the_fleet_are_an_error() {
    let fleet = set(&["abcdef"]);
    assert!(matches!(
        opensky_hex_sets(&fleet, &vec!["000000".into()]),
        Err(CollectError::NoHexInFleet)
    ));
    let (_, ingest) = opensky_hex_sets(&fleet, &vec!["000000".into(), "abcdef".into()]).unwrap();
    assert_eq!(ingest.len(), 1);
    assert_eq!(
        clean_hexes(&vec![" ABCDEF ".into(), "  ".into(), "1a".into()]),
        vec!["abcdef".to_string(), "1a".to_string()]
    );
}

#[test]
fn collapse_keeps_complete_pair_in_near_dup_cluster() {
    let flights = read_flights(
        br#"[
          {"icao24":"a12c04","firstSeen":1756675233,"lastSeen":1756678148,"estDepartureAirport":"KOAK","estArrivalAirport":"KBUR"},
          {"icao24":"a12c04","firstSeen":1756675249,"lastSeen":1756678174,"estDepartureAirport":"KOAK","estArrivalAirport":null},
          {"icao24":"a004b4","firstSeen":1756637256,"lastSeen":1756657402,"estDepartureAirport":"LEBL","estArrivalAirport":"OTBD"},
          {"icao24":"a004b4","firstSeen":1756637401,"lastSeen":1756657409,"estDepartureAirport":"LEBL","estArrivalAirport":null},
          {"icao24":"a12c04","firstSeen":1756680000,"lastSeen":1756683600,"estDepartureAirport":"KBUR","estArrivalAirport":"KAPA"}
        ]"#,
    );
    let kept = collapse_near_duplicate_flights(&flights);
    assert_eq!(kept.len(), 3, "two hops for CAT plus one XOM");
    let cat_oak = kept
        .iter()
        .find(|f| f.icao24 == "a12c04" && f.est_arrival_airport.as_deref() == Some("KBUR"))
        .unwrap();
    assert_eq!(cat_oak.first_seen, 1_756_675_233);
    assert!(kept
        .iter()
        .any(|f| f.icao24 == "a004b4" && f.est_arrival_airport.as_deref() == Some("OTBD")));
    assert!(kept
        .iter()
        .any(|f| f.icao24 == "a12c04" && f.est_arrival_airport.as_deref() == Some("KAPA")));
}

#[test]
fn collapse_across_adjacent_slices_is_idempotent() {
    let a = read_flights(
        br#"[{"icao24":"abcdef","firstSeen":100,"lastSeen":200,"estDepartureAirport":"KAPA","estArrivalAirport":"KJFK"}]"#,
    );
    let b = read_flights(
        br#"[{"icao24":"abcdef","firstSeen":100,"lastSeen":200,"estDepartureAirport":"KAPA","estArrivalAirport":"KJFK"}]"#,
    );
    let mut both = a;
    both.extend(b);
    let kept = collapse_near_duplicate_flights(&both);
    assert_eq!(kept.len(), 1);
}

#[test]
fn collapse_prefers_callsign_when_airports_tie() {
    let flights = read_flights(
        br#"[
          {"icao24":"abcdef","firstSeen":100,"lastSeen":200,"estDepartureAirport":"KAPA","estArrivalAirport":"KJFK"},
          {"icao24":"abcdef","firstSeen":110,"lastSeen":210,"estDepartureAirport":"KAPA","estArrivalAirport":"KJFK","callsign":"DCM1"}
        ]"#,
    );
    let kept = collapse_near_duplicate_flights(&flights);
    assert_eq!(kept.len(), 1);
    assert_eq!(kept[0].callsign.as_deref(), Some("DCM1"));
    assert_eq!(kept[0].first_seen, 110);
}

#[test]
fn collapse_window_is_three_minutes_from_the_head() {
    let at = |t: i64| Flight { icao24: "a".into(), first_seen: t, ..Default::default() };
    let times = |v: &Vec<Flight>| -> Vec<i64> {
        collapse_near_duplicate_flights(v).iter().map(|f| f.first_seen).collect()
    };
    assert_eq!(times(&vec![at(0), at(180)]), vec![0]);
    assert_eq!(times(&vec![at(181), at(0)]), vec![0, 181]);
    assert_eq!(times(&vec![at(0), at(170), at(340)]), vec![0, 340]);
    assert_eq!(times(&vec![]), Vec::<i64>::new());
    assert_eq!(times(&vec![at(i64::MIN), at(i64::MAX)]), vec![i64::MIN, i64::MAX]);
    assert!(is_fuller(&at(0), &at(1)));
    assert!(!is_fuller(&at(1), &at(0)));
}

#[test]
fn collect_opensky_429_leaves_remaining_slices_unmarked() {
    let date = day(DAY);
    let mut db = JournalDb::new();
    let mapped = fleet(&["abcdef"]);
    db.replace_fleet_snapshot(&mapped.rows, &mapped.snapshot_as_of, NOW).unwrap();
    let mut fake = Fake::new(Vec::new());
    fake.fail_on_flights_http = Some(3);
    let opts = collect_opts(date, Vec::new(), false);
    let r = fake.run(&opts, mapped, &mut db, airports());
    assert_eq!(r.flights_calls, 3);
    assert_eq!(r.estimated_flights_credits, 90);
    assert_eq!(db.flights_all_slices_done(date), 2);
    assert!(!db.flights_all_day_complete(date, 12));

    let r2 = fake.run(&opts, fleet(&["abcdef"]), &mut db, airports());
    assert_eq!(r2.flights_calls, 10, "two complete slices skipped; rest HTTP");
    assert_eq!(
        r2.estimated_flights_credits, 300,
        "cached complete slices must not add flights credits"
    );
    assert!(db.flights_all_day_complete(date, 12));
    assert_eq!(fake.flights_http, 13);
    assert_eq!(fake.windows[0], (1_705_276_800, 1_705_283_999));
}

#[test]
fn collect_opensky_hex_filter_does_not_shrink_slice_cache() {
    let date = day(DAY);
    let flights = read_flights(
        br#"[
          {"icao24":"abcdef","firstSeen":1705276800,"lastSeen":1705280400,"estDepartureAirport":"KAPA","estArrivalAirport":"KJFK"},
          {"icao24":"ffffff","firstSeen":1705276900,"lastSeen":1705280500,"estDepartureAirport":"KAPA","estArrivalAirport":"KJFK"}
        ]"#,
    );
    let mut db = JournalDb::new();
    let mapped = fleet(&["abcdef", "ffffff"]);
    db.replace_fleet_snapshot(&mapped.rows, &mapped.snapshot_as_of, NOW).unwrap();
    let mut fake = Fake::new(flights);
    let filtered = collect_opts(date, vec!["abcdef".into()], false);
    let r = fake.run(&filtered, mapped, &mut db, airports());
    assert_eq!(r.flights_calls, 12);
    assert_eq!(r.trips_upserted, 1);
    let cached = fake.slices.get(&flights_all_slice_cache_path(date, 0)).unwrap();
    assert_eq!(cached.len(), 2, "--hex must not shrink the slice cache");
    assert!(
        !db.flights_all_day_complete(date, 12),
        "--hex run must not mark the UTC day complete"
    );
    assert_eq!(db.trip_count(), 1);

    let full = collect_opts(date, Vec::new(), false);
    let r2 = fake.run(&full, fleet(&["abcdef", "ffffff"]), &mut db, airports());
    assert_eq!(r2.flights_calls, 0, "cache hit must not add flights credits");
    assert_eq!(r2.estimated_flights_credits, 0);
    assert_eq!(r2.days_from_cache, 12);
    assert_eq!(r2.trips_upserted, 2);
    assert!(db.flights_all_day_complete(date, 12));
    assert_eq!(db.trip_count(), 2);
    assert_eq!(fake.flights_http, 12);
    assert_eq!(fake.trips_written, 3);
}

#[test]
fn collect_opensky_tracks_cache_skips_http_on_resume() {
    let date = day(DAY);
    let flights = read_flights(
        br#"[
          {"icao24":"abcdef","firstSeen":1705276800,"lastSeen":1705280400},
          {"icao24":"abcdef","firstSeen":1705290000,"lastSeen":1705293600}
        ]"#,
    );
    let ends = TrackEnds {
        dep_lat: d(39.57),
        dep_lon: d(-104.67),
        arr_lat: d(40.64),
        arr_lon: d(-73.78),
        callsign: None,
    };
    let mut db = JournalDb::new();
    let mapped = fleet(&["abcdef"]);
    db.replace_fleet_snapshot(&mapped.rows, &mapped.snapshot_as_of, NOW).unwrap();
    let mut fake = Fake::new(flights);
    fake.tracks.push_back(OpenskyOutcome::Success {
        data: Some(ends.clone()),
        credit: tracks_credit(),
    });
    fake.tracks.push_back(OpenskyOutcome::RateLimited { credit: tracks_credit() });
    fake.tracks.push_back(OpenskyOutcome::Success { data: Some(ends), credit: tracks_credit() });
    let opts = collect_opts(date, Vec::new(), true);
    let r = fake.run(&opts, mapped, &mut db, AirportIndex::empty());
    assert_eq!(r.tracks_calls, 2);
    assert_eq!(r.flights_calls, 1);
    assert!(fake.attempts.contains_key(&flights_all_tracks_cache_path(date, 0)));
    assert!(!db.flights_all_slice_complete(date, 0));

    let r2 = fake.run(&opts, fleet(&["abcdef"]), &mut db, AirportIndex::empty());
    assert_eq!(r2.flights_calls, 11, "slice 0 from cache; remaining slices HTTP");
    assert_eq!(r2.days_from_cache, 1);
    assert_eq!(r2.tracks_calls, 1, "cached firstSeen must not re-call /tracks");
    assert_eq!(r2.trips_upserted, 2);
    assert_eq!(fake.tracks_http, 3);
    assert_eq!(fake.flights_http, 12);
}

#[test]
fn collect_opensky_tracks_other_does_not_mark_slice_complete() {
    let date = day(DAY);
    let flights = read_flights(
        br#"[{"icao24":"abcdef","firstSeen":1705276800,"lastSeen":1705280400}]"#,
    );
    let mut db = JournalDb::new();
    let mapped = fleet(&["abcdef"]);
    db.replace_fleet_snapshot(&mapped.rows, &mapped.snapshot_as_of, NOW).unwrap();
    let mut fake = Fake::new(flights);
    fake.tracks.push_back(OpenskyOutcome::Other { status: 0, message: "timeout".into() });
    let opts = collect_opts(date, Vec::new(), true);
    let r = fake.run(&opts, mapped, &mut db, AirportIndex::empty());
    assert_eq!(r.tracks_calls, 1);
    assert_eq!(r.flights_calls, 1);
    assert_eq!(r.hexes_stopped_on_error, 1);
    assert!(
        !db.flights_all_slice_complete(date, 0),
        "tracks Other must not mark the slice complete"
    );
    assert!(!db.flights_all_day_complete(date, 12));
    assert!(
        db.get_cursor("abcdef").is_none(),
        "tracks errors must not write leftover fetch_cursor"
    );
    let st = db.status("trips.sqlite");
    assert_eq!(st.flights_all_errors.len(), 1);
    assert!(
        st.flights_all_errors[0].1.contains("tracks HTTP 0: timeout"),
        "{:?}",
        st.flights_all_errors
    );
}

#[test]
fn credits_cap_stops_the_run() {
    let date = day(DAY);
    let mut db = JournalDb::new();
    let mut fake = Fake::new(Vec::new());
    let mut opts = collect_opts(date, Vec::new(), false);
    opts.max_flights_credits = 65;
    let r = fake.run(&opts, fleet(&["abcdef"]), &mut db, airports());
    assert_eq!(r.flights_calls, 2);
    assert_eq!(r.estimated_flights_credits, 60);
    assert_eq!(db.flights_all_slices_done(date), 2);
    assert_eq!(db.status("p").flights_all_errors.len(), 1);
}

#[test]
fn run_without_known_hexes_does_not_start() {
    let db = JournalDb::new();
    let opts = collect_opts(day(DAY), vec!["000000".into()], false);
    let started =
        Collector::start(fleet(&["abcdef"]), airports(), &opts, day("2026-09-01"), NOW, &db);
    assert!(matches!(started, Err(CollectError::NoHexInFleet)));
}

fn mapping_sql() -> &'static str {
    r#"
    CREATE TABLE mappings_current (
      n_number TEXT PRIMARY KEY,
      icao24 TEXT,
      ticker TEXT NOT NULL,
      cik TEXT,
      company_name TEXT,
      make TEXT,
      model TEXT,
      registrant_name TEXT,
      match_method TEXT,
      as_of_date TEXT,
      fleet_size INTEGER NOT NULL,
      aviation_issuer INTEGER NOT NULL,
      deleted_at INTEGER
    );
    INSERT INTO mappings_current VALUES
      ('N1','ABCDEF','AAA','0001','A Co','GULFSTREAM','GVI',NULL,'exact_legal_name','2026-08-31',1,0,NULL),
      ('N2','','AAA',NULL,'A Co',NULL,NULL,NULL,NULL,'2026-08-31',1,0,NULL),
      ('N3',NULL,'AAA',NULL,'A Co',NULL,NULL,NULL,NULL,'2026-08-31',2,0,NULL),
      ('N4','aabbcc','BIG',NULL,'Big Co',NULL,NULL,NULL,NULL,'2026-08-31',20,0,NULL),
      ('N5','ddeeff','OEM',NULL,'Oem Co',NULL,NULL,NULL,NULL,'2026-08-31',1,1,NULL);
    "#
}

fn mapped_fleet(conn: &rusqlite::Connection) -> FleetQuery {
    let mut stmt = conn
        .prepare(
            "SELECT n_number, icao24, ticker, cik, company_name, make, model, registrant_name, \
             match_method, aviation_issuer, fleet_size, as_of_date FROM mappings_current",
        )
        .unwrap();
    let rows: Vec<MappingRow> = stmt
        .query_map([], |r| {
            Ok(MappingRow {
                n_number: r.get(0)?,
                icao24: r.get(1)?,
                ticker: r.get(2)?,
                cik: r.get(3)?,
                company_name: r.get(4)?,
                make: r.get(5)?,
                model: r.get(6)?,
                registrant_name: r.get(7)?,
                match_method: r.get(8)?,
                aviation_issuer: r.get(9)?,
                fleet_size: r.get(10)?,
                as_of_date: r.get(11)?,
            })
        })
        .unwrap()
        .map(|r| r.unwrap())
        .collect();
    query_fleet(&rows, "2026-09-01").unwrap()
}

fn mapping() -> rusqlite::Connection {
    let conn = rusqlite::Connection::open_in_memory().unwrap();
    conn.execute_batch(mapping_sql()).unwrap();
    conn
}

fn apa_jfk_flights() -> Vec<Flight> {
    read_flights(
        br#"[{
          "icao24":"ABCDEF",
          "firstSeen":1705276800,
          "lastSeen":1705280400,
          "estDepartureAirport":"KAPA",
          "estArrivalAirport":"KJFK",
          "callsign":"TEST1",
          "estDepartureAirportHorizDistance": 100
        }]"#,
    )
}

#[test]
fn mapping_sqlite_unchanged_after_opensky_ingest() {
    let conn = mapping();
    let count = |c: &rusqlite::Connection| -> i64 {
        c.query_row("SELECT COUNT(*) FROM mappings_current", [], |r| r.get(0)).unwrap()
    };
    let count_before = count(&conn);
    let fleet = mapped_fleet(&conn);
    assert_eq!(fleet.rows.len(), 1);
    assert_eq!(fleet.skipped_empty_icao24, 2);
    let row = &fleet.rows[0];
    assert_eq!(row.icao24, HEX);

    let mut db = JournalDb::new();
    let (up, skip) = ingest_opensky_flights(
        &mut db,
        row,
        &apa_jfk_flights(),
        &airports(),
        &HashMap::new(),
        "2026-09-01T00:00:00Z",
    );
    assert_eq!(up, 1);
    assert_eq!(skip, 0);

    let trip = db.get_trip(HEX, "2024-01-15T00:00:00Z").expect("mapped OpenSky leg");
    assert_eq!(trip.dep_airport.as_deref(), Some("KAPA"));
    assert_eq!(trip.arr_airport.as_deref(), Some("KJFK"));
    assert_eq!(trip.ticker, "AAA");
    assert_eq!(trip.source, "opensky_flights");
    assert_eq!(trip.callsign.as_deref(), Some("TEST1"));
    assert_eq!(trip.dep_airport_horiz_m, Some(100));
    assert_eq!(count_before, count(&conn));
}

#[test]
fn ingest_skips_legs_without_coordinates() {
    let fleet = mapped_fleet(&mapping());
    let mut db = JournalDb::new();
    let flights = read_flights(
        br#"[{
          "icao24":"abcdef",
          "firstSeen":1705276800,
          "estDepartureAirport":null,
          "estArrivalAirport":null
        }]"#,
    );
    let (up, skip) = ingest_opensky_flights(
        &mut db,
        &fleet.rows[0],
        &flights,
        &AirportIndex::empty(),
        &HashMap::new(),
        "t",
    );
    assert_eq!(up, 0);
    assert_eq!(skip, 1);
    assert_eq!(db.trip_count(), 0);
}

#[test]
fn ingest_uses_track_when_airports_null() {
    let fleet = mapped_fleet(&mapping());
    let mut db = JournalDb::new();
    let flights = read_flights(
        br#"[{
          "icao24":"abcdef",
          "firstSeen":1705276800,
          "lastSeen":1705280400
        }]"#,
    );
    let ends = TrackEnds {
        dep_lat: d(39.57),
        dep_lon: d(-104.67),
        arr_lat: d(40.64),
        arr_lon: d(-73.78),
        callsign: Some("N1".into()),
    };
    let mut tracks = HashMap::new();
    tracks.insert(1_705_276_800, measured(&AirportIndex::empty(), &ends));
    let (up, skip) = ingest_opensky_flights(
        &mut db,
        &fleet.rows[0],
        &flights,
        &AirportIndex::empty(),
        &tracks,
        "t",
    );
    assert_eq!(up, 1);
    assert_eq!(skip, 0);
    let trip = db.get_trip(HEX, "2024-01-15T00:00:00Z").unwrap();
    assert_eq!(trip.source, "opensky_track");
    assert!(trip.dep_airport.is_none());
    assert_eq!(trip.callsign.as_deref(), Some("N1"));

    tracks.insert(1_705_276_800, measured(&airports(), &ends));
    let done =
        ingest_opensky_flights(&mut db, &fleet.rows[0], &flights, &airports(), &tracks, "t");
    assert_eq!(done, (1, 0));
    let trip = db.get_trip(HEX, "2024-01-15T00:00:00Z").unwrap();
    assert_eq!(trip.dep_airport.as_deref(), Some("KAPA"));
    assert_eq!(trip.arr_airport.as_deref(), Some("KJFK"));
}

#[test]
fn ingest_collapses_cat_xom_near_duplicates() {
    let fleet = mapped_fleet(&mapping());
    let mut db = JournalDb::new();
    let flights = read_flights(
        br#"[
          {"icao24":"ABCDEF","firstSeen":1705276800,"lastSeen":1705280400,"estDepartureAirport":"KAPA","estArrivalAirport":"KJFK"},
          {"icao24":"ABCDEF","firstSeen":1705276816,"lastSeen":1705280410,"estDepartureAirport":"KAPA","estArrivalAirport":null}
        ]"#,
    );
    let (up, skip) = ingest_opensky_flights(
        &mut db,
        &fleet.rows[0],
        &flights,
        &airports(),
        &HashMap::new(),
        "t",
    );
    assert_eq!(up, 1);
    assert_eq!(skip, 0);
    assert_eq!(db.trip_count(), 1);
    let trip = db.get_trip(HEX, "2024-01-15T00:00:00Z").unwrap();
    assert_eq!(trip.arr_airport.as_deref(), Some("KJFK"));
}

#[test]
fn ingest_again_adds_no_trip() {
    let fleet = mapped_fleet(&mapping());
    let mut db = JournalDb::new();
    for fetched_at in [NOW, NOW, "2026-09-02T00:00:00Z"] {
        let done = ingest_opensky_flights(
            &mut db,
            &fleet.rows[0],
            &apa_jfk_flights(),
            &airports(),
            &HashMap::new(),
            fetched_at,
        );
        assert_eq!(done, (1, 0));
        assert_eq!(db.trip_count(), 1);
        let trip = db.get_trip(HEX, "2024-01-15T00:00:00Z").unwrap();
        assert_eq!(trip.fetched_at, fetched_at);
    }
}

#[test]
fn cache_files_read_back() {
    let body = br#"[{"icao24":"abcdef"}]"#;
    let file = write_gzip_cache(body).unwrap();
    assert_ne!(file, body.to_vec());
    assert_eq!(&file[0..2], &[0x1f, 0x8b]);
    assert_eq!(read_gzip_cache(&file), body.to_vec());
    assert_eq!(read_gzip_cache(body), body.to_vec(), "a plain file is read as it is");
    let empty = write_gzip_cache(b"").unwrap();
    assert!(read_gzip_cache(&empty).is_empty());
}

#[test]
fn track_attempts_are_keyed_by_aircraft_and_time() {
    assert_eq!(track_attempt_key("abcdef", 100), "abcdef:100");
    assert_eq!(track_attempt_key("abcdef", -5), "abcdef:-5");
    assert_ne!(track_attempt_key("a:1", 2), track_attempt_key("a", 12));
}

#[test]
fn watcher_records_who_is_airborne() {
    let mut db = JournalDb::new();
    let mut w = Watcher::start(Some(2));
    let date = day(DAY);
    assert!(w.goes_on());
    w.begin_poll(3, 1);
    let credit = |n: u32| CreditInfo {
        remaining: Some(n),
        retry_after: None,
        bucket: CreditBucket::States,
    };
    let seen = OpenskyOutcome::Success {
        data: vec!["abcdef".to_string(), "ffffff".to_string()],
        credit: credit(100),
    };
    assert!(matches!(w.answered(&seen, &mut db, date, NOW), WatchStep::Seen { .. }));
    assert_eq!(db.seen_airborne_on(date).len(), 2);
    assert!(w.goes_on());
    w.begin_poll(3, 1);
    let limited = OpenskyOutcome::RateLimited { credit: credit(0) };
    assert!(matches!(w.answered(&limited, &mut db, date, NOW), WatchStep::Wait { .. }));
    assert!(!w.goes_on());
    let denied = OpenskyOutcome::Denied { status: 403, message: "no".into() };
    assert!(matches!(w.answered(&denied, &mut db, date, NOW), WatchStep::Fail { .. }));
    assert_eq!(w.report().live_polls, 2);
    assert_eq!(w.report().fleet_hexes, 3);
    assert_eq!(db.seen_airborne_on(date).len(), 2);
}

#[test]
fn status_is_printed_by_line() {
    let mut db = JournalDb::new();
    let mapped = fleet(&["abcdef"]);
    db.replace_fleet_snapshot(&mapped.rows, &mapped.snapshot_as_of, NOW).unwrap();
    db.mark_flights_all_slice_ok(day(DAY), 0, NOW);
    db.set_flights_all_error(day("2024-01-16"), "HTTP 500: x", NOW);
    assert_eq!(
        status_lines(&db.status("j.sqlite"), Some(4)),
        vec![
            "journal: j.sqlite".to_string(),
            "fleet_snapshot: 1 hexes (as of 2026-08-31, recorded_at 2026-09-01T00:00:00Z)".to_string(),
            "skipped_empty_icao24 (current map slice): 4".to_string(),
            "flights_all last complete UTC day: \u{2014}".to_string(),
            "  flights_all in progress 2024-01-15: 1/12 slices".to_string(),
            "  flights_all error 2024-01-16: HTTP 500: x".to_string(),
            "trips: 0".to_string(),
        ]
    );
    for i in 1..12 {
        db.mark_flights_all_slice_ok(day(DAY), i, NOW);
    }
    let lines = status_lines(&db.status("j.sqlite"), None);
    assert_eq!(lines[2], "flights_all last complete UTC day: 2024-01-15 (12/12)");
    assert_eq!(
        status_lines(&JournalDb::new().status("p"), None)[1],
        "fleet_snapshot: 0 hexes (as of ?, recorded_at ?)"
    );
}

#[test]
fn runs_are_printed_by_line() {
    let first = "collect fleet_hexes=0 skipped_empty_icao24=0 days_ok=0 days_404=0 from_cache=0 \
                 trips_upserted=0 stopped_hexes=0 live_polls=0 live_trips=0";
    let mut r = CollectReport::default();
    assert_eq!(report_lines(&r), vec![first.to_string()]);
    r.flights_calls = 3;
    r.estimated_flights_credits = 90;
    assert_eq!(
        report_lines(&r)[1],
        "  opensky flights_calls=3 tracks_calls=0 skipped_no_coords=0 estimated_flights_credits=90"
    );
}

#[test]
fn collect_leaves_fleet_cursors_and_sightings() {
    let date = day(DAY);
    let mut db = JournalDb::new();
    let mapped = fleet(&["abcdef"]);
    db.replace_fleet_snapshot(&mapped.rows, &mapped.snapshot_as_of, NOW).unwrap();
    db.advance_cursor_ok("abcdef", date, NOW);
    db.mark_seen_airborne("abcdef", date, NOW);
    let mut fake = Fake::new(apa_jfk_flights());
    fake.run(&collect_opts(date, Vec::new(), false), mapped, &mut db, airports());
    assert_eq!(db.trip_count(), 1);
    assert_eq!(db.last_ok_date("abcdef"), Some(date));
    assert_eq!(db.seen_airborne_on(date), vec!["abcdef".to_string()]);
    assert!(db.in_fleet("abcdef"));
    for i in 0..12 {
        assert!(db.flights_all_slice_complete(date, i));
    }
}

#[test]
fn run_over_several_days_goes_from_the_newest() {
    let mut db = JournalDb::new();
    let mut opts = collect_opts(day("2024-01-14"), Vec::new(), false);
    opts.to = Some(day("2024-01-16"));
    for i in 0..12 {
        db.mark_flights_all_slice_ok(day(DAY), i, NOW);
    }
    let mut fake = Fake::new(Vec::new());
    let r = fake.run(&opts, fleet(&["abcdef"]), &mut db, airports());
    assert_eq!(r.flights_calls, 24);
    assert_eq!(r.days_ok, 2);
    assert_eq!(fake.windows[0].0, 1_705_363_200);
    assert_eq!(fake.windows[11].1, 1_705_449_599);
    assert_eq!(fake.windows[12].0, 1_705_190_400);
    opts.to = Some(day("2024-01-13"));
    let r = fake.run(&opts, fleet(&["abcdef"]), &mut JournalDb::new(), airports());
    assert_eq!(r.flights_calls, 0);
}

#[test]
fn slices_that_are_not_found_are_cached_as_empty() {
    let date = day(DAY);
    let mut db = JournalDb::new();
    let mut c = Collector::start(
        fleet(&["abcdef"]),
        airports(),
        &collect_opts(date, Vec::new(), false),
        day("2026-09-01"),
        NOW,
        &db,
    )
    .unwrap();
    assert!(matches!(c.ask(), Ask::LoadSlice { slice_idx: 0, .. }));
    assert!(c.slice_loaded(None, &mut db, NOW).is_empty());
    assert!(matches!(
        c.ask(),
        Ask::FetchFlights { slice_idx: 0, begin: 1_705_276_800, end: 1_705_283_999, .. }
    ));
    let effects =
        c.flights_fetched(OpenskyOutcome::NotFound { credit: flights_credit(1) }, &mut db, NOW);
    assert!(matches!(&effects[..], [Effect::WriteSlice { flights, .. }] if flights.is_empty()));
    assert_eq!(c.report().days_not_found, 1);
    let effects = c.tracks_loaded(Vec::new(), &mut db, NOW);
    assert!(matches!(&effects[..], [Effect::SliceOk { slice_idx: 0, .. }]));
    assert!(matches!(c.ask(), Ask::LoadSlice { slice_idx: 1, .. }));
    assert!(c.slice_loaded(None, &mut db, NOW).is_empty());
    let denied = OpenskyOutcome::Denied { status: 403, message: "no".into() };
    let effects = c.flights_fetched(denied, &mut db, NOW);
    assert!(matches!(&effects[..], [Effect::DayError { message, .. }] if message == "HTTP 403: no"));
    assert!(matches!(c.ask(), Ask::Finished));
}

#[test]
fn flights_reported_again_change_nothing() {
    let at = |hex: &str, t: i64, callsign: Option<&str>| Flight {
        icao24: hex.into(),
        first_seen: t,
        callsign: callsign.map(String::from),
        ..Default::default()
    };
    let once =
        vec![at("b", 500, None), at("a", 0, None), at("a", 170, Some("X")), at("a", 190, None)];
    let mut twice = once.clone();
    twice.extend(once.clone());
    let keys = |v: &Vec<Flight>| -> Vec<(String, i64)> {
        collapse_near_duplicate_flights(v).into_iter().map(|f| (f.icao24, f.first_seen)).collect()
    };
    let expected =
        vec![("a".to_string(), 170), ("a".to_string(), 190), ("b".to_string(), 500)];
    assert_eq!(keys(&once), expected);
    assert_eq!(keys(&twice), expected);
}

fn open_opts(max_flights_credits: u32) -> CollectOptions {
    CollectOptions {
        from: None,
        to: None,
        max_flights_credits,
        tracks_fallback: false,
        hex_filter: Vec::new(),
    }
}

#[test]
fn default_run_takes_whole_days_from_yesterday_back() {
    let mut db = JournalDb::new();
    let mut fake = Fake::new(Vec::new());
    fake.today = day("2026-09-05");
    let r = fake.run(&open_opts(800), fleet(&["abcdef"]), &mut db, airports());
    assert_eq!(r.flights_calls, 24);
    assert_eq!(r.estimated_flights_credits, 720);
    assert_eq!(r.days_ok, 2);
    assert_eq!(fake.windows[0].0, day("2026-09-04").number as i64 * 86_400);
    assert_eq!(fake.windows[12].0, day("2026-09-03").number as i64 * 86_400);
    assert!(db.flights_all_day_complete(day("2026-09-04"), 12));
    assert!(db.flights_all_day_complete(day("2026-09-03"), 12));
    assert_eq!(db.flights_all_slices_done(day("2026-09-02")), 0);
    assert!(db.status("j").flights_all_errors.is_empty());

    let r = fake.run(&open_opts(800), fleet(&["abcdef"]), &mut db, airports());
    assert_eq!(r.days_ok, 2);
    assert_eq!(fake.windows[24].0, day("2026-09-02").number as i64 * 86_400);
    assert!(db.flights_all_day_complete(day("2026-09-01"), 12));
}

#[test]
fn started_days_resume_where_no_whole_day_is_left() {
    let old = day("2020-02-29");
    let mut db = JournalDb::new();
    for i in 0..11 {
        db.mark_flights_all_slice_ok(old, i, NOW);
    }
    let mut fake = Fake::new(Vec::new());
    let r = fake.run(&open_opts(390), fleet(&["abcdef"]), &mut db, airports());
    assert_eq!(r.flights_calls, 13);
    assert_eq!(r.days_ok, 2);
    assert_eq!(fake.windows[12].0, old.number as i64 * 86_400 + 11 * 7_200);
    assert!(db.flights_all_day_complete(old, 12));
    assert_eq!(db.flights_all_slices_done(day("2026-08-30")), 0);
}

#[test]
fn newest_day_is_begun_with_any_cap() {
    let mut db = JournalDb::new();
    let mut fake = Fake::new(Vec::new());
    let r = fake.run(&open_opts(60), fleet(&["abcdef"]), &mut db, airports());
    assert_eq!(r.flights_calls, 2);
    assert_eq!(db.flights_all_slices_done(day("2026-08-31")), 2);
    assert_eq!(
        db.status("j").flights_all_errors,
        vec![("2026-08-31".to_string(), "max-flights-credits cap".to_string())]
    );
}

#[test]
fn naming_every_hex_completes_nothing() {
    let date = day(DAY);
    let mut db = JournalDb::new();
    let mut fake = Fake::new(apa_jfk_flights());
    let opts = collect_opts(date, vec![" ABCDEF ".into()], false);
    let r = fake.run(&opts, fleet(&["abcdef"]), &mut db, airports());
    assert_eq!(r.flights_calls, 12);
    assert_eq!(r.trips_upserted, 1);
    assert_eq!(r.days_ok, 0);
    assert_eq!(db.flights_all_slices_done(date), 0);
    let blank = collect_opts(date, vec!["  ".into()], false);
    let r = fake.run(&blank, fleet(&["abcdef"]), &mut db, airports());
    assert_eq!(r.flights_calls, 0);
    assert_eq!(r.days_ok, 1);
    assert!(db.flights_all_day_complete(date, 12));
}

#[test]
fn tracks_are_fetched_where_either_airport_is_in_doubt() {
    let tracks_for = |dep: &str, arr: &str| {
        let body = format!(
            r#"[{{"icao24":"abcdef","firstSeen":1705276800,"lastSeen":1705280400{dep}{arr}}}]"#
        );
        let mut fake = Fake::new(read_flights(body.as_bytes()));
        fake.tracks.push_back(OpenskyOutcome::NotFound { credit: tracks_credit() });
        let mut db = JournalDb::new();
        let opts = collect_opts(day(DAY), Vec::new(), true);
        fake.run(&opts, fleet(&["abcdef"]), &mut db, airports()).tracks_calls
    };
    let apa = r#","estDepartureAirport":"KAPA""#;
    let jfk = r#","estArrivalAirport":"KJFK""#;
    assert_eq!(tracks_for(apa, jfk), 0);
    assert_eq!(tracks_for(apa, ""), 1);
    assert_eq!(tracks_for("", jfk), 1);
    assert_eq!(tracks_for(apa, r#","estArrivalAirport":"ZZZZ""#), 1);
    let near = r#","estArrivalAirport":"KJFK","estArrivalAirportHorizDistance":8000"#;
    assert_eq!(tracks_for(apa, near), 0);
    let far = r#","estArrivalAirport":"KJFK","estArrivalAirportHorizDistance":8001"#;
    assert_eq!(tracks_for(apa, far), 1);
    let dep_far = r#","estDepartureAirport":"KAPA","estDepartureAirportHorizDistance":9000"#;
    assert_eq!(tracks_for(dep_far, jfk), 1);
}

#[test]
fn far_landing_takes_the_end_of_its_track() {
    let flights = read_flights(
        br#"[{"icao24":"abcdef","firstSeen":1705276800,"lastSeen":1705280400,
          "estDepartureAirport":"KAPA","estArrivalAirport":"KJFK",
          "estArrivalAirportHorizDistance":9000}]"#,
    );
    let mut fake = Fake::new(flights);
    fake.tracks.push_back(OpenskyOutcome::Success {
        data: Some(TrackEnds {
            dep_lat: d(39.0),
            dep_lon: d(-104.0),
            arr_lat: d(40.0),
            arr_lon: d(-73.0),
            callsign: None,
        }),
        credit: tracks_credit(),
    });
    let mut db = JournalDb::new();
    let opts = collect_opts(day(DAY), Vec::new(), true);
    fake.run(&opts, fleet(&["abcdef"]), &mut db, airports());
    let trip = db.get_trip(HEX, "2024-01-15T00:00:00Z").unwrap();
    assert_eq!(trip.dep_airport.as_deref(), Some("KAPA"));
    assert_eq!(trip.dep_lat, Some(d(39.5701)));
    assert!(trip.arr_airport.is_none());
    assert_eq!(trip.arr_lat, Some(d(40.0)));
    assert_eq!(trip.arr_airport_horiz_m, Some(9000));
}

#[test]
fn other_aircraft_change_nothing_for_one() {
    let at = |hex: &str, t: i64, callsign: Option<&str>| Flight {
        icao24: hex.into(),
        first_seen: t,
        callsign: callsign.map(String::from),
        ..Default::default()
    };
    let all = vec![
        at("b", 100, None),
        at("a", 0, None),
        at("c", 90, Some("C")),
        at("b", 10, Some("B")),
        at("a", 170, Some("X")),
        at("b", 500, None),
    ];
    let key = |f: Flight| (f.icao24, f.first_seen);
    for hex in ["a", "b", "c", "d"] {
        let kept: Vec<(String, i64)> = collapse_near_duplicate_flights(&all)
            .into_iter()
            .filter(|f| f.icao24 == hex)
            .map(key)
            .collect();
        let own: Vec<Flight> = all.iter().filter(|f| f.icao24 == hex).cloned().collect();
        let alone: Vec<(String, i64)> =
            collapse_near_duplicate_flights(&own).into_iter().map(key).collect();
        assert_eq!(kept, alone);
    }
    let kept = collapse_near_duplicate_flights(&all);
    assert_eq!(kept.len(), 4);
    assert_eq!(kept[1].callsign.as_deref(), Some("B"));
}

#[test]
fn run_snaps_the_ends_of_fetched_and_cached_tracks() {
    let flights = read_flights(
        br#"[{"icao24":"abcdef","firstSeen":1705276800,"lastSeen":1705280400,
          "estDepartureAirport":"KJFK","estDepartureAirportHorizDistance":9000}]"#,
    );
    let mut fake = Fake::new(flights);
    fake.tracks.push_back(OpenskyOutcome::Success {
        data: Some(TrackEnds {
            dep_lat: d(39.57),
            dep_lon: d(-104.67),
            arr_lat: d(41.0),
            arr_lon: d(-90.0),
            callsign: None,
        }),
        credit: tracks_credit(),
    });
    let opts = collect_opts(day(DAY), Vec::new(), true);
    for calls in [1, 0] {
        let mut db = JournalDb::new();
        let r = fake.run(&opts, fleet(&["abcdef"]), &mut db, airports());
        assert_eq!(r.tracks_calls, calls, "the second run has the track from the cache");
        let trip = db.get_trip(HEX, "2024-01-15T00:00:00Z").unwrap();
        assert_eq!(trip.dep_airport.as_deref(), Some("KAPA"));
        assert_eq!(trip.dep_lat, Some(d(39.57)));
        assert!(trip.arr_airport.is_none());
        assert_eq!(trip.arr_lat, Some(d(41.0)));
    }
    let held = &fake.attempts[&flights_all_tracks_cache_path(day(DAY), 0)];
    assert_eq!(held[0].0, "abcdef:1705276800");
    assert_eq!(held[0].1.as_ref().map(|e| e.dep_lat), Some(d(39.57)));
}

#[test]
fn as_few_flights_are_kept_as_windows_cover_them() {
    let at = |t: i64| Flight { icao24: "a".into(), first_seen: t, ..Default::default() };
    let kept = |times: &[i64]| {
        let flights: Vec<Flight> = times.iter().map(|t| at(*t)).collect();
        collapse_near_duplicate_flights(&flights).len()
    };
    assert_eq!(kept(&[0, 180]), 1);
    assert_eq!(kept(&[0, 100, 200, 280]), 2);
    assert_eq!(kept(&[0, 181, 362]), 3);
}
