use adsb_trip_journal::fleet::{pick_probe_hex, query_fleet, FleetError, FleetRow, MappingRow};
use rusqlite::Connection;

fn setup() -> Connection {
    let conn = Connection::open_in_memory().unwrap();
    conn.execute_batch(
        r#"
        CREATE TABLE mappings_current (
          n_number TEXT PRIMARY KEY,
          icao24 TEXT,
          ticker TEXT NOT NULL,
          cik TEXT,
          company_name TEXT,
          make TEXT,
          model TEXT,
          registrant_name TEXT,
          match_method TEXT,
          as_of_date TEXT,
          fleet_size INTEGER NOT NULL,
          aviation_issuer INTEGER NOT NULL
        );
        INSERT INTO mappings_current VALUES
          ('N1','ABCDEF','AAA',NULL,'A Co',NULL,NULL,NULL,NULL,'2026-08-31',1,0),
          ('N2','','AAA',NULL,'A Co',NULL,NULL,NULL,NULL,'2026-08-31',1,0),
          ('N3',NULL,'AAA',NULL,'A Co',NULL,NULL,NULL,NULL,'2026-08-31',2,0),
          ('N4','aabbcc','BIG',NULL,'Big Co',NULL,NULL,NULL,NULL,'2026-08-31',20,0),
          ('N5','ddeeff','OEM',NULL,'Oem Co',NULL,NULL,NULL,NULL,'2026-08-31',1,1);
        "#,
    )
    .unwrap();
    conn
}

fn mapping_rows(conn: &Connection) -> Vec<MappingRow> {
    let mut stmt = conn
        .prepare(
            "SELECT n_number, icao24, ticker, cik, company_name, make, model, registrant_name, \
             match_method, aviation_issuer, fleet_size, as_of_date FROM mappings_current",
        )
        .unwrap();
    let rows = stmt
        .query_map([], |r| {
            Ok(MappingRow {
                n_number: r.get(0)?,
                icao24: r.get(1)?,
                ticker: r.get(2)?,
                cik: r.get(3)?,
                company_name: r.get(4)?,
                make: r.get(5)?,
                model: r.get(6)?,
                registrant_name: r.get(7)?,
                match_method: r.get(8)?,
                aviation_issuer: r.get(9)?,
                fleet_size: r.get(10)?,
                as_of_date: r.get(11)?,
            })
        })
        .unwrap();
    rows.map(|r| r.unwrap()).collect()
}

fn mapped(n_number: Option<&str>, icao24: Option<&str>, ticker: Option<&str>) -> MappingRow {
    MappingRow {
        n_number: n_number.map(String::from),
        icao24: icao24.map(String::from),
        ticker: ticker.map(String::from),
        cik: None,
        company_name: None,
        make: None,
        model: None,
        registrant_name: None,
        match_method: None,
        aviation_issuer: Some(0),
        fleet_size: Some(6),
        as_of_date: None,
    }
}

#[test]
fn default_slice_skips_empty_and_out_of_scope() {
    let q = query_fleet(&mapping_rows(&setup()), "2026-09-01").unwrap();
    assert_eq!(q.skipped_empty_icao24, 2);
    assert_eq!(q.rows.len(), 1);
    assert_eq!(q.rows[0].n_number, "N1");
    assert_eq!(q.rows[0].icao24, "abcdef");
    assert_eq!(q.snapshot_as_of, "2026-08-31");
}

#[test]
fn snapshot_date_is_today_without_one_and_the_latest_with_several() {
    let mut rows = vec![mapped(Some("N1"), Some(" AbC123 "), Some("T"))];
    let q = query_fleet(&rows, "2026-09-01").unwrap();
    assert_eq!(q.snapshot_as_of, "2026-09-01");
    assert_eq!(q.rows[0].icao24, "abc123");
    rows[0].as_of_date = Some("2026-01-02".into());
    rows.push(mapped(Some("N2"), Some("\t"), Some("T")));
    rows[1].as_of_date = Some("2026-01-10".into());
    let q = query_fleet(&rows, "2026-09-01").unwrap();
    assert_eq!(q.snapshot_as_of, "2026-01-10");
    assert_eq!(q.skipped_empty_icao24, 1);
}

#[test]
fn fleet_size_bounds_are_one_to_six() {
    let mut rows = Vec::new();
    for (i, size) in [0, 1, 6, 7].into_iter().enumerate() {
        let mut r = mapped(Some(&format!("N{i}")), Some(&format!("00000{i}")), Some("T"));
        r.fleet_size = Some(size);
        rows.push(r);
    }
    let q = query_fleet(&rows, "t").unwrap();
    let hexes: Vec<&str> = q.rows.iter().map(|r| r.icao24.as_str()).collect();
    assert_eq!(hexes, vec!["000001", "000002"]);
}

#[test]
fn slice_row_without_a_required_column_is_an_error() {
    let rows = vec![mapped(None, Some("abcdef"), Some("T"))];
    assert_eq!(query_fleet(&rows, "t").unwrap_err(), FleetError::NoNNumber);
    let rows = vec![mapped(Some("N1"), Some("abcdef"), None)];
    assert_eq!(query_fleet(&rows, "t").unwrap_err(), FleetError::NoTicker);
    let mut outside = mapped(None, Some("abcdef"), None);
    outside.aviation_issuer = Some(1);
    assert!(query_fleet(&vec![outside], "t").unwrap().rows.is_empty());
}

#[test]
fn probe_hex_prefers_wmt_then_the_first() {
    let row = |hex: &str, ticker: &str| {
        let q = query_fleet(&vec![mapped(Some("N1"), Some(hex), Some(ticker))], "t").unwrap();
        let mut rows: Vec<FleetRow> = q.rows;
        rows.remove(0)
    };
    assert_eq!(pick_probe_hex(&vec![row("aaaaaa", "X"), row("bbbbbb", "wMt")]), "bbbbbb");
    assert_eq!(pick_probe_hex(&vec![row("aaaaaa", "X"), row("bbbbbb", "Y")]), "aaaaaa");
    assert_eq!(pick_probe_hex(&Vec::new()), "a004b4");
}
