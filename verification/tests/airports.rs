use adsb_trip_journal::airports::{AirportIndex, AirportRow, AirportType, Place, Snap};
use adsb_trip_journal::double::Double;

const FIXTURE: &str = "ident,type,latitude_deg,longitude_deg
KAPA,large_airport,39.5701,-104.6737
KJFK,large_airport,40.6399,-73.7787
CO99,small_airport,39.5750,-104.6700
HEL1,heliport,39.5710,-104.6740
FAR,small_airport,0.0,0.0
";

fn d(x: f64) -> Double {
    Double { bits: x.to_bits() }
}

fn haversine_km(lat1: f64, lon1: f64, lat2: f64, lon2: f64) -> f64 {
    let p1 = lat1.to_radians();
    let p2 = lat2.to_radians();
    let dp = (lat2 - lat1).to_radians();
    let dl = (lon2 - lon1).to_radians();
    let a = (dp / 2.0).sin().powi(2) + p1.cos() * p2.cos() * (dl / 2.0).sin().powi(2);
    2.0 * 6371.0 * a.sqrt().asin()
}

fn rows(text: &str) -> Vec<AirportRow> {
    let mut reader = csv::Reader::from_reader(text.as_bytes());
    reader
        .records()
        .map(|r| {
            let r = r.unwrap();
            AirportRow {
                ident: r[0].to_string(),
                type_field: r[1].to_string(),
                latitude_deg: r[2].parse::<f64>().ok().map(d),
                longitude_deg: r[3].parse::<f64>().ok().map(d),
            }
        })
        .collect()
}

fn from_text(text: &str) -> AirportIndex {
    AirportIndex::from_rows(&rows(text))
}

fn snap(text: &str, lat: f64, lon: f64) -> Snap {
    let index = from_text(text);
    let distances: Vec<Double> = (0..index.len())
        .map(|i| {
            let a = index.airport(i);
            d(haversine_km(lat, lon, f64::from_bits(a.lat.bits), f64::from_bits(a.lon.bits)))
        })
        .collect();
    index.snap(d(lat), d(lon), &distances)
}

#[test]
fn by_ident_is_case_insensitive() {
    let idx = from_text(FIXTURE);
    let s = idx.by_ident("kapa").unwrap();
    assert_eq!(s.ident, "KAPA");
}

#[test]
fn prefers_large_over_closer_small() {
    let s = snap(FIXTURE, 39.572, -104.672);
    assert_eq!(s.ident.as_deref(), Some("KAPA"));
}

#[test]
fn heliport_only_if_nothing_else() {
    let csv = "ident,type,latitude_deg,longitude_deg\nHEL1,heliport,39.5710,-104.6740\n";
    assert_eq!(snap(csv, 39.571, -104.674).ident.as_deref(), Some("HEL1"));
}

#[test]
fn miss_uses_rounded_latlon() {
    let s = snap(FIXTURE, 10.12344, 20.98761);
    assert!(s.ident.is_none());
    let shown = match s.place {
        Place::LatLon(lat, lon) => format!(
            "{:.4},{:.4}",
            f64::from_bits(lat.bits),
            f64::from_bits(lon.bits)
        ),
        Place::Ident(id) => id,
    };
    assert_eq!(shown, "10.1234,20.9876");
}

#[test]
fn skips_closed_and_balloonports() {
    let csv = "ident,type,latitude_deg,longitude_deg\nXX,closed_airport,39.57,-104.67\n";
    assert!(snap(csv, 39.57, -104.67).ident.is_none());
    assert!(from_text(csv).is_empty());
}

#[test]
fn ident_lookup_ignores_white_space_and_finds_nothing_for_unknown() {
    let idx = from_text(FIXTURE);
    assert_eq!(idx.by_ident(" kJfK ").unwrap().ident, "KJFK");
    assert!(idx.by_ident("ZZZZ").is_none());
    assert!(idx.by_ident("").is_none());
    assert!(AirportIndex::empty().by_ident("KAPA").is_none());
}

#[test]
fn one_record_per_key_and_the_preferred_type_wins() {
    let csv = "ident,type,latitude_deg,longitude_deg
abc,small_airport,1.0,1.0
ABC,large_airport,2.0,2.0
Abc ,medium_airport,3.0,3.0
,large_airport,4.0,4.0
NOLAT,large_airport,,5.0
";
    let idx = from_text(csv);
    assert_eq!(idx.len(), 1);
    let a = idx.by_ident("abc").unwrap();
    assert_eq!(a.kind, AirportType::Large);
    assert_eq!(a.lat, d(2.0));
}

#[test]
fn of_one_type_the_nearest_wins_and_the_radius_bounds() {
    let csv = "ident,type,latitude_deg,longitude_deg
FAR1,small_airport,0.05,0.0
NEAR,small_airport,0.01,0.0
";
    assert_eq!(snap(csv, 0.0, 0.0).ident.as_deref(), Some("NEAR"));
    let idx = from_text(csv);
    let s = idx.snap_radius(d(0.0), d(0.0), &vec![d(5.0), d(1.0)], d(0.5));
    assert!(s.ident.is_none());
    let s = idx.snap_radius(d(0.0), d(0.0), &vec![d(5.0), d(6.0)], d(5.0));
    assert_eq!(s.ident.as_deref(), Some("FAR1"));
}

#[test]
fn distance_that_is_no_number_is_within_every_radius() {
    let idx = from_text("ident,type,latitude_deg,longitude_deg\nX1,small_airport,1.0,1.0\n");
    let s = idx.snap(d(0.0), d(0.0), &vec![d(f64::NAN)]);
    assert_eq!(s.ident.as_deref(), Some("X1"));
}

#[test]
fn double_comparisons_follow_the_format() {
    let xs = [0.0, -0.0, 1.5, -1.5, f64::INFINITY, f64::NEG_INFINITY, f64::NAN, 1e-310, 90.0, 40.0];
    for a in xs {
        for b in xs {
            assert_eq!(d(a).less(d(b)), a < b, "{} < {}", a, b);
            assert_eq!(d(a).at_most(d(b)), a <= b, "{} <= {}", a, b);
        }
        assert_eq!(d(a).size().bits, a.abs().to_bits());
        assert_eq!(d(a).to_u64(), a as u64);
    }
    for a in [2.0, 2.9, 1e19, 1.8446744073709552e19, 4294967298.0, 0.99, 1.0, 9007199254740993.0] {
        assert_eq!(d(a).to_u64(), a as u64);
    }
}
