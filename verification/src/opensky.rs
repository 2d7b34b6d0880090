//! OpenSky Network REST API: credits, outcomes, windows, and flights as trips.

use crate::airports;
use crate::airports::{Airport, AirportIndex, Place, PlaceView};
use crate::calendar;
use crate::calendar::UtcDay;
use crate::double::Double;
use crate::fleet::FleetRow;
use crate::sets::KeySet;
use crate::store::{TripRow, TripSource, TripView};
use crate::text;
use vstd::prelude::*;

verus! {

/// Observed `/flights/aircraft` cost for a historical UTC-day (or 6h) query.
pub const FLIGHTS_CALL_CREDITS: u32 = 30;

pub const TRACKS_CALL_CREDITS: u32 = 4;

/// Observed `/states/all?icao24=…` cost (hex filter, not serial-only).
pub const STATES_CALL_CREDITS: u32 = 4;

/// Collect cap: two UTC days of `/flights/all` at 30 a slice is 720.
pub const DEFAULT_MAX_FLIGHTS_CREDITS: u32 = 800;

pub const HEX_CHUNK: usize = 80;

/// `/flights/all` max window. Twelve adjacent slices cover one UTC day.
pub const FLIGHTS_ALL_SLICES_PER_DAY: u32 = 12;

pub const FLIGHTS_ALL_SLICE_SECS: i64 = 7_200;

/// Measured `/flights/all` cost of a 2h historical slice.
pub const FLIGHTS_ALL_SLICE_CREDITS: u32 = 30;

/// What the twelve slices of one UTC day cost.
pub const FLIGHTS_ALL_DAY_CREDITS: u32 = 360;

/// Repair window of `JournalDb::default_opensky_collect_from`: never-started or incomplete
/// `/flights/all` days inside this many UTC days before yesterday. Incomplete slice rows older
/// than the window count too. A run is not bounded by it.
pub const FLIGHTS_ALL_LOOKBACK_DAYS: u64 = 90;

/// The farthest that an airport may be reported from the end of a flight and still be the place
/// of its departure or landing, in meters.
pub const AIRPORT_RADIUS_M: i64 = 8_000;

/// The time after which a `/flights/all` request is given up, in milliseconds.
pub const FLIGHTS_ALL_HTTP_TIMEOUT_MS: u128 = 180_000;

/// How many `/states/all` requests a fleet of `n_hexes` needs at [`HEX_CHUNK`].
pub open spec fn states_requests(n_hexes: int) -> int {
    (n_hexes + HEX_CHUNK - 1) / (HEX_CHUNK as int)
}

/// How many `/states/all` requests a fleet of `n_hexes` needs at [`HEX_CHUNK`], as a count of 32
/// bits.
pub fn states_request_count(n_hexes: usize) -> (r: u32)
    ensures
        r == states_requests(n_hexes as int) % 0x1_0000_0000,
{
    let whole: u64 = (n_hexes / HEX_CHUNK) as u64;
    let rest: u64 = if n_hexes % HEX_CHUNK != 0 {
        1
    } else {
        0
    };
    ((whole + rest) % 0x1_0000_0000) as u32
}

/// Estimated states-bucket spend for one watch poll of `n_hexes`, at most what 32 bits hold.
pub open spec fn states_credits(n_hexes: int) -> u32 {
    let spend = states_requests(n_hexes) % 0x1_0000_0000 * STATES_CALL_CREDITS;
    if spend <= u32::MAX {
        spend as u32
    } else {
        u32::MAX
    }
}

/// Estimated states-bucket spend for one watch poll of `n_hexes`.
pub fn estimated_states_credits(n_hexes: usize) -> (r: u32)
    ensures
        r == states_credits(n_hexes as int),
{
    let spend: u64 = states_request_count(n_hexes) as u64 * STATES_CALL_CREDITS as u64;
    if spend <= u32::MAX as u64 {
        spend as u32
    } else {
        u32::MAX
    }
}

/// The requests of a poll are as many as cover the fleet, and no more.
pub proof fn law_states_requests_cover_the_fleet(n_hexes: int)
    requires
        n_hexes >= 0,
    ensures
        states_requests(n_hexes) * HEX_CHUNK >= n_hexes,
        n_hexes > 0 ==> (states_requests(n_hexes) - 1) * HEX_CHUNK < n_hexes,
        n_hexes == 0 ==> states_requests(n_hexes) == 0,
{
}

#[derive(Debug, Clone, Copy, PartialEq, Eq, Structural)]
pub enum CreditBucket {
    States,
    Flights,
    Tracks,
}

#[derive(Debug, Clone, Copy, PartialEq, Eq, Structural)]
pub struct CreditInfo {
    pub remaining: Option<u32>,
    pub retry_after: Option<u64>,
    pub bucket: CreditBucket,
}

#[derive(Debug)]
pub enum OpenskyOutcome<T> {
    Success { data: T, credit: CreditInfo },
    NotFound { credit: CreditInfo },
    RateLimited { credit: CreditInfo },
    Denied { status: u16, message: String },
    Other { status: u16, message: String },
}

/// A count that may be missing, as `Some(n)` or `None`.
pub open spec fn shown_count(n: Option<u32>) -> Seq<char> {
    match n {
        Some(k) => "Some("@ + text::decimal(k as nat) + ")"@,
        None => "None"@,
    }
}

/// A count that may be missing, as `Some(n)` or `None`.
pub fn show_count(n: Option<u32>) -> (r: String)
    ensures
        r@ == shown_count(n),
{
    match n {
        Some(k) => text::join2(
            text::join2("Some(", text::number_text(k as u64).as_str()).as_str(),
            ")",
        ),
        None => "None".to_owned(),
    }
}

/// `HTTP {status}: {message}`.
pub open spec fn http_error(status: u16, message: Seq<char>) -> Seq<char> {
    "HTTP "@ + text::decimal(status as nat) + ": "@ + message
}

/// `HTTP {status}: {message}`.
pub fn http_error_text(status: u16, message: &str) -> (r: String)
    ensures
        r@ == http_error(status, message@),
{
    let head = text::join2("HTTP ", text::number_text(status as u64).as_str());
    text::join2(text::join2(head.as_str(), ": ").as_str(), message)
}

impl<T> OpenskyOutcome<T> {
    /// What is said of an outcome that is an error.
    pub open spec fn error(self) -> Option<Seq<char>> {
        match self {
            OpenskyOutcome::Denied { status, message } => Some(http_error(status, message@)),
            OpenskyOutcome::RateLimited { credit } => Some(
                "HTTP 429 retry-after="@ + text::decimal(
                    (match credit.retry_after {
                        Some(s) => s,
                        None => 0,
                    }) as nat,
                ) + "s remaining="@ + shown_count(credit.remaining),
            ),
            OpenskyOutcome::Other { status, message } => Some(http_error(status, message@)),
            OpenskyOutcome::Success { .. } => None,
            OpenskyOutcome::NotFound { .. } => None,
        }
    }

    pub fn advances_cursor(&self) -> (r: bool)
        ensures
            r == (*self is Success || *self is NotFound),
            r == (self.error() is None),
    {
        match self {
            OpenskyOutcome::Success { .. } => true,
            OpenskyOutcome::NotFound { .. } => true,
            _ => false,
        }
    }

    pub fn error_message(&self) -> (r: Option<String>)
        ensures
            text::opt_view(r) == self.error(),
    {
        match self {
            OpenskyOutcome::Denied { status, message } => Some(
                http_error_text(*status, message.as_str()),
            ),
            OpenskyOutcome::RateLimited { credit } => {
                let wait: u64 = match credit.retry_after {
                    Some(s) => s,
                    None => 0,
                };
                let head = text::join2("HTTP 429 retry-after=", text::number_text(wait).as_str());
                let mid = text::join2(head.as_str(), "s remaining=");
                Some(text::join2(mid.as_str(), show_count(credit.remaining).as_str()))
            },
            OpenskyOutcome::Other { status, message } => Some(
                http_error_text(*status, message.as_str()),
            ),
            OpenskyOutcome::Success { .. } => None,
            OpenskyOutcome::NotFound { .. } => None,
        }
    }

    pub fn remaining(&self) -> (r: Option<u32>)
        ensures
            r == match *self {
                OpenskyOutcome::Success { data: _, credit } => credit.remaining,
                OpenskyOutcome::NotFound { credit } => credit.remaining,
                OpenskyOutcome::RateLimited { credit } => credit.remaining,
                _ => None,
            },
    {
        match self {
            OpenskyOutcome::Success { credit, .. } => credit.remaining,
            OpenskyOutcome::NotFound { credit } => credit.remaining,
            OpenskyOutcome::RateLimited { credit } => credit.remaining,
            _ => None,
        }
    }
}

/// One flight as OpenSky estimates it.
#[derive(Debug)]
pub struct Flight {
    pub icao24: String,
    pub first_seen: i64,
    pub last_seen: Option<i64>,
    pub est_departure_airport: Option<String>,
    pub est_arrival_airport: Option<String>,
    /// Transponder label (often N-number, sometimes DCM/FFL). Not identity.
    pub callsign: Option<String>,
    pub est_departure_airport_horiz_distance: Option<i64>,
    pub est_departure_airport_vert_distance: Option<i64>,
    pub est_arrival_airport_horiz_distance: Option<i64>,
    pub est_arrival_airport_vert_distance: Option<i64>,
    pub departure_airport_candidates_count: Option<i64>,
    pub arrival_airport_candidates_count: Option<i64>,
}

impl View for Flight {
    type V = Flight;

    open spec fn view(&self) -> Flight {
        *self
    }
}

impl Clone for Flight {
    fn clone(&self) -> (r: Self)
        ensures
            r == *self,
    {
        Flight {
            icao24: self.icao24.clone(),
            first_seen: self.first_seen,
            last_seen: self.last_seen,
            est_departure_airport: text::clone_text(&self.est_departure_airport),
            est_arrival_airport: text::clone_text(&self.est_arrival_airport),
            callsign: text::clone_text(&self.callsign),
            est_departure_airport_horiz_distance: self.est_departure_airport_horiz_distance,
            est_departure_airport_vert_distance: self.est_departure_airport_vert_distance,
            est_arrival_airport_horiz_distance: self.est_arrival_airport_horiz_distance,
            est_arrival_airport_vert_distance: self.est_arrival_airport_vert_distance,
            departure_airport_candidates_count: self.departure_airport_candidates_count,
            arrival_airport_candidates_count: self.arrival_airport_candidates_count,
        }
    }
}

impl Default for Flight {
    fn default() -> (r: Self)
        ensures
            r.icao24@ == Seq::<char>::empty(),
            r.first_seen == 0,
            r.last_seen is None,
            r.est_departure_airport is None,
            r.est_arrival_airport is None,
            r.callsign is None,
            r.est_departure_airport_horiz_distance is None,
            r.est_departure_airport_vert_distance is None,
            r.est_arrival_airport_horiz_distance is None,
            r.est_arrival_airport_vert_distance is None,
            r.departure_airport_candidates_count is None,
            r.arrival_airport_candidates_count is None,
    {
        Flight {
            icao24: String::new(),
            first_seen: 0,
            last_seen: None,
            est_departure_airport: None,
            est_arrival_airport: None,
            callsign: None,
            est_departure_airport_horiz_distance: None,
            est_departure_airport_vert_distance: None,
            est_arrival_airport_horiz_distance: None,
            est_arrival_airport_vert_distance: None,
            departure_airport_candidates_count: None,
            arrival_airport_candidates_count: None,
        }
    }
}

/// Where a track begins and ends.
#[derive(Debug)]
pub struct TrackEnds {
    pub dep_lat: Double,
    pub dep_lon: Double,
    pub arr_lat: Double,
    pub arr_lon: Double,
    /// OpenSky track `callsign` (docs sometimes spell `calllsign`). Fill-in only.
    pub callsign: Option<String>,
}

impl Clone for TrackEnds {
    fn clone(&self) -> (r: Self)
        ensures
            r == *self,
    {
        TrackEnds {
            dep_lat: self.dep_lat,
            dep_lon: self.dep_lon,
            arr_lat: self.arr_lat,
            arr_lon: self.arr_lon,
            callsign: text::clone_text(&self.callsign),
        }
    }
}

/// Kilometres from each end of a track to each airport of the index.
#[derive(Debug)]
pub struct EndDistances {
    pub dep: Vec<Double>,
    pub arr: Vec<Double>,
}

impl EndDistances {
    /// There is a distance for each airport, from either end.
    pub open spec fn fits(self, entries: Seq<Airport>) -> bool {
        self.dep@.len() == entries.len() && self.arr@.len() == entries.len()
    }
}

/// A track with the distances of its ends.
#[derive(Debug)]
pub struct MeasuredTrack {
    pub ends: TrackEnds,
    pub near: EndDistances,
}

/// A track with the idents of the airports that its ends snap to.
#[derive(Debug)]
pub struct SnappedTrack {
    pub ends: TrackEnds,
    pub dep_airport: Option<String>,
    pub arr_airport: Option<String>,
}

impl Clone for SnappedTrack {
    fn clone(&self) -> (r: Self)
        ensures
            r == *self,
    {
        SnappedTrack {
            ends: self.ends.clone(),
            dep_airport: text::clone_text(&self.dep_airport),
            arr_airport: text::clone_text(&self.arr_airport),
        }
    }
}

/// The ident of the airport that a coordinate snaps to, by its distances.
pub open spec fn snapped_ident(entries: Seq<Airport>, distances: Seq<Double>) -> Option<String> {
    match airports::snap_hit(entries, distances, Double { bits: airports::SNAP_RADIUS_KM_BITS }) {
        Some(k) => Some(entries[k].ident),
        None => None,
    }
}

/// A track with its ends snapped; none where there is no track.
pub open spec fn snapped(
    track: Option<TrackEnds>,
    near: Option<EndDistances>,
    entries: Seq<Airport>,
) -> Option<SnappedTrack> {
    match (track, near) {
        (Some(ends), Some(n)) => Some(
            SnappedTrack {
                ends,
                dep_airport: snapped_ident(entries, n.dep@),
                arr_airport: snapped_ident(entries, n.arr@),
            },
        ),
        _ => None,
    }
}

/// The distances belong to the track: there are some exactly where there is a track, one for each
/// airport.
pub open spec fn measures(
    near: Option<EndDistances>,
    track: Option<TrackEnds>,
    entries: Seq<Airport>,
) -> bool {
    &&& track is Some <==> near is Some
    &&& near matches Some(n) ==> n.fits(entries)
}

/// The track with its ends snapped to airports.
pub fn snap_track(ends: &TrackEnds, near: &EndDistances, airports: &AirportIndex) -> (r: SnappedTrack)
    requires
        near.fits(airports.entries()),
    ensures
        Some(r) == snapped(Some(*ends), Some(*near), airports.entries()),
{
    let dep = airports.snap(ends.dep_lat, ends.dep_lon, &near.dep);
    let arr = airports.snap(ends.arr_lat, ends.arr_lon, &near.arr);
    SnappedTrack { ends: ends.clone(), dep_airport: dep.ident, arr_airport: arr.ident }
}

/// UTC `[00:00:00, 23:59:59]` (86399s, same calendar day).
pub fn utc_day_window(date: UtcDay) -> (r: (i64, i64))
    requires
        date.valid(),
    ensures
        r.0 == date.start(),
        r.1 == date.start() + 86_399,
{
    let start: i64 = date.number as i64 * calendar::DAY_SECS;
    (start, start + 86_399)
}

/// `hours` starting at `start_hour` UTC on `date` (inclusive last second).
pub fn utc_hours_window(date: UtcDay, start_hour: u32, hours: u32) -> (r: (i64, i64))
    requires
        date.valid(),
        start_hour < 24,
    ensures
        r.0 == date.start() + start_hour * 3_600,
        r.1 == r.0 + hours * 3_600 - 1,
{
    let start: i64 = date.number as i64 * calendar::DAY_SECS + start_hour as i64 * 3_600;
    (start, start + hours as i64 * 3_600 - 1)
}

/// The window of the slice with this number on a day.
pub open spec fn slice_window(date: UtcDay, slice_idx: int) -> (int, int) {
    (
        date.start() + slice_idx * FLIGHTS_ALL_SLICE_SECS,
        date.start() + (slice_idx + 1) * FLIGHTS_ALL_SLICE_SECS - 1,
    )
}

/// Twelve adjacent 2-hour windows covering `[00:00:00, 23:59:59]` UTC.
pub fn utc_day_two_hour_slices(date: UtcDay) -> (r: Vec<(i64, i64)>)
    requires
        date.valid(),
    ensures
        r@.len() == FLIGHTS_ALL_SLICES_PER_DAY,
        forall|i: int|
            0 <= i < r@.len() ==> (#[trigger] r@[i]).0 == slice_window(date, i).0 && r@[i].1
                == slice_window(date, i).1,
{
    let (day_begin, day_end) = utc_day_window(date);
    let mut out: Vec<(i64, i64)> = Vec::new();
    let mut i: u32 = 0;
    while i < FLIGHTS_ALL_SLICES_PER_DAY
        invariant
            0 <= i <= FLIGHTS_ALL_SLICES_PER_DAY,
            date.valid(),
            day_begin == date.start(),
            day_end == date.start() + 86_399,
            out@.len() == i,
            forall|j: int|
                0 <= j < i ==> (#[trigger] out@[j]).0 == slice_window(date, j).0 && out@[j].1
                    == slice_window(date, j).1,
        decreases FLIGHTS_ALL_SLICES_PER_DAY - i,
    {
        let begin: i64 = day_begin + i as i64 * FLIGHTS_ALL_SLICE_SECS;
        let last: i64 = begin + FLIGHTS_ALL_SLICE_SECS - 1;
        let end: i64 = if last < day_end {
            last
        } else {
            day_end
        };
        out.push((begin, end));
        i += 1;
    }
    out
}

/// The twelve slices of a day cover it: the first begins with the day, the last ends with it, and
/// each begins where the one before it has ended. Every one is as long as `/flights/all` takes.
pub proof fn law_slices_cover_the_day(date: UtcDay)
    ensures
        slice_window(date, 0).0 == date.start(),
        slice_window(date, FLIGHTS_ALL_SLICES_PER_DAY - 1).1 == date.start() + calendar::DAY_SECS
            - 1,
        forall|i: int| #[trigger]
            slice_window(date, i).0 == slice_window(date, i - 1).1 + 1,
        forall|i: int| (#[trigger] slice_window(date, i)).1 - slice_window(date, i).0
            == FLIGHTS_ALL_SLICE_SECS - 1,
{
}

/// The flights of the fleet, as they stand.
pub open spec fn fleet_flights(flights: Seq<Flight>, fleet: Set<Seq<char>>) -> Seq<Flight> {
    flights.filter(|f: Flight| fleet.contains(f.icao24@))
}

/// The flights of the fleet, as they stand.
pub fn filter_flights_to_fleet(flights: &Vec<Flight>, fleet: &KeySet<String>) -> (r: Vec<Flight>)
    ensures
        r@ == fleet_flights(flights@, fleet@),
{
    let mut out: Vec<Flight> = Vec::new();
    let mut i: usize = 0;
    proof {
        reveal(Seq::filter);
    }
    while i < flights.len()
        invariant
            0 <= i <= flights@.len(),
            out@ == fleet_flights(flights@.take(i as int), fleet@),
        decreases flights@.len() - i,
    {
        proof {
            reveal(Seq::filter);
            assert(flights@.take(i + 1).drop_last() =~= flights@.take(i as int));
        }
        if fleet.contains(&flights[i].icao24) {
            out.push(flights[i].clone());
        }
        i += 1;
    }
    proof {
        assert(flights@.take(i as int) =~= flights@);
    }
    out
}

/// Keeping the flights of one fleet and then of another keeps those of the aircraft in both.
pub proof fn law_filter_twice(flights: Seq<Flight>, a: Set<Seq<char>>, b: Set<Seq<char>>)
    ensures
        fleet_flights(fleet_flights(flights, a), b) == fleet_flights(flights, a.intersect(b)),
    decreases flights.len(),
{
    reveal(Seq::filter);
    if flights.len() > 0 {
        let front = flights.drop_last();
        law_filter_twice(front, a, b);
        if a.contains(flights.last().icao24@) {
            let kept = fleet_flights(front, a);
            assert(kept.push(flights.last()).drop_last() =~= kept);
        }
    }
}

/// A text that is missing or empty is none.
pub open spec fn given_text(t: Option<String>) -> Option<Seq<char>> {
    match t {
        Some(s) => if s@.len() > 0 {
            Some(s@)
        } else {
            None
        },
        None => None,
    }
}

/// The airport of an ident that may be missing.
pub open spec fn airport_of(entries: Seq<Airport>, ident: Option<Seq<char>>) -> Option<Airport> {
    match ident {
        Some(id) => airports::airport_named(entries, id),
        None => None,
    }
}

/// An ident that is given, and whose airport is not reported farther than [`AIRPORT_RADIUS_M`].
pub open spec fn near_ident(ident: Option<String>, horiz_m: Option<i64>) -> Option<Seq<char>> {
    if horiz_m matches Some(m) && m > AIRPORT_RADIUS_M {
        None
    } else {
        given_text(ident)
    }
}

/// The airport ident that a flight departs from.
pub open spec fn dep_ident(flight: Flight) -> Option<Seq<char>> {
    near_ident(flight.est_departure_airport, flight.est_departure_airport_horiz_distance)
}

/// The airport ident that a flight lands at.
pub open spec fn arr_ident(flight: Flight) -> Option<Seq<char>> {
    near_ident(flight.est_arrival_airport, flight.est_arrival_airport_horiz_distance)
}

/// The flight is reported to land at the ident it departed from.
pub open spec fn same_ident(flight: Flight) -> bool {
    &&& given_text(flight.est_departure_airport) is Some
    &&& given_text(flight.est_departure_airport) == given_text(flight.est_arrival_airport)
}

/// Both airports of the flight are known, and neither is reported too far away.
pub open spec fn can_place(flight: Flight, entries: Seq<Airport>) -> bool {
    airport_of(entries, dep_ident(flight)) is Some && airport_of(entries, arr_ident(flight)) is Some
}

/// One end of a trip.
#[verifier::ext_equal]
pub struct EndView {
    pub at: Option<(Double, Double)>,
    pub airport: Option<Seq<char>>,
    pub place: Option<PlaceView>,
}

/// Where a flight ends on one side: at the airport of its ident where that is known; else where its
/// track ends, with the airport that this snaps to, and with the coordinate for a place where it
/// snaps to none. Without either nothing but the ident, if it has one.
pub open spec fn end_of(
    entries: Seq<Airport>,
    ident: Option<Seq<char>>,
    track_end: Option<((Double, Double), Option<String>)>,
) -> EndView {
    match airport_of(entries, ident) {
        Some(a) => EndView {
            at: Some((a.lat, a.lon)),
            airport: ident,
            place: place_of(ident, Some((a.lat, a.lon))),
        },
        None => match track_end {
            Some((at, hit)) => EndView {
                at: Some(at),
                airport: text::opt_view(hit),
                place: place_of(text::opt_view(hit), Some(at)),
            },
            None => EndView { at: None, airport: None, place: place_of(ident, None) },
        },
    }
}

/// Where a flight departs.
pub open spec fn dep_end(
    flight: Flight,
    entries: Seq<Airport>,
    track: Option<SnappedTrack>,
) -> EndView {
    end_of(
        entries,
        dep_ident(flight),
        match track {
            Some(t) => Some(((t.ends.dep_lat, t.ends.dep_lon), t.dep_airport)),
            None => None,
        },
    )
}

/// Where a flight arrives.
pub open spec fn arr_end(
    flight: Flight,
    entries: Seq<Airport>,
    track: Option<SnappedTrack>,
) -> EndView {
    end_of(
        entries,
        arr_ident(flight),
        match track {
            Some(t) => Some(((t.ends.arr_lat, t.ends.arr_lon), t.arr_airport)),
            None => None,
        },
    )
}

/// A place by its ident, else by its coordinate.
pub open spec fn place_of(
    ident: Option<Seq<char>>,
    at: Option<(Double, Double)>,
) -> Option<PlaceView> {
    match ident {
        Some(id) => Some(PlaceView::Ident(id)),
        None => match at {
            Some((lat, lon)) => Some(PlaceView::LatLon(lat, lon)),
            None => None,
        },
    }
}

/// The trip of a flight whose track was snapped: none where it is reported to land at the ident it
/// departed from, where nothing tells where it departs, or where the calendar cannot hold its
/// departure. An ident whose airport is reported too far away counts for nothing: the end of the
/// track stands in its place.
pub open spec fn snapped_trip(
    flight: Flight,
    row: FleetRow,
    entries: Seq<Airport>,
    track: Option<SnappedTrack>,
    fetched_at: Seq<char>,
    source: TripSource,
) -> Option<TripView> {
    let dep = dep_end(flight, entries, track);
    let arr = arr_end(flight, entries, track);
    if same_ident(flight) || dep.at is None || !calendar::instant_in_range(flight.first_seen) {
        None
    } else {
        Some(
            TripView {
                icao24: row.icao24@,
                dep_ts: calendar::iso_text(flight.first_seen),
                arr_ts: match flight.last_seen {
                    Some(t) => if calendar::instant_in_range(t) {
                        Some(calendar::iso_text(t))
                    } else {
                        None
                    },
                    None => None,
                },
                n_number: row.n_number@,
                ticker: row.ticker@,
                cik: text::opt_view(row.cik),
                dep_lat: Some((dep.at->0).0),
                dep_lon: Some((dep.at->0).1),
                arr_lat: match arr.at {
                    Some(p) => Some(p.0),
                    None => None,
                },
                arr_lon: match arr.at {
                    Some(p) => Some(p.1),
                    None => None,
                },
                dep_airport: dep.airport,
                arr_airport: arr.airport,
                dep_place: dep.place,
                arr_place: arr.place,
                source: source.name(),
                fetched_at,
                callsign: match flight.callsign {
                    Some(c) => Some(c@),
                    None => match track {
                        Some(t) => text::opt_view(t.ends.callsign),
                        None => None,
                    },
                },
                dep_airport_horiz_m: flight.est_departure_airport_horiz_distance,
                dep_airport_vert_m: flight.est_departure_airport_vert_distance,
                arr_airport_horiz_m: flight.est_arrival_airport_horiz_distance,
                arr_airport_vert_m: flight.est_arrival_airport_vert_distance,
                dep_airport_candidates: flight.departure_airport_candidates_count,
                arr_airport_candidates: flight.arrival_airport_candidates_count,
            },
        )
    }
}

/// The trip of a flight, the ends of its track snapped to airports by their distances.
pub open spec fn trip_of(
    flight: Flight,
    row: FleetRow,
    entries: Seq<Airport>,
    track: Option<TrackEnds>,
    near: Option<EndDistances>,
    fetched_at: Seq<char>,
    source: TripSource,
) -> Option<TripView> {
    snapped_trip(flight, row, entries, snapped(track, near, entries), fetched_at, source)
}

/// An ident that is given, not empty and not too far away, and the airport it names.
fn resolve<'a>(ident: &Option<String>, horiz_m: Option<i64>, airports: &'a AirportIndex) -> (r: (
    Option<String>,
    Option<&'a Airport>,
))
    requires
        airports.wf(),
    ensures
        text::opt_view(r.0) == near_ident(*ident, horiz_m),
        r.1 is Some <==> airport_of(airports.entries(), near_ident(*ident, horiz_m)) is Some,
        r.1 matches Some(a) ==> Some(*a) == airport_of(
            airports.entries(),
            near_ident(*ident, horiz_m),
        ),
{
    if let Some(m) = horiz_m {
        if m > AIRPORT_RADIUS_M {
            return (None, None);
        }
    }
    match ident {
        Some(id) => {
            if id.as_str().is_empty() {
                (None, None)
            } else {
                (Some(id.clone()), airports.by_ident(id.as_str()))
            }
        },
        None => (None, None),
    }
}

/// Whether the flight is reported to land at the ident it departed from.
fn lands_where_it_departed(flight: &Flight) -> (r: bool)
    ensures
        r == same_ident(*flight),
{
    match (&flight.est_departure_airport, &flight.est_arrival_airport) {
        (Some(dep), Some(arr)) => !dep.as_str().is_empty() && text::same_text(
            dep.as_str(),
            arr.as_str(),
        ),
        _ => false,
    }
}

/// Whether both airports of the flight are known, and neither is reported too far away.
pub fn placeable(flight: &Flight, airports: &AirportIndex) -> (r: bool)
    requires
        airports.wf(),
    ensures
        r == can_place(*flight, airports.entries()),
{
    let dep = resolve(
        &flight.est_departure_airport,
        flight.est_departure_airport_horiz_distance,
        airports,
    ).1;
    let arr = resolve(
        &flight.est_arrival_airport,
        flight.est_arrival_airport_horiz_distance,
        airports,
    ).1;
    dep.is_some() && arr.is_some()
}

/// One end of a trip.
struct End {
    at: Option<(Double, Double)>,
    airport: Option<String>,
    place: Option<Place>,
}

impl View for End {
    type V = EndView;

    closed spec fn view(&self) -> EndView {
        EndView {
            at: self.at,
            airport: text::opt_view(self.airport),
            place: airports::opt_place(self.place),
        }
    }
}

/// Where a flight ends on one side.
fn settle(
    ident: &Option<String>,
    horiz_m: Option<i64>,
    airports: &AirportIndex,
    track_end: Option<((Double, Double), &Option<String>)>,
) -> (r: End)
    requires
        airports.wf(),
    ensures
        r@ == end_of(
            airports.entries(),
            near_ident(*ident, horiz_m),
            match track_end {
                Some((at, hit)) => Some((at, *hit)),
                None => None,
            },
        ),
{
    let (id, known) = resolve(ident, horiz_m, airports);
    match known {
        Some(a) => {
            let at = Some((a.lat, a.lon));
            End { at, place: place(&id, at), airport: id }
        },
        None => match track_end {
            Some((p, hit)) => {
                let at = Some(p);
                End { at, place: place(hit, at), airport: text::clone_text(hit) }
            },
            None => End { at: None, place: place(&id, None), airport: None },
        },
    }
}

fn place(ident: &Option<String>, at: Option<(Double, Double)>) -> (r: Option<Place>)
    ensures
        airports::opt_place(r) == place_of(text::opt_view(*ident), at),
{
    match ident {
        Some(id) => Some(Place::Ident(id.clone())),
        None => match at {
            Some((lat, lon)) => Some(Place::LatLon(lat, lon)),
            None => None,
        },
    }
}

/// The trip of a flight, the ends of its track snapped to airports by their distances.
pub fn flight_to_trip(
    flight: &Flight,
    row: &FleetRow,
    airports: &AirportIndex,
    track: &Option<TrackEnds>,
    near: &Option<EndDistances>,
    fetched_at: &str,
    source: TripSource,
) -> (r: Option<TripRow>)
    requires
        airports.wf(),
        measures(*near, *track, airports.entries()),
    ensures
        r is Some <==> trip_of(
            *flight,
            *row,
            airports.entries(),
            *track,
            *near,
            fetched_at@,
            source,
        ) is Some,
        r matches Some(t) ==> Some(t@) == trip_of(
            *flight,
            *row,
            airports.entries(),
            *track,
            *near,
            fetched_at@,
            source,
        ),
{
    let snapped_ends: Option<SnappedTrack> = match (track, near) {
        (Some(ends), Some(n)) => Some(snap_track(ends, n, airports)),
        _ => None,
    };
    snapped_to_trip(flight, row, airports, &snapped_ends, fetched_at, source)
}

/// The trip of a flight whose track was snapped: none where it is reported to land at the ident it
/// departed from, where nothing tells where it departs, or where the calendar cannot hold its
/// departure.
pub fn snapped_to_trip(
    flight: &Flight,
    row: &FleetRow,
    airports: &AirportIndex,
    track: &Option<SnappedTrack>,
    fetched_at: &str,
    source: TripSource,
) -> (r: Option<TripRow>)
    requires
        airports.wf(),
    ensures
        r is Some <==> snapped_trip(
            *flight,
            *row,
            airports.entries(),
            *track,
            fetched_at@,
            source,
        ) is Some,
        r matches Some(t) ==> Some(t@) == snapped_trip(
            *flight,
            *row,
            airports.entries(),
            *track,
            fetched_at@,
            source,
        ),
{
    if lands_where_it_departed(flight) {
        return None;
    }
    let dep = settle(
        &flight.est_departure_airport,
        flight.est_departure_airport_horiz_distance,
        airports,
        match track {
            Some(t) => Some(((t.ends.dep_lat, t.ends.dep_lon), &t.dep_airport)),
            None => None,
        },
    );
    let arr = settle(
        &flight.est_arrival_airport,
        flight.est_arrival_airport_horiz_distance,
        airports,
        match track {
            Some(t) => Some(((t.ends.arr_lat, t.ends.arr_lon), &t.arr_airport)),
            None => None,
        },
    );
    proof {
        assert(dep@ == dep_end(*flight, airports.entries(), *track));
        assert(arr@ == arr_end(*flight, airports.entries(), *track));
    }
    let (dep_lat, dep_lon) = match dep.at {
        Some(p) => p,
        None => {
            return None;
        },
    };
    let dep_ts = match calendar::unix_to_iso(flight.first_seen) {
        Some(t) => t,
        None => {
            return None;
        },
    };
    let arr_ts = match flight.last_seen {
        Some(t) => calendar::unix_to_iso(t),
        None => None,
    };
    let (arr_lat, arr_lon): (Option<Double>, Option<Double>) = match arr.at {
        Some((la, lo)) => (Some(la), Some(lo)),
        None => (None, None),
    };
    let callsign = match &flight.callsign {
        Some(c) => Some(c.clone()),
        None => match track {
            Some(t) => text::clone_text(&t.ends.callsign),
            None => None,
        },
    };
    Some(
        TripRow {
            icao24: row.icao24.clone(),
            dep_ts,
            arr_ts,
            n_number: row.n_number.clone(),
            ticker: row.ticker.clone(),
            cik: text::clone_text(&row.cik),
            dep_lat: Some(dep_lat),
            dep_lon: Some(dep_lon),
            arr_lat,
            arr_lon,
            dep_airport: dep.airport,
            arr_airport: arr.airport,
            dep_place: dep.place,
            arr_place: arr.place,
            source: source.as_str().to_owned(),
            fetched_at: fetched_at.to_owned(),
            callsign,
            dep_airport_horiz_m: flight.est_departure_airport_horiz_distance,
            dep_airport_vert_m: flight.est_departure_airport_vert_distance,
            arr_airport_horiz_m: flight.est_arrival_airport_horiz_distance,
            arr_airport_vert_m: flight.est_arrival_airport_vert_distance,
            dep_airport_candidates: flight.departure_airport_candidates_count,
            arr_airport_candidates: flight.arrival_airport_candidates_count,
        },
    )
}

/// A trip says where it arrives only where something tells: without an arrival ident and without
/// a track there is no arrival place, however well the departure is known. An airport is named as
/// the place. And a trip carries the address of the fleet row, whatever the flight says of itself.
pub proof fn law_departure_is_no_arrival(
    flight: Flight,
    row: FleetRow,
    entries: Seq<Airport>,
    track: Option<TrackEnds>,
    near: Option<EndDistances>,
    fetched_at: Seq<char>,
    source: TripSource,
)
    requires
        measures(near, track, entries),
    ensures
        trip_of(flight, row, entries, track, near, fetched_at, source) matches Some(t) ==> {
            &&& t.icao24 == row.icao24@
            &&& t.dep_lat is Some && t.dep_lon is Some && t.dep_place is Some
            &&& given_text(flight.est_arrival_airport) is None && track is None ==> t.arr_lat is None
                && t.arr_lon is None && t.arr_place is None && t.arr_airport is None
            &&& t.dep_airport is Some ==> t.dep_place == Some(PlaceView::Ident(t.dep_airport->0))
            &&& t.arr_airport is Some ==> t.arr_place == Some(PlaceView::Ident(t.arr_airport->0))
        },
{
}

/// An estimated ident whose airport is reported farther than [`AIRPORT_RADIUS_M`] is not used: what
/// stands on that side is the end of the track, with the airport it snaps to or the coordinate, and
/// without a track nothing. Another ident there, as long as the two idents differ, makes no
/// difference.
pub proof fn law_far_ident_is_no_landing(
    flight: Flight,
    row: FleetRow,
    entries: Seq<Airport>,
    track: Option<TrackEnds>,
    near: Option<EndDistances>,
    fetched_at: Seq<char>,
    source: TripSource,
    other: Option<String>,
)
    requires
        measures(near, track, entries),
    ensures
        ({
            let changed = Flight { est_departure_airport: other, ..flight };
            (flight.est_departure_airport_horiz_distance matches Some(m) && m > AIRPORT_RADIUS_M)
                && !same_ident(flight) && !same_ident(changed) ==> trip_of(
                changed,
                row,
                entries,
                track,
                near,
                fetched_at,
                source,
            ) == trip_of(flight, row, entries, track, near, fetched_at, source)
        }),
        ({
            let changed = Flight { est_arrival_airport: other, ..flight };
            (flight.est_arrival_airport_horiz_distance matches Some(m) && m > AIRPORT_RADIUS_M)
                && !same_ident(flight) && !same_ident(changed) ==> trip_of(
                changed,
                row,
                entries,
                track,
                near,
                fetched_at,
                source,
            ) == trip_of(flight, row, entries, track, near, fetched_at, source)
        }),
        trip_of(flight, row, entries, track, near, fetched_at, source) matches Some(t) ==> {
            &&& (flight.est_departure_airport_horiz_distance matches Some(m) && m
                > AIRPORT_RADIUS_M) ==> {
                &&& track matches Some(e) && t.dep_lat == Some(e.dep_lat) && t.dep_lon == Some(
                    e.dep_lon,
                )
                &&& t.dep_airport == text::opt_view(snapped_ident(entries, (near->0).dep@))
                &&& t.dep_place == place_of(
                    t.dep_airport,
                    Some(((track->0).dep_lat, (track->0).dep_lon)),
                )
            }
            &&& (flight.est_arrival_airport_horiz_distance matches Some(m) && m
                > AIRPORT_RADIUS_M) ==> match track {
                Some(e) => {
                    &&& t.arr_lat == Some(e.arr_lat) && t.arr_lon == Some(e.arr_lon)
                    &&& t.arr_airport == text::opt_view(snapped_ident(entries, (near->0).arr@))
                    &&& t.arr_place == place_of(t.arr_airport, Some((e.arr_lat, e.arr_lon)))
                },
                None => t.arr_lat is None && t.arr_lon is None && t.arr_place is None
                    && t.arr_airport is None,
            }
        },
{
}

/// The ident is that of the best airport in the snap radius, by its type and then by its distance,
/// and stands for the place too. There is none, and the coordinate for a place, exactly where the
/// radius holds no airport.
pub open spec fn carries_best(
    airport: Option<Seq<char>>,
    place: Option<PlaceView>,
    at: (Double, Double),
    entries: Seq<Airport>,
    distances: Seq<Double>,
) -> bool {
    let radius = Double { bits: airports::SNAP_RADIUS_KM_BITS };
    match airport {
        Some(id) => {
            &&& place == Some(PlaceView::Ident(id))
            &&& exists|b: int|
                {
                    &&& 0 <= b < entries.len()
                    &&& (#[trigger] entries[b]).ident@ == id
                    &&& airports::in_radius(distances, radius, b)
                    &&& forall|k: int|
                        0 <= k < entries.len() && #[trigger] airports::in_radius(
                            distances,
                            radius,
                            k,
                        ) ==> airports::better_landing(entries, distances, b, k)
                }
        },
        None => {
            &&& place == Some(PlaceView::LatLon(at.0, at.1))
            &&& forall|k: int|
                0 <= k < entries.len() ==> !#[trigger] airports::in_radius(distances, radius, k)
        },
    }
}

proof fn lemma_snapped_end(entries: Seq<Airport>, distances: Seq<Double>, at: (Double, Double))
    requires
        distances.len() == entries.len(),
        forall|k: int| 0 <= k < distances.len() ==> (#[trigger] distances[k]).is_number(),
    ensures
        carries_best(
            text::opt_view(snapped_ident(entries, distances)),
            place_of(text::opt_view(snapped_ident(entries, distances)), Some(at)),
            at,
            entries,
            distances,
        ),
{
    let radius = Double { bits: airports::SNAP_RADIUS_KM_BITS };
    airports::law_snap_is_best_in_radius(entries, distances, radius);
    if let Some(b) = airports::snap_hit(entries, distances, radius) {
        assert(entries[b].ident@ == (snapped_ident(entries, distances)->0)@);
    }
}

/// A stored end within 8 km of a listed airport carries an ident. An end whose ident names a known
/// airport that is not far carries that ident and stands at the airport. Every other end that has a
/// coordinate stands where the track ends, and carries the ident of the best airport in the radius,
/// none only where the radius holds no airport.
pub proof fn law_track_ends_are_snapped(
    flight: Flight,
    row: FleetRow,
    entries: Seq<Airport>,
    track: Option<TrackEnds>,
    near: Option<EndDistances>,
    fetched_at: Seq<char>,
    source: TripSource,
)
    requires
        measures(near, track, entries),
        near matches Some(n) ==> (forall|k: int|
            0 <= k < n.dep@.len() ==> (#[trigger] n.dep@[k]).is_number()) && (forall|k: int|
            0 <= k < n.arr@.len() ==> (#[trigger] n.arr@[k]).is_number()),
    ensures
        trip_of(flight, row, entries, track, near, fetched_at, source) matches Some(t) ==> {
            &&& match airport_of(entries, dep_ident(flight)) {
                Some(a) => t.dep_airport == dep_ident(flight) && t.dep_lat == Some(a.lat)
                    && t.dep_lon == Some(a.lon),
                None => {
                    &&& track matches Some(e) && t.dep_lat == Some(e.dep_lat) && t.dep_lon == Some(
                        e.dep_lon,
                    )
                    &&& carries_best(
                        t.dep_airport,
                        t.dep_place,
                        ((track->0).dep_lat, (track->0).dep_lon),
                        entries,
                        (near->0).dep@,
                    )
                },
            }
            &&& match airport_of(entries, arr_ident(flight)) {
                Some(a) => t.arr_airport == arr_ident(flight) && t.arr_lat == Some(a.lat)
                    && t.arr_lon == Some(a.lon),
                None => match track {
                    Some(e) => {
                        &&& t.arr_lat == Some(e.arr_lat) && t.arr_lon == Some(e.arr_lon)
                        &&& carries_best(
                            t.arr_airport,
                            t.arr_place,
                            (e.arr_lat, e.arr_lon),
                            entries,
                            (near->0).arr@,
                        )
                    },
                    None => t.arr_lat is None && t.arr_lon is None && t.arr_airport is None,
                },
            }
        },
{
    if let (Some(e), Some(n)) = (track, near) {
        lemma_snapped_end(entries, n.dep@, (e.dep_lat, e.dep_lon));
        lemma_snapped_end(entries, n.arr@, (e.arr_lat, e.arr_lon));
    }
}

/// A flight has a trip exactly where it does not land at the ident it departed from, has a known
/// airport near its departure or a track, and departs at a time that the calendar can hold.
pub proof fn law_trip_needs_a_departure(
    flight: Flight,
    row: FleetRow,
    entries: Seq<Airport>,
    track: Option<TrackEnds>,
    near: Option<EndDistances>,
    fetched_at: Seq<char>,
    source: TripSource,
)
    requires
        measures(near, track, entries),
    ensures
        trip_of(flight, row, entries, track, near, fetched_at, source) is Some <==> {
            &&& !same_ident(flight)
            &&& airport_of(entries, dep_ident(flight)) is Some || track is Some
            &&& calendar::instant_in_range(flight.first_seen)
        },
{
}

/// The trip of a flight that can be placed rests on its idents alone: it is from airport to
/// airport, and a track adds at most a callsign.
pub proof fn law_placed_trip_needs_no_track(
    flight: Flight,
    row: FleetRow,
    entries: Seq<Airport>,
    track: Option<TrackEnds>,
    near: Option<EndDistances>,
    fetched_at: Seq<char>,
    source: TripSource,
)
    requires
        can_place(flight, entries),
    ensures
        ({
            let with = trip_of(flight, row, entries, track, near, fetched_at, source);
            let without = trip_of(flight, row, entries, None, None, fetched_at, source);
            &&& with is Some <==> without is Some
            &&& with matches Some(t) ==> {
                &&& t.dep_airport is Some && t.arr_airport is Some
                &&& t.dep_airport != t.arr_airport
                &&& without == Some(TripView { callsign: (without->0).callsign, ..t })
            }
        }),
{
}

/// The columns of a trip, one by one: it carries the address, the registration, the ticker and the
/// company key of its fleet row; the time at which the flight was first seen as its departure, and
/// the time at which it was last seen as its arrival; the callsign of the flight, or of the track
/// where the flight has none; the six numbers on the quality of the flight's estimates, each in its
/// own column; and the source and the time of fetching that it was made with.
pub proof fn law_trip_columns(
    flight: Flight,
    row: FleetRow,
    entries: Seq<Airport>,
    track: Option<SnappedTrack>,
    fetched_at: Seq<char>,
    source: TripSource,
)
    ensures
        snapped_trip(flight, row, entries, track, fetched_at, source) matches Some(t) ==> {
            &&& t.icao24 == row.icao24@
            &&& t.n_number == row.n_number@
            &&& t.ticker == row.ticker@
            &&& t.cik == match row.cik {
                Some(c) => Some(c@),
                None => None,
            }
            &&& t.dep_ts == calendar::instant_format(flight.first_seen, "%Y-%m-%dT%H:%M:%SZ"@)
            &&& match flight.last_seen {
                Some(s) => t.arr_ts == (if calendar::instant_in_range(s) {
                    Some(calendar::instant_format(s, "%Y-%m-%dT%H:%M:%SZ"@))
                } else {
                    None
                }),
                None => t.arr_ts is None,
            }
            &&& flight.callsign matches Some(c) ==> t.callsign == Some(c@)
            &&& flight.callsign is None ==> match track {
                Some(e) => match e.ends.callsign {
                    Some(c) => t.callsign == Some(c@),
                    None => t.callsign is None,
                },
                None => t.callsign is None,
            }
            &&& t.dep_airport_horiz_m == flight.est_departure_airport_horiz_distance
            &&& t.dep_airport_vert_m == flight.est_departure_airport_vert_distance
            &&& t.arr_airport_horiz_m == flight.est_arrival_airport_horiz_distance
            &&& t.arr_airport_vert_m == flight.est_arrival_airport_vert_distance
            &&& t.dep_airport_candidates == flight.departure_airport_candidates_count
            &&& t.arr_airport_candidates == flight.arrival_airport_candidates_count
            &&& t.fetched_at == fetched_at
            &&& match source {
                TripSource::OpenskyFlights => t.source == "opensky_flights"@,
                TripSource::OpenskyTrack => t.source == "opensky_track"@,
                TripSource::AdsBxLive => t.source == "adsbx_live"@,
            }
        },
{
}

/// Where a trip departs, by the fields of its flight: at the airport that the estimated ident names,
/// where the ident is not empty, names one that is known, and is not reported more than 8000 metres
/// off; else where the track begins, with the airport that this snaps to.
pub proof fn law_trip_departs_by_fields(
    flight: Flight,
    row: FleetRow,
    entries: Seq<Airport>,
    track: Option<SnappedTrack>,
    fetched_at: Seq<char>,
    source: TripSource,
)
    ensures
        ({
            let far = flight.est_departure_airport_horiz_distance matches Some(m) && m > 8_000;
            let known = flight.est_departure_airport matches Some(id) && id@.len() > 0
                && airports::airport_named(entries, id@) is Some;
            snapped_trip(flight, row, entries, track, fetched_at, source) matches Some(t) ==> {
                &&& !far && known ==> {
                    let id = (flight.est_departure_airport->0)@;
                    let a = airports::airport_named(entries, id)->0;
                    &&& t.dep_airport == Some(id)
                    &&& t.dep_place == Some(PlaceView::Ident(id))
                    &&& t.dep_lat == Some(a.lat)
                    &&& t.dep_lon == Some(a.lon)
                }
                &&& far || !known ==> {
                    &&& track matches Some(e)
                    &&& t.dep_lat == Some(e.ends.dep_lat)
                    &&& t.dep_lon == Some(e.ends.dep_lon)
                    &&& match e.dep_airport {
                        Some(id) => t.dep_airport == Some(id@) && t.dep_place == Some(
                            PlaceView::Ident(id@),
                        ),
                        None => t.dep_airport is None && t.dep_place == Some(
                            PlaceView::LatLon(e.ends.dep_lat, e.ends.dep_lon),
                        ),
                    }
                }
            }
        }),
{
}

/// Where a trip arrives, by the fields of its flight: at the airport that the estimated ident names,
/// where the ident is not empty, names one that is known, and is not reported more than 8000 metres
/// off; else where the track ends, with the airport that this snaps to. Without a track it has no
/// coordinate and no airport, and an ident that is not far stands for the place.
pub proof fn law_trip_arrives_by_fields(
    flight: Flight,
    row: FleetRow,
    entries: Seq<Airport>,
    track: Option<SnappedTrack>,
    fetched_at: Seq<char>,
    source: TripSource,
)
    ensures
        ({
            let far = flight.est_arrival_airport_horiz_distance matches Some(m) && m > 8_000;
            let given = flight.est_arrival_airport matches Some(id) && id@.len() > 0;
            let known = flight.est_arrival_airport matches Some(id) && id@.len() > 0
                && airports::airport_named(entries, id@) is Some;
            snapped_trip(flight, row, entries, track, fetched_at, source) matches Some(t) ==> {
                &&& !far && known ==> {
                    let id = (flight.est_arrival_airport->0)@;
                    let a = airports::airport_named(entries, id)->0;
                    &&& t.arr_airport == Some(id)
                    &&& t.arr_place == Some(PlaceView::Ident(id))
                    &&& t.arr_lat == Some(a.lat)
                    &&& t.arr_lon == Some(a.lon)
                }
                &&& far || !known ==> match track {
                    Some(e) => {
                        &&& t.arr_lat == Some(e.ends.arr_lat)
                        &&& t.arr_lon == Some(e.ends.arr_lon)
                        &&& match e.arr_airport {
                            Some(id) => t.arr_airport == Some(id@) && t.arr_place == Some(
                                PlaceView::Ident(id@),
                            ),
                            None => t.arr_airport is None && t.arr_place == Some(
                                PlaceView::LatLon(e.ends.arr_lat, e.ends.arr_lon),
                            ),
                        }
                    },
                    None => {
                        &&& t.arr_lat is None && t.arr_lon is None && t.arr_airport is None
                        &&& !far && given ==> t.arr_place == Some(
                            PlaceView::Ident((flight.est_arrival_airport->0)@),
                        )
                        &&& far || !given ==> t.arr_place is None
                    },
                }
            }
        }),
{
}

/// When a flight has a trip, by its fields: not where both idents are given and the same; else
/// exactly where it has a track, or an ident of departure that is not empty, is not reported more
/// than 8000 metres off and names a known airport, and where the calendar can hold the time at
/// which it was first seen.
pub proof fn law_trip_exists_by_fields(
    flight: Flight,
    row: FleetRow,
    entries: Seq<Airport>,
    track: Option<SnappedTrack>,
    fetched_at: Seq<char>,
    source: TripSource,
)
    ensures
        snapped_trip(flight, row, entries, track, fetched_at, source) is Some <==> {
            &&& match (flight.est_departure_airport, flight.est_arrival_airport) {
                (Some(d), Some(a)) => d@.len() == 0 || d@ != a@,
                _ => true,
            }
            &&& track is Some || (flight.est_departure_airport matches Some(id) && id@.len() > 0 && (
            flight.est_departure_airport_horiz_distance matches Some(m) ==> m <= 8_000)
                && airports::airport_named(entries, id@) is Some)
            &&& calendar::instant_in_range(flight.first_seen)
        },
{
}

/// A flight needs no track exactly where both its idents are given, are not reported more than 8000
/// metres off, and name known airports.
pub proof fn law_can_place_by_fields(flight: Flight, entries: Seq<Airport>)
    ensures
        can_place(flight, entries) <==> {
            &&& flight.est_departure_airport matches Some(d) && d@.len() > 0
                && airports::airport_named(entries, d@) is Some
            &&& flight.est_arrival_airport matches Some(a) && a@.len() > 0
                && airports::airport_named(entries, a@) is Some
            &&& flight.est_departure_airport_horiz_distance matches Some(m) ==> m <= 8_000
            &&& flight.est_arrival_airport_horiz_distance matches Some(m) ==> m <= 8_000
        },
{
}

/// Each end of a track is snapped by its own distances, to an airport within 8 kilometres: to a
/// large one where one is there, else to a medium one, else to a small one, and to a heliport only
/// where nothing else is there. The coordinates and the callsign of the track stay as they are.
pub proof fn law_track_is_snapped_by_kind(ends: TrackEnds, near: EndDistances, entries: Seq<Airport>)
    requires
        near.fits(entries),
    ensures
        snapped(Some(ends), Some(near), entries) matches Some(t) && t.ends == ends,
        forall|k: int|
            0 <= k < entries.len() && !(Double { bits: 0x4020_0000_0000_0000 }).lt(
                #[trigger] near.dep@[k],
            ) ==> exists|b: int|
                0 <= b < entries.len() && !(Double { bits: 0x4020_0000_0000_0000 }).lt(near.dep@[b])
                    && (snapped(Some(ends), Some(near), entries)->0).dep_airport == Some(
                    (#[trigger] entries[b]).ident,
                ) && match entries[k].kind {
                    airports::AirportType::Large => entries[b].kind is Large,
                    airports::AirportType::Medium => entries[b].kind is Large
                        || entries[b].kind is Medium,
                    airports::AirportType::Small => !(entries[b].kind is Heliport),
                    airports::AirportType::Heliport => true,
                },
        forall|k: int|
            0 <= k < entries.len() && !(Double { bits: 0x4020_0000_0000_0000 }).lt(
                #[trigger] near.arr@[k],
            ) ==> exists|b: int|
                0 <= b < entries.len() && !(Double { bits: 0x4020_0000_0000_0000 }).lt(near.arr@[b])
                    && (snapped(Some(ends), Some(near), entries)->0).arr_airport == Some(
                    (#[trigger] entries[b]).ident,
                ) && match entries[k].kind {
                    airports::AirportType::Large => entries[b].kind is Large,
                    airports::AirportType::Medium => entries[b].kind is Large
                        || entries[b].kind is Medium,
                    airports::AirportType::Small => !(entries[b].kind is Heliport),
                    airports::AirportType::Heliport => true,
                },
{
    let radius = Double { bits: 0x4020_0000_0000_0000 };
    airports::law_snap_by_kind(entries, near.dep@, radius);
    airports::law_snap_by_kind(entries, near.arr@, radius);
    assert forall|k: int| 0 <= k < entries.len() && !radius.lt(#[trigger] near.dep@[k]) implies exists|
        b: int,
    |
        0 <= b < entries.len() && !radius.lt(near.dep@[b]) && (snapped(
            Some(ends),
            Some(near),
            entries,
        )->0).dep_airport == Some((#[trigger] entries[b]).ident) && match entries[k].kind {
            airports::AirportType::Large => entries[b].kind is Large,
            airports::AirportType::Medium => entries[b].kind is Large || entries[b].kind is Medium,
            airports::AirportType::Small => !(entries[b].kind is Heliport),
            airports::AirportType::Heliport => true,
        } by {
        let b = airports::snap_hit(entries, near.dep@, radius)->0;
        assert(entries[b] == entries[b]);
    }
    assert forall|k: int| 0 <= k < entries.len() && !radius.lt(#[trigger] near.arr@[k]) implies exists|
        b: int,
    |
        0 <= b < entries.len() && !radius.lt(near.arr@[b]) && (snapped(
            Some(ends),
            Some(near),
            entries,
        )->0).arr_airport == Some((#[trigger] entries[b]).ident) && match entries[k].kind {
            airports::AirportType::Large => entries[b].kind is Large,
            airports::AirportType::Medium => entries[b].kind is Large || entries[b].kind is Medium,
            airports::AirportType::Small => !(entries[b].kind is Heliport),
            airports::AirportType::Heliport => true,
        } by {
        let b = airports::snap_hit(entries, near.arr@, radius)->0;
        assert(entries[b] == entries[b]);
    }
}

/// An end of a track has no airport exactly where all airports lie beyond 8 kilometres.
pub proof fn law_lone_track_end_has_no_airport(
    ends: TrackEnds,
    near: EndDistances,
    entries: Seq<Airport>,
)
    requires
        near.fits(entries),
    ensures
        (snapped(Some(ends), Some(near), entries)->0).dep_airport is None <==> forall|k: int|
            0 <= k < entries.len() ==> (Double { bits: 0x4020_0000_0000_0000 }).lt(
                #[trigger] near.dep@[k],
            ),
        (snapped(Some(ends), Some(near), entries)->0).arr_airport is None <==> forall|k: int|
            0 <= k < entries.len() ==> (Double { bits: 0x4020_0000_0000_0000 }).lt(
                #[trigger] near.arr@[k],
            ),
{
    let radius = Double { bits: 0x4020_0000_0000_0000 };
    airports::law_snap_by_kind(entries, near.dep@, radius);
    airports::law_snap_by_kind(entries, near.arr@, radius);
}

/// The slice of a day with a number covers two hours: it begins that many times two hours after
/// midnight and ends with the last second before the next. The clock of any instant on the day
/// tells its slice.
pub proof fn law_slices_by_the_clock(day: UtcDay, hour: int, minute: int, second: int)
    requires
        0 <= hour < 24,
        0 <= minute < 60,
        0 <= second < 60,
    ensures
        ({
            let t = day.number * 86_400 + hour * 3_600 + minute * 60 + second;
            forall|i: int|
                (#[trigger] slice_window(day, i)).0 <= t <= slice_window(day, i).1 <==> i == hour / 2
        }),
        forall|i: int| (#[trigger] slice_window(day, i)).0 == day.number * 86_400 + i * 7_200
            && slice_window(day, i).1 == day.number * 86_400 + i * 7_200 + 7_199,
        FLIGHTS_ALL_SLICES_PER_DAY == 12,
{
}

/// What a poll of a fleet costs: 4 credits for every 80 aircraft, a part of 80 counting as whole.
pub proof fn law_poll_costs_by_eighty(n_hexes: int, requests: int)
    requires
        0 <= n_hexes,
        80 * (requests - 1) < n_hexes <= 80 * requests,
        4 * requests <= u32::MAX,
    ensures
        states_requests(n_hexes) == requests,
        states_credits(n_hexes) == 4 * requests,
{
    assert(states_requests(n_hexes) == requests);
}

/// The flights of a fleet are those of its aircraft, each as often as it stood there, in the order in
/// which they stood: a flight put behind is behind where its aircraft is of the fleet, and is left
/// out where it is not.
pub proof fn law_fleet_flights(flights: Seq<Flight>, fleet: Set<Seq<char>>, f: Flight)
    ensures
        fleet_flights(Seq::empty(), fleet) == Seq::<Flight>::empty(),
        fleet.contains(f.icao24@) ==> fleet_flights(flights.push(f), fleet) == fleet_flights(
            flights,
            fleet,
        ).push(f),
        !fleet.contains(f.icao24@) ==> fleet_flights(flights.push(f), fleet) == fleet_flights(
            flights,
            fleet,
        ),
{
    reveal(Seq::filter);
    assert(flights.push(f).drop_last() =~= flights);
}

/// What is said of an outcome that is an error: the status and the message of a denial or of any
/// other failure, the wait and the rest of the credits of a rate limit. An answer with data, and one
/// that found nothing, are no errors.
pub proof fn law_errors_are_told<T>(outcome: OpenskyOutcome<T>)
    ensures
        match outcome {
            OpenskyOutcome::Success { .. } => outcome.error() is None,
            OpenskyOutcome::NotFound { .. } => outcome.error() is None,
            OpenskyOutcome::Denied { status, message } => outcome.error() == Some(
                "HTTP "@ + text::decimal(status as nat) + ": "@ + message@,
            ),
            OpenskyOutcome::Other { status, message } => outcome.error() == Some(
                "HTTP "@ + text::decimal(status as nat) + ": "@ + message@,
            ),
            OpenskyOutcome::RateLimited { credit } => outcome.error() == Some(
                "HTTP 429 retry-after="@ + text::decimal(
                    if credit.retry_after is Some {
                        credit.retry_after->0 as nat
                    } else {
                        0
                    },
                ) + "s remaining="@ + match credit.remaining {
                    Some(n) => "Some("@ + text::decimal(n as nat) + ")"@,
                    None => "None"@,
                },
            ),
        },
{
}

/// The row that a flight is written as holds, column by column, the registration, the ticker and the
/// company key of its fleet row, the texts of its two times and the six numbers of its estimates.
pub proof fn law_trip_row_columns(
    flight: Flight,
    row: FleetRow,
    airports: AirportIndex,
    track: Option<SnappedTrack>,
    fetched_at: &str,
    source: TripSource,
    r: Option<TripRow>,
)
    requires
        call_ensures(
            snapped_to_trip,
            (&flight, &row, &airports, &track, fetched_at, source),
            r,
        ),
    ensures
        r matches Some(t) ==> {
            &&& t.icao24@ == row.icao24@
            &&& t.n_number@ == row.n_number@
            &&& t.ticker@ == row.ticker@
            &&& text::opt_view(t.cik) == text::opt_view(row.cik)
            &&& t.dep_ts@ == calendar::instant_format(flight.first_seen, "%Y-%m-%dT%H:%M:%SZ"@)
            &&& t.arr_ts matches Some(a) ==> (flight.last_seen matches Some(s) && a@
                == calendar::instant_format(s, "%Y-%m-%dT%H:%M:%SZ"@))
            &&& flight.last_seen matches Some(s) ==> (calendar::instant_in_range(s) ==> t.arr_ts
                is Some)
            &&& t.dep_airport_horiz_m == flight.est_departure_airport_horiz_distance
            &&& t.dep_airport_vert_m == flight.est_departure_airport_vert_distance
            &&& t.arr_airport_horiz_m == flight.est_arrival_airport_horiz_distance
            &&& t.arr_airport_vert_m == flight.est_arrival_airport_vert_distance
            &&& t.dep_airport_candidates == flight.departure_airport_candidates_count
            &&& t.arr_airport_candidates == flight.arrival_airport_candidates_count
            &&& t.fetched_at@ == fetched_at@
        },
{
    law_trip_columns(flight, row, airports.entries(), track, fetched_at@, source);
}

/// The windows of a day, and of some of its hours: from the first second to the last, both on the
/// day's own clock.
pub proof fn law_windows(
    date: UtcDay,
    start_hour: u32,
    hours: u32,
    day: (i64, i64),
    part: (i64, i64),
)
    requires
        call_ensures(utc_day_window, (date,), day),
        call_ensures(utc_hours_window, (date, start_hour, hours), part),
    ensures
        day.0 == date.number * 86_400,
        day.1 == date.number * 86_400 + 86_399,
        part.0 == date.number * 86_400 + start_hour * 3_600,
        part.1 == date.number * 86_400 + (start_hour + hours) * 3_600 - 1,
{
}

/// A cursor advances with data, and with nothing found; and the rest of the credits is what the
/// outcome tells, where it tells one.
pub proof fn law_outcomes_are_read<T>(
    outcome: OpenskyOutcome<T>,
    advances: bool,
    remaining: Option<u32>,
)
    requires
        call_ensures(OpenskyOutcome::<T>::advances_cursor, (&outcome,), advances),
        call_ensures(OpenskyOutcome::<T>::remaining, (&outcome,), remaining),
    ensures
        match outcome {
            OpenskyOutcome::Success { credit, .. } => advances && remaining == credit.remaining,
            OpenskyOutcome::NotFound { credit } => advances && remaining == credit.remaining,
            OpenskyOutcome::RateLimited { credit } => !advances && remaining == credit.remaining,
            OpenskyOutcome::Denied { .. } => !advances && remaining is None,
            OpenskyOutcome::Other { .. } => !advances && remaining is None,
        },
{
}

/// The credits of a run by default are enough for two days at twelve slices of 30 credits, and not
/// for three; and a day costs what its slices do.
pub proof fn law_default_credits(days: int)
    ensures
        days * (12 * 30) <= DEFAULT_MAX_FLIGHTS_CREDITS <==> days <= 2,
        days * FLIGHTS_ALL_DAY_CREDITS == days * (FLIGHTS_ALL_SLICES_PER_DAY
            * FLIGHTS_ALL_SLICE_CREDITS),
        DEFAULT_MAX_FLIGHTS_CREDITS == 800 && FLIGHTS_ALL_SLICE_CREDITS == 30,
        FLIGHTS_ALL_LOOKBACK_DAYS == 90 && FLIGHTS_ALL_HTTP_TIMEOUT_MS == 3 * 60 * 1_000,
{
}

/// The row that a flight is written as, its track measured against the airports: the columns of its
/// fleet row and its own, and at each end the airport that its ident names, where that is given, known
/// and not reported more than 8000 metres off; else the end of the track.
pub proof fn law_flight_to_trip(
    flight: Flight,
    row: FleetRow,
    airports: AirportIndex,
    track: Option<TrackEnds>,
    near: Option<EndDistances>,
    fetched_at: &str,
    source: TripSource,
    r: Option<TripRow>,
)
    requires
        call_ensures(
            flight_to_trip,
            (&flight, &row, &airports, &track, &near, fetched_at, source),
            r,
        ),
        measures(near, track, airports.entries()),
    ensures
        r is Some <==> {
            &&& match (flight.est_departure_airport, flight.est_arrival_airport) {
                (Some(d), Some(a)) => d@.len() == 0 || d@ != a@,
                _ => true,
            }
            &&& track is Some || (flight.est_departure_airport matches Some(id) && id@.len() > 0 && (
            flight.est_departure_airport_horiz_distance matches Some(m) ==> m <= 8_000)
                && airports::airport_named(airports.entries(), id@) is Some)
            &&& calendar::instant_in_range(flight.first_seen)
        },
        r matches Some(t) ==> {
            &&& t.icao24@ == row.icao24@ && t.n_number@ == row.n_number@ && t.ticker@ == row.ticker@
            &&& t.dep_ts@ == calendar::instant_format(flight.first_seen, "%Y-%m-%dT%H:%M:%SZ"@)
            &&& t.dep_airport_horiz_m == flight.est_departure_airport_horiz_distance
            &&& t.arr_airport_horiz_m == flight.est_arrival_airport_horiz_distance
            &&& can_place(flight, airports.entries()) ==> {
                let d = airports::airport_named(
                    airports.entries(),
                    (flight.est_departure_airport->0)@,
                )->0;
                let a = airports::airport_named(
                    airports.entries(),
                    (flight.est_arrival_airport->0)@,
                )->0;
                &&& t.dep_lat == Some(d.lat) && t.dep_lon == Some(d.lon)
                &&& t.arr_lat == Some(a.lat) && t.arr_lon == Some(a.lon)
            }
            &&& flight.est_departure_airport is None ==> (track matches Some(e) && t.dep_lat == Some(
                e.dep_lat,
            ) && t.dep_lon == Some(e.dep_lon))
            &&& flight.est_arrival_airport is None ==> match track {
                Some(e) => t.arr_lat == Some(e.arr_lat) && t.arr_lon == Some(e.arr_lon),
                None => t.arr_lat is None && t.arr_lon is None,
            }
        },
{
    let entries = airports.entries();
    let ends = snapped(track, near, entries);
    law_trip_exists_by_fields(flight, row, entries, ends, fetched_at@, source);
    law_trip_columns(flight, row, entries, ends, fetched_at@, source);
    law_trip_departs_by_fields(flight, row, entries, ends, fetched_at@, source);
    law_trip_arrives_by_fields(flight, row, entries, ends, fetched_at@, source);
    law_can_place_by_fields(flight, entries);
}

/// What a poll of a fleet is taken to cost: 4 credits for every 80 aircraft, a part of 80 counting as
/// whole.
pub proof fn law_estimated_cost(n_hexes: usize, requests: int, r: u32)
    requires
        call_ensures(estimated_states_credits, (n_hexes,), r),
        80 * (requests - 1) < n_hexes <= 80 * requests,
        4 * requests <= u32::MAX,
    ensures
        r == 4 * requests,
{
    law_poll_costs_by_eighty(n_hexes as int, requests);
}

} // verus!
