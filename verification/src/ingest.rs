//! OpenSky flights of one aircraft as trips of the journal.

use crate::airports::{Airport, AirportIndex};
use crate::collapse;
use crate::fleet::FleetRow;
use crate::opensky;
use crate::opensky::{Flight, MeasuredTrack, SnappedTrack};
use crate::order;
use crate::table;
use crate::store::{JournalDb, JournalView, TripRow, TripSource, TripView};
use std::collections::HashMap;
use vstd::prelude::*;

verus! {

/// The track of a flight, by the time it was first seen.
pub open spec fn track_at(tracks: Map<i64, SnappedTrack>, first_seen: i64) -> Option<SnappedTrack> {
    if tracks.contains_key(first_seen) {
        Some(tracks[first_seen])
    } else {
        None
    }
}

/// A trip is one of a track where the flight has a track and no airport, else one of flights.
pub open spec fn source_of(flight: Flight, track: Option<SnappedTrack>) -> TripSource {
    if track is Some && flight.est_departure_airport is None && flight.est_arrival_airport is None {
        TripSource::OpenskyTrack
    } else {
        TripSource::OpenskyFlights
    }
}

/// The trip of a flight with the track that was fetched for it.
pub open spec fn tracked_trip(
    flight: Flight,
    row: FleetRow,
    entries: Seq<Airport>,
    tracks: Map<i64, SnappedTrack>,
    fetched_at: Seq<char>,
) -> Option<TripView> {
    let track = track_at(tracks, flight.first_seen);
    opensky::snapped_trip(flight, row, entries, track, fetched_at, source_of(flight, track))
}

/// The trips of flights, without those that have none.
pub open spec fn trips_each(
    flights: Seq<Flight>,
    row: FleetRow,
    entries: Seq<Airport>,
    tracks: Map<i64, SnappedTrack>,
    fetched_at: Seq<char>,
) -> Seq<TripView>
    decreases flights.len(),
{
    if flights.len() == 0 {
        Seq::empty()
    } else {
        let front = trips_each(flights.drop_last(), row, entries, tracks, fetched_at);
        match tracked_trip(flights.last(), row, entries, tracks, fetched_at) {
            Some(t) => front.push(t),
            None => front,
        }
    }
}

/// The trips of an aircraft's flights, near duplicates counted once.
pub open spec fn trips_of(
    flights: Seq<Flight>,
    row: FleetRow,
    entries: Seq<Airport>,
    tracks: Map<i64, SnappedTrack>,
    fetched_at: Seq<char>,
) -> Seq<TripView> {
    trips_each(collapse::collapsed(flights), row, entries, tracks, fetched_at)
}

/// The journal with trips written one after the other.
pub open spec fn with_trips(journal: JournalView, trips: Seq<TripView>) -> JournalView
    decreases trips.len(),
{
    if trips.len() == 0 {
        journal
    } else {
        with_trips(journal, trips.drop_last()).with_trip(trips.last())
    }
}

pub proof fn lemma_trips_each_len(
    flights: Seq<Flight>,
    row: FleetRow,
    entries: Seq<Airport>,
    tracks: Map<i64, SnappedTrack>,
    fetched_at: Seq<char>,
)
    ensures
        trips_each(flights, row, entries, tracks, fetched_at).len() <= flights.len(),
    decreases flights.len(),
{
    if flights.len() > 0 {
        lemma_trips_each_len(flights.drop_last(), row, entries, tracks, fetched_at);
    }
}

/// The trips of an aircraft's flights, near duplicates counted once, and how many flights have
/// none.
pub fn flights_to_trips(
    row: &FleetRow,
    flights: &Vec<Flight>,
    airports: &AirportIndex,
    tracks: &HashMap<i64, SnappedTrack>,
    fetched_at: &str,
) -> (r: (Vec<TripRow>, u64))
    requires
        airports.wf(),
    ensures
        order::views(r.0@) == trips_of(
            flights@,
            *row,
            airports.entries(),
            tracks@,
            fetched_at@,
        ),
        r.0@.len() + r.1 == collapse::collapsed(flights@).len(),
{
    broadcast use vstd::std_specs::hash::group_hash_axioms;

    let flights = collapse::collapse_near_duplicate_flights(flights);
    let mut out: Vec<TripRow> = Vec::new();
    let mut skipped: u64 = 0;
    let mut i: usize = 0;
    while i < flights.len()
        invariant
            0 <= i <= flights@.len(),
            airports.wf(),
            order::views(out@) == trips_each(
                flights@.take(i as int),
                *row,
                airports.entries(),
                tracks@,
                fetched_at@,
            ),
            out@.len() + skipped == i,
        decreases flights@.len() - i,
    {
        broadcast use vstd::std_specs::hash::group_hash_axioms;

        let f = &flights[i];
        let track: Option<SnappedTrack> = match tracks.get(&f.first_seen) {
            Some(t) => Some(t.clone()),
            None => None,
        };
        let has_airports = f.est_departure_airport.is_some() || f.est_arrival_airport.is_some();
        let source = if track.is_some() && !has_airports {
            TripSource::OpenskyTrack
        } else {
            TripSource::OpenskyFlights
        };
        let ghost done = order::views(out@);
        proof {
            assert(flights@.take(i + 1).drop_last() =~= flights@.take(i as int));
            assert(track == track_at(tracks@, f.first_seen));
        }
        match opensky::snapped_to_trip(f, row, airports, &track, fetched_at, source) {
            Some(trip) => {
                let ghost t = trip@;
                out.push(trip);
                proof {
                    assert(order::views(out@) =~= done.push(t));
                }
            },
            None => {
                skipped += 1;
            },
        }
        i += 1;
    }
    proof {
        assert(flights@.take(i as int) =~= flights@);
    }
    (out, skipped)
}

/// The tracks with their ends snapped by their distances.
pub open spec fn snapped_tracks(tracks: Map<i64, MeasuredTrack>, entries: Seq<Airport>) -> Map<
    i64,
    SnappedTrack,
> {
    Map::new(
        |t: i64| tracks.contains_key(t),
        |t: i64| opensky::snapped(Some(tracks[t].ends), Some(tracks[t].near), entries)->0,
    )
}

/// Trips rest on the tracks of their flights alone.
proof fn lemma_trips_rest_on_their_tracks(
    flights: Seq<Flight>,
    row: FleetRow,
    entries: Seq<Airport>,
    a: Map<i64, SnappedTrack>,
    b: Map<i64, SnappedTrack>,
    fetched_at: Seq<char>,
)
    requires
        forall|i: int|
            0 <= i < flights.len() ==> track_at(a, (#[trigger] flights[i]).first_seen) == track_at(
                b,
                flights[i].first_seen,
            ),
    ensures
        trips_each(flights, row, entries, a, fetched_at) == trips_each(
            flights,
            row,
            entries,
            b,
            fetched_at,
        ),
    decreases flights.len(),
{
    if flights.len() > 0 {
        let front = flights.drop_last();
        assert forall|i: int| 0 <= i < front.len() implies track_at(
            a,
            (#[trigger] front[i]).first_seen,
        ) == track_at(b, front[i].first_seen) by {
            assert(front[i] == flights[i]);
        }
        lemma_trips_rest_on_their_tracks(front, row, entries, a, b, fetched_at);
        assert(flights[flights.len() - 1] == flights.last());
    }
}

/// The tracks of flights, with their ends snapped.
fn snap_tracks(
    flights: &Vec<Flight>,
    tracks: &HashMap<i64, MeasuredTrack>,
    airports: &AirportIndex,
) -> (r: HashMap<i64, SnappedTrack>)
    requires
        forall|t: i64| #[trigger]
            tracks@.contains_key(t) ==> tracks@[t].near.fits(airports.entries()),
    ensures
        forall|i: int|
            0 <= i < flights@.len() ==> track_at(r@, (#[trigger] flights@[i]).first_seen)
                == track_at(snapped_tracks(tracks@, airports.entries()), flights@[i].first_seen),
{
    broadcast use vstd::std_specs::hash::group_hash_axioms;

    let ghost all = snapped_tracks(tracks@, airports.entries());
    let mut out: HashMap<i64, SnappedTrack> = HashMap::new();
    let mut i: usize = 0;
    while i < flights.len()
        invariant
            0 <= i <= flights@.len(),
            all == snapped_tracks(tracks@, airports.entries()),
            forall|t: i64| #[trigger]
                tracks@.contains_key(t) ==> tracks@[t].near.fits(airports.entries()),
            forall|t: i64| #[trigger]
                out@.contains_key(t) ==> all.contains_key(t) && out@[t] == all[t],
            forall|j: int|
                0 <= j < i && all.contains_key((#[trigger] flights@[j]).first_seen)
                    ==> out@.contains_key(flights@[j].first_seen),
        decreases flights@.len() - i,
    {
        broadcast use vstd::std_specs::hash::group_hash_axioms;

        let t: i64 = flights[i].first_seen;
        if let Some(m) = tracks.get(&t) {
            out.insert(t, opensky::snap_track(&m.ends, &m.near, airports));
        }
        i += 1;
    }
    out
}

/// Writes fetched flights of one aircraft into the trips, the ends of their tracks snapped. Tells
/// how many trips were written and how many flights have none.
pub fn ingest_opensky_flights(
    db: &mut JournalDb,
    row: &FleetRow,
    flights: &Vec<Flight>,
    airports: &AirportIndex,
    tracks: &HashMap<i64, MeasuredTrack>,
    fetched_at: &str,
) -> (r: (u64, u64))
    requires
        old(db)@.wf(),
        airports.wf(),
        forall|t: i64| #[trigger]
            tracks@.contains_key(t) ==> tracks@[t].near.fits(airports.entries()),
    ensures
        ({
            let snapped = snapped_tracks(tracks@, airports.entries());
            let trips = trips_of(flights@, *row, airports.entries(), snapped, fetched_at@);
            &&& final(db)@.wf()
            &&& final(db)@ == with_trips(old(db)@, trips)
            &&& r.0 == trips.len()
            &&& r.1 == collapse::collapsed(flights@).len() - trips.len()
        }),
{
    let snapped = snap_tracks(flights, tracks, airports);
    let (trips, skipped) = flights_to_trips(row, flights, airports, &snapped, fetched_at);
    proof {
        let kept = collapse::collapsed(flights@);
        let whole = snapped_tracks(tracks@, airports.entries());
        collapse::law_collapsed(flights@);
        assert forall|i: int| 0 <= i < kept.len() implies track_at(
            snapped@,
            (#[trigger] kept[i]).first_seen,
        ) == track_at(whole, kept[i].first_seen) by {
            assert(flights@.contains(kept[i]));
            let j = choose|j: int| 0 <= j < flights@.len() && flights@[j] == kept[i];
            assert(track_at(snapped@, flights@[j].first_seen) == track_at(
                whole,
                flights@[j].first_seen,
            ));
        }
        lemma_trips_rest_on_their_tracks(
            kept,
            *row,
            airports.entries(),
            snapped@,
            whole,
            fetched_at@,
        );
    }
    let ghost all = order::views(trips@);
    let mut i: usize = 0;
    proof {
        assert(all.take(0) =~= Seq::<TripView>::empty());
    }
    while i < trips.len()
        invariant
            0 <= i <= trips@.len(),
            all == order::views(trips@),
            db@.wf(),
            db@ == with_trips(old(db)@, all.take(i as int)),
        decreases trips@.len() - i,
    {
        db.upsert_trip(&trips[i]);
        proof {
            assert(all.take(i + 1).drop_last() =~= all.take(i as int));
            assert(all.take(i + 1).last() == trips@[i as int]@);
        }
        i += 1;
    }
    proof {
        assert(all.take(i as int) =~= all);
    }
    (trips.len() as u64, skipped)
}

/// Writing trips touches nothing but the trips, keeps the tables well-formed, and takes no trip
/// away.
pub proof fn law_with_trips(journal: JournalView, trips: Seq<TripView>)
    requires
        journal.wf(),
    ensures
        with_trips(journal, trips).wf(),
        with_trips(journal, trips) == (JournalView {
            trips: with_trips(journal, trips).trips,
            ..journal
        }),
        forall|hex: Seq<char>, dep: Seq<char>|
            table::has_key(journal.trips, (hex, dep)) ==> #[trigger] table::has_key(
                with_trips(journal, trips).trips,
                (hex, dep),
            ),
    decreases trips.len(),
{
    if trips.len() > 0 {
        law_with_trips(journal, trips.drop_last());
        let mid = with_trips(journal, trips.drop_last());
        let t = trips.last();
        table::law_with_row(mid.trips, (t.icao24, t.dep_ts), t);
        assert forall|hex: Seq<char>, dep: Seq<char>|
            table::has_key(journal.trips, (hex, dep)) implies #[trigger] table::has_key(
            with_trips(journal, trips).trips,
            (hex, dep),
        ) by {
            assert(table::has_key(mid.trips, (hex, dep)));
            assert(table::row_of(mid.trips, (hex, dep)) is Some);
            assert(table::row_of(with_trips(journal, trips).trips, (hex, dep)) is Some);
        }
    }
}

/// Every trip of an aircraft's flights carries the address of its fleet row.
pub proof fn law_trips_are_of_the_aircraft(
    flights: Seq<Flight>,
    row: FleetRow,
    entries: Seq<Airport>,
    tracks: Map<i64, SnappedTrack>,
    fetched_at: Seq<char>,
)
    ensures
        forall|i: int|
            0 <= i < trips_of(flights, row, entries, tracks, fetched_at).len() ==> (
            #[trigger] trips_of(flights, row, entries, tracks, fetched_at)[i]).icao24
                == row.icao24@,
{
    lemma_trips_each_hex(collapse::collapsed(flights), row, entries, tracks, fetched_at);
}

proof fn lemma_trips_each_hex(
    flights: Seq<Flight>,
    row: FleetRow,
    entries: Seq<Airport>,
    tracks: Map<i64, SnappedTrack>,
    fetched_at: Seq<char>,
)
    ensures
        forall|i: int|
            0 <= i < trips_each(flights, row, entries, tracks, fetched_at).len() ==> (
            #[trigger] trips_each(flights, row, entries, tracks, fetched_at)[i]).icao24
                == row.icao24@,
    decreases flights.len(),
{
    if flights.len() > 0 {
        lemma_trips_each_hex(flights.drop_last(), row, entries, tracks, fetched_at);
    }
}

/// Trips with the keys under which they are written.
pub open spec fn keyed(trips: Seq<TripView>) -> Seq<((Seq<char>, Seq<char>), TripView)> {
    Seq::new(trips.len(), |i: int| ((trips[i].icao24, trips[i].dep_ts), trips[i]))
}

proof fn lemma_with_trips_rows(journal: JournalView, trips: Seq<TripView>)
    ensures
        with_trips(journal, trips) == (JournalView {
            trips: table::with_rows(journal.trips, keyed(trips)),
            ..journal
        }),
    decreases trips.len(),
{
    if trips.len() > 0 {
        lemma_with_trips_rows(journal, trips.drop_last());
        assert(keyed(trips).drop_last() =~= keyed(trips.drop_last()));
    }
}

/// When flights were fetched does not bear on the keys of their trips.
proof fn lemma_keys_rest_on_flights(
    flights: Seq<Flight>,
    row: FleetRow,
    entries: Seq<Airport>,
    tracks: Map<i64, SnappedTrack>,
    fetched_at: Seq<char>,
    later: Seq<char>,
)
    ensures
        ({
            let a = trips_each(flights, row, entries, tracks, fetched_at);
            let b = trips_each(flights, row, entries, tracks, later);
            &&& a.len() == b.len()
            &&& forall|i: int|
                0 <= i < a.len() ==> (#[trigger] a[i]).icao24 == b[i].icao24 && a[i].dep_ts
                    == b[i].dep_ts
        }),
    decreases flights.len(),
{
    if flights.len() > 0 {
        lemma_keys_rest_on_flights(flights.drop_last(), row, entries, tracks, fetched_at, later);
    }
}

/// Ingesting the same flights another time, whenever that is, adds no trip: the journal holds the
/// same keys in the same places.
pub proof fn law_reingest_adds_no_trip(
    journal: JournalView,
    flights: Seq<Flight>,
    row: FleetRow,
    entries: Seq<Airport>,
    tracks: Map<i64, SnappedTrack>,
    fetched_at: Seq<char>,
    later: Seq<char>,
)
    requires
        journal.wf(),
    ensures
        ({
            let once = with_trips(journal, trips_of(flights, row, entries, tracks, fetched_at));
            let again = with_trips(once, trips_of(flights, row, entries, tracks, later));
            &&& again.trips.len() == once.trips.len()
            &&& forall|i: int|
                0 <= i < once.trips.len() ==> (#[trigger] again.trips[i]).0 == once.trips[i].0
        }),
{
    let a = trips_of(flights, row, entries, tracks, fetched_at);
    let b = trips_of(flights, row, entries, tracks, later);
    let once = with_trips(journal, a);
    lemma_keys_rest_on_flights(
        collapse::collapsed(flights),
        row,
        entries,
        tracks,
        fetched_at,
        later,
    );
    lemma_with_trips_rows(journal, a);
    lemma_with_trips_rows(once, b);
    table::law_with_rows(journal.trips, keyed(a));
    assert forall|i: int| 0 <= i < keyed(b).len() implies table::has_key(
        once.trips,
        (#[trigger] keyed(b)[i]).0,
    ) by {
        assert(keyed(a)[i].0 == keyed(b)[i].0);
        table::lemma_last_row(keyed(a), i);
        assert(table::row_of(once.trips, keyed(a)[i].0) is Some);
    }
    table::lemma_with_known_rows(once.trips, keyed(b));
}

/// Writing the same trips again changes nothing.
pub proof fn law_reingest_is_idempotent(journal: JournalView, trips: Seq<TripView>)
    requires
        journal.wf(),
    ensures
        with_trips(with_trips(journal, trips), trips) == with_trips(journal, trips),
{
    lemma_with_trips_rows(journal, trips);
    lemma_with_trips_rows(with_trips(journal, trips), trips);
    table::law_with_rows_twice(journal.trips, keyed(trips));
}

/// The source of a trip: a track where the flight has one and neither of its airports is estimated;
/// the flights in every other case.
pub proof fn law_source_by_fields(flight: Flight, track: Option<SnappedTrack>)
    ensures
        source_of(flight, track) == TripSource::OpenskyTrack <==> track is Some
            && flight.est_departure_airport is None && flight.est_arrival_airport is None,
        source_of(flight, track) == TripSource::OpenskyFlights <==> track is None
            || flight.est_departure_airport is Some || flight.est_arrival_airport is Some,
{
}

proof fn lemma_trips_each_of(
    flights: Seq<Flight>,
    row: FleetRow,
    entries: Seq<Airport>,
    tracks: Map<i64, SnappedTrack>,
    fetched_at: Seq<char>,
)
    ensures
        forall|i: int|
            0 <= i < trips_each(flights, row, entries, tracks, fetched_at).len() ==> exists|j: int|
                0 <= j < flights.len() && tracked_trip(
                    #[trigger] flights[j],
                    row,
                    entries,
                    tracks,
                    fetched_at,
                ) == Some(#[trigger] trips_each(flights, row, entries, tracks, fetched_at)[i]),
        forall|j: int|
            0 <= j < flights.len() && tracked_trip(
                #[trigger] flights[j],
                row,
                entries,
                tracks,
                fetched_at,
            ) is Some ==> trips_each(flights, row, entries, tracks, fetched_at).contains(
                tracked_trip(flights[j], row, entries, tracks, fetched_at)->0,
            ),
    decreases flights.len(),
{
    if flights.len() > 0 {
        let front = flights.drop_last();
        lemma_trips_each_of(front, row, entries, tracks, fetched_at);
        let some = trips_each(front, row, entries, tracks, fetched_at);
        let all = trips_each(flights, row, entries, tracks, fetched_at);
        assert forall|i: int| 0 <= i < all.len() implies exists|j: int|
            0 <= j < flights.len() && tracked_trip(
                #[trigger] flights[j],
                row,
                entries,
                tracks,
                fetched_at,
            ) == Some(#[trigger] all[i]) by {
            if i < some.len() {
                assert(some[i] == all[i]);
                let j = choose|j: int|
                    0 <= j < front.len() && tracked_trip(
                        #[trigger] front[j],
                        row,
                        entries,
                        tracks,
                        fetched_at,
                    ) == Some(some[i]);
                assert(flights[j] == front[j]);
            } else {
                assert(flights[flights.len() - 1] == flights.last());
            }
        }
        assert forall|j: int|
            0 <= j < flights.len() && tracked_trip(
                #[trigger] flights[j],
                row,
                entries,
                tracks,
                fetched_at,
            ) is Some implies all.contains(
            tracked_trip(flights[j], row, entries, tracks, fetched_at)->0,
        ) by {
            let t = tracked_trip(flights[j], row, entries, tracks, fetched_at)->0;
            if j < front.len() {
                assert(front[j] == flights[j]);
                assert(some.contains(t));
                let i = choose|i: int| 0 <= i < some.len() && some[i] == t;
                assert(all[i] == t);
            } else {
                assert(all[all.len() - 1] == t);
            }
        }
    }
}

/// Every trip of an aircraft is that of one of its flights that are kept, made with the fleet row of
/// the aircraft and with the track that was fetched for the time at which that flight was first
/// seen, or with no track where none was; and every kept flight that has a trip brings it.
pub proof fn law_trips_are_of_the_kept_flights(
    flights: Seq<Flight>,
    row: FleetRow,
    entries: Seq<Airport>,
    tracks: Map<i64, SnappedTrack>,
    fetched_at: Seq<char>,
)
    ensures
        ({
            let kept = collapse::collapsed(flights);
            let trips = trips_of(flights, row, entries, tracks, fetched_at);
            &&& forall|i: int|
                0 <= i < trips.len() ==> exists|j: int|
                    0 <= j < kept.len() && {
                        let f = #[trigger] kept[j];
                        let track = if tracks.contains_key(f.first_seen) {
                            Some(tracks[f.first_seen])
                        } else {
                            None
                        };
                        opensky::snapped_trip(
                            f,
                            row,
                            entries,
                            track,
                            fetched_at,
                            source_of(f, track),
                        ) == Some(#[trigger] trips[i])
                    }
            &&& forall|j: int|
                0 <= j < kept.len() ==> {
                    let f = #[trigger] kept[j];
                    let track = if tracks.contains_key(f.first_seen) {
                        Some(tracks[f.first_seen])
                    } else {
                        None
                    };
                    opensky::snapped_trip(
                        f,
                        row,
                        entries,
                        track,
                        fetched_at,
                        source_of(f, track),
                    ) matches Some(t) ==> trips.contains(t)
                }
            &&& trips.len() <= kept.len()
        }),
{
    let kept = collapse::collapsed(flights);
    let trips = trips_of(flights, row, entries, tracks, fetched_at);
    lemma_trips_each_of(kept, row, entries, tracks, fetched_at);
    lemma_trips_each_len(kept, row, entries, tracks, fetched_at);
    assert forall|i: int| 0 <= i < trips.len() implies exists|j: int|
        0 <= j < kept.len() && {
            let f = #[trigger] kept[j];
            let track = if tracks.contains_key(f.first_seen) {
                Some(tracks[f.first_seen])
            } else {
                None
            };
            opensky::snapped_trip(f, row, entries, track, fetched_at, source_of(f, track)) == Some(
                #[trigger] trips[i],
            )
        } by {
        let j = choose|j: int|
            0 <= j < kept.len() && tracked_trip(#[trigger] kept[j], row, entries, tracks, fetched_at)
                == Some(trips[i]);
        assert(kept[j] == kept[j]);
    }
}

/// The tracks are held with their ends snapped, each under its own time and by its own distances.
pub proof fn law_tracks_are_snapped_each(
    tracks: Map<i64, MeasuredTrack>,
    entries: Seq<Airport>,
    t: i64,
)
    ensures
        snapped_tracks(tracks, entries).contains_key(t) <==> tracks.contains_key(t),
        tracks.contains_key(t) ==> opensky::snapped(
            Some(tracks[t].ends),
            Some(tracks[t].near),
            entries,
        ) == Some(snapped_tracks(tracks, entries)[t]),
{
}

/// The trips that are written stand in the journal: each trip under its aircraft and departure, the
/// last one written where several share these.
pub proof fn law_trips_stand_in_the_journal(journal: JournalView, trips: Seq<TripView>, i: int)
    requires
        journal.wf(),
        0 <= i < trips.len(),
        forall|j: int|
            i < j < trips.len() ==> ((#[trigger] trips[j]).icao24, trips[j].dep_ts) != (
                trips[i].icao24,
                trips[i].dep_ts,
            ),
    ensures
        table::row_of(with_trips(journal, trips).trips, (trips[i].icao24, trips[i].dep_ts)) == Some(
            trips[i],
        ),
    decreases trips.len(),
{
    let front = trips.drop_last();
    law_with_trips(journal, front);
    let mid = with_trips(journal, front);
    let t = trips.last();
    table::law_with_row(mid.trips, (t.icao24, t.dep_ts), t);
    if i < trips.len() - 1 {
        assert(trips[trips.len() - 1] == t);
        assert forall|j: int| i < j < front.len() implies ((#[trigger] front[j]).icao24, front[j].dep_ts)
            != (front[i].icao24, front[i].dep_ts) by {
            assert(front[j] == trips[j]);
        }
        law_trips_stand_in_the_journal(journal, front, i);
    }
}

/// Of the flights of an aircraft that are kept, each comes to a trip or is counted as having none.
pub proof fn law_every_kept_flight_counts(
    row: FleetRow,
    flights: Vec<Flight>,
    airports: AirportIndex,
    tracks: HashMap<i64, SnappedTrack>,
    fetched_at: &str,
    r: (Vec<TripRow>, u64),
)
    requires
        call_ensures(flights_to_trips, (&row, &flights, &airports, &tracks, fetched_at), r),
    ensures
        r.0@.len() + r.1 == collapse::collapsed(flights@).len(),
        order::views(r.0@) == trips_of(
            flights@,
            row,
            airports.entries(),
            tracks@,
            fetched_at@,
        ),
{
}

} // verus!
