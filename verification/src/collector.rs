//! The daily collect: fleet, then `/flights/all` slice by slice, then trips.
//!
//! A [`Collector`] decides and leaves the outside work to its caller. It says what it needs next
//! ([`Collector::ask`]); the caller does that and hands the answer to the method of the same
//! stage, which writes to the journal and returns what has to be written, in order.

use crate::airports::{Airport, AirportIndex};
use crate::calendar;
use crate::calendar::UtcDay;
use crate::collapse;
use crate::collect;
use crate::collect::{CollectError, CollectOptions, CollectReport, Legs, LegsView};
use crate::fleet::{FleetQuery, FleetRow};
use crate::ingest;
use crate::opensky;
use crate::opensky::{
    EndDistances, Flight, MeasuredTrack, OpenskyOutcome, SnappedTrack, TrackEnds,
    FLIGHTS_ALL_DAY_CREDITS, FLIGHTS_ALL_SLICES_PER_DAY, FLIGHTS_ALL_SLICE_CREDITS,
    FLIGHTS_ALL_SLICE_SECS,
};
use crate::order;
use crate::sets::KeySet;
use crate::store::{JournalDb, JournalView, TripRow, TripView};
use crate::table;
use crate::table::Table;
use crate::text;
use std::collections::HashMap;
use vstd::prelude::*;

verus! {

/// What a run is waiting for.
#[derive(Debug, Clone, Copy, PartialEq, Eq, Structural)]
pub enum Stage {
    LoadSlice,
    FetchFlights,
    LoadTracks,
    FetchTrack,
    Finished,
}

/// What a run needs next.
#[derive(Debug)]
pub enum Ask {
    /// The flights of a slice that the cache holds, or that it holds none.
    LoadSlice { day: UtcDay, slice_idx: u32 },
    /// `/flights/all` for a window.
    FetchFlights { day: UtcDay, slice_idx: u32, begin: i64, end: i64 },
    /// The track attempts of a slice that the cache holds.
    LoadTracks { day: UtcDay, slice_idx: u32 },
    /// `/tracks/all` for an aircraft at a time.
    FetchTrack { day: UtcDay, slice_idx: u32, icao24: String, time: i64 },
    Finished,
}

#[verifier::ext_equal]
pub enum AskView {
    LoadSlice { day: UtcDay, slice_idx: u32 },
    FetchFlights { day: UtcDay, slice_idx: u32, begin: int, end: int },
    LoadTracks { day: UtcDay, slice_idx: u32 },
    FetchTrack { day: UtcDay, slice_idx: u32, icao24: Seq<char>, time: i64 },
    Finished,
}

impl View for Ask {
    type V = AskView;

    open spec fn view(&self) -> AskView {
        match *self {
            Ask::LoadSlice { day, slice_idx } => AskView::LoadSlice { day, slice_idx },
            Ask::FetchFlights { day, slice_idx, begin, end } => AskView::FetchFlights {
                day,
                slice_idx,
                begin: begin as int,
                end: end as int,
            },
            Ask::LoadTracks { day, slice_idx } => AskView::LoadTracks { day, slice_idx },
            Ask::FetchTrack { day, slice_idx, icao24, time } => AskView::FetchTrack {
                day,
                slice_idx,
                icao24: icao24@,
                time,
            },
            Ask::Finished => AskView::Finished,
        }
    }
}

/// Something to be written.
#[derive(Debug)]
pub enum Effect {
    /// The fleet's flights of a slice, into the cache.
    WriteSlice { day: UtcDay, slice_idx: u32, flights: Vec<Flight> },
    /// The track attempts of a slice, into the cache.
    WriteTracks { day: UtcDay, slice_idx: u32, attempts: Vec<(String, Option<TrackEnds>)> },
    /// A trip, into the journal.
    Trip { trip: TripRow },
    /// A slice is complete.
    SliceOk { day: UtcDay, slice_idx: u32 },
    /// The work on a day ended with an error.
    DayError { day: UtcDay, message: String },
}

#[verifier::ext_equal]
pub enum EffectView {
    WriteSlice { day: UtcDay, slice_idx: u32, flights: Seq<Flight> },
    WriteTracks { day: UtcDay, slice_idx: u32, attempts: Seq<(Seq<char>, Option<TrackEnds>)> },
    Trip { trip: TripView },
    SliceOk { day: UtcDay, slice_idx: u32 },
    DayError { day: UtcDay, message: Seq<char> },
}

impl View for Effect {
    type V = EffectView;

    open spec fn view(&self) -> EffectView {
        match *self {
            Effect::WriteSlice { day, slice_idx, flights } => EffectView::WriteSlice {
                day,
                slice_idx,
                flights: flights@,
            },
            Effect::WriteTracks { day, slice_idx, attempts } => EffectView::WriteTracks {
                day,
                slice_idx,
                attempts: order::views(attempts@),
            },
            Effect::Trip { trip } => EffectView::Trip { trip: trip@ },
            Effect::SliceOk { day, slice_idx } => EffectView::SliceOk { day, slice_idx },
            Effect::DayError { day, message } => EffectView::DayError { day, message: message@ },
        }
    }
}

/// The journal after an effect.
pub open spec fn applied(journal: JournalView, effect: EffectView, now: Seq<char>) -> JournalView {
    match effect {
        EffectView::Trip { trip } => journal.with_trip(trip),
        EffectView::SliceOk { day, slice_idx } => journal.with_slice(day, slice_idx, now),
        EffectView::DayError { day, message } => journal.with_day_error(day, message, now),
        _ => journal,
    }
}

/// The journal after effects, one after the other.
pub open spec fn all_applied(
    journal: JournalView,
    effects: Seq<EffectView>,
    now: Seq<char>,
) -> JournalView
    decreases effects.len(),
{
    if effects.len() == 0 {
        journal
    } else {
        applied(all_applied(journal, effects.drop_last(), now), effects.last(), now)
    }
}

/// The state of a run.
#[verifier::ext_equal]
pub struct RunView {
    /// The mapped fleet.
    pub rows: Seq<FleetRow>,
    pub entries: Seq<Airport>,
    /// The aircraft whose flights are cached.
    pub cache: Set<Seq<char>>,
    /// The aircraft whose flights become trips.
    pub ingest: Set<Seq<char>>,
    /// Whether the run marks slices as complete.
    pub mark: bool,
    /// Whether tracks are fetched for flights that their airports do not place.
    pub fallback: bool,
    /// The most flights-credits that the run may spend.
    pub cap: u32,
    pub fetched_at: Seq<char>,
    /// The oldest day.
    pub first: UtcDay,
    /// The newest day, on which the run begins.
    pub end: UtcDay,
    pub report: CollectReport,
    pub day: UtcDay,
    pub slice: u32,
    pub stage: Stage,
    /// The flights of the slice that become trips.
    pub flights: Seq<Flight>,
    /// The legs of the slice, and how far the run got with them.
    pub legs: Seq<LegsView>,
    pub leg: int,
    pub flight: int,
    /// The tracks of the current aircraft, their ends snapped.
    pub tracks: Map<i64, SnappedTrack>,
    /// The track attempts of the slice; one without a track found none.
    pub attempts: Seq<(Seq<char>, Option<SnappedTrack>)>,
}

/// Whether the cap leaves room for all slices of a day.
pub open spec fn day_affordable(run: RunView) -> bool {
    run.cap - run.report.estimated_flights_credits >= FLIGHTS_ALL_DAY_CREDITS
}

/// Whether a run works on a day that it comes to: on its newest day, and on a day of which some
/// slice is complete, always; on any other only where the cap leaves room for all of it.
pub open spec fn begins(run: RunView, journal: JournalView, day: UtcDay) -> bool {
    day == run.end || journal.day_started(day) || day_affordable(run)
}

/// Whether a run passes over a day that it comes to.
pub open spec fn passes_over(run: RunView, journal: JournalView, day: UtcDay) -> bool {
    journal.day_complete(day, FLIGHTS_ALL_SLICES_PER_DAY) || !begins(run, journal, day)
}

/// A run with no day left to work on, back on its newest day.
pub open spec fn finished(run: RunView) -> RunView {
    RunView { stage: Stage::Finished, day: run.end, slice: 0, ..run }
}

/// The run goes on to the first slice that is not complete, from where it stands: through the
/// slices of a day, then to the day before.
pub open spec fn seek(run: RunView, journal: JournalView) -> RunView
    decreases run.day.number - calendar::FIRST_DAY, FLIGHTS_ALL_SLICES_PER_DAY - run.slice,
{
    let older = UtcDay { number: (run.day.number - 1) as i32 };
    if !(run.first.number <= run.day.number <= run.end.number) {
        finished(run)
    } else if run.slice == 0 && passes_over(run, journal, run.day) {
        if run.day.number > calendar::FIRST_DAY {
            seek(RunView { day: older, ..run }, journal)
        } else {
            finished(run)
        }
    } else if run.slice < FLIGHTS_ALL_SLICES_PER_DAY {
        if journal.slice_complete(run.day, run.slice) {
            seek(RunView { slice: (run.slice + 1) as u32, ..run }, journal)
        } else {
            RunView { stage: Stage::LoadSlice, ..run }
        }
    } else {
        let report = if run.mark && journal.day_complete(run.day, FLIGHTS_ALL_SLICES_PER_DAY) {
            CollectReport { days_ok: collect::counted(run.report.days_ok, 1), ..run.report }
        } else {
            run.report
        };
        if run.day.number > calendar::FIRST_DAY {
            seek(RunView { day: older, slice: 0, report, ..run }, journal)
        } else {
            finished(RunView { report, ..run })
        }
    }
}

/// The effects of writing trips.
pub open spec fn trip_effects(trips: Seq<TripView>) -> Seq<EffectView> {
    Seq::new(trips.len(), |i: int| EffectView::Trip { trip: trips[i] })
}

/// The run with all flights of the current aircraft written as trips.
pub open spec fn leg_done(run: RunView) -> (RunView, Seq<TripView>) {
    let legs = run.legs[run.leg];
    let trips = ingest::trips_of(legs.flights, legs.row, run.entries, run.tracks, run.fetched_at);
    let skipped = collapse::collapsed(legs.flights).len() - trips.len();
    (
        RunView {
            leg: run.leg + 1,
            flight: 0,
            tracks: Map::empty(),
            report: CollectReport {
                trips_upserted: collect::counted(run.report.trips_upserted, trips.len()),
                skipped_no_coords: collect::counted(run.report.skipped_no_coords, skipped as nat),
                ..run.report
            },
            ..run
        },
        trips,
    )
}

/// The run goes through the flights of the slice, up to a track that has to be fetched: the run
/// then, what it writes on the way, and whether it waits for a track.
pub open spec fn work(run: RunView) -> (RunView, Seq<EffectView>, bool)
    decreases
            run.legs.len() - run.leg,
            if 0 <= run.leg < run.legs.len() {
                run.legs[run.leg].flights.len() - run.flight
            } else {
                0
            },
{
    if !(0 <= run.leg < run.legs.len()) {
        (run, Seq::empty(), false)
    } else {
        let legs = run.legs[run.leg];
        if run.flight >= legs.flights.len() {
            let (next, trips) = leg_done(run);
            let (r, effects, waits) = work(next);
            (r, trip_effects(trips) + effects, waits)
        } else {
            let f = legs.flights[run.flight];
            let next = RunView { flight: run.flight + 1, ..run };
            if opensky::can_place(f, run.entries) || !run.fallback {
                work(next)
            } else {
                let key = collect::attempt_key(legs.row.icao24@, f.first_seen);
                match table::row_of(run.attempts, key) {
                    Some(Some(ends)) => work(
                        RunView { tracks: run.tracks.insert(f.first_seen, ends), ..next },
                    ),
                    Some(None) => work(next),
                    None => (
                        RunView {
                            stage: Stage::FetchTrack,
                            report: CollectReport {
                                tracks_calls: collect::counted(run.report.tracks_calls, 1),
                                ..run.report
                            },
                            ..run
                        },
                        Seq::empty(),
                        true,
                    ),
                }
            }
        }
    }
}

/// The run works on the slice and, once nothing is left of it, marks it and goes on to the next.
pub open spec fn proceed(run: RunView, journal: JournalView, now: Seq<char>) -> (
    RunView,
    Seq<EffectView>,
) {
    let (r, effects, waits) = work(run);
    if waits {
        (r, effects)
    } else {
        let written = if run.mark {
            effects.push(EffectView::SliceOk { day: run.day, slice_idx: run.slice })
        } else {
            effects
        };
        (
            seek(
                RunView { slice: (run.slice + 1) as u32, ..r },
                all_applied(journal, written, now),
            ),
            written,
        )
    }
}

/// The run after the cache told what it holds of the slice.
pub open spec fn after_load(run: RunView, cached: Option<Seq<Flight>>) -> (
    RunView,
    Seq<EffectView>,
) {
    match cached {
        Some(flights) => (
            RunView {
                flights: opensky::fleet_flights(flights, run.ingest),
                stage: Stage::LoadTracks,
                report: CollectReport {
                    days_from_cache: collect::counted(run.report.days_from_cache, 1),
                    ..run.report
                },
                ..run
            },
            Seq::empty(),
        ),
        None => if may_spend(run) {
            (
                RunView {
                    stage: Stage::FetchFlights,
                    report: CollectReport {
                        flights_calls: collect::counted(run.report.flights_calls, 1),
                        estimated_flights_credits: spent(run.report.estimated_flights_credits),
                        ..run.report
                    },
                    ..run
                },
                Seq::empty(),
            )
        } else {
            (
                RunView { stage: Stage::Finished, ..run },
                seq![EffectView::DayError { day: run.day, message: "max-flights-credits cap"@ }],
            )
        },
    }
}

/// The credits after one more slice was fetched.
pub open spec fn spent(credits: u32) -> u32 {
    if credits + FLIGHTS_ALL_SLICE_CREDITS <= u32::MAX {
        (credits + FLIGHTS_ALL_SLICE_CREDITS) as u32
    } else {
        u32::MAX
    }
}

/// Whether the cap leaves room for one more slice.
pub open spec fn may_spend(run: RunView) -> bool {
    spent(run.report.estimated_flights_credits) <= run.cap
}

/// The run stops: the error stands on the day.
pub open spec fn stopped(run: RunView, message: Seq<char>) -> (RunView, Seq<EffectView>) {
    (
        RunView {
            stage: Stage::Finished,
            report: CollectReport {
                hexes_stopped_on_error: collect::counted(run.report.hexes_stopped_on_error, 1),
                ..run.report
            },
            ..run
        },
        seq![EffectView::DayError { day: run.day, message }],
    )
}

/// What is said of a slice that could not be fetched.
pub open spec fn flights_error(outcome: OpenskyOutcome<Vec<Flight>>) -> Seq<char> {
    match outcome {
        OpenskyOutcome::RateLimited { credit } => "flights/all HTTP 429 remaining="@
            + opensky::shown_count(credit.remaining),
        OpenskyOutcome::Denied { status, message } => opensky::http_error(status, message@),
        OpenskyOutcome::Other { status, message } => opensky::http_error(status, message@),
        _ => Seq::empty(),
    }
}

/// The run after `/flights/all` was answered.
pub open spec fn after_flights(run: RunView, outcome: OpenskyOutcome<Vec<Flight>>) -> (
    RunView,
    Seq<EffectView>,
) {
    match outcome {
        OpenskyOutcome::Success { data, credit: _ } => {
            let kept = opensky::fleet_flights(data@, run.cache);
            (
                RunView {
                    flights: opensky::fleet_flights(kept, run.ingest),
                    stage: Stage::LoadTracks,
                    ..run
                },
                seq![
                    EffectView::WriteSlice { day: run.day, slice_idx: run.slice, flights: kept },
                ],
            )
        },
        OpenskyOutcome::NotFound { credit: _ } => (
            RunView {
                flights: Seq::empty(),
                stage: Stage::LoadTracks,
                report: CollectReport {
                    days_not_found: collect::counted(run.report.days_not_found, 1),
                    ..run.report
                },
                ..run
            },
            seq![
                EffectView::WriteSlice {
                    day: run.day,
                    slice_idx: run.slice,
                    flights: Seq::empty(),
                },
            ],
        ),
        _ => stopped(run, flights_error(outcome)),
    }
}

/// The run with the legs of its slice laid out and none of them worked on.
pub open spec fn laid_out(
    run: RunView,
    attempts: Seq<(Seq<char>, Option<SnappedTrack>)>,
) -> RunView {
    RunView {
        legs: collect::slice_legs(run.flights, run.rows),
        leg: 0,
        flight: 0,
        tracks: Map::empty(),
        attempts,
        ..run
    }
}

/// The run with an attempt on the current flight's track.
pub open spec fn attempted(run: RunView, ends: Option<SnappedTrack>) -> RunView {
    let legs = run.legs[run.leg];
    let f = legs.flights[run.flight];
    RunView {
        flight: run.flight + 1,
        tracks: match ends {
            Some(e) => run.tracks.insert(f.first_seen, e),
            None => run.tracks,
        },
        attempts: table::with_row(
            run.attempts,
            collect::attempt_key(legs.row.icao24@, f.first_seen),
            ends,
        ),
        ..run
    }
}

/// The track of an attempt as it is cached.
pub open spec fn cached_ends(track: Option<SnappedTrack>) -> Option<TrackEnds> {
    match track {
        Some(t) => Some(t.ends),
        None => None,
    }
}

/// The track attempts as they are cached: the airports are left out, since they rest on the index.
pub open spec fn cached_attempts(attempts: Seq<(Seq<char>, Option<SnappedTrack>)>) -> Seq<
    (Seq<char>, Option<TrackEnds>),
> {
    attempts.map_values(|a: (Seq<char>, Option<SnappedTrack>)| (a.0, cached_ends(a.1)))
}

/// The track attempts that the cache holds, with the ends of their tracks snapped.
pub open spec fn snapped_attempts(
    attempts: Seq<(Seq<char>, Option<MeasuredTrack>)>,
    entries: Seq<Airport>,
) -> Seq<(Seq<char>, Option<SnappedTrack>)> {
    attempts.map_values(
        |a: (Seq<char>, Option<MeasuredTrack>)|
            (
                a.0,
                match a.1 {
                    Some(t) => opensky::snapped(Some(t.ends), Some(t.near), entries),
                    None => None,
                },
            ),
    )
}

/// The tracks of a slice are cached as they came, whatever their ends snap to.
pub proof fn law_tracks_are_cached_as_they_came(
    attempts: Seq<(Seq<char>, Option<MeasuredTrack>)>,
    entries: Seq<Airport>,
)
    ensures
        cached_attempts(snapped_attempts(attempts, entries)) == attempts.map_values(
            |a: (Seq<char>, Option<MeasuredTrack>)|
                (
                    a.0,
                    match a.1 {
                        Some(t) => Some(t.ends),
                        None => None,
                    },
                ),
        ),
{
}

/// The effect of writing the track attempts of the slice.
pub open spec fn tracks_written(run: RunView) -> EffectView {
    EffectView::WriteTracks {
        day: run.day,
        slice_idx: run.slice,
        attempts: cached_attempts(run.attempts),
    }
}

/// The track that an outcome brings, its ends snapped by their distances: none where the run stops.
pub open spec fn track_found(
    outcome: OpenskyOutcome<Option<TrackEnds>>,
    near: Option<EndDistances>,
    entries: Seq<Airport>,
) -> Option<Option<SnappedTrack>> {
    match outcome {
        OpenskyOutcome::Success { data, credit: _ } => Some(opensky::snapped(data, near, entries)),
        OpenskyOutcome::NotFound { credit: _ } => Some(None),
        _ => None,
    }
}

/// What is said of a track that could not be fetched.
pub open spec fn track_error(outcome: OpenskyOutcome<Option<TrackEnds>>) -> Seq<char> {
    match outcome {
        OpenskyOutcome::RateLimited { credit } => "tracks HTTP 429 remaining="@
            + opensky::shown_count(credit.remaining),
        OpenskyOutcome::Denied { status, message } => "tracks "@ + opensky::http_error(
            status,
            message@,
        ),
        OpenskyOutcome::Other { status, message } => "tracks "@ + opensky::http_error(
            status,
            message@,
        ),
        _ => Seq::empty(),
    }
}

/// The run after `/tracks/all` was answered.
pub open spec fn after_track(
    run: RunView,
    outcome: OpenskyOutcome<Option<TrackEnds>>,
    near: Option<EndDistances>,
    journal: JournalView,
    now: Seq<char>,
) -> (RunView, Seq<EffectView>) {
    match track_found(outcome, near, run.entries) {
        Some(ends) => {
            let next = attempted(run, ends);
            let (r, effects) = proceed(next, journal, now);
            (r, seq![tracks_written(next)] + effects)
        },
        None => {
            let (r, effects) = stopped(run, track_error(outcome));
            (r, seq![tracks_written(run)] + effects)
        },
    }
}

/// What a run needs next.
pub open spec fn asked(run: RunView) -> AskView {
    match run.stage {
        Stage::LoadSlice => AskView::LoadSlice { day: run.day, slice_idx: run.slice },
        Stage::FetchFlights => AskView::FetchFlights {
            day: run.day,
            slice_idx: run.slice,
            begin: opensky::slice_window(run.day, run.slice as int).0,
            end: opensky::slice_window(run.day, run.slice as int).1,
        },
        Stage::LoadTracks => AskView::LoadTracks { day: run.day, slice_idx: run.slice },
        Stage::FetchTrack => AskView::FetchTrack {
            day: run.day,
            slice_idx: run.slice,
            icao24: run.legs[run.leg].row.icao24@,
            time: run.legs[run.leg].flights[run.flight].first_seen,
        },
        Stage::Finished => AskView::Finished,
    }
}

impl RunView {
    /// A run that is not finished stands on a slice between its oldest and its newest day, and one
    /// that waits for a track stands on a flight.
    pub open spec fn wf(self) -> bool {
        &&& self.first.valid()
        &&& self.end.valid()
        &&& self.stage != Stage::Finished ==> {
            &&& self.first.number <= self.day.number <= self.end.number
            &&& self.slice < FLIGHTS_ALL_SLICES_PER_DAY
        }
        &&& self.stage == Stage::FetchTrack ==> {
            &&& 0 <= self.leg < self.legs.len()
            &&& 0 <= self.flight < self.legs[self.leg].flights.len()
        }
    }
}

pub proof fn lemma_all_applied_concat(
    journal: JournalView,
    a: Seq<EffectView>,
    b: Seq<EffectView>,
    now: Seq<char>,
)
    ensures
        all_applied(journal, a + b, now) == all_applied(all_applied(journal, a, now), b, now),
    decreases b.len(),
{
    if b.len() > 0 {
        lemma_all_applied_concat(journal, a, b.drop_last(), now);
        assert((a + b).drop_last() =~= a + b.drop_last());
        assert((a + b).last() == b.last());
    } else {
        assert(a + b =~= a);
    }
}

/// A run without room for a new day passes over the days down to one of which some slice is
/// complete.
proof fn lemma_seek_skips(run: RunView, journal: JournalView, to: UtcDay)
    requires
        run.day.valid(),
        to.valid(),
        to.number <= run.day.number <= run.end.number,
        run.slice == 0,
        !day_affordable(run),
        forall|d: UtcDay|
            to.number < d.number <= run.day.number ==> d != run.end && !#[trigger]
                journal.day_started(d),
    ensures
        seek(run, journal) == seek(RunView { day: to, ..run }, journal),
    decreases run.day.number - to.number,
{
    if to.number < run.day.number {
        let older = UtcDay { number: (run.day.number - 1) as i32 };
        assert(!journal.day_started(run.day));
        if run.first.number <= run.day.number {
            lemma_seek_skips(RunView { day: older, ..run }, journal, to);
        } else {
            assert(finished(run) == finished(RunView { day: to, ..run }));
        }
    } else {
        assert(run == RunView { day: to, ..run });
    }
}

/// A run without room for a new day ends where no older day has a complete slice.
proof fn lemma_seek_ends(run: RunView, journal: JournalView)
    requires
        run.day.valid(),
        run.day.number <= run.end.number,
        run.slice == 0,
        !day_affordable(run),
        forall|d: UtcDay|
            d.number <= run.day.number ==> d != run.end && !#[trigger] journal.day_started(d),
    ensures
        seek(run, journal) == finished(run),
    decreases run.day.number - calendar::FIRST_DAY,
{
    assert(!journal.day_started(run.day));
    if run.first.number <= run.day.number && run.day.number > calendar::FIRST_DAY {
        let older = UtcDay { number: (run.day.number - 1) as i32 };
        lemma_seek_ends(RunView { day: older, ..run }, journal);
        assert(finished(RunView { day: older, ..run }) == finished(run));
    }
}

proof fn lemma_all_applied_push(
    journal: JournalView,
    a: Seq<EffectView>,
    e: EffectView,
    now: Seq<char>,
)
    ensures
        all_applied(journal, a.push(e), now) == applied(all_applied(journal, a, now), e, now),
{
    assert(a.push(e).drop_last() =~= a);
}

pub struct Collector {
    rows: Vec<FleetRow>,
    airports: AirportIndex,
    cache: KeySet<String>,
    ingest: KeySet<String>,
    mark: bool,
    fallback: bool,
    cap: u32,
    fetched_at: String,
    first: UtcDay,
    end: UtcDay,
    report: CollectReport,
    day: UtcDay,
    slice: u32,
    stage: Stage,
    flights: Vec<Flight>,
    legs: Vec<Legs>,
    leg: usize,
    flight: usize,
    tracks: HashMap<i64, SnappedTrack>,
    attempts: Table<String, Option<SnappedTrack>>,
}

impl View for Collector {
    type V = RunView;

    closed spec fn view(&self) -> RunView {
        RunView {
            rows: self.rows@,
            entries: self.airports.entries(),
            cache: self.cache@,
            ingest: self.ingest@,
            mark: self.mark,
            fallback: self.fallback,
            cap: self.cap,
            fetched_at: self.fetched_at@,
            first: self.first,
            end: self.end,
            report: self.report,
            day: self.day,
            slice: self.slice,
            stage: self.stage,
            flights: self.flights@,
            legs: order::views(self.legs@),
            leg: self.leg as int,
            flight: self.flight as int,
            tracks: self.tracks@,
            attempts: self.attempts@,
        }
    }
}

impl Collector {
    /// The parts are well-formed, and so is the run.
    pub closed spec fn wf(&self) -> bool {
        &&& self.parts_wf()
        &&& self@.wf()
    }

    closed spec fn parts_wf(&self) -> bool {
        &&& self.airports.wf()
        &&& self.cache.wf()
        &&& self.ingest.wf()
        &&& self.attempts.wf()
        &&& self.first.valid()
        &&& self.end.valid()
    }

    /// The run stands on a flight.
    closed spec fn on_flight(&self) -> bool {
        self.leg < self.legs@.len() && self.flight < self.legs@[self.leg as int].flights@.len()
    }

    /// The airports that the ends of tracks are measured to.
    pub fn airports(&self) -> (r: &AirportIndex)
        requires
            self.wf(),
        ensures
            r.wf(),
            r.entries() == self@.entries,
    {
        &self.airports
    }

    /// The numbers of the run so far.
    pub fn report(&self) -> (r: CollectReport)
        ensures
            r == self@.report,
    {
        self.report
    }

    /// What the run needs next.
    pub fn ask(&self) -> (r: Ask)
        requires
            self.wf(),
        ensures
            r@ == asked(self@),
    {
        match self.stage {
            Stage::LoadSlice => Ask::LoadSlice { day: self.day, slice_idx: self.slice },
            Stage::FetchFlights => {
                let begin: i64 = self.day.number as i64 * calendar::DAY_SECS + self.slice as i64
                    * FLIGHTS_ALL_SLICE_SECS;
                Ask::FetchFlights {
                    day: self.day,
                    slice_idx: self.slice,
                    begin,
                    end: begin + FLIGHTS_ALL_SLICE_SECS - 1,
                }
            },
            Stage::LoadTracks => Ask::LoadTracks { day: self.day, slice_idx: self.slice },
            Stage::FetchTrack => {
                let legs = &self.legs[self.leg];
                proof {
                    assert(self@.legs[self.leg as int] == self.legs@[self.leg as int]@);
                }
                Ask::FetchTrack {
                    day: self.day,
                    slice_idx: self.slice,
                    icao24: legs.row.icao24.clone(),
                    time: legs.flights[self.flight].first_seen,
                }
            },
            Stage::Finished => Ask::Finished,
        }
    }

    /// Goes on to the first slice that is not complete.
    fn seek_slice(&mut self, db: &JournalDb)
        requires
            old(self).parts_wf(),
            old(self).slice <= FLIGHTS_ALL_SLICES_PER_DAY,
            old(self).day.valid(),
            db@.wf(),
        ensures
            final(self).wf(),
            final(self)@ == seek(old(self)@, db@),
    {
        let ghost target = seek(self@, db@);
        let affordable = self.cap >= self.report.estimated_flights_credits && self.cap
            - self.report.estimated_flights_credits >= FLIGHTS_ALL_DAY_CREDITS;
        while self.first.number <= self.day.number && self.day.number <= self.end.number
            invariant
                self.parts_wf(),
                self.slice <= FLIGHTS_ALL_SLICES_PER_DAY,
                self.day.valid(),
                db@.wf(),
                affordable == day_affordable(self@),
                seek(self@, db@) == target,
                target == seek(old(self)@, db@),
            decreases
                    self.day.number - calendar::FIRST_DAY,
                    FLIGHTS_ALL_SLICES_PER_DAY - self.slice,
        {
            let ghost before = self@;
            let done = self.slice == FLIGHTS_ALL_SLICES_PER_DAY;
            if done && self.mark && db.flights_all_day_complete(
                self.day,
                FLIGHTS_ALL_SLICES_PER_DAY,
            ) {
                self.report.days_ok = collect::count(self.report.days_ok, 1);
            }
            let complete = self.slice == 0 && db.flights_all_day_complete(
                self.day,
                FLIGHTS_ALL_SLICES_PER_DAY,
            );
            let begun = self.day == self.end || affordable || db.has_slices_on(self.day);
            if done || complete {
                match self.day.pred_opt() {
                    Some(n) => {
                        self.day = n;
                        self.slice = 0;
                        proof {
                            assert(self@ =~= RunView {
                                day: n,
                                slice: 0,
                                report: self.report,
                                ..before
                            });
                        }
                    },
                    None => {
                        self.finish();
                        proof {
                            assert(self@ =~= target);
                        }
                        return;
                    },
                }
            } else if self.slice == 0 && !begun {
                match db.newest_slice_day_before(self.day) {
                    Some(n) => {
                        proof {
                            lemma_seek_skips(before, db@, n);
                        }
                        self.day = n;
                        proof {
                            assert(self@ =~= RunView { day: n, ..before });
                        }
                    },
                    None => {
                        proof {
                            lemma_seek_ends(before, db@);
                        }
                        self.finish();
                        proof {
                            assert(self@ =~= target);
                        }
                        return;
                    },
                }
            } else if db.flights_all_slice_complete(self.day, self.slice) {
                self.slice = self.slice + 1;
                proof {
                    assert(self@ =~= RunView { slice: self.slice, ..before });
                }
            } else {
                self.stage = Stage::LoadSlice;
                proof {
                    assert(self@ =~= target);
                }
                return;
            }
        }
        self.finish();
        proof {
            assert(self@ =~= target);
        }
    }

    /// No day is left to work on.
    fn finish(&mut self)
        requires
            old(self).parts_wf(),
        ensures
            final(self).wf(),
            final(self)@ == finished(old(self)@),
    {
        let ghost before = self@;
        self.stage = Stage::Finished;
        self.day = self.end;
        self.slice = 0;
        proof {
            assert(self@ =~= finished(before));
        }
    }

    /// Writes all flights of the current aircraft as trips.
    fn finish_leg(&mut self, db: &mut JournalDb, effects: &mut Vec<Effect>, now: &str)
        requires
            old(self).parts_wf(),
            old(self).leg < old(self).legs@.len(),
            old(db)@.wf(),
        ensures
            final(self).parts_wf(),
            final(db)@.wf(),
            final(self)@ == leg_done(old(self)@).0,
            final(self).legs@ == old(self).legs@,
            final(self).leg == old(self).leg + 1,
            order::views(final(effects)@) == order::views(old(effects)@) + trip_effects(
                leg_done(old(self)@).1,
            ),
            final(db)@ == all_applied(old(db)@, trip_effects(leg_done(old(self)@).1), now@),
    {
        let ghost before = self@;
        let ghost out0 = order::views(effects@);
        let legs = &self.legs[self.leg];
        proof {
            assert(before.legs[before.leg] == legs@);
        }
        let (trips, skipped) = ingest::flights_to_trips(
            &legs.row,
            &legs.flights,
            &self.airports,
            &self.tracks,
            self.fetched_at.as_str(),
        );
        let n: u64 = trips.len() as u64;
        let ghost all = order::views(trips@);
        let mut i: usize = 0;
        proof {
            assert(trip_effects(all.take(0)) =~= Seq::<EffectView>::empty());
            assert(out0 + trip_effects(all.take(0)) =~= out0);
        }
        while i < trips.len()
            invariant
                0 <= i <= trips@.len(),
                all == order::views(trips@),
                db@.wf(),
                db@ == all_applied(old(db)@, trip_effects(all.take(i as int)), now@),
                order::views(effects@) == out0 + trip_effects(all.take(i as int)),
            decreases trips@.len() - i,
        {
            let ghost done = trip_effects(all.take(i as int));
            let ghost written = order::views(effects@);
            let trip = trips[i].clone();
            let ghost t = trip@;
            db.upsert_trip(&trip);
            effects.push(Effect::Trip { trip });
            proof {
                assert(t == all[i as int]);
                let e = EffectView::Trip { trip: t };
                assert(trip_effects(all.take(i + 1)) =~= done.push(e));
                lemma_all_applied_push(old(db)@, done, e, now@);
                assert(order::views(effects@) =~= written.push(e));
                assert(out0 + done.push(e) =~= (out0 + done).push(e));
            }
            i += 1;
        }
        proof {
            assert(all.take(i as int) =~= all);
        }
        self.report.trips_upserted = collect::count(self.report.trips_upserted, n);
        self.report.skipped_no_coords = collect::count(self.report.skipped_no_coords, skipped);
        assert(self.leg < self.legs.len());
        self.leg = self.leg + 1;
        self.flight = 0;
        self.tracks = HashMap::new();
        proof {
            assert(self@ =~= leg_done(before).0);
        }
    }

    /// Goes through the flights of the slice, up to a track that has to be fetched.
    fn work_on(&mut self, db: &mut JournalDb, effects: &mut Vec<Effect>, now: &str) -> (waits: bool)
        requires
            old(self).parts_wf(),
            old(db)@.wf(),
        ensures
            final(self).parts_wf(),
            final(db)@.wf(),
            final(self)@ == work(old(self)@).0,
            waits == work(old(self)@).2,
            waits ==> final(self).on_flight(),
            order::views(final(effects)@) == order::views(old(effects)@) + work(old(self)@).1,
            final(db)@ == all_applied(old(db)@, work(old(self)@).1, now@),
    {
        broadcast use vstd::std_specs::hash::group_hash_axioms;

        let ghost target = work(self@);
        let ghost mut acc: Seq<EffectView> = Seq::empty();
        let ghost out0 = order::views(effects@);
        proof {
            assert(acc + target.1 =~= target.1);
            assert(out0 + acc =~= out0);
        }
        while self.leg < self.legs.len()
            invariant
                target == work(old(self)@),
                out0 == order::views(old(effects)@),
                self.parts_wf(),
                db@.wf(),
                work(self@).0 == target.0,
                work(self@).2 == target.2,
                acc + work(self@).1 == target.1,
                order::views(effects@) == out0 + acc,
                db@ == all_applied(old(db)@, acc, now@),
            decreases
                    self.legs@.len() - self.leg,
                    if self.leg < self.legs@.len() {
                        self.legs@[self.leg as int].flights@.len() - self.flight
                    } else {
                        0
                    },
        {
            broadcast use vstd::std_specs::hash::group_hash_axioms;

            let ghost before = self@;
            proof {
                assert(before.legs[before.leg] == self.legs@[self.leg as int]@);
            }
            if self.flight >= self.legs[self.leg].flights.len() {
                let ghost journal = db@;
                self.finish_leg(db, effects, now);
                proof {
                    let fresh = trip_effects(leg_done(before).1);
                    lemma_all_applied_concat(old(db)@, acc, fresh, now@);
                    assert((out0 + acc) + fresh =~= out0 + (acc + fresh));
                    assert((acc + fresh) + work(self@).1 =~= acc + (fresh + work(self@).1));
                    acc = acc + fresh;
                }
            } else {
                let f = &self.legs[self.leg].flights[self.flight];
                if opensky::placeable(f, &self.airports) || !self.fallback {
                    self.flight = self.flight + 1;
                    proof {
                        assert(self@ =~= RunView { flight: before.flight + 1, ..before });
                    }
                } else {
                    let first_seen: i64 = f.first_seen;
                    let key = collect::track_attempt_key(
                        self.legs[self.leg].row.icao24.as_str(),
                        first_seen,
                    );
                    let known: Option<Option<SnappedTrack>> = match self.attempts.get(&key) {
                        Some(cached) => Some(
                            match cached {
                                Some(ends) => Some(ends.clone()),
                                None => None,
                            },
                        ),
                        None => None,
                    };
                    match known {
                        Some(Some(ends)) => {
                            self.tracks.insert(first_seen, ends);
                            self.flight = self.flight + 1;
                            proof {
                                assert(self@ =~= RunView {
                                    flight: before.flight + 1,
                                    tracks: before.tracks.insert(first_seen, ends),
                                    ..before
                                });
                            }
                        },
                        Some(None) => {
                            self.flight = self.flight + 1;
                            proof {
                                assert(self@ =~= RunView { flight: before.flight + 1, ..before });
                            }
                        },
                        None => {
                            self.report.tracks_calls = collect::count(self.report.tracks_calls, 1);
                            self.stage = Stage::FetchTrack;
                            proof {
                                assert(self@ =~= target.0);
                                assert(acc =~= target.1);
                            }
                            return true;
                        },
                    }
                }
            }
        }
        proof {
            assert(acc =~= target.1);
        }
        false
    }

    /// Works on the slice and, once nothing is left of it, marks it and goes on to the next.
    fn proceed_on(&mut self, db: &mut JournalDb, effects: &mut Vec<Effect>, now: &str)
        requires
            old(self).parts_wf(),
            old(self).slice < FLIGHTS_ALL_SLICES_PER_DAY,
            old(self).first.number <= old(self).day.number <= old(self).end.number,
            old(db)@.wf(),
        ensures
            final(self).wf(),
            final(db)@.wf(),
            final(self)@ == proceed(old(self)@, old(db)@, now@).0,
            order::views(final(effects)@) == order::views(old(effects)@) + proceed(
                old(self)@,
                old(db)@,
                now@,
            ).1,
            final(db)@ == all_applied(old(db)@, proceed(old(self)@, old(db)@, now@).1, now@),
    {
        let ghost start = self@;
        let ghost out0 = order::views(effects@);
        proof {
            lemma_work_keeps(start);
        }
        let waits = self.work_on(db, effects, now);
        if waits {
            proof {
                assert(self@.legs[self.leg as int] == self.legs@[self.leg as int]@);
            }
            return;
        }
        let ghost after = self@;
        let ghost written = work(start).1;
        if self.mark {
            db.mark_flights_all_slice_ok(self.day, self.slice, now);
            effects.push(Effect::SliceOk { day: self.day, slice_idx: self.slice });
            proof {
                let e = EffectView::SliceOk { day: start.day, slice_idx: start.slice };
                lemma_all_applied_push(old(db)@, written, e, now@);
                assert(order::views(effects@) =~= (out0 + written).push(e));
                assert((out0 + written).push(e) =~= out0 + written.push(e));
            }
        }
        self.slice = self.slice + 1;
        proof {
            assert(self@ =~= RunView { slice: (start.slice + 1) as u32, ..after });
        }
        self.seek_slice(db);
    }
}

/// A run before it has found its first slice.
pub open spec fn fresh_run(
    rows: Seq<FleetRow>,
    skipped_empty_icao24: u64,
    entries: Seq<Airport>,
    options: CollectOptions,
    today: UtcDay,
    fetched_at: Seq<char>,
) -> RunView {
    let yesterday = collect::day_before(today);
    let cache = collect::fleet_hexes(rows);
    let ingest = collect::ingest_set(collect::cleaned(options.hex_filter@), cache);
    RunView {
        rows,
        entries,
        cache,
        ingest,
        mark: collect::cleaned(options.hex_filter@).len() == 0,
        fallback: options.tracks_fallback,
        cap: options.max_flights_credits,
        fetched_at,
        first: collect::first_day(options.from),
        end: collect::last_day(options.to, yesterday),
        report: CollectReport::fresh(rows.len() as usize, skipped_empty_icao24),
        day: collect::last_day(options.to, yesterday),
        slice: 0,
        stage: Stage::Finished,
        flights: Seq::empty(),
        legs: Seq::empty(),
        leg: 0,
        flight: 0,
        tracks: Map::empty(),
        attempts: Seq::empty(),
    }
}

impl Collector {
    /// A run over the days that the options name, from the newest back, standing on its first
    /// slice that is not complete. An error where the options name hexes and the fleet has none of
    /// them.
    pub fn start(
        fleet: FleetQuery,
        airports: AirportIndex,
        options: &CollectOptions,
        today: UtcDay,
        fetched_at: &str,
        db: &JournalDb,
    ) -> (r: Result<Collector, CollectError>)
        requires
            airports.wf(),
            db@.wf(),
            today.valid(),
            options.from matches Some(d) ==> d.valid(),
            options.to matches Some(d) ==> d.valid(),
        ensures
            r is Err <==> collect::names_no_aircraft(
                collect::cleaned(options.hex_filter@),
                collect::fleet_hexes(fleet.rows@),
            ),
            r matches Err(e) ==> e == CollectError::NoHexInFleet,
            r matches Ok(c) ==> c.wf() && c@ == seek(
                fresh_run(
                    fleet.rows@,
                    fleet.skipped_empty_icao24,
                    airports.entries(),
                    *options,
                    today,
                    fetched_at@,
                ),
                db@,
            ),
    {
        let yesterday = match today.pred_opt() {
            Some(d) => d,
            None => today,
        };
        let end = match options.to {
            Some(d) => if d.number < yesterday.number {
                d
            } else {
                yesterday
            },
            None => yesterday,
        };
        let keys = collect::fleet_hex_set(&fleet.rows);
        let wanted = collect::clean_hexes(&options.hex_filter);
        let (cache, ingest) = match collect::opensky_hex_sets(&keys, &wanted) {
            Ok(pair) => pair,
            Err(e) => {
                return Err(e);
            },
        };
        let mark = wanted.is_empty();
        let first = match options.from {
            Some(d) => d,
            None => UtcDay { number: calendar::FIRST_DAY },
        };
        let fleet_len: usize = fleet.rows.len();
        let mut run = Collector {
            report: CollectReport::on_fleet(fleet_len, fleet.skipped_empty_icao24),
            rows: fleet.rows,
            airports,
            cache,
            ingest,
            mark,
            fallback: options.tracks_fallback,
            cap: options.max_flights_credits,
            fetched_at: fetched_at.to_owned(),
            first,
            end,
            day: end,
            slice: 0,
            stage: Stage::Finished,
            flights: Vec::new(),
            legs: Vec::new(),
            leg: 0,
            flight: 0,
            tracks: HashMap::new(),
            attempts: Table::new(),
        };
        proof {
            assert(run@ =~= fresh_run(
                fleet.rows@,
                fleet.skipped_empty_icao24,
                airports.entries(),
                *options,
                today,
                fetched_at@,
            ));
        }
        run.seek_slice(db);
        Ok(run)
    }

    /// Stops: the error stands on the day.
    fn stop_with(&mut self, db: &mut JournalDb, effects: &mut Vec<Effect>, message: String, now: &str)
        requires
            old(self).parts_wf(),
            old(self).day.valid(),
            old(db)@.wf(),
        ensures
            final(self).wf(),
            final(db)@.wf(),
            final(self)@ == stopped(old(self)@, message@).0,
            order::views(final(effects)@) == order::views(old(effects)@) + stopped(
                old(self)@,
                message@,
            ).1,
            final(db)@ == all_applied(old(db)@, stopped(old(self)@, message@).1, now@),
    {
        let ghost before = self@;
        let ghost out0 = order::views(effects@);
        let ghost m = message@;
        db.set_flights_all_error(self.day, message.as_str(), now);
        effects.push(Effect::DayError { day: self.day, message });
        self.report.hexes_stopped_on_error = collect::count(self.report.hexes_stopped_on_error, 1);
        self.stage = Stage::Finished;
        proof {
            let e = EffectView::DayError { day: before.day, message: m };
            assert(self@ =~= stopped(before, m).0);
            assert(order::views(effects@) =~= out0.push(e));
            assert(out0.push(e) =~= out0 + seq![e]);
            lemma_applied_one(old(db)@, e, now@);
        }
    }

    /// The cache told what it holds of the slice that was asked for.
    pub fn slice_loaded(&mut self, cached: Option<Vec<Flight>>, db: &mut JournalDb, now: &str) -> (r:
        Vec<Effect>)
        requires
            old(self).wf(),
            old(db)@.wf(),
            old(self)@.stage == Stage::LoadSlice,
        ensures
            final(self).wf(),
            final(db)@.wf(),
            final(self)@ == after_load(old(self)@, cached_view(cached)).0,
            order::views(r@) == after_load(old(self)@, cached_view(cached)).1,
            final(db)@ == all_applied(
                old(db)@,
                after_load(old(self)@, cached_view(cached)).1,
                now@,
            ),
    {
        let ghost before = self@;
        let mut effects: Vec<Effect> = Vec::new();
        proof {
            assert(order::views(effects@) =~= Seq::<EffectView>::empty());
        }
        match cached {
            Some(flights) => {
                self.flights = opensky::filter_flights_to_fleet(&flights, &self.ingest);
                self.report.days_from_cache = collect::count(self.report.days_from_cache, 1);
                self.stage = Stage::LoadTracks;
            },
            None => {
                let used: u64 = self.report.estimated_flights_credits as u64
                    + FLIGHTS_ALL_SLICE_CREDITS as u64;
                let next: u32 = if used <= u32::MAX as u64 {
                    used as u32
                } else {
                    u32::MAX
                };
                if next <= self.cap {
                    self.report.flights_calls = collect::count(self.report.flights_calls, 1);
                    self.report.estimated_flights_credits = next;
                    self.stage = Stage::FetchFlights;
                } else {
                    let message: &'static str = "max-flights-credits cap";
                    db.set_flights_all_error(self.day, message, now);
                    effects.push(
                        Effect::DayError { day: self.day, message: message.to_owned() },
                    );
                    self.stage = Stage::Finished;
                    proof {
                        let e = EffectView::DayError { day: before.day, message: message@ };
                        assert(order::views(effects@) =~= seq![e]);
                        lemma_applied_one(old(db)@, e, now@);
                    }
                }
            },
        }
        proof {
            assert(self@ =~= after_load(before, cached_view(cached)).0);
        }
        effects
    }

    /// `/flights/all` was answered.
    pub fn flights_fetched(
        &mut self,
        outcome: OpenskyOutcome<Vec<Flight>>,
        db: &mut JournalDb,
        now: &str,
    ) -> (r: Vec<Effect>)
        requires
            old(self).wf(),
            old(db)@.wf(),
            old(self)@.stage == Stage::FetchFlights,
        ensures
            final(self).wf(),
            final(db)@.wf(),
            final(self)@ == after_flights(old(self)@, outcome).0,
            order::views(r@) == after_flights(old(self)@, outcome).1,
            final(db)@ == all_applied(old(db)@, after_flights(old(self)@, outcome).1, now@),
    {
        let ghost before = self@;
        let mut effects: Vec<Effect> = Vec::new();
        proof {
            assert(order::views(effects@) =~= Seq::<EffectView>::empty());
        }
        match outcome {
            OpenskyOutcome::Success { data, credit: _ } => {
                let kept = opensky::filter_flights_to_fleet(&data, &self.cache);
                self.flights = opensky::filter_flights_to_fleet(&kept, &self.ingest);
                self.stage = Stage::LoadTracks;
                let ghost k = kept@;
                effects.push(
                    Effect::WriteSlice { day: self.day, slice_idx: self.slice, flights: kept },
                );
                proof {
                    let e = EffectView::WriteSlice {
                        day: before.day,
                        slice_idx: before.slice,
                        flights: k,
                    };
                    assert(order::views(effects@) =~= seq![e]);
                    lemma_applied_one(old(db)@, e, now@);
                    assert(self@ =~= after_flights(before, outcome).0);
                }
            },
            OpenskyOutcome::NotFound { credit: _ } => {
                self.flights = Vec::new();
                self.report.days_not_found = collect::count(self.report.days_not_found, 1);
                self.stage = Stage::LoadTracks;
                effects.push(
                    Effect::WriteSlice {
                        day: self.day,
                        slice_idx: self.slice,
                        flights: Vec::new(),
                    },
                );
                proof {
                    let e = EffectView::WriteSlice {
                        day: before.day,
                        slice_idx: before.slice,
                        flights: Seq::empty(),
                    };
                    assert(effects@[0]@ =~= e);
                    assert(order::views(effects@) =~= seq![e]);
                    lemma_applied_one(old(db)@, e, now@);
                    assert(self@ =~= after_flights(before, outcome).0);
                }
            },
            OpenskyOutcome::RateLimited { credit } => {
                let left = opensky::show_count(credit.remaining);
                let message = text::join2("flights/all HTTP 429 remaining=", left.as_str());
                self.stop_with(db, &mut effects, message, now);
            },
            OpenskyOutcome::Denied { status, message } => {
                let message = opensky::http_error_text(status, message.as_str());
                self.stop_with(db, &mut effects, message, now);
            },
            OpenskyOutcome::Other { status, message } => {
                let message = opensky::http_error_text(status, message.as_str());
                self.stop_with(db, &mut effects, message, now);
            },
        }
        proof {
            assert(Seq::<EffectView>::empty() + after_flights(before, outcome).1 =~= after_flights(
                before,
                outcome,
            ).1);
        }
        effects
    }

    /// The cache told the track attempts that it holds of the slice.
    pub fn tracks_loaded(
        &mut self,
        attempts: Vec<(String, Option<MeasuredTrack>)>,
        db: &mut JournalDb,
        now: &str,
    ) -> (r: Vec<Effect>)
        requires
            old(self).wf(),
            old(db)@.wf(),
            old(self)@.stage == Stage::LoadTracks,
            forall|i: int|
                0 <= i < attempts@.len() ==> ((#[trigger] attempts@[i]).1 matches Some(t)
                    ==> t.near.fits(old(self)@.entries)),
        ensures
            ({
                let held = snapped_attempts(order::views(attempts@), old(self)@.entries);
                let known = table::with_rows(Seq::empty(), held);
                let (run, effects) = proceed(laid_out(old(self)@, known), old(db)@, now@);
                &&& final(self).wf()
                &&& final(db)@.wf()
                &&& final(self)@ == run
                &&& order::views(r@) == effects
                &&& final(db)@ == all_applied(old(db)@, effects, now@)
            }),
    {
        let ghost before = self@;
        let ghost all = snapped_attempts(order::views(attempts@), self@.entries);
        let mut effects: Vec<Effect> = Vec::new();
        let mut known: Table<String, Option<SnappedTrack>> = Table::new();
        let mut i: usize = 0;
        proof {
            assert(order::views(effects@) =~= Seq::<EffectView>::empty());
            assert(all.take(0) =~= Seq::empty());
        }
        while i < attempts.len()
            invariant
                0 <= i <= attempts@.len(),
                all == snapped_attempts(order::views(attempts@), self@.entries),
                forall|j: int|
                    0 <= j < attempts@.len() ==> ((#[trigger] attempts@[j]).1 matches Some(t)
                        ==> t.near.fits(self@.entries)),
                self@ == before,
                self.wf(),
                known.wf(),
                known@ == table::with_rows(Seq::empty(), all.take(i as int)),
            decreases attempts@.len() - i,
        {
            proof {
                assert(attempts@[i as int].1 matches Some(t) ==> t.near.fits(self@.entries));
            }
            let ends = match &attempts[i].1 {
                Some(t) => Some(opensky::snap_track(&t.ends, &t.near, &self.airports)),
                None => None,
            };
            known.put(attempts[i].0.clone(), ends);
            proof {
                assert(all.take(i + 1).drop_last() =~= all.take(i as int));
                assert(all.take(i + 1).last() == (attempts@[i as int].0@, ends));
            }
            i += 1;
        }
        proof {
            assert(all.take(i as int) =~= all);
        }
        self.legs = collect::group_legs(&self.flights, &self.rows);
        self.leg = 0;
        self.flight = 0;
        self.tracks = HashMap::new();
        self.attempts = known;
        proof {
            assert(self@ =~= laid_out(before, table::with_rows(Seq::empty(), all)));
        }
        self.proceed_on(db, &mut effects, now);
        proof {
            let e = proceed(
                laid_out(before, table::with_rows(Seq::empty(), all)),
                old(db)@,
                now@,
            ).1;
            assert(Seq::<EffectView>::empty() + e =~= e);
        }
        effects
    }

    /// The track attempts of the slice, as they are written.
    fn attempt_list(&self) -> (r: Vec<(String, Option<TrackEnds>)>)
        ensures
            order::views(r@) == cached_attempts(self@.attempts),
    {
        let ghost all = cached_attempts(self.attempts@);
        let mut out: Vec<(String, Option<TrackEnds>)> = Vec::new();
        let mut i: usize = 0;
        proof {
            assert(order::views(out@) =~= all.take(0));
        }
        while i < self.attempts.len()
            invariant
                0 <= i <= self.attempts@.len(),
                all == cached_attempts(self.attempts@),
                order::views(out@) == all.take(i as int),
            decreases self.attempts@.len() - i,
        {
            let ghost done = order::views(out@);
            let ends = match self.attempts.row(i) {
                Some(t) => Some(t.ends.clone()),
                None => None,
            };
            out.push((self.attempts.key(i).clone(), ends));
            proof {
                assert(order::views(out@) =~= done.push(all[i as int]));
                assert(all.take(i + 1) =~= done.push(all[i as int]));
            }
            i += 1;
        }
        proof {
            assert(all.take(i as int) =~= all);
        }
        out
    }

    /// `/tracks/all` was answered; `near` holds the distances of the track's ends, where it brings
    /// a track.
    pub fn track_fetched(
        &mut self,
        outcome: OpenskyOutcome<Option<TrackEnds>>,
        near: &Option<EndDistances>,
        db: &mut JournalDb,
        now: &str,
    ) -> (r: Vec<Effect>)
        requires
            old(self).wf(),
            old(db)@.wf(),
            old(self)@.stage == Stage::FetchTrack,
            outcome matches OpenskyOutcome::Success { data, credit: _ } ==> opensky::measures(
                *near,
                data,
                old(self)@.entries,
            ),
        ensures
            final(self).wf(),
            final(db)@.wf(),
            final(self)@ == after_track(old(self)@, outcome, *near, old(db)@, now@).0,
            order::views(r@) == after_track(old(self)@, outcome, *near, old(db)@, now@).1,
            final(db)@ == all_applied(
                old(db)@,
                after_track(old(self)@, outcome, *near, old(db)@, now@).1,
                now@,
            ),
    {
        broadcast use vstd::std_specs::hash::group_hash_axioms;

        let ghost before = self@;
        let ghost journal = db@;
        let mut effects: Vec<Effect> = Vec::new();
        let (found, message): (Option<Option<SnappedTrack>>, String) = match outcome {
            OpenskyOutcome::Success { data, credit: _ } => {
                let track = match (&data, near) {
                    (Some(ends), Some(n)) => Some(opensky::snap_track(ends, n, &self.airports)),
                    _ => None,
                };
                (Some(track), String::new())
            },
            OpenskyOutcome::NotFound { credit: _ } => (Some(None), String::new()),
            OpenskyOutcome::RateLimited { credit } => {
                let left = opensky::show_count(credit.remaining);
                (None, text::join2("tracks HTTP 429 remaining=", left.as_str()))
            },
            OpenskyOutcome::Denied { status, message } => {
                let error = opensky::http_error_text(status, message.as_str());
                (None, text::join2("tracks ", error.as_str()))
            },
            OpenskyOutcome::Other { status, message } => {
                let error = opensky::http_error_text(status, message.as_str());
                (None, text::join2("tracks ", error.as_str()))
            },
        };
        let ghost mut next = before;
        if let Some(ends) = &found {
            let legs = &self.legs[self.leg];
            proof {
                assert(before.legs[before.leg] == legs@);
            }
            let first_seen: i64 = legs.flights[self.flight].first_seen;
            let key = collect::track_attempt_key(legs.row.icao24.as_str(), first_seen);
            let kept: Option<SnappedTrack> = match ends {
                Some(e) => {
                    self.tracks.insert(first_seen, e.clone());
                    Some(e.clone())
                },
                None => None,
            };
            self.attempts.put(key, kept);
            assert(self.flight < self.legs[self.leg as int].flights.len());
            self.flight = self.flight + 1;
            proof {
                next = attempted(before, *ends);
                assert(self@ =~= next);
            }
        }
        let list = self.attempt_list();
        let ghost wrote = tracks_written(next);
        effects.push(
            Effect::WriteTracks { day: self.day, slice_idx: self.slice, attempts: list },
        );
        proof {
            assert(effects@[0]@ =~= wrote);
            assert(order::views(effects@) =~= seq![wrote]);
        }
        if found.is_some() {
            self.proceed_on(db, &mut effects, now);
        } else {
            self.stop_with(db, &mut effects, message, now);
        }
        proof {
            let rest = if found is Some {
                proceed(next, journal, now@).1
            } else {
                stopped(before, message@).1
            };
            lemma_applied_one(journal, wrote, now@);
            lemma_all_applied_concat(journal, seq![wrote], rest, now@);
        }
        effects
    }
}

/// What the cache holds of a slice.
pub open spec fn cached_view(cached: Option<Vec<Flight>>) -> Option<Seq<Flight>> {
    match cached {
        Some(flights) => Some(flights@),
        None => None,
    }
}

proof fn lemma_applied_one(journal: JournalView, e: EffectView, now: Seq<char>)
    ensures
        all_applied(journal, seq![e], now) == applied(journal, e, now),
        all_applied(journal, Seq::<EffectView>::empty(), now) == journal,
{
    reveal_with_fuel(all_applied, 2);
    assert(seq![e].drop_last() =~= Seq::<EffectView>::empty());
}

/// Working on a slice changes neither the plan of the run nor where it stands.
pub proof fn lemma_work_keeps(run: RunView)
    ensures
        ({
            let r = work(run).0;
            &&& r.rows == run.rows && r.entries == run.entries && r.cache == run.cache
            &&& r.ingest == run.ingest && r.mark == run.mark && r.fallback == run.fallback
            &&& r.cap == run.cap && r.fetched_at == run.fetched_at
            &&& r.first == run.first && r.end == run.end
            &&& r.day == run.day && r.slice == run.slice && r.flights == run.flights
            &&& r.legs == run.legs && r.attempts == run.attempts
            &&& !work(run).2 ==> r.stage == run.stage
            &&& work(run).2 ==> r.stage == Stage::FetchTrack
        }),
    decreases
            run.legs.len() - run.leg,
            if 0 <= run.leg < run.legs.len() {
                run.legs[run.leg].flights.len() - run.flight
            } else {
                0
            },
{
    if 0 <= run.leg < run.legs.len() {
        let legs = run.legs[run.leg];
        if run.flight >= legs.flights.len() {
            lemma_work_keeps(leg_done(run).0);
        } else {
            let f = legs.flights[run.flight];
            let next = RunView { flight: run.flight + 1, ..run };
            if opensky::can_place(f, run.entries) || !run.fallback {
                lemma_work_keeps(next);
            } else {
                let key = collect::attempt_key(legs.row.icao24@, f.first_seen);
                match table::row_of(run.attempts, key) {
                    Some(Some(ends)) => lemma_work_keeps(
                        RunView { tracks: run.tracks.insert(f.first_seen, ends), ..next },
                    ),
                    Some(None) => lemma_work_keeps(next),
                    None => {},
                }
            }
        }
    }
}

} // verus!
