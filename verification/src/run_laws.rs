//! What every collect run keeps to, whatever the cache and the service answer.

use crate::airports::{Airport, AirportIndex};
use crate::calendar;
use crate::calendar::UtcDay;
use crate::collapse;
use crate::collect;
use crate::collect::{CollectError, CollectOptions, CollectReport};
use crate::collector;
use crate::collector::{Ask, AskView, Collector, Effect, EffectView, RunView, Stage};
use crate::fleet::{FleetQuery, FleetRow};
use crate::ingest;
use crate::opensky;
use crate::opensky::{
    EndDistances, Flight, MeasuredTrack, OpenskyOutcome, SnappedTrack, TrackEnds,
    FLIGHTS_ALL_SLICES_PER_DAY, FLIGHTS_ALL_SLICE_CREDITS,
};
use crate::store::{DayView, JournalDb, JournalView, TripView};
use crate::table;
use crate::text;
use vstd::prelude::*;

verus! {

/// Some answer to what a run asked for takes it from `run` to `next`, with these effects.
pub open spec fn steps(
    run: RunView,
    journal: JournalView,
    now: Seq<char>,
    next: RunView,
    effects: Seq<EffectView>,
) -> bool {
    match run.stage {
        Stage::LoadSlice => exists|cached: Option<Seq<Flight>>| #[trigger]
            collector::after_load(run, cached) == (next, effects),
        Stage::FetchFlights => exists|outcome: OpenskyOutcome<Vec<Flight>>| #[trigger]
            collector::after_flights(run, outcome) == (next, effects),
        Stage::LoadTracks => exists|attempts: Seq<(Seq<char>, Option<SnappedTrack>)>| #[trigger]
            collector::proceed(collector::laid_out(run, attempts), journal, now) == (next, effects),
        Stage::FetchTrack => exists|
            outcome: OpenskyOutcome<Option<TrackEnds>>,
            near: Option<EndDistances>,
        | #[trigger]
            collector::after_track(run, outcome, near, journal, now) == (next, effects),
        Stage::Finished => false,
    }
}

/// What a run never changes.
pub open spec fn same_plan(a: RunView, b: RunView) -> bool {
    &&& a.rows == b.rows
    &&& a.entries == b.entries
    &&& a.cache == b.cache
    &&& a.ingest == b.ingest
    &&& a.mark == b.mark
    &&& a.fallback == b.fallback
    &&& a.cap == b.cap
    &&& a.fetched_at == b.fetched_at
    &&& a.first == b.first
    &&& a.end == b.end
}

/// The calls and credits of `/flights/all` are the same.
pub open spec fn same_spending(a: RunView, b: RunView) -> bool {
    &&& a.report.flights_calls == b.report.flights_calls
    &&& a.report.estimated_flights_credits == b.report.estimated_flights_credits
}

/// A run that stands on `(day, slice)` has yet to come to the slice `(d, i)`: days are taken from
/// the newest back, the slices of a day from the first on.
pub open spec fn from_slice(day: UtcDay, slice: u32, d: UtcDay, i: u32) -> bool {
    d.number < day.number || (d.number == day.number && i >= slice)
}

/// A run has nothing to do for a slice: it is complete, or its day is, or its day is one that the
/// run does not begin.
pub open spec fn nothing_left(run: RunView, journal: JournalView, d: UtcDay, i: u32) -> bool {
    ||| journal.slice_complete(d, i)
    ||| journal.day_complete(d, FLIGHTS_ALL_SLICES_PER_DAY)
    ||| !collector::begins(run, journal, d) && (d != run.day || run.slice == 0)
}

/// A run goes on to the first slice for which something is left to do, the days from the newest
/// back: what it stands on is not complete, and every slice that it passed over is complete, or of
/// a complete day, or of a day that was never started and that the cap leaves no room for. It
/// finishes only where that holds of every slice back to the oldest day.
pub proof fn law_seek_finds_the_first_open_slice(run: RunView, journal: JournalView)
    requires
        run.first.valid(),
        run.end.valid(),
        run.day.valid(),
        run.day.number <= run.end.number,
        run.slice <= FLIGHTS_ALL_SLICES_PER_DAY,
    ensures
        ({
            let r = collector::seek(run, journal);
            &&& same_plan(run, r) && same_spending(run, r)
            &&& !run.mark ==> r.report == run.report
            &&& r.flights == run.flights && r.legs == run.legs && r.attempts == run.attempts
            &&& r.stage == Stage::LoadSlice || r.stage == Stage::Finished
            &&& r.stage == Stage::LoadSlice ==> {
                &&& run.first.number <= r.day.number <= run.day.number
                &&& r.slice < FLIGHTS_ALL_SLICES_PER_DAY
                &&& !journal.slice_complete(r.day, r.slice)
                &&& from_slice(run.day, run.slice, r.day, r.slice)
                &&& r.day != run.day || run.slice == 0 ==> collector::begins(run, journal, r.day)
                &&& forall|d: UtcDay, i: u32|
                    from_slice(run.day, run.slice, d, i) && i < FLIGHTS_ALL_SLICES_PER_DAY
                        && !from_slice(r.day, r.slice, d, i) ==> #[trigger] nothing_left(
                        run,
                        journal,
                        d,
                        i,
                    )
            }
            &&& r.stage == Stage::Finished ==> forall|d: UtcDay, i: u32|
                from_slice(run.day, run.slice, d, i) && i < FLIGHTS_ALL_SLICES_PER_DAY
                    && run.first.number <= d.number ==> #[trigger] nothing_left(run, journal, d, i)
        }),
    decreases run.day.number - calendar::FIRST_DAY, FLIGHTS_ALL_SLICES_PER_DAY - run.slice,
{
    let r = collector::seek(run, journal);
    let older = UtcDay { number: (run.day.number - 1) as i32 };
    if run.first.number <= run.day.number {
        let report = if run.mark && journal.day_complete(run.day, FLIGHTS_ALL_SLICES_PER_DAY) {
            CollectReport {
                days_ok: collect::counted(run.report.days_ok, 1),
                ..run.report
            }
        } else {
            run.report
        };
        let next = if run.slice == 0 && collector::passes_over(run, journal, run.day) {
            RunView { day: older, ..run }
        } else if run.slice < FLIGHTS_ALL_SLICES_PER_DAY {
            RunView { slice: (run.slice + 1) as u32, ..run }
        } else {
            RunView { day: older, slice: 0, report, ..run }
        };
        let stays = next.day == run.day && !journal.slice_complete(run.day, run.slice);
        let ends = next.day != run.day && run.day.number == calendar::FIRST_DAY;
        if !stays && !ends {
            law_seek_finds_the_first_open_slice(next, journal);
        }
        if !stays {
            assert forall|d: UtcDay, i: u32|
                from_slice(run.day, run.slice, d, i) && i < FLIGHTS_ALL_SLICES_PER_DAY
                    && run.first.number <= d.number && if r.stage == Stage::LoadSlice {
                    !from_slice(r.day, r.slice, d, i)
                } else {
                    true
                } implies #[trigger] nothing_left(run, journal, d, i) by {
                if !ends && from_slice(next.day, next.slice, d, i) {
                    assert(nothing_left(next, journal, d, i));
                } else {
                    assert(d == run.day);
                }
            }
        }
    }
}

/// All effects are trips of ingested aircraft.
pub open spec fn only_trips(effects: Seq<EffectView>, ingest: Set<Seq<char>>) -> bool {
    forall|i: int|
        0 <= i < effects.len() ==> ((#[trigger] effects[i]) matches EffectView::Trip { trip }
            && ingest.contains(trip.icao24))
}

/// Every aircraft of the slice is one that is ingested.
pub open spec fn legs_ingested(run: RunView) -> bool {
    forall|g: int|
        0 <= g < run.legs.len() ==> run.ingest.contains((#[trigger] run.legs[g]).row.icao24@)
}

/// Every flight of the slice is of an aircraft that is ingested.
pub open spec fn flights_ingested(run: RunView) -> bool {
    forall|i: int|
        0 <= i < run.flights.len() ==> run.ingest.contains((#[trigger] run.flights[i]).icao24@)
}

proof fn lemma_work(run: RunView)
    requires
        legs_ingested(run),
        0 <= run.flight,
    ensures
        only_trips(collector::work(run).1, run.ingest),
        same_spending(run, collector::work(run).0),
        collector::work(run).0.report.days_ok == run.report.days_ok,
        ({
            let r = collector::work(run).0;
            collector::work(run).2 ==> {
                &&& 0 <= r.leg < r.legs.len() && run.leg <= r.leg
                &&& 0 <= r.flight < r.legs[r.leg].flights.len()
                &&& r.leg == run.leg ==> run.flight <= r.flight
                &&& run.fallback
                &&& !opensky::can_place(r.legs[r.leg].flights[r.flight], r.entries)
                &&& table::row_of(
                    r.attempts,
                    collect::attempt_key(
                        r.legs[r.leg].row.icao24@,
                        r.legs[r.leg].flights[r.flight].first_seen,
                    ),
                ) is None
            }
        }),
    decreases
            run.legs.len() - run.leg,
            if 0 <= run.leg < run.legs.len() {
                run.legs[run.leg].flights.len() - run.flight
            } else {
                0
            },
{
    collector::lemma_work_keeps(run);
    if 0 <= run.leg < run.legs.len() {
        let legs = run.legs[run.leg];
        if run.flight >= legs.flights.len() {
            let (next, trips) = collector::leg_done(run);
            lemma_work(next);
            collector::lemma_work_keeps(next);
            ingest::law_trips_are_of_the_aircraft(
                legs.flights,
                legs.row,
                run.entries,
                run.tracks,
                run.fetched_at,
            );
            let all = collector::trip_effects(trips) + collector::work(next).1;
            assert forall|i: int| 0 <= i < all.len() implies ((#[trigger] all[i])
                matches EffectView::Trip { trip } && run.ingest.contains(trip.icao24)) by {
                if i < trips.len() {
                    assert(all[i] == EffectView::Trip { trip: trips[i] });
                    assert(trips[i].icao24 == legs.row.icao24@);
                } else {
                    assert(all[i] == collector::work(next).1[i - trips.len()]);
                }
            }
        } else {
            let f = legs.flights[run.flight];
            let next = RunView { flight: run.flight + 1, ..run };
            if opensky::can_place(f, run.entries) || !run.fallback {
                lemma_work(next);
            } else {
                let key = collect::attempt_key(legs.row.icao24@, f.first_seen);
                match table::row_of(run.attempts, key) {
                    Some(Some(ends)) => lemma_work(
                        RunView { tracks: run.tracks.insert(f.first_seen, ends), ..next },
                    ),
                    Some(None) => lemma_work(next),
                    None => {},
                }
            }
        }
    }
}

proof fn lemma_legs_of_ingested(flights: Seq<Flight>, rows: Seq<FleetRow>, hexes: Seq<Seq<char>>)
    ensures
        forall|g: int|
            0 <= g < collect::legs_by_hex(flights, rows, hexes).len() ==> hexes.contains(
                (#[trigger] collect::legs_by_hex(flights, rows, hexes)[g]).row.icao24@,
            ),
    decreases hexes.len(),
{
    if hexes.len() > 0 {
        let front = hexes.drop_last();
        lemma_legs_of_ingested(flights, rows, front);
        lemma_row_for(rows, hexes.last());
        let all = collect::legs_by_hex(flights, rows, hexes);
        assert forall|g: int| 0 <= g < all.len() implies hexes.contains(
            (#[trigger] all[g]).row.icao24@,
        ) by {
            let some = collect::legs_by_hex(flights, rows, front);
            if g < some.len() {
                assert(all[g] == some[g]);
                let q = choose|q: int| 0 <= q < front.len() && front[q] == some[g].row.icao24@;
                assert(hexes[q] == all[g].row.icao24@);
            } else {
                assert(hexes[hexes.len() - 1] == all[g].row.icao24@);
            }
        }
    }
}

proof fn lemma_row_for(rows: Seq<FleetRow>, hex: Seq<char>)
    ensures
        collect::row_for(rows, hex) matches Some(row) ==> row.icao24@ == hex,
    decreases rows.len(),
{
    if rows.len() > 0 {
        lemma_row_for(rows.drop_last(), hex);
    }
}

proof fn lemma_hexes_of(flights: Seq<Flight>, hex: Seq<char>)
    ensures
        collect::hexes_of(flights).contains(hex) ==> exists|i: int|
            0 <= i < flights.len() && (#[trigger] flights[i]).icao24@ == hex,
    decreases flights.len(),
{
    if flights.len() > 0 && collect::hexes_of(flights).contains(hex) {
        let front = flights.drop_last();
        lemma_hexes_of(front, hex);
        let all = collect::hexes_of(flights);
        let some = collect::hexes_of(front);
        let q = choose|q: int| 0 <= q < all.len() && all[q] == hex;
        if q < some.len() {
            assert(some[q] == hex);
            let i = choose|i: int| 0 <= i < front.len() && (#[trigger] front[i]).icao24@ == hex;
            assert(flights[i].icao24@ == hex);
        } else {
            assert(flights[flights.len() - 1].icao24@ == hex);
        }
    }
}

proof fn lemma_laid_out(run: RunView, attempts: Seq<(Seq<char>, Option<SnappedTrack>)>)
    requires
        flights_ingested(run),
    ensures
        legs_ingested(collector::laid_out(run, attempts)),
{
    let legs = collect::slice_legs(run.flights, run.rows);
    lemma_legs_of_ingested(run.flights, run.rows, collect::hexes_of(run.flights));
    assert forall|g: int| 0 <= g < legs.len() implies run.ingest.contains(
        (#[trigger] legs[g]).row.icao24@,
    ) by {
        lemma_hexes_of(run.flights, legs[g].row.icao24@);
        let i = choose|i: int|
            0 <= i < run.flights.len() && (#[trigger] run.flights[i]).icao24@
                == legs[g].row.icao24@;
        assert(run.ingest.contains(run.flights[i].icao24@));
    }
}

proof fn lemma_fleet_flights_ingested(flights: Seq<Flight>, ingest: Set<Seq<char>>)
    ensures
        forall|i: int|
            0 <= i < opensky::fleet_flights(flights, ingest).len() ==> ingest.contains(
                (#[trigger] opensky::fleet_flights(flights, ingest)[i]).icao24@,
            ),
{
    broadcast use vstd::seq_lib::group_filter_ensures;

    let kept = opensky::fleet_flights(flights, ingest);
    assert forall|i: int| 0 <= i < kept.len() implies ingest.contains(
        (#[trigger] kept[i]).icao24@,
    ) by {
        let p = |f: Flight| ingest.contains(f.icao24@);
        assert(p(flights.filter(p)[i]));
    }
}

/// A well-formed run whose work in hand is of ingested aircraft only.
pub open spec fn sound(run: RunView) -> bool {
    &&& run.wf()
    &&& run.stage == Stage::LoadTracks ==> flights_ingested(run)
    &&& run.stage == Stage::FetchTrack ==> legs_ingested(run)
}

/// Whether a run of this stage has made its `/flights/all` call for the slice it stands on.
pub open spec fn stage_order(stage: Stage) -> int {
    match stage {
        Stage::LoadSlice => 0,
        Stage::FetchFlights => 1,
        Stage::LoadTracks => 2,
        Stage::FetchTrack => 3,
        Stage::Finished => 4,
    }
}

/// `b` is further than `a`: finished, on an older day, on a later slice, at a later stage of the
/// slice, or at a later flight.
pub open spec fn further(a: RunView, b: RunView) -> bool {
    ||| b.stage == Stage::Finished
    ||| b.day.number < a.day.number
    ||| b.day == a.day && b.slice > a.slice
    ||| b.day == a.day && b.slice == a.slice && stage_order(b.stage) > stage_order(a.stage)
    ||| b.day == a.day && b.slice == a.slice && a.stage == Stage::FetchTrack && b.stage
        == Stage::FetchTrack && b.legs == a.legs && (b.leg > a.leg || (b.leg == a.leg && b.flight
        > a.flight))
}

proof fn lemma_proceed(run: RunView, journal: JournalView, now: Seq<char>)
    requires
        run.first.valid(),
        run.end.valid(),
        run.first.number <= run.day.number <= run.end.number,
        run.slice < FLIGHTS_ALL_SLICES_PER_DAY,
        legs_ingested(run),
        0 <= run.leg,
        0 <= run.flight,
    ensures
        ({
            let (next, effects) = collector::proceed(run, journal, now);
            &&& same_plan(run, next) && same_spending(run, next)
            &&& sound(next)
            &&& next.stage == Stage::LoadSlice || next.stage == Stage::FetchTrack || next.stage
                == Stage::Finished
            &&& next.stage == Stage::FetchTrack ==> collector::work(run).2 && next
                == collector::work(run).0
            &&& !run.mark ==> next.report.days_ok == run.report.days_ok
            &&& next.stage != Stage::FetchTrack ==> next.stage == Stage::Finished || next.day.number
                < run.day.number || (next.day == run.day && next.slice > run.slice)
            &&& next.stage == Stage::LoadSlice && next.day != run.day ==> collector::begins(
                next,
                collector::all_applied(journal, effects, now),
                next.day,
            )
            &&& next.stage == Stage::FetchTrack ==> {
                &&& next.day == run.day && next.slice == run.slice && next.legs == run.legs
                &&& next.attempts == run.attempts
                &&& next.leg > run.leg || (next.leg == run.leg && next.flight >= run.flight)
                &&& only_trips(effects, run.ingest)
            }
            &&& !run.mark ==> only_trips(effects, run.ingest)
            &&& next.stage != Stage::FetchTrack && run.mark ==> {
                &&& effects.len() > 0
                &&& effects.last() == EffectView::SliceOk { day: run.day, slice_idx: run.slice }
                &&& only_trips(effects.drop_last(), run.ingest)
            }
        }),
{
    collector::lemma_work_keeps(run);
    lemma_work(run);
    let (r, effects, waits) = collector::work(run);
    if !waits {
        let written = if run.mark {
            effects.push(EffectView::SliceOk { day: run.day, slice_idx: run.slice })
        } else {
            effects
        };
        let at = RunView { slice: (run.slice + 1) as u32, ..r };
        law_seek_finds_the_first_open_slice(at, collector::all_applied(journal, written, now));
        if run.mark {
            assert(written.drop_last() =~= effects);
        }
    }
}

/// Every answer leaves a run sound, leaves its plan as it was, and takes it further, so that a run
/// comes to its end.
pub proof fn law_steps_go_on(
    run: RunView,
    journal: JournalView,
    now: Seq<char>,
    next: RunView,
    effects: Seq<EffectView>,
)
    requires
        sound(run),
        steps(run, journal, now, next, effects),
    ensures
        sound(next),
        same_plan(run, next),
        further(run, next),
{
    match run.stage {
        Stage::LoadSlice => {
            let cached = choose|cached: Option<Seq<Flight>>| #[trigger]
                collector::after_load(run, cached) == (next, effects);
            if let Some(flights) = cached {
                lemma_fleet_flights_ingested(flights, run.ingest);
            }
        },
        Stage::FetchFlights => {
            let outcome = choose|outcome: OpenskyOutcome<Vec<Flight>>| #[trigger]
                collector::after_flights(run, outcome) == (next, effects);
            if let OpenskyOutcome::Success { data, credit: _ } = outcome {
                lemma_fleet_flights_ingested(
                    opensky::fleet_flights(data@, run.cache),
                    run.ingest,
                );
            }
        },
        Stage::LoadTracks => {
            let attempts = choose|attempts: Seq<(Seq<char>, Option<SnappedTrack>)>| #[trigger]
                collector::proceed(collector::laid_out(run, attempts), journal, now) == (
                    next,
                    effects,
                );
            lemma_laid_out(run, attempts);
            lemma_proceed(collector::laid_out(run, attempts), journal, now);
        },
        Stage::FetchTrack => {
            let (outcome, near) = choose|
                outcome: OpenskyOutcome<Option<TrackEnds>>,
                near: Option<EndDistances>,
            | #[trigger]
                collector::after_track(run, outcome, near, journal, now) == (next, effects);
            if let Some(ends) = collector::track_found(outcome, near, run.entries) {
                lemma_proceed(collector::attempted(run, ends), journal, now);
            }
        },
        Stage::Finished => {},
    }
}

/// The estimated spending is the price of the calls that were made, and within the cap.
pub open spec fn spends_within_cap(run: RunView) -> bool {
    &&& run.report.estimated_flights_credits == run.report.flights_calls
        * FLIGHTS_ALL_SLICE_CREDITS
    &&& run.report.estimated_flights_credits <= run.cap
}

/// A run never spends more than its cap: the estimate starts at nothing and stays the price of the
/// calls made, within the cap, through every step. (A cap at the top of its range does not bind:
/// the estimate stays at that top.)
pub proof fn law_spending_within_cap(
    run: RunView,
    journal: JournalView,
    now: Seq<char>,
    next: RunView,
    effects: Seq<EffectView>,
)
    requires
        sound(run),
        steps(run, journal, now, next, effects),
        spends_within_cap(run),
        run.cap < u32::MAX,
    ensures
        spends_within_cap(next),
        next.report.flights_calls == run.report.flights_calls + if next.stage
            == Stage::FetchFlights {
            1int
        } else {
            0
        },
{
    match run.stage {
        Stage::LoadTracks => {
            let attempts = choose|attempts: Seq<(Seq<char>, Option<SnappedTrack>)>| #[trigger]
                collector::proceed(collector::laid_out(run, attempts), journal, now) == (
                    next,
                    effects,
                );
            lemma_laid_out(run, attempts);
            lemma_proceed(collector::laid_out(run, attempts), journal, now);
        },
        Stage::FetchTrack => {
            let (outcome, near) = choose|
                outcome: OpenskyOutcome<Option<TrackEnds>>,
                near: Option<EndDistances>,
            | #[trigger]
                collector::after_track(run, outcome, near, journal, now) == (next, effects);
            if let Some(ends) = collector::track_found(outcome, near, run.entries) {
                lemma_proceed(collector::attempted(run, ends), journal, now);
            }
        },
        _ => {},
    }
}

/// A run starts sound and with nothing spent: on the newest day that is asked for, never later
/// than yesterday, unless that day is complete; then on an older one. It marks slices exactly where
/// no hexes are named.
pub proof fn law_start(
    rows: Seq<FleetRow>,
    skipped_empty_icao24: u64,
    entries: Seq<Airport>,
    options: CollectOptions,
    today: UtcDay,
    fetched_at: Seq<char>,
    journal: JournalView,
)
    requires
        today.valid(),
        options.from matches Some(d) ==> d.valid(),
        options.to matches Some(d) ==> d.valid(),
        journal.wf(),
    ensures
        ({
            let fresh = collector::fresh_run(
                rows,
                skipped_empty_icao24,
                entries,
                options,
                today,
                fetched_at,
            );
            let run = collector::seek(fresh, journal);
            let newest = collect::last_day(options.to, collect::day_before(today));
            &&& sound(run)
            &&& same_plan(fresh, run)
            &&& spends_within_cap(run)
            &&& run.end == newest
            &&& run.end.number < today.number || run.end == today
            &&& run.mark <==> collect::cleaned(options.hex_filter@).len() == 0
            &&& (options.from matches Some(d) ==> d.number <= newest.number)
                && !journal.day_complete(newest, FLIGHTS_ALL_SLICES_PER_DAY) && (exists|i: u32|
                i < FLIGHTS_ALL_SLICES_PER_DAY && !#[trigger] journal.slice_complete(newest, i))
                ==> run.stage == Stage::LoadSlice && run.day == newest
        }),
{
    let fresh = collector::fresh_run(
        rows,
        skipped_empty_icao24,
        entries,
        options,
        today,
        fetched_at,
    );
    let newest = fresh.end;
    law_seek_finds_the_first_open_slice(fresh, journal);
    if fresh.first.number <= newest.number && !journal.day_complete(
        newest,
        FLIGHTS_ALL_SLICES_PER_DAY,
    ) && exists|i: u32|
        i < FLIGHTS_ALL_SLICES_PER_DAY && !#[trigger] journal.slice_complete(newest, i) {
        let i = choose|i: u32|
            i < FLIGHTS_ALL_SLICES_PER_DAY && !#[trigger] journal.slice_complete(newest, i);
        assert(!nothing_left(fresh, journal, newest, i));
    }
}

/// A slice that the cache holds costs nothing.
pub proof fn law_cached_slice_is_free(run: RunView, flights: Seq<Flight>)
    ensures
        ({
            let (next, effects) = collector::after_load(run, Some(flights));
            &&& same_spending(run, next)
            &&& next.stage == Stage::LoadTracks
            &&& effects.len() == 0
        }),
{
}

/// What is written to the slice cache is the fleet's flights, whatever the run ingests.
pub proof fn law_cache_is_of_the_fleet(
    run: RunView,
    other: Set<Seq<char>>,
    outcome: OpenskyOutcome<Vec<Flight>>,
)
    ensures
        collector::after_flights(RunView { ingest: other, ..run }, outcome).1
            == collector::after_flights(run, outcome).1,
{
}

/// Nothing among the effects completes a slice.
pub open spec fn marks_nothing(effects: Seq<EffectView>) -> bool {
    forall|i: int| 0 <= i < effects.len() ==> !((#[trigger] effects[i]) is SliceOk)
}

/// Effects that complete no slice leave the slices of the journal as they were.
pub proof fn lemma_marks_nothing(journal: JournalView, effects: Seq<EffectView>, now: Seq<char>)
    requires
        marks_nothing(effects),
    ensures
        collector::all_applied(journal, effects, now).slices == journal.slices,
    decreases effects.len(),
{
    if effects.len() > 0 {
        let front = effects.drop_last();
        assert forall|i: int| 0 <= i < front.len() implies !((#[trigger] front[i]) is SliceOk) by {
            assert(front[i] == effects[i]);
        }
        lemma_marks_nothing(journal, front, now);
        assert(!(effects[effects.len() - 1] is SliceOk));
    }
}

/// The run was started with these options, whatever it went through since.
pub open spec fn of_options(
    run: RunView,
    rows: Seq<FleetRow>,
    skipped_empty_icao24: u64,
    entries: Seq<Airport>,
    options: CollectOptions,
    today: UtcDay,
    fetched_at: Seq<char>,
) -> bool {
    same_plan(
        collector::fresh_run(rows, skipped_empty_icao24, entries, options, today, fetched_at),
        run,
    )
}

/// A run whose options name hexes, whichever they are, completes nothing: no step of it marks a
/// slice or counts a day.
pub proof fn law_partial_run_marks_nothing(
    rows: Seq<FleetRow>,
    skipped_empty_icao24: u64,
    entries: Seq<Airport>,
    options: CollectOptions,
    today: UtcDay,
    fetched_at: Seq<char>,
    run: RunView,
    journal: JournalView,
    now: Seq<char>,
    next: RunView,
    effects: Seq<EffectView>,
)
    requires
        collect::cleaned(options.hex_filter@).len() > 0,
        of_options(run, rows, skipped_empty_icao24, entries, options, today, fetched_at),
        sound(run),
        steps(run, journal, now, next, effects),
    ensures
        marks_nothing(effects),
        collector::all_applied(journal, effects, now).slices == journal.slices,
        next.report.days_ok == run.report.days_ok,
{
    match run.stage {
        Stage::LoadTracks => {
            let attempts = choose|attempts: Seq<(Seq<char>, Option<SnappedTrack>)>| #[trigger]
                collector::proceed(collector::laid_out(run, attempts), journal, now) == (
                    next,
                    effects,
                );
            lemma_laid_out(run, attempts);
            lemma_proceed(collector::laid_out(run, attempts), journal, now);
        },
        Stage::FetchTrack => {
            let (outcome, near) = choose|
                outcome: OpenskyOutcome<Option<TrackEnds>>,
                near: Option<EndDistances>,
            | #[trigger]
                collector::after_track(run, outcome, near, journal, now) == (next, effects);
            if let Some(ends) = collector::track_found(outcome, near, run.entries) {
                let at = collector::attempted(run, ends);
                lemma_proceed(at, journal, now);
                let rest = collector::proceed(at, journal, now).1;
                assert forall|i: int| 0 <= i < effects.len() implies !((#[trigger] effects[i])
                    is SliceOk) by {
                    if i > 0 {
                        assert(effects[i] == rest[i - 1]);
                    }
                }
            }
        },
        _ => {},
    }
    lemma_marks_nothing(journal, effects, now);
}

/// A whole run: `runs` and `journals` before each step and after the last, with what each step
/// writes and when.
pub open spec fn goes_through(
    runs: Seq<RunView>,
    journals: Seq<JournalView>,
    effects: Seq<Seq<EffectView>>,
    nows: Seq<Seq<char>>,
) -> bool {
    &&& runs.len() == journals.len() == effects.len() + 1
    &&& nows.len() == effects.len()
    &&& forall|k: int|
        0 <= k < effects.len() ==> {
            &&& steps(runs[k], journals[k], nows[k], runs[k + 1], #[trigger] effects[k])
            &&& journals[k + 1] == collector::all_applied(journals[k], effects[k], nows[k])
        }
}

/// A run whose options name hexes leaves every slice of every day as it was, from its start to
/// wherever it gets, and counts no day as complete.
pub proof fn law_hex_run_completes_nothing(
    rows: Seq<FleetRow>,
    skipped_empty_icao24: u64,
    entries: Seq<Airport>,
    options: CollectOptions,
    today: UtcDay,
    fetched_at: Seq<char>,
    runs: Seq<RunView>,
    journals: Seq<JournalView>,
    effects: Seq<Seq<EffectView>>,
    nows: Seq<Seq<char>>,
)
    requires
        today.valid(),
        options.from matches Some(d) ==> d.valid(),
        options.to matches Some(d) ==> d.valid(),
        goes_through(runs, journals, effects, nows),
        journals[0].wf(),
        runs[0] == collector::seek(
            collector::fresh_run(rows, skipped_empty_icao24, entries, options, today, fetched_at),
            journals[0],
        ),
        collect::cleaned(options.hex_filter@).len() > 0,
    ensures
        journals.last().slices == journals[0].slices,
        runs.last().report.days_ok == 0,
        sound(runs.last()),
        of_options(
            runs.last(),
            rows,
            skipped_empty_icao24,
            entries,
            options,
            today,
            fetched_at,
        ),
    decreases effects.len(),
{
    if effects.len() == 0 {
        let fresh = collector::fresh_run(
            rows,
            skipped_empty_icao24,
            entries,
            options,
            today,
            fetched_at,
        );
        law_start(
            rows,
            skipped_empty_icao24,
            entries,
            options,
            today,
            fetched_at,
            journals[0],
        );
        law_seek_finds_the_first_open_slice(fresh, journals[0]);
    } else {
        let k = effects.len() - 1;
        assert forall|q: int| 0 <= q < effects.drop_last().len() implies {
            &&& steps(
                runs.drop_last()[q],
                journals.drop_last()[q],
                nows.drop_last()[q],
                runs.drop_last()[q + 1],
                #[trigger] effects.drop_last()[q],
            )
            &&& journals.drop_last()[q + 1] == collector::all_applied(
                journals.drop_last()[q],
                effects.drop_last()[q],
                nows.drop_last()[q],
            )
        } by {
            assert(effects.drop_last()[q] == effects[q]);
        }
        law_hex_run_completes_nothing(
            rows,
            skipped_empty_icao24,
            entries,
            options,
            today,
            fetched_at,
            runs.drop_last(),
            journals.drop_last(),
            effects.drop_last(),
            nows.drop_last(),
        );
        assert(steps(runs[k], journals[k], nows[k], runs[k + 1], effects[k]));
        law_steps_go_on(runs[k], journals[k], nows[k], runs[k + 1], effects[k]);
        law_partial_run_marks_nothing(
            rows,
            skipped_empty_icao24,
            entries,
            options,
            today,
            fetched_at,
            runs[k],
            journals[k],
            nows[k],
            runs[k + 1],
            effects[k],
        );
    }
}

/// A run comes to a new day only by going back, and begins one that was never started only with
/// room for all of it under the cap.
pub proof fn law_new_day_needs_its_credits(
    run: RunView,
    journal: JournalView,
    now: Seq<char>,
    next: RunView,
    effects: Seq<EffectView>,
)
    requires
        sound(run),
        steps(run, journal, now, next, effects),
        next.stage != Stage::Finished,
        next.day != run.day,
    ensures
        run.first.number <= next.day.number < run.day.number,
        next.stage == Stage::LoadSlice,
        collector::day_affordable(next) || collector::all_applied(
            journal,
            effects,
            now,
        ).day_started(next.day),
{
    match run.stage {
        Stage::LoadTracks => {
            let attempts = choose|attempts: Seq<(Seq<char>, Option<SnappedTrack>)>| #[trigger]
                collector::proceed(collector::laid_out(run, attempts), journal, now) == (
                    next,
                    effects,
                );
            lemma_laid_out(run, attempts);
            lemma_proceed(collector::laid_out(run, attempts), journal, now);
        },
        Stage::FetchTrack => {
            let (outcome, near) = choose|
                outcome: OpenskyOutcome<Option<TrackEnds>>,
                near: Option<EndDistances>,
            | #[trigger]
                collector::after_track(run, outcome, near, journal, now) == (next, effects);
            if let Some(ends) = collector::track_found(outcome, near, run.entries) {
                let at = collector::attempted(run, ends);
                lemma_proceed(at, journal, now);
                let rest = collector::proceed(at, journal, now).1;
                let wrote = seq![collector::tracks_written(at)];
                collector::lemma_all_applied_concat(journal, wrote, rest, now);
                reveal_with_fuel(collector::all_applied, 2);
                assert(wrote.drop_last() =~= Seq::<EffectView>::empty());
            }
        },
        _ => {},
    }
}

/// An answer that is an error, and a cap that leaves no room, end the run: they complete nothing,
/// and the message stands on the day.
pub proof fn law_errors_stop_the_run(
    run: RunView,
    journal: JournalView,
    now: Seq<char>,
    flights: OpenskyOutcome<Vec<Flight>>,
    track: OpenskyOutcome<Option<TrackEnds>>,
    near: Option<EndDistances>,
)
    requires
        journal.wf(),
    ensures
        flights.error() is Some ==> {
            let (next, effects) = collector::after_flights(run, flights);
            &&& next.stage == Stage::Finished
            &&& marks_nothing(effects)
            &&& collector::all_applied(journal, effects, now) == journal.with_day_error(
                run.day,
                collector::flights_error(flights),
                now,
            )
        },
        track.error() is Some ==> {
            let (next, effects) = collector::after_track(run, track, near, journal, now);
            &&& next.stage == Stage::Finished
            &&& marks_nothing(effects)
            &&& collector::all_applied(journal, effects, now) == journal.with_day_error(
                run.day,
                collector::track_error(track),
                now,
            )
        },
        !collector::may_spend(run) ==> {
            let (next, effects) = collector::after_load(run, None);
            &&& next.stage == Stage::Finished
            &&& marks_nothing(effects)
            &&& collector::all_applied(journal, effects, now) == journal.with_day_error(
                run.day,
                "max-flights-credits cap"@,
                now,
            )
        },
{
    reveal_with_fuel(collector::all_applied, 3);
    if flights.error() is Some {
        let (next, effects) = collector::after_flights(run, flights);
        assert(effects.drop_last() =~= Seq::<EffectView>::empty());
    }
    if track.error() is Some {
        let (next, effects) = collector::after_track(run, track, near, journal, now);
        assert(effects.drop_last().drop_last() =~= Seq::<EffectView>::empty());
        assert(effects.drop_last() =~= seq![collector::tracks_written(run)]);
    }
    if !collector::may_spend(run) {
        let (next, effects) = collector::after_load(run, None);
        assert(effects.drop_last() =~= Seq::<EffectView>::empty());
    }
}

/// A track is asked for only where no attempt on it is known.
pub proof fn law_track_is_asked_for_where_unknown(
    run: RunView,
    journal: JournalView,
    now: Seq<char>,
    next: RunView,
    effects: Seq<EffectView>,
)
    requires
        sound(run),
        steps(run, journal, now, next, effects),
        next.stage == Stage::FetchTrack,
    ensures
        table::row_of(next.attempts, current_attempt(next)) is None,
{
    match run.stage {
        Stage::LoadTracks => {
            let attempts = choose|attempts: Seq<(Seq<char>, Option<SnappedTrack>)>| #[trigger]
                collector::proceed(collector::laid_out(run, attempts), journal, now) == (
                    next,
                    effects,
                );
            let at = collector::laid_out(run, attempts);
            lemma_laid_out(run, attempts);
            lemma_proceed(at, journal, now);
            lemma_work(at);
        },
        Stage::FetchTrack => {
            let (outcome, near) = choose|
                outcome: OpenskyOutcome<Option<TrackEnds>>,
                near: Option<EndDistances>,
            | #[trigger]
                collector::after_track(run, outcome, near, journal, now) == (next, effects);
            if let Some(ends) = collector::track_found(outcome, near, run.entries) {
                let at = collector::attempted(run, ends);
                lemma_proceed(at, journal, now);
                lemma_work(at);
            }
        },
        _ => {},
    }
}

/// The key of the attempt on the track of the flight that a run stands on.
pub open spec fn current_attempt(run: RunView) -> Seq<char> {
    collect::attempt_key(
        run.legs[run.leg].row.icao24@,
        run.legs[run.leg].flights[run.flight].first_seen,
    )
}

/// An answer about a track, whether it brings one or none, is kept with the attempts of the slice
/// and written to the cache at once, before anything else; an error leaves the attempts as they
/// were, and writes them too. Attempts that were known stay known.
pub proof fn law_track_attempt_is_kept(
    run: RunView,
    journal: JournalView,
    now: Seq<char>,
    outcome: OpenskyOutcome<Option<TrackEnds>>,
    near: Option<EndDistances>,
)
    requires
        sound(run),
        run.stage == Stage::FetchTrack,
        table::keys_unique(run.attempts),
    ensures
        ({
            let (next, effects) = collector::after_track(run, outcome, near, journal, now);
            &&& table::keys_unique(next.attempts)
            &&& effects.len() > 0
            &&& effects[0] == EffectView::WriteTracks {
                day: run.day,
                slice_idx: run.slice,
                attempts: collector::cached_attempts(next.attempts),
            }
            &&& match collector::track_found(outcome, near, run.entries) {
                Some(ends) => table::row_of(next.attempts, current_attempt(run)) == Some(ends),
                None => next.attempts == run.attempts,
            }
            &&& forall|key: Seq<char>|
                key != current_attempt(run) ==> #[trigger] table::row_of(next.attempts, key)
                    == table::row_of(run.attempts, key)
        }),
{
    if let Some(ends) = collector::track_found(outcome, near, run.entries) {
        let at = collector::attempted(run, ends);
        lemma_proceed(at, journal, now);
        collector::lemma_work_keeps(at);
        table::law_with_row(run.attempts, current_attempt(run), ends);
        let w = collector::work(at);
        if !w.2 {
            let written = if at.mark {
                w.1.push(EffectView::SliceOk { day: at.day, slice_idx: at.slice })
            } else {
                w.1
            };
            law_seek_finds_the_first_open_slice(
                RunView { slice: (at.slice + 1) as u32, ..w.0 },
                collector::all_applied(journal, written, now),
            );
        }
    }
}

/// A collect run writes trips, slices and days: it leaves the fleet, the cursors and what was seen
/// airborne as they were.
pub proof fn law_effects_leave_the_rest(
    journal: JournalView,
    effects: Seq<EffectView>,
    now: Seq<char>,
)
    ensures
        collector::all_applied(journal, effects, now).cursors == journal.cursors,
        collector::all_applied(journal, effects, now).fleet == journal.fleet,
        collector::all_applied(journal, effects, now).seen == journal.seen,
    decreases effects.len(),
{
    if effects.len() > 0 {
        law_effects_leave_the_rest(journal, effects.drop_last(), now);
    }
}

/// The rows that effects write into the trips.
pub open spec fn trip_rows(effects: Seq<EffectView>) -> Seq<((Seq<char>, Seq<char>), TripView)>
    decreases effects.len(),
{
    if effects.len() == 0 {
        Seq::empty()
    } else {
        let front = trip_rows(effects.drop_last());
        match effects.last() {
            EffectView::Trip { trip } => front.push(((trip.icao24, trip.dep_ts), trip)),
            _ => front,
        }
    }
}

/// The rows that effects write into the slices.
pub open spec fn slice_rows(effects: Seq<EffectView>, now: Seq<char>) -> Seq<
    ((UtcDay, u32), Seq<char>),
>
    decreases effects.len(),
{
    if effects.len() == 0 {
        Seq::empty()
    } else {
        let front = slice_rows(effects.drop_last(), now);
        match effects.last() {
            EffectView::SliceOk { day, slice_idx } => front.push(((day, slice_idx), now)),
            _ => front,
        }
    }
}

/// The rows that effects write into the days.
pub open spec fn day_rows(effects: Seq<EffectView>, now: Seq<char>) -> Seq<(UtcDay, DayView)>
    decreases effects.len(),
{
    if effects.len() == 0 {
        Seq::empty()
    } else {
        let front = day_rows(effects.drop_last(), now);
        match effects.last() {
            EffectView::SliceOk { day, slice_idx: _ } => front.push(
                (day, DayView { last_error: None, updated_at: now }),
            ),
            EffectView::DayError { day, message } => front.push(
                (day, DayView { last_error: Some(message), updated_at: now }),
            ),
            _ => front,
        }
    }
}

proof fn lemma_applied_rows(journal: JournalView, effects: Seq<EffectView>, now: Seq<char>)
    ensures
        collector::all_applied(journal, effects, now) == (JournalView {
            trips: table::with_rows(journal.trips, trip_rows(effects)),
            slices: table::with_rows(journal.slices, slice_rows(effects, now)),
            days: table::with_rows(journal.days, day_rows(effects, now)),
            ..journal
        }),
    decreases effects.len(),
{
    if effects.len() > 0 {
        let front = effects.drop_last();
        lemma_applied_rows(journal, front, now);
        match effects.last() {
            EffectView::Trip { trip } => {
                assert(trip_rows(effects).drop_last() =~= trip_rows(front));
            },
            EffectView::SliceOk { day, slice_idx } => {
                assert(slice_rows(effects, now).drop_last() =~= slice_rows(front, now));
                assert(day_rows(effects, now).drop_last() =~= day_rows(front, now));
            },
            EffectView::DayError { day, message } => {
                assert(day_rows(effects, now).drop_last() =~= day_rows(front, now));
            },
            _ => {},
        }
    }
}

/// Writing the same effects another time changes nothing, so that a step that was cut short can be
/// written again.
pub proof fn law_effects_are_idempotent(
    journal: JournalView,
    effects: Seq<EffectView>,
    now: Seq<char>,
)
    requires
        journal.wf(),
    ensures
        collector::all_applied(collector::all_applied(journal, effects, now), effects, now)
            == collector::all_applied(journal, effects, now),
{
    lemma_applied_rows(journal, effects, now);
    lemma_applied_rows(collector::all_applied(journal, effects, now), effects, now);
    table::law_with_rows_twice(journal.trips, trip_rows(effects));
    table::law_with_rows_twice(journal.slices, slice_rows(effects, now));
    table::law_with_rows_twice(journal.days, day_rows(effects, now));
}

/// The trips that a run writes are of aircraft that it ingests.
pub proof fn law_trips_are_of_ingested_aircraft(
    run: RunView,
    journal: JournalView,
    now: Seq<char>,
    next: RunView,
    effects: Seq<EffectView>,
)
    requires
        sound(run),
        steps(run, journal, now, next, effects),
    ensures
        forall|i: int|
            0 <= i < effects.len() ==> ((#[trigger] effects[i]) matches EffectView::Trip { trip }
                ==> run.ingest.contains(trip.icao24)),
{
    match run.stage {
        Stage::LoadTracks => {
            let attempts = choose|attempts: Seq<(Seq<char>, Option<SnappedTrack>)>| #[trigger]
                collector::proceed(collector::laid_out(run, attempts), journal, now) == (
                    next,
                    effects,
                );
            let at = collector::laid_out(run, attempts);
            lemma_laid_out(run, attempts);
            lemma_proceed(at, journal, now);
            lemma_only_trips_but_last(effects, run.ingest);
        },
        Stage::FetchTrack => {
            let (outcome, near) = choose|
                outcome: OpenskyOutcome<Option<TrackEnds>>,
                near: Option<EndDistances>,
            | #[trigger]
                collector::after_track(run, outcome, near, journal, now) == (next, effects);
            if let Some(ends) = collector::track_found(outcome, near, run.entries) {
                let at = collector::attempted(run, ends);
                lemma_proceed(at, journal, now);
                let rest = collector::proceed(at, journal, now).1;
                lemma_only_trips_but_last(rest, run.ingest);
                assert forall|i: int| 0 <= i < effects.len() implies ((#[trigger] effects[i])
                    matches EffectView::Trip { trip } ==> run.ingest.contains(trip.icao24)) by {
                    if i > 0 {
                        assert(effects[i] == rest[i - 1]);
                    }
                }
            }
        },
        _ => {},
    }
}

proof fn lemma_only_trips_but_last(effects: Seq<EffectView>, ingest: Set<Seq<char>>)
    requires
        only_trips(effects, ingest) || (effects.len() > 0 && effects.last() is SliceOk
            && only_trips(effects.drop_last(), ingest)),
    ensures
        forall|i: int|
            0 <= i < effects.len() ==> ((#[trigger] effects[i]) matches EffectView::Trip { trip }
                ==> ingest.contains(trip.icao24)),
{
    assert forall|i: int| 0 <= i < effects.len() implies ((#[trigger] effects[i])
        matches EffectView::Trip { trip } ==> ingest.contains(trip.icao24)) by {
        if !only_trips(effects, ingest) && i < effects.len() - 1 {
            assert(effects.drop_last()[i] == effects[i]);
        }
    }
}

/// What a run asks for is about where it stands: the cache is asked for the slice and the tracks of
/// the day that the run stands on; `/flights/all` for the two hours of that slice; `/tracks/all` for
/// the aircraft and the time of first sight of the flight that it stands on. It asks for a track
/// exactly where it waits for one.
pub proof fn law_asks_are_about_where_the_run_stands(run: RunView)
    ensures
        match collector::asked(run) {
            AskView::LoadSlice { day, slice_idx } => run.stage is LoadSlice && day == run.day
                && slice_idx == run.slice,
            AskView::FetchFlights { day, slice_idx, begin, end } => {
                &&& run.stage is FetchFlights && day == run.day && slice_idx == run.slice
                &&& begin == run.day.number * 86_400 + run.slice * 7_200
                &&& end == begin + 7_199
            },
            AskView::LoadTracks { day, slice_idx } => run.stage is LoadTracks && day == run.day
                && slice_idx == run.slice,
            AskView::FetchTrack { day, slice_idx, icao24, time } => {
                &&& run.stage is FetchTrack && day == run.day && slice_idx == run.slice
                &&& icao24 == run.legs[run.leg].row.icao24@
                &&& time == run.legs[run.leg].flights[run.flight].first_seen
            },
            AskView::Finished => run.stage is Finished,
        },
{
}

/// The answer to what a run asked for is kept for what was asked: where it asked for the track of an
/// aircraft at a time, the answer stands among the attempts under the key of that aircraft and that
/// time, the attempts are written for the day and the slice that it named, and every other attempt
/// stays as it was.
pub proof fn law_track_answer_is_kept_for_what_was_asked(
    run: RunView,
    journal: JournalView,
    now: Seq<char>,
    outcome: OpenskyOutcome<Option<TrackEnds>>,
    near: Option<EndDistances>,
    day: UtcDay,
    slice_idx: u32,
    icao24: Seq<char>,
    time: i64,
)
    requires
        sound(run),
        table::keys_unique(run.attempts),
        collector::asked(run) == (AskView::FetchTrack { day, slice_idx, icao24, time }),
    ensures
        collect::attempt_key(icao24, time) == current_attempt(run),
        ({
            let key = icao24 + ":"@ + text::decimal_int(time as int);
            let (next, effects) = collector::after_track(run, outcome, near, journal, now);
            &&& effects.len() > 0
            &&& effects[0] matches EffectView::WriteTracks { day: d, slice_idx: i, attempts }
            &&& d == day && i == slice_idx
            &&& attempts.len() == next.attempts.len()
            &&& forall|n: int|
                0 <= n < attempts.len() ==> (#[trigger] attempts[n]).0 == next.attempts[n].0
                    && match next.attempts[n].1 {
                    Some(t) => attempts[n].1 == Some(t.ends),
                    None => attempts[n].1 is None,
                }
            &&& match outcome {
                OpenskyOutcome::Success { data: Some(ends), .. } => near is Some ==> (table::row_of(
                    next.attempts,
                    key,
                ) matches Some(Some(t)) && t.ends == ends),
                OpenskyOutcome::Success { data: None, .. } => table::row_of(next.attempts, key)
                    == Some(None::<SnappedTrack>),
                OpenskyOutcome::NotFound { .. } => table::row_of(next.attempts, key) == Some(
                    None::<SnappedTrack>,
                ),
                _ => next.attempts == run.attempts,
            }
            &&& forall|other: Seq<char>|
                other != key ==> #[trigger] table::row_of(next.attempts, other) == table::row_of(
                    run.attempts,
                    other,
                )
        }),
{
    law_asks_are_about_where_the_run_stands(run);
    law_track_attempt_is_kept(run, journal, now, outcome, near);
}

/// A track that was found is held for the flight that it was asked for: under the time at which that
/// flight was first seen, and the tracks of all other times stay as they were. The run goes on with
/// the next flight.
pub proof fn law_found_track_is_of_its_flight(
    run: RunView,
    found: SnappedTrack,
    day: UtcDay,
    slice_idx: u32,
    icao24: Seq<char>,
    time: i64,
)
    requires
        collector::asked(run) == (AskView::FetchTrack { day, slice_idx, icao24, time }),
    ensures
        ({
            let next = collector::attempted(run, Some(found));
            &&& next.tracks.contains_key(time) && next.tracks[time] == found
            &&& forall|t: i64|
                t != time ==> (#[trigger] next.tracks.contains_key(t) <==> run.tracks.contains_key(t))
                    && next.tracks[t] == run.tracks[t]
            &&& next.flight == run.flight + 1 && next.leg == run.leg && next.legs == run.legs
        }),
        ({
            let next = collector::attempted(run, None);
            next.tracks == run.tracks && next.flight == run.flight + 1 && next.leg == run.leg
                && next.legs == run.legs
        }),
{
}

/// The answer of `/flights/all` is kept for the window that was asked for: it is written to the cache
/// file of the day and the slice whose two hours the window is. Data is cut down to the fleet, what
/// was not found is written as no flights, and an error writes nothing but that it stands on the day.
pub proof fn law_flights_answer_is_kept_for_what_was_asked(
    run: RunView,
    outcome: OpenskyOutcome<Vec<Flight>>,
    day: UtcDay,
    slice_idx: u32,
    begin: int,
    end: int,
)
    requires
        collector::asked(run) == (AskView::FetchFlights { day, slice_idx, begin, end }),
    ensures
        begin == day.number * 86_400 + slice_idx * 7_200,
        end == begin + 7_199,
        ({
            let (next, effects) = collector::after_flights(run, outcome);
            &&& effects.len() == 1
            &&& next.day == day && next.slice == slice_idx
            &&& match outcome {
                OpenskyOutcome::Success { data, .. } => {
                    &&& effects[0] matches EffectView::WriteSlice { day: d, slice_idx: i, flights }
                    &&& d == day && i == slice_idx
                    &&& flights == data@.filter(|f: Flight| run.cache.contains(f.icao24@))
                    &&& next.flights == flights.filter(|f: Flight| run.ingest.contains(f.icao24@))
                    &&& next.stage is LoadTracks
                },
                OpenskyOutcome::NotFound { .. } => {
                    &&& effects[0] matches EffectView::WriteSlice { day: d, slice_idx: i, flights }
                    &&& d == day && i == slice_idx
                    &&& flights.len() == 0 && next.flights.len() == 0
                    &&& next.stage is LoadTracks
                },
                OpenskyOutcome::RateLimited { credit } => {
                    &&& effects[0] matches EffectView::DayError { day: d, message }
                    &&& d == day
                    &&& message == "flights/all HTTP 429 remaining="@ + match credit.remaining {
                        Some(n) => "Some("@ + text::decimal(n as nat) + ")"@,
                        None => "None"@,
                    }
                    &&& next.stage is Finished
                },
                OpenskyOutcome::Denied { status, message: said } => {
                    &&& effects[0] matches EffectView::DayError { day: d, message }
                    &&& d == day
                    &&& message == "HTTP "@ + text::decimal(status as nat) + ": "@ + said@
                    &&& next.stage is Finished
                },
                OpenskyOutcome::Other { status, message: said } => {
                    &&& effects[0] matches EffectView::DayError { day: d, message }
                    &&& d == day
                    &&& message == "HTTP "@ + text::decimal(status as nat) + ": "@ + said@
                    &&& next.stage is Finished
                },
            }
        }),
{
}

/// What a run says of a track that it could not get stands on the day that it worked on, behind the
/// attempts that it wrote, and the run ends there.
pub proof fn law_track_errors_are_told(
    run: RunView,
    journal: JournalView,
    now: Seq<char>,
    outcome: OpenskyOutcome<Option<TrackEnds>>,
    near: Option<EndDistances>,
)
    ensures
        ({
            let (next, effects) = collector::after_track(run, outcome, near, journal, now);
            match outcome {
                OpenskyOutcome::RateLimited { credit } => {
                    &&& effects.len() == 2
                    &&& effects[1] == EffectView::DayError {
                        day: run.day,
                        message: "tracks HTTP 429 remaining="@ + match credit.remaining {
                            Some(n) => "Some("@ + text::decimal(n as nat) + ")"@,
                            None => "None"@,
                        },
                    }
                    &&& next.stage is Finished
                },
                OpenskyOutcome::Denied { status, message } => {
                    &&& effects.len() == 2
                    &&& effects[1] == EffectView::DayError {
                        day: run.day,
                        message: "tracks "@ + ("HTTP "@ + text::decimal(status as nat) + ": "@
                            + message@),
                    }
                    &&& next.stage is Finished
                },
                OpenskyOutcome::Other { status, message } => {
                    &&& effects.len() == 2
                    &&& effects[1] == EffectView::DayError {
                        day: run.day,
                        message: "tracks "@ + ("HTTP "@ + text::decimal(status as nat) + ": "@
                            + message@),
                    }
                    &&& next.stage is Finished
                },
                _ => true,
            }
        }),
{
}

/// What a run counts when the cache answers: a slice that the cache holds counts as one from the
/// cache, with its flights of the ingested aircraft and no credits; one that it does not hold as one
/// call of `/flights/all` and 30 credits, unless that went beyond the cap, where the run ends with an
/// error on the day and nothing counted.
pub proof fn law_load_is_counted(run: RunView, cached: Option<Seq<Flight>>)
    requires
        run.report.days_from_cache < u64::MAX,
        run.report.flights_calls < u64::MAX,
        run.report.estimated_flights_credits + 30 <= u32::MAX,
    ensures
        ({
            let (next, effects) = collector::after_load(run, cached);
            &&& next.day == run.day && next.slice == run.slice
            &&& match cached {
                Some(flights) => {
                    &&& next.stage is LoadTracks && effects.len() == 0
                    &&& next.flights == flights.filter(|f: Flight| run.ingest.contains(f.icao24@))
                    &&& next.report == CollectReport {
                        days_from_cache: (run.report.days_from_cache + 1) as u64,
                        ..run.report
                    }
                },
                None => if run.report.estimated_flights_credits + 30 <= run.cap {
                    &&& next.stage is FetchFlights && effects.len() == 0
                    &&& next.report == CollectReport {
                        flights_calls: (run.report.flights_calls + 1) as u64,
                        estimated_flights_credits: (run.report.estimated_flights_credits
                            + 30) as u32,
                        ..run.report
                    }
                } else {
                    &&& next.stage is Finished && next.report == run.report
                    &&& effects == seq![
                        EffectView::DayError {
                            day: run.day,
                            message: "max-flights-credits cap"@,
                        },
                    ]
                },
            }
        }),
{
}

/// What a run counts when `/flights/all` answers: nothing for data, one day not found for what was
/// not found, one stop for an error.
pub proof fn law_flights_answer_is_counted(run: RunView, outcome: OpenskyOutcome<Vec<Flight>>)
    requires
        run.report.days_not_found < u64::MAX,
        run.report.hexes_stopped_on_error < u64::MAX,
    ensures
        ({
            let next = collector::after_flights(run, outcome).0;
            match outcome {
                OpenskyOutcome::Success { .. } => next.report == run.report,
                OpenskyOutcome::NotFound { .. } => next.report == CollectReport {
                    days_not_found: (run.report.days_not_found + 1) as u64,
                    ..run.report
                },
                _ => next.report == CollectReport {
                    hexes_stopped_on_error: (run.report.hexes_stopped_on_error + 1) as u64,
                    ..run.report
                },
            }
        }),
{
}

/// What a run counts of an aircraft whose flights are done: each trip that is written, and each
/// flight, near duplicates counted once, that has no trip. It goes on with the first flight of the
/// next aircraft, with no tracks.
pub proof fn law_leg_is_counted(run: RunView)
    requires
        0 <= run.leg < run.legs.len(),
    ensures
        ({
            let legs = run.legs[run.leg];
            let (next, trips) = collector::leg_done(run);
            let kept = collapse::collapsed(legs.flights);
            &&& trips == ingest::trips_of(
                legs.flights,
                legs.row,
                run.entries,
                run.tracks,
                run.fetched_at,
            )
            &&& next.leg == run.leg + 1 && next.flight == 0 && next.tracks.dom() == Set::<
                i64,
            >::empty()
            &&& run.report.trips_upserted + trips.len() <= u64::MAX
                && run.report.skipped_no_coords + kept.len() <= u64::MAX ==> {
                &&& next.report == CollectReport {
                    trips_upserted: next.report.trips_upserted,
                    skipped_no_coords: next.report.skipped_no_coords,
                    ..run.report
                }
                &&& next.report.trips_upserted - run.report.trips_upserted == trips.len()
                &&& next.report.trips_upserted - run.report.trips_upserted
                    + next.report.skipped_no_coords - run.report.skipped_no_coords == kept.len()
            }
        }),
{
    let legs = run.legs[run.leg];
    ingest::lemma_trips_each_len(
        collapse::collapsed(legs.flights),
        legs.row,
        run.entries,
        run.tracks,
        run.fetched_at,
    );
}

/// What the journal holds after an effect: a trip under its aircraft and departure; a slice as
/// complete, and its day without an error; an error on its day. A cache file changes nothing in it.
pub proof fn law_effects_on_the_journal(journal: JournalView, effect: EffectView, now: Seq<char>)
    requires
        journal.wf(),
    ensures
        ({
            let after = collector::applied(journal, effect, now);
            &&& after.fleet == journal.fleet && after.cursors == journal.cursors && after.seen
                == journal.seen
            &&& match effect {
                EffectView::Trip { trip } => {
                    &&& table::row_of(after.trips, (trip.icao24, trip.dep_ts)) == Some(trip)
                    &&& after.slices == journal.slices && after.days == journal.days
                },
                EffectView::SliceOk { day, slice_idx } => {
                    &&& table::row_of(after.slices, (day, slice_idx)) == Some(now)
                    &&& table::row_of(after.days, day) matches Some(d) && d.last_error is None
                        && d.updated_at == now
                    &&& after.trips == journal.trips
                },
                EffectView::DayError { day, message } => {
                    &&& table::row_of(after.days, day) matches Some(d) && d.last_error == Some(
                        message,
                    ) && d.updated_at == now
                    &&& after.trips == journal.trips && after.slices == journal.slices
                },
                _ => after == journal,
            }
        }),
{
    match effect {
        EffectView::Trip { trip } => {
            table::law_with_row(journal.trips, (trip.icao24, trip.dep_ts), trip);
        },
        EffectView::SliceOk { day, slice_idx } => {
            table::law_with_row(journal.slices, (day, slice_idx), now);
            table::law_with_row(journal.days, day, DayView { last_error: None, updated_at: now });
        },
        EffectView::DayError { day, message } => {
            table::law_with_row(
                journal.days,
                day,
                DayView { last_error: Some(message), updated_at: now },
            );
        },
        _ => {},
    }
}

/// A run with the options that it was given: it caches the flights of every aircraft of the fleet,
/// ingests those named or all, marks slices as complete only where none is named, fetches tracks
/// where it is told to, and keeps to the cap and the days that it is given.
pub proof fn law_run_follows_its_options(
    rows: Seq<FleetRow>,
    skipped_empty_icao24: u64,
    entries: Seq<Airport>,
    options: CollectOptions,
    today: UtcDay,
    fetched_at: Seq<char>,
    hex: Seq<char>,
)
    requires
        today.number > calendar::FIRST_DAY,
    ensures
        ({
            let run = collector::fresh_run(
                rows,
                skipped_empty_icao24,
                entries,
                options,
                today,
                fetched_at,
            );
            let named = collect::cleaned(options.hex_filter@);
            let of_fleet = exists|i: int| 0 <= i < rows.len() && (#[trigger] rows[i]).icao24@ == hex;
            &&& run.rows == rows && run.entries == entries && run.fetched_at == fetched_at
            &&& run.cache.contains(hex) <==> of_fleet
            &&& run.ingest.contains(hex) <==> of_fleet && (named.len() == 0 || exists|i: int|
                0 <= i < named.len() && #[trigger] named[i] == hex)
            &&& run.mark <==> named.len() == 0
            &&& run.fallback == options.tracks_fallback
            &&& run.cap == options.max_flights_credits
            &&& run.day == run.end && run.slice == 0
            &&& run.end.number < today.number
            &&& options.to matches Some(d) ==> run.end.number <= d.number && (run.end == d
                || run.end.number == today.number - 1)
            &&& options.to is None ==> run.end.number == today.number - 1
            &&& options.from matches Some(d) ==> run.first == d
            &&& options.from is None ==> run.first.number == calendar::FIRST_DAY
            &&& run.report.skipped_empty_icao24 == skipped_empty_icao24
            &&& rows.len() <= usize::MAX ==> run.report.fleet_hexes == rows.len()
        }),
{
    collect::law_fleet_hexes(rows, hex);
    collect::law_ingest_set(
        collect::cleaned(options.hex_filter@),
        collect::fleet_hexes(rows),
        hex,
    );
    collect::law_days_of_a_run(options.from, options.to, today);
}

/// A run that works through a slice leaves no track out: where it fetches tracks and goes through the
/// slice without waiting for one, every flight from where it stood on can be placed by its airports
/// or has a known attempt. A run that fetches none never waits.
pub proof fn law_no_track_is_left_out(run: RunView, g: int, n: int)
    requires
        0 <= run.leg,
        0 <= run.flight,
        run.leg <= g < run.legs.len(),
        0 <= n < run.legs[g].flights.len(),
        g == run.leg ==> run.flight <= n,
    ensures
        !run.fallback ==> !collector::work(run).2,
        run.fallback && !collector::work(run).2 ==> opensky::can_place(
            run.legs[g].flights[n],
            run.entries,
        ) || table::row_of(
            run.attempts,
            run.legs[g].row.icao24@ + ":"@ + text::decimal_int(
                run.legs[g].flights[n].first_seen as int,
            ),
        ) is Some,
{
    lemma_no_track_is_left_out(run, g, n);
}

proof fn lemma_no_track_is_left_out(run: RunView, g: int, n: int)
    requires
        0 <= run.leg,
        0 <= run.flight,
        0 <= g < run.legs.len(),
        0 <= n < run.legs[g].flights.len(),
    ensures
        !run.fallback ==> !collector::work(run).2,
        run.fallback && !collector::work(run).2 && run.leg <= g && (g == run.leg ==> run.flight <= n)
            ==> opensky::can_place(run.legs[g].flights[n], run.entries) || table::row_of(
            run.attempts,
            run.legs[g].row.icao24@ + ":"@ + text::decimal_int(
                run.legs[g].flights[n].first_seen as int,
            ),
        ) is Some,
    decreases
            run.legs.len() - run.leg,
            if 0 <= run.leg < run.legs.len() {
                run.legs[run.leg].flights.len() - run.flight
            } else {
                0
            },
{
    if run.leg < run.legs.len() {
        let legs = run.legs[run.leg];
        if run.flight >= legs.flights.len() {
            lemma_no_track_is_left_out(collector::leg_done(run).0, g, n);
        } else {
            let f = legs.flights[run.flight];
            let next = RunView { flight: run.flight + 1, ..run };
            if opensky::can_place(f, run.entries) || !run.fallback {
                lemma_no_track_is_left_out(next, g, n);
            } else {
                let key = collect::attempt_key(legs.row.icao24@, f.first_seen);
                match table::row_of(run.attempts, key) {
                    Some(Some(ends)) => {
                        lemma_no_track_is_left_out(
                            RunView { tracks: run.tracks.insert(f.first_seen, ends), ..next },
                            g,
                            n,
                        );
                    },
                    Some(None) => {
                        lemma_no_track_is_left_out(next, g, n);
                    },
                    None => {},
                }
            }
        }
    }
}

/// A known track is as good as one that was just fetched: a run that finds the attempt on the track
/// of its flight among those it knows goes on as it does when the answer has come.
pub proof fn law_known_track_is_as_good(run: RunView, found: Option<SnappedTrack>)
    requires
        0 <= run.leg < run.legs.len(),
        0 <= run.flight < run.legs[run.leg].flights.len(),
        run.fallback,
        !opensky::can_place(run.legs[run.leg].flights[run.flight], run.entries),
        table::keys_unique(run.attempts),
    ensures
        ({
            let known = RunView {
                attempts: table::with_row(run.attempts, current_attempt(run), found),
                ..run
            };
            collector::work(known) == collector::work(collector::attempted(run, found))
        }),
{
    table::law_with_row(run.attempts, current_attempt(run), found);
    let known = RunView {
        attempts: table::with_row(run.attempts, current_attempt(run), found),
        ..run
    };
    match found {
        Some(t) => {
            assert(collector::attempted(run, found) == RunView {
                flight: run.flight + 1,
                tracks: run.tracks.insert(run.legs[run.leg].flights[run.flight].first_seen, t),
                ..known
            });
        },
        None => {
            assert(collector::attempted(run, found) == RunView { flight: run.flight + 1, ..known });
        },
    }
}

/// What a run writes as it works on a slice are trips, and it counts each: as many more were written
/// as there are effects. Where it waits for a track it has counted one more call, else none.
pub proof fn law_trips_are_counted(run: RunView)
    requires
        run.report.tracks_calls < u64::MAX,
    ensures
        ({
            let (next, effects, waits) = collector::work(run);
            &&& run.report.trips_upserted + effects.len() <= u64::MAX
                ==> next.report.trips_upserted == run.report.trips_upserted + effects.len()
            &&& forall|i: int| 0 <= i < effects.len() ==> (#[trigger] effects[i]) is Trip
            &&& next.report.tracks_calls == run.report.tracks_calls + (if waits {
                1int
            } else {
                0
            })
            &&& next.report == CollectReport {
                trips_upserted: next.report.trips_upserted,
                skipped_no_coords: next.report.skipped_no_coords,
                tracks_calls: next.report.tracks_calls,
                ..run.report
            }
            &&& waits ==> next.stage is FetchTrack
            &&& next.attempts == run.attempts
        }),
    decreases
            run.legs.len() - run.leg,
            if 0 <= run.leg < run.legs.len() {
                run.legs[run.leg].flights.len() - run.flight
            } else {
                0
            },
{
    if 0 <= run.leg < run.legs.len() {
        let legs = run.legs[run.leg];
        if run.flight >= legs.flights.len() {
            law_trips_are_counted(collector::leg_done(run).0);
        } else {
            let f = legs.flights[run.flight];
            let next = RunView { flight: run.flight + 1, ..run };
            if opensky::can_place(f, run.entries) || !run.fallback {
                law_trips_are_counted(next);
            } else {
                let key = collect::attempt_key(legs.row.icao24@, f.first_seen);
                match table::row_of(run.attempts, key) {
                    Some(Some(ends)) => {
                        law_trips_are_counted(
                            RunView { tracks: run.tracks.insert(f.first_seen, ends), ..next },
                        );
                    },
                    Some(None) => {
                        law_trips_are_counted(next);
                    },
                    None => {},
                }
            }
        }
    }
}

/// Once a run is through with the flights of an aircraft, it writes their trips, in order, before
/// anything else.
pub proof fn law_trips_of_an_aircraft_are_written(run: RunView, i: int)
    requires
        0 <= run.leg < run.legs.len(),
        run.flight >= run.legs[run.leg].flights.len(),
    ensures
        ({
            let legs = run.legs[run.leg];
            let trips = ingest::trips_of(
                legs.flights,
                legs.row,
                run.entries,
                run.tracks,
                run.fetched_at,
            );
            0 <= i < trips.len() ==> i < collector::work(run).1.len() && collector::work(run).1[i]
                == (EffectView::Trip { trip: trips[i] })
        }),
{
}

/// A run that is through with a slice completes it, as the last thing that it writes, where it marks
/// slices; one that does not mark, or waits for a track, completes nothing.
pub proof fn law_slice_is_completed_at_its_end(run: RunView, journal: JournalView, now: Seq<char>)
    requires
        run.report.tracks_calls < u64::MAX,
    ensures
        ({
            let (next, effects) = collector::proceed(run, journal, now);
            let waits = collector::work(run).2;
            &&& run.mark && !waits ==> effects.len() > 0 && effects.last() == (EffectView::SliceOk {
                day: run.day,
                slice_idx: run.slice,
            })
            &&& forall|i: int|
                0 <= i < effects.len() - (if run.mark && !waits {
                    1int
                } else {
                    0
                }) ==> (#[trigger] effects[i]) is Trip
        }),
{
    law_trips_are_counted(run);
}

/// A day that was never started is begun only where the cap leaves 360 credits, what its twelve
/// slices cost at 30 each; the newest day and a day that was started are worked on whatever is left.
pub proof fn law_day_needs_its_credits(run: RunView, journal: JournalView, day: UtcDay)
    ensures
        day == run.end ==> collector::begins(run, journal, day),
        journal.day_started(day) ==> collector::begins(run, journal, day),
        day != run.end && !journal.day_started(day) ==> (collector::begins(run, journal, day)
            <==> run.report.estimated_flights_credits + 360 <= run.cap),
        360 == 12 * 30,
{
}

/// A run counts a day as done where it goes on from it: it marks slices, stands behind the first slice
/// of the day, and the day is complete with every slice from there on. It counts no other day that it
/// passes, and nothing else.
pub proof fn law_seek_counts_the_day_it_leaves(run: RunView, journal: JournalView)
    requires
        run.report.days_ok < u64::MAX,
        run.slice <= 12,
    ensures
        ({
            let r = collector::seek(run, journal);
            let done = {
                &&& run.mark && run.slice > 0
                &&& run.first.number <= run.day.number <= run.end.number
                &&& journal.day_complete(run.day, 12)
                &&& forall|i: u32|
                    run.slice <= i < 12 ==> #[trigger] journal.slice_complete(run.day, i)
            };
            &&& r.report == CollectReport { days_ok: r.report.days_ok, ..run.report }
            &&& r.report.days_ok == run.report.days_ok + (if done {
                1int
            } else {
                0
            })
        }),
    decreases run.day.number - calendar::FIRST_DAY, FLIGHTS_ALL_SLICES_PER_DAY - run.slice,
{
    let older = UtcDay { number: (run.day.number - 1) as i32 };
    if run.first.number <= run.day.number <= run.end.number {
        if run.slice == 0 && collector::passes_over(run, journal, run.day) {
            if run.day.number > calendar::FIRST_DAY {
                law_seek_counts_the_day_it_leaves(RunView { day: older, ..run }, journal);
            }
        } else if run.slice < FLIGHTS_ALL_SLICES_PER_DAY {
            if journal.slice_complete(run.day, run.slice) {
                let next = RunView { slice: (run.slice + 1) as u32, ..run };
                law_seek_counts_the_day_it_leaves(next, journal);
                assert(run.slice > 0 && journal.day_complete(run.day, 12) && (forall|i: u32|
                    next.slice <= i < 12 ==> #[trigger] journal.slice_complete(run.day, i)) ==> (
                forall|i: u32|
                    run.slice <= i < 12 ==> #[trigger] journal.slice_complete(run.day, i)));
            }
        } else if run.day.number > calendar::FIRST_DAY {
            let complete = run.mark && journal.day_complete(run.day, FLIGHTS_ALL_SLICES_PER_DAY);
            let next = RunView {
                day: older,
                slice: 0,
                report: if complete {
                    CollectReport { days_ok: collect::counted(run.report.days_ok, 1), ..run.report }
                } else {
                    run.report
                },
                ..run
            };
            lemma_seek_from_midnight(next, journal);
        }
    }
}

proof fn lemma_seek_from_midnight(run: RunView, journal: JournalView)
    requires
        run.slice == 0 || !journal.day_complete(run.day, 12),
        run.slice <= 12,
    ensures
        collector::seek(run, journal).report == run.report,
    decreases run.day.number - calendar::FIRST_DAY, FLIGHTS_ALL_SLICES_PER_DAY - run.slice,
{
    let older = UtcDay { number: (run.day.number - 1) as i32 };
    if run.first.number <= run.day.number <= run.end.number {
        if run.slice == 0 && collector::passes_over(run, journal, run.day) {
            if run.day.number > calendar::FIRST_DAY {
                lemma_seek_from_midnight(RunView { day: older, ..run }, journal);
            }
        } else if run.slice < FLIGHTS_ALL_SLICES_PER_DAY {
            if journal.slice_complete(run.day, run.slice) {
                lemma_seek_from_midnight(
                    RunView { slice: (run.slice + 1) as u32, ..run },
                    journal,
                );
            }
        } else if run.day.number > calendar::FIRST_DAY {
            lemma_seek_from_midnight(RunView { day: older, slice: 0, ..run }, journal);
        }
    }
}

/// What a collector asks for is about where it stands, field by field: a track for the aircraft and
/// the time of first sight of its flight, flights for the two hours of its slice, and the cache for
/// its day and slice.
pub proof fn law_collector_asks_about_where_it_stands(c: Collector, r: Ask)
    requires
        call_ensures(Collector::ask, (&c,), r),
    ensures
        match r {
            Ask::LoadSlice { day, slice_idx } => c@.stage is LoadSlice && day == c@.day && slice_idx
                == c@.slice,
            Ask::FetchFlights { day, slice_idx, begin, end } => {
                &&& c@.stage is FetchFlights && day == c@.day && slice_idx == c@.slice
                &&& begin == c@.day.number * 86_400 + c@.slice * 7_200
                &&& end == begin + 7_199
            },
            Ask::LoadTracks { day, slice_idx } => c@.stage is LoadTracks && day == c@.day && slice_idx
                == c@.slice,
            Ask::FetchTrack { day, slice_idx, icao24, time } => {
                &&& c@.stage is FetchTrack && day == c@.day && slice_idx == c@.slice
                &&& icao24@ == c@.legs[c@.leg].row.icao24@
                &&& time == c@.legs[c@.leg].flights[c@.flight].first_seen
            },
            Ask::Finished => c@.stage is Finished,
        },
{
    law_asks_are_about_where_the_run_stands(c@);
}

/// What is written is seen as it is held: for its own day and slice, with its own flights, attempts,
/// trip or message.
pub proof fn law_effects_are_seen_as_held(e: Effect)
    ensures
        match e {
            Effect::WriteSlice { day, slice_idx, flights } => e@ == (EffectView::WriteSlice {
                day,
                slice_idx,
                flights: flights@,
            }),
            Effect::WriteTracks { day, slice_idx, attempts } => e@ matches EffectView::WriteTracks {
                day: d,
                slice_idx: i,
                attempts: a,
            } && d == day && i == slice_idx && a.len() == attempts@.len() && forall|k: int|
                0 <= k < a.len() ==> (#[trigger] a[k]).0 == attempts@[k].0@ && a[k].1
                    == attempts@[k].1@,
            Effect::Trip { trip } => e@ == (EffectView::Trip { trip: trip@ }),
            Effect::SliceOk { day, slice_idx } => e@ == (EffectView::SliceOk { day, slice_idx }),
            Effect::DayError { day, message } => e@ == (EffectView::DayError {
                day,
                message: message@,
            }),
        },
{
}

/// A slice is worked on from its start: with the legs of its flights, from the first flight of the
/// first aircraft, with no tracks yet and the attempts that the cache holds.
pub proof fn law_slice_is_laid_out(run: RunView, attempts: Seq<(Seq<char>, Option<SnappedTrack>)>)
    ensures
        ({
            let next = collector::laid_out(run, attempts);
            &&& next.legs == collect::slice_legs(run.flights, run.rows)
            &&& next.leg == 0 && next.flight == 0
            &&& next.tracks.dom() == Set::<i64>::empty()
            &&& next.attempts == attempts
            &&& next.day == run.day && next.slice == run.slice && next.report == run.report
        }),
{
}

/// The attempts that the cache holds are known under the keys that they were cached under, each with
/// its own track, the ends snapped by its own distances.
pub proof fn law_cached_attempts_are_known(
    attempts: Seq<(Seq<char>, Option<MeasuredTrack>)>,
    entries: Seq<Airport>,
    i: int,
)
    requires
        0 <= i < attempts.len(),
    ensures
        ({
            let known = collector::snapped_attempts(attempts, entries);
            &&& known.len() == attempts.len()
            &&& known[i].0 == attempts[i].0
            &&& match attempts[i].1 {
                Some(t) => known[i].1 == opensky::snapped(Some(t.ends), Some(t.near), entries),
                None => known[i].1 is None,
            }
        }),
{
}

/// A collector starts over the days and the fleet that it is given, and is refused exactly where hexes
/// are named and none is of an aircraft of the fleet.
pub proof fn law_collector_starts(
    fleet: FleetQuery,
    airports: AirportIndex,
    options: CollectOptions,
    today: UtcDay,
    fetched_at: &str,
    db: JournalDb,
    r: Result<Collector, CollectError>,
    hex: Seq<char>,
)
    requires
        call_ensures(Collector::start, (fleet, airports, &options, today, fetched_at, &db), r),
    ensures
        ({
            let named = collect::cleaned(options.hex_filter@);
            let of_fleet = exists|i: int|
                0 <= i < fleet.rows@.len() && (#[trigger] fleet.rows@[i]).icao24@ == hex;
            &&& named.len() == 0 ==> r is Ok
            &&& named.contains(hex) && of_fleet ==> r is Ok
            &&& r matches Err(e) ==> e is NoHexInFleet
            &&& r matches Ok(c) ==> c@ == collector::seek(
                collector::fresh_run(
                    fleet.rows@,
                    fleet.skipped_empty_icao24,
                    airports.entries(),
                    options,
                    today,
                    fetched_at@,
                ),
                db@,
            )
        }),
{
    collect::law_fleet_hexes(fleet.rows@, hex);
    let named = collect::cleaned(options.hex_filter@);
    assert(collect::names_no_aircraft(named, collect::fleet_hexes(fleet.rows@))
        && collect::fleet_hexes(fleet.rows@).contains(hex) ==> !named.contains(hex));
}

/// No slice is passed over: where a run that is through with a slice goes on to another, every slice
/// between the two is complete, or of a complete day, or of an older day that was never started and
/// that the cap leaves no 360 credits for. The slices of a day come in rising order, twelve of them,
/// and then those of the day before. Where it ends, that holds of every slice back to its oldest day.
pub proof fn law_no_slice_is_passed_over(
    run: RunView,
    journal: JournalView,
    now: Seq<char>,
    d: UtcDay,
    i: u32,
)
    requires
        run.first.valid(),
        run.end.valid(),
        run.day.valid(),
        run.first.number <= run.day.number <= run.end.number,
        run.slice < 12,
        !collector::work(run).2,
        run.first.number <= d.number,
        i < 12,
        d.number < run.day.number || (d.number == run.day.number && i > run.slice),
    ensures
        ({
            let (next, effects) = collector::proceed(run, journal, now);
            let after = collector::all_applied(journal, effects, now);
            let reached = next.stage is LoadSlice && (d.number < next.day.number || (d.number
                == next.day.number && i >= next.slice));
            reached || after.slice_complete(d, i) || after.day_complete(d, 12) || (d.number
                < run.day.number && d != run.end && !after.day_started(d)
                && run.report.estimated_flights_credits + 360 > run.cap)
        }),
        ({
            let next = collector::proceed(run, journal, now).0;
            next.stage is LoadSlice || next.stage is Finished
        }),
{
    let (w, effects, waits) = collector::work(run);
    let written = if run.mark {
        effects.push(EffectView::SliceOk { day: run.day, slice_idx: run.slice })
    } else {
        effects
    };
    let after = collector::all_applied(journal, written, now);
    let at = RunView { slice: (run.slice + 1) as u32, ..w };
    collector::lemma_work_keeps(run);
    lemma_work_spends_nothing(run);
    law_seek_finds_the_first_open_slice(at, after);
    let next = collector::seek(at, after);
    if next.stage is Finished || !from_slice(next.day, next.slice, d, i) {
        assert(from_slice(at.day, at.slice, d, i));
        assert(nothing_left(at, after, d, i));
    }
}

/// Working on a slice keeps to the day, the slice, the cap and the credits of the run.
proof fn lemma_work_spends_nothing(run: RunView)
    ensures
        ({
            let w = collector::work(run).0;
            &&& w.day == run.day && w.slice == run.slice
            &&& w.report.estimated_flights_credits == run.report.estimated_flights_credits
            &&& same_plan(run, w)
        }),
    decreases
            run.legs.len() - run.leg,
            if 0 <= run.leg < run.legs.len() {
                run.legs[run.leg].flights.len() - run.flight
            } else {
                0
            },
{
    if 0 <= run.leg < run.legs.len() {
        let legs = run.legs[run.leg];
        if run.flight >= legs.flights.len() {
            lemma_work_spends_nothing(collector::leg_done(run).0);
        } else {
            let f = legs.flights[run.flight];
            let next = RunView { flight: run.flight + 1, ..run };
            if opensky::can_place(f, run.entries) || !run.fallback {
                lemma_work_spends_nothing(next);
            } else {
                let key = collect::attempt_key(legs.row.icao24@, f.first_seen);
                match table::row_of(run.attempts, key) {
                    Some(Some(ends)) => {
                        lemma_work_spends_nothing(
                            RunView { tracks: run.tracks.insert(f.first_seen, ends), ..next },
                        );
                    },
                    Some(None) => {
                        lemma_work_spends_nothing(next);
                    },
                    None => {},
                }
            }
        }
    }
}

/// A track that could not be fetched counts as one stop, and as nothing else.
pub proof fn law_track_error_is_counted(
    run: RunView,
    journal: JournalView,
    now: Seq<char>,
    outcome: OpenskyOutcome<Option<TrackEnds>>,
    near: Option<EndDistances>,
)
    requires
        run.report.hexes_stopped_on_error < u64::MAX,
        !(outcome is Success),
        !(outcome is NotFound),
    ensures
        ({
            let next = collector::after_track(run, outcome, near, journal, now).0;
            &&& next.stage is Finished
            &&& next.report == CollectReport {
                hexes_stopped_on_error: (run.report.hexes_stopped_on_error + 1) as u64,
                ..run.report
            }
        }),
{
}

/// What a run writes when the answer about a track has come: the attempts first, and then what it
/// writes as it works on.
pub proof fn law_work_goes_on_behind_the_answer(
    run: RunView,
    journal: JournalView,
    now: Seq<char>,
    outcome: OpenskyOutcome<Option<TrackEnds>>,
    near: Option<EndDistances>,
    i: int,
)
    requires
        outcome is Success || outcome is NotFound,
    ensures
        ({
            let found = match outcome {
                OpenskyOutcome::Success { data, .. } => opensky::snapped(data, near, run.entries),
                _ => None,
            };
            let (next, effects) = collector::after_track(run, outcome, near, journal, now);
            let (on, more) = collector::proceed(collector::attempted(run, found), journal, now);
            &&& next == on
            &&& effects.len() == more.len() + 1
            &&& 0 <= i < more.len() ==> effects[i + 1] == more[i]
        }),
{
}

} // verus!
