//! The `/flights/all` probe: what a slice holds of the fleet, against the journal.

use crate::calendar::UtcDay;
use crate::collect;
use crate::json;
use crate::json::{Json, JsonTree};
use crate::opensky;
use crate::opensky::{Flight, OpenskyOutcome, FLIGHTS_ALL_HTTP_TIMEOUT_MS};
use crate::sets::KeySet;
use crate::text;
use vstd::prelude::*;

verus! {

#[derive(Debug, Clone, Copy, PartialEq, Eq, Structural)]
pub struct FlightsAllOverlap {
    pub fleet_count: usize,
    pub fleet_hexes: usize,
    pub journal_trips_in_window: usize,
    pub matched_keys: usize,
    pub extra_vs_journal: usize,
    pub missing_from_journal: usize,
}

/// The flight has the key: its address and the time it was first seen.
pub open spec fn has_flight_key(flights: Seq<Flight>, key: (Seq<char>, i64)) -> bool {
    exists|i: int|
        0 <= i < flights.len() && (#[trigger] flights[i]).icao24@ == key.0 && flights[i].first_seen
            == key.1
}

/// The keys of flights.
pub open spec fn flight_keys(flights: Seq<Flight>) -> Set<(Seq<char>, i64)> {
    Set::new(|k: (Seq<char>, i64)| has_flight_key(flights, k))
}

/// The addresses of flights.
pub open spec fn flight_hexes(flights: Seq<Flight>) -> Set<Seq<char>> {
    Set::new(|h: Seq<char>| exists|i: int| 0 <= i < flights.len() && (#[trigger] flights[i]).icao24@ == h)
}

fn keys_of(flights: &Vec<Flight>) -> (r: (KeySet<(String, i64)>, KeySet<String>))
    ensures
        r.0.wf(),
        r.1.wf(),
        r.0@ == flight_keys(flights@),
        r.1@ == flight_hexes(flights@),
{
    let mut keys: KeySet<(String, i64)> = KeySet::new();
    let mut hexes: KeySet<String> = KeySet::new();
    let mut i: usize = 0;
    proof {
        assert(keys@ =~= flight_keys(flights@.take(0)));
        assert(hexes@ =~= flight_hexes(flights@.take(0)));
    }
    while i < flights.len()
        invariant
            0 <= i <= flights@.len(),
            keys.wf(),
            hexes.wf(),
            keys@ == flight_keys(flights@.take(i as int)),
            hexes@ == flight_hexes(flights@.take(i as int)),
        decreases flights@.len() - i,
    {
        let f = &flights[i];
        let ghost done = flights@.take(i as int);
        let ghost more = flights@.take(i + 1);
        keys.insert((f.icao24.clone(), f.first_seen));
        hexes.insert(f.icao24.clone());
        proof {
            let key = (f.icao24@, f.first_seen);
            assert(more[i as int] == *f);
            assert forall|k: (Seq<char>, i64)| has_flight_key(more, k) == (has_flight_key(done, k)
                || k == key) by {
                if has_flight_key(done, k) {
                    let j = choose|j: int|
                        0 <= j < done.len() && (#[trigger] done[j]).icao24@ == k.0
                            && done[j].first_seen == k.1;
                    assert(more[j] == done[j]);
                }
                if has_flight_key(more, k) && k != key {
                    let j = choose|j: int|
                        0 <= j < more.len() && (#[trigger] more[j]).icao24@ == k.0
                            && more[j].first_seen == k.1;
                    assert(done[j] == more[j]);
                }
            }
            assert(keys@ =~= flight_keys(more));
            assert forall|h: Seq<char>| flight_hexes(more).contains(h) == (flight_hexes(
                done,
            ).contains(h) || h == f.icao24@) by {
                if flight_hexes(done).contains(h) {
                    let j = choose|j: int|
                        0 <= j < done.len() && (#[trigger] done[j]).icao24@ == h;
                    assert(more[j] == done[j]);
                }
                if flight_hexes(more).contains(h) && h != f.icao24@ {
                    let j = choose|j: int|
                        0 <= j < more.len() && (#[trigger] more[j]).icao24@ == h;
                    assert(done[j] == more[j]);
                }
            }
            assert(hexes@ =~= flight_hexes(more));
        }
        i += 1;
    }
    proof {
        assert(flights@.take(i as int) =~= flights@);
    }
    (keys, hexes)
}

/// How many members of `a` are in `b`.
fn count_common(a: &KeySet<(String, i64)>, b: &KeySet<(String, i64)>) -> (n: usize)
    requires
        a.wf(),
    ensures
        n == a@.intersect(b@).len(),
        n + a@.difference(b@).len() == a@.len(),
{
    let mut n: usize = 0;
    let total = a.len();
    let mut i: usize = 0;
    let ghost mut some: Set<(Seq<char>, i64)> = Set::empty();
    proof {
        assert(some =~= a.list().take(0).to_set().intersect(b@));
        a.lemma_listed();
    }
    while i < total
        invariant
            0 <= i <= total,
            total == a.list().len(),
            a.wf(),
            a.list().no_duplicates(),
            a@ == a.list().to_set(),
            n <= i,
            some == a.list().take(i as int).to_set().intersect(b@),
            some.finite(),
            n == some.len(),
        decreases total - i,
    {
        let k = a.item(i);
        let ghost done = a.list().take(i as int);
        let ghost more = a.list().take(i + 1);
        let both = b.contains(k);
        proof {
            assert(more =~= done.push(k@));
            assert(!done.contains(k@)) by {
                if done.contains(k@) {
                    let j = choose|j: int| 0 <= j < done.len() && done[j] == k@;
                    assert(a.list()[j] == a.list()[i as int]);
                }
            }
            assert forall|x: (Seq<char>, i64)| more.contains(x) == (done.contains(x) || x == k@) by {
                if done.contains(x) {
                    let j = choose|j: int| 0 <= j < done.len() && done[j] == x;
                    assert(more[j] == x);
                }
                assert(more[i as int] == k@);
                if more.contains(x) && x != k@ {
                    let j = choose|j: int| 0 <= j < more.len() && more[j] == x;
                    assert(done[j] == x);
                }
            }
            let next = more.to_set().intersect(b@);
            if both {
                assert(next =~= some.insert(k@));
            } else {
                assert(next =~= some);
            }
            some = next;
        }
        if both {
            n += 1;
        }
        i += 1;
    }
    proof {
        assert(a.list().take(total as int) =~= a.list());
        assert(some =~= a@.intersect(b@));
        lemma_split(a@, b@);
    }
    n
}

proof fn lemma_split<A>(a: Set<A>, b: Set<A>)
    requires
        a.finite(),
    ensures
        a.intersect(b).len() + a.difference(b).len() == a.len(),
{
    let x = a.intersect(b);
    let y = a.difference(b);
    assert(x.finite()) by {
        vstd::set_lib::lemma_len_subset(x, a);
    }
    assert(y.finite()) by {
        vstd::set_lib::lemma_len_subset(y, a);
    }
    assert(x.disjoint(y));
    vstd::set_lib::lemma_set_disjoint_lens(x, y);
    assert(x.union(y) =~= a);
}

/// What flights have in common with the journal, over the fleet.
pub open spec fn overlap_is(
    o: FlightsAllOverlap,
    flights: Seq<Flight>,
    fleet: Set<Seq<char>>,
    journal_keys: Set<(Seq<char>, i64)>,
) -> bool {
    let kept = opensky::fleet_flights(flights, fleet);
    let keys = flight_keys(kept);
    &&& o.fleet_count == kept.len()
    &&& o.fleet_hexes == flight_hexes(kept).len()
    &&& o.journal_trips_in_window == journal_keys.len()
    &&& o.matched_keys == keys.intersect(journal_keys).len()
    &&& o.extra_vs_journal == keys.difference(journal_keys).len()
    &&& o.missing_from_journal == journal_keys.difference(keys).len()
}

/// What flights have in common with the journal, over the fleet.
pub fn overlap_fleet_journal(
    flights: &Vec<Flight>,
    fleet: &KeySet<String>,
    journal_keys: &KeySet<(String, i64)>,
) -> (r: FlightsAllOverlap)
    requires
        journal_keys.wf(),
    ensures
        overlap_is(r, flights@, fleet@, journal_keys@),
{
    let kept = opensky::filter_flights_to_fleet(flights, fleet);
    let (keys, hexes) = keys_of(&kept);
    let matched = count_common(&keys, journal_keys);
    let total = keys.len();
    let journal_total = journal_keys.len();
    let found = count_common(journal_keys, &keys);
    FlightsAllOverlap {
        fleet_count: kept.len(),
        fleet_hexes: hexes.len(),
        journal_trips_in_window: journal_total,
        matched_keys: matched,
        extra_vs_journal: total - matched,
        missing_from_journal: journal_total - found,
    }
}

/// The overlap accounts for every key: those of the flights are matched or extra, those of the
/// journal are matched or missing.
pub proof fn law_overlap_accounts_for_every_key(
    o: FlightsAllOverlap,
    flights: Seq<Flight>,
    fleet: Set<Seq<char>>,
    journal_keys: Set<(Seq<char>, i64)>,
)
    requires
        overlap_is(o, flights, fleet, journal_keys),
        journal_keys.finite(),
    ensures
        o.matched_keys + o.extra_vs_journal == flight_keys(
            opensky::fleet_flights(flights, fleet),
        ).len(),
        o.matched_keys + o.missing_from_journal == o.journal_trips_in_window,
{
    let keys = flight_keys(opensky::fleet_flights(flights, fleet));
    lemma_flight_keys_finite(opensky::fleet_flights(flights, fleet));
    lemma_split(keys, journal_keys);
    lemma_split(journal_keys, keys);
    assert(keys.intersect(journal_keys) =~= journal_keys.intersect(keys));
}

/// The overlap does not change where the flights of the fleet are picked first.
pub proof fn law_overlap_rests_on_the_fleet(
    o: FlightsAllOverlap,
    flights: Seq<Flight>,
    fleet: Set<Seq<char>>,
    journal_keys: Set<(Seq<char>, i64)>,
)
    ensures
        overlap_is(o, opensky::fleet_flights(flights, fleet), fleet, journal_keys) <==> overlap_is(
            o,
            flights,
            fleet,
            journal_keys,
        ),
{
    opensky::law_filter_twice(flights, fleet, fleet);
    assert(fleet.intersect(fleet) =~= fleet);
}

proof fn lemma_fleet_flights_counts(flights: Seq<Flight>, fleet: Set<Seq<char>>, f: Flight)
    ensures
        opensky::fleet_flights(flights, fleet).to_multiset().count(f) == if fleet.contains(
            f.icao24@,
        ) {
            flights.to_multiset().count(f)
        } else {
            0
        },
    decreases flights.len(),
{
    broadcast use vstd::seq_lib::group_to_multiset_ensures;

    reveal(Seq::filter);
    if flights.len() > 0 {
        let front = flights.drop_last();
        let last = flights.last();
        lemma_fleet_flights_counts(front, fleet, f);
        assert(flights =~= front.push(last));
    }
}

/// The overlap does not change with the order of the flights.
pub proof fn law_overlap_rests_on_no_order(
    o: FlightsAllOverlap,
    flights: Seq<Flight>,
    other: Seq<Flight>,
    fleet: Set<Seq<char>>,
    journal_keys: Set<(Seq<char>, i64)>,
)
    requires
        flights.to_multiset() == other.to_multiset(),
    ensures
        overlap_is(o, flights, fleet, journal_keys) <==> overlap_is(o, other, fleet, journal_keys),
{
    broadcast use vstd::seq_lib::group_to_multiset_ensures;

    let a = opensky::fleet_flights(flights, fleet);
    let b = opensky::fleet_flights(other, fleet);
    assert forall|f: Flight| a.to_multiset().count(f) == b.to_multiset().count(f) by {
        lemma_fleet_flights_counts(flights, fleet, f);
        lemma_fleet_flights_counts(other, fleet, f);
    }
    assert(a.to_multiset() =~= b.to_multiset());
    assert(a.to_multiset().len() == a.len() && b.to_multiset().len() == b.len());
    lemma_same_members(a, b);
    lemma_same_members(b, a);
    assert(flight_keys(a) =~= flight_keys(b));
    assert(flight_hexes(a) =~= flight_hexes(b));
}

/// Every flight of the one is among the other, and so are its key and its aircraft.
proof fn lemma_same_members(a: Seq<Flight>, b: Seq<Flight>)
    requires
        a.to_multiset() == b.to_multiset(),
    ensures
        flight_keys(a).subset_of(flight_keys(b)),
        flight_hexes(a).subset_of(flight_hexes(b)),
{
    broadcast use vstd::seq_lib::group_to_multiset_ensures;

    assert forall|i: int| 0 <= i < a.len() implies b.contains(#[trigger] a[i]) by {
        assert(a.contains(a[i]));
        assert(a.to_multiset().count(a[i]) > 0);
    }
    assert forall|k: (Seq<char>, i64)| flight_keys(a).contains(k) implies flight_keys(b).contains(
        k,
    ) by {
        let i = choose|i: int|
            0 <= i < a.len() && (#[trigger] a[i]).icao24@ == k.0 && a[i].first_seen == k.1;
        let j = choose|j: int| 0 <= j < b.len() && b[j] == a[i];
        assert(b[j].icao24@ == k.0);
    }
    assert forall|h: Seq<char>| flight_hexes(a).contains(h) implies flight_hexes(b).contains(h) by {
        let i = choose|i: int| 0 <= i < a.len() && (#[trigger] a[i]).icao24@ == h;
        let j = choose|j: int| 0 <= j < b.len() && b[j] == a[i];
        assert(b[j].icao24@ == h);
    }
}

proof fn lemma_flight_keys_finite(flights: Seq<Flight>)
    ensures
        flight_keys(flights).finite(),
    decreases flights.len(),
{
    if flights.len() == 0 {
        assert(flight_keys(flights) =~= Set::empty());
    } else {
        let front = flights.drop_last();
        lemma_flight_keys_finite(front);
        let last = flights.last();
        let more = flight_keys(front).insert((last.icao24@, last.first_seen));
        assert forall|k: (Seq<char>, i64)| flight_keys(flights).contains(k) implies more.contains(
            k,
        ) by {
            let i = choose|i: int|
                0 <= i < flights.len() && (#[trigger] flights[i]).icao24@ == k.0
                    && flights[i].first_seen == k.1;
            if i < front.len() {
                assert(front[i] == flights[i]);
            }
        }
        vstd::set_lib::lemma_len_subset(flight_keys(flights), more);
    }
}

#[derive(Debug)]
pub struct OpenskyFlightsAllProbeReport {
    pub date: String,
    pub start_hour: u32,
    pub token_ok: bool,
    pub flights_status: Option<u16>,
    pub flights_remaining: Option<u32>,
    pub flights_remaining_before: Option<u32>,
    pub flights_credits_spent: Option<u32>,
    pub flights_begin: Option<i64>,
    pub flights_end: Option<i64>,
    pub flights_window: String,
    pub body_bytes: usize,
    pub elapsed_ms: u128,
    pub raw_count: usize,
    pub fleet_count: usize,
    pub fleet_hexes: usize,
    pub journal_trips_in_window: usize,
    pub matched_keys: usize,
    pub extra_vs_journal: usize,
    pub missing_from_journal: usize,
    pub abort: bool,
    pub note: String,
}

/// What the report says of its window.
pub open spec fn window_shown(start_hour: u32) -> Seq<char> {
    "2h from "@ + collect::two_digits(start_hour as nat) + ":00 UTC"@
}

fn show_window(start_hour: u32) -> (r: String)
    ensures
        r@ == window_shown(start_hour),
{
    let digits = text::number_text(start_hour as u64);
    let hour = if start_hour < 10 {
        text::join2("0", digits.as_str())
    } else {
        digits
    };
    text::join2(text::join2("2h from ", hour.as_str()).as_str(), ":00 UTC")
}

/// The parts of a report that do not rest on the response.
pub open spec fn report_frame(
    r: OpenskyFlightsAllProbeReport,
    date: UtcDay,
    start_hour: u32,
    before: Option<u32>,
) -> bool {
    &&& r.date@ == date.text()
    &&& r.start_hour == start_hour
    &&& r.flights_remaining_before == before
    &&& r.flights_begin matches Some(b) && b == date.start() + start_hour * 3_600
    &&& r.flights_end matches Some(e) && e == date.start() + (start_hour + 2) * 3_600 - 1
    &&& r.flights_window@ == window_shown(start_hour)
}

/// The report where no token could be had.
pub fn token_failed_report(
    date: UtcDay,
    start_hour: u32,
    flights_remaining_before: Option<u32>,
    journal_keys: &KeySet<(String, i64)>,
    error: &str,
) -> (r: OpenskyFlightsAllProbeReport)
    requires
        date.valid(),
        start_hour < 24,
        journal_keys.wf(),
    ensures
        report_frame(r, date, start_hour, flights_remaining_before),
        !r.token_ok,
        r.abort,
        r.flights_status is None,
        r.flights_remaining is None,
        r.flights_credits_spent is None,
        r.body_bytes == 0,
        r.elapsed_ms == 0,
        r.raw_count == 0,
        r.fleet_count == 0,
        r.fleet_hexes == 0,
        r.journal_trips_in_window == journal_keys@.len(),
        r.matched_keys == 0,
        r.extra_vs_journal == 0,
        r.missing_from_journal == journal_keys@.len(),
        r.note@ == "token failed: "@ + error@,
{
    let (begin, end) = opensky::utc_hours_window(date, start_hour, 2);
    let n = journal_keys.len();
    OpenskyFlightsAllProbeReport {
        date: date.to_text(),
        start_hour,
        token_ok: false,
        flights_status: None,
        flights_remaining: None,
        flights_remaining_before,
        flights_credits_spent: None,
        flights_begin: Some(begin),
        flights_end: Some(end),
        flights_window: show_window(start_hour),
        body_bytes: 0,
        elapsed_ms: 0,
        raw_count: 0,
        fleet_count: 0,
        fleet_hexes: 0,
        journal_trips_in_window: n,
        matched_keys: 0,
        extra_vs_journal: 0,
        missing_from_journal: n,
        abort: true,
        note: text::join2("token failed: ", error),
    }
}

/// The status that a report gives for an outcome.
pub open spec fn status_of(outcome: OpenskyOutcome<Vec<Flight>>) -> u16 {
    match outcome {
        OpenskyOutcome::Success { .. } => 200,
        OpenskyOutcome::NotFound { .. } => 404,
        OpenskyOutcome::RateLimited { .. } => 429,
        OpenskyOutcome::Denied { status, .. } => status,
        OpenskyOutcome::Other { status, .. } => status,
    }
}

/// The flights that an outcome brought.
pub open spec fn flights_in(outcome: OpenskyOutcome<Vec<Flight>>) -> Seq<Flight> {
    match outcome {
        OpenskyOutcome::Success { data, .. } => data@,
        _ => Seq::empty(),
    }
}

/// The credits that remain after an outcome.
pub open spec fn remaining_after(outcome: OpenskyOutcome<Vec<Flight>>) -> Option<u32> {
    match outcome {
        OpenskyOutcome::Success { credit, .. } => credit.remaining,
        OpenskyOutcome::NotFound { credit } => credit.remaining,
        OpenskyOutcome::RateLimited { credit } => credit.remaining,
        _ => None,
    }
}

/// The credits that a request cost: what remained before less what remains after, unless that is
/// negative or more than 60, when the number before is of another day.
pub open spec fn spent(before: Option<u32>, after: Option<u32>) -> Option<u32> {
    match (before, after) {
        (Some(b), Some(a)) => if 0 <= b - a <= 60 {
            Some((b - a) as u32)
        } else {
            None
        },
        _ => None,
    }
}

/// What the note says of an outcome.
pub open spec fn outcome_noted(outcome: OpenskyOutcome<Vec<Flight>>) -> Seq<char> {
    match outcome {
        OpenskyOutcome::Success { .. } => Seq::empty(),
        OpenskyOutcome::NotFound { .. } => "flights/all 404 (empty interval); "@,
        OpenskyOutcome::RateLimited { .. } => "flights/all 429; "@,
        OpenskyOutcome::Denied { status, message } => "flights/all "@ + text::decimal(status as nat)
            + " "@ + message@ + "; "@,
        OpenskyOutcome::Other { status, message } => "flights/all "@ + text::decimal(status as nat)
            + " "@ + message@ + "; "@,
    }
}

/// The note of a report; `ok` where there is nothing to say.
pub open spec fn noted(outcome: OpenskyOutcome<Vec<Flight>>, before: Option<u32>) -> Seq<char> {
    let after = remaining_after(outcome);
    let note = outcome_noted(outcome) + if spent(before, after) is None && before is Some
        && after is Some {
        "remaining_before ignored (stale or implausible delta); "@
    } else {
        Seq::empty()
    };
    if note.len() == 0 {
        "ok"@
    } else {
        note
    }
}

fn status_note(status: u16, message: &str) -> (r: String)
    ensures
        r@ == "flights/all "@ + text::decimal(status as nat) + " "@ + message@ + "; "@,
{
    let head = text::join2("flights/all ", text::number_text(status as u64).as_str());
    let mid = text::join2(text::join2(head.as_str(), " ").as_str(), message);
    text::join2(mid.as_str(), "; ")
}

/// The report on a `/flights/all` response.
pub fn probe_report(
    date: UtcDay,
    start_hour: u32,
    flights_remaining_before: Option<u32>,
    fleet: &KeySet<String>,
    journal_keys: &KeySet<(String, i64)>,
    outcome: OpenskyOutcome<Vec<Flight>>,
    body_bytes: usize,
    elapsed_ms: u128,
) -> (r: OpenskyFlightsAllProbeReport)
    requires
        date.valid(),
        start_hour < 24,
        journal_keys.wf(),
    ensures
        report_frame(r, date, start_hour, flights_remaining_before),
        r.token_ok,
        r.flights_status == Some(status_of(outcome)),
        r.flights_remaining == remaining_after(outcome),
        r.flights_credits_spent == spent(flights_remaining_before, remaining_after(outcome)),
        r.body_bytes == body_bytes,
        r.elapsed_ms == elapsed_ms,
        r.raw_count == flights_in(outcome).len(),
        overlap_is(
            FlightsAllOverlap {
                fleet_count: r.fleet_count,
                fleet_hexes: r.fleet_hexes,
                journal_trips_in_window: r.journal_trips_in_window,
                matched_keys: r.matched_keys,
                extra_vs_journal: r.extra_vs_journal,
                missing_from_journal: r.missing_from_journal,
            },
            flights_in(outcome),
            fleet@,
            journal_keys@,
        ),
        r.abort == (outcome.error() is Some),
        r.note@ == noted(outcome, flights_remaining_before),
{
    let (begin, end) = opensky::utc_hours_window(date, start_hour, 2);
    let remaining = outcome.remaining();
    let mut abort = !outcome.advances_cursor();
    let ghost said = outcome_noted(outcome);
    let (status, note, flights): (u16, String, Vec<Flight>) = match outcome {
        OpenskyOutcome::Success { data, credit: _ } => (200, String::new(), data),
        OpenskyOutcome::NotFound { credit: _ } => (
            404,
            "flights/all 404 (empty interval); ".to_owned(),
            Vec::new(),
        ),
        OpenskyOutcome::RateLimited { credit: _ } => (
            429,
            "flights/all 429; ".to_owned(),
            Vec::new(),
        ),
        OpenskyOutcome::Denied { status, message } => (
            status,
            status_note(status, message.as_str()),
            Vec::new(),
        ),
        OpenskyOutcome::Other { status, message } => (
            status,
            status_note(status, message.as_str()),
            Vec::new(),
        ),
    };
    proof {
        assert(note@ =~= said);
        assert(flights@ =~= flights_in(outcome));
    }
    let overlap = overlap_fleet_journal(&flights, fleet, journal_keys);
    let flights_credits_spent: Option<u32> = match (flights_remaining_before, remaining) {
        (Some(before), Some(after)) => if before >= after && before - after <= 60 {
            Some(before - after)
        } else {
            None
        },
        _ => None,
    };
    if elapsed_ms >= FLIGHTS_ALL_HTTP_TIMEOUT_MS - 1_000 && status == 0 {
        proof {
            assert(outcome.error() is Some);
        }
        abort = true;
    }
    let stale = flights_credits_spent.is_none() && flights_remaining_before.is_some()
        && remaining.is_some();
    let full = if stale {
        text::join2(note.as_str(), "remaining_before ignored (stale or implausible delta); ")
    } else {
        note
    };
    proof {
        assert(said + Seq::<char>::empty() =~= said);
    }
    let note = if full.as_str().is_empty() {
        "ok".to_owned()
    } else {
        full
    };
    OpenskyFlightsAllProbeReport {
        date: date.to_text(),
        start_hour,
        token_ok: true,
        flights_status: Some(status),
        flights_remaining: remaining,
        flights_remaining_before,
        flights_credits_spent,
        flights_begin: Some(begin),
        flights_end: Some(end),
        flights_window: show_window(start_hour),
        body_bytes,
        elapsed_ms,
        raw_count: flights.len(),
        fleet_count: overlap.fleet_count,
        fleet_hexes: overlap.fleet_hexes,
        journal_trips_in_window: overlap.journal_trips_in_window,
        matched_keys: overlap.matched_keys,
        extra_vs_journal: overlap.extra_vs_journal,
        missing_from_journal: overlap.missing_from_journal,
        abort,
        note,
    }
}

/// The credits that a written report says remain: the low 32 bits of its `flights_remaining`.
pub open spec fn remaining_in(v: JsonTree) -> Option<nat> {
    match v.get("flights_remaining"@) {
        Some(x) => match x.as_u64() {
            Some(n) => Some(n as nat % 0x1_0000_0000),
            None => None,
        },
        None => None,
    }
}

/// The credits that a report says remain.
pub fn remaining_from_probe(v: &Json) -> (r: Option<u32>)
    ensures
        match r {
            Some(n) => remaining_in(v@) == Some(n as nat),
            None => remaining_in(v@) is None,
        },
{
    match v.get("flights_remaining") {
        Some(x) => match x.as_u64() {
            Some(n) => Some((n % 0x1_0000_0000) as u32),
            None => None,
        },
        None => None,
    }
}

/// The credits that a written report says remain; none where it is not one.
pub fn remaining_from_probe_json(raw: &str) -> (r: Option<u32>)
    ensures
        match json::json_document(vstd::utf8::encode_utf8(raw@)) {
            Some(v) => match r {
                Some(n) => remaining_in(v) == Some(n as nat),
                None => remaining_in(v) is None,
            },
            None => r is None,
        },
{
    match json::parse(raw.as_bytes()) {
        Some(v) => remaining_from_probe(&v),
        None => None,
    }
}

/// What the overlap counts, by the fields of the flights: `fleet_hexes` the aircraft of the fleet
/// that have a flight; and of the pairs of an aircraft and a time of first sight, none is matched
/// exactly where no flight of the fleet has a pair of the journal, none is extra exactly where all
/// have one, and none is missing exactly where every pair of the journal is that of such a flight.
pub proof fn law_overlap_by_fields(
    o: FlightsAllOverlap,
    flights: Seq<Flight>,
    fleet: Set<Seq<char>>,
    journal_keys: Set<(Seq<char>, i64)>,
)
    requires
        overlap_is(o, flights, fleet, journal_keys),
        journal_keys.finite(),
    ensures
        o.journal_trips_in_window == journal_keys.len(),
        o.fleet_count == flights.filter(|f: Flight| fleet.contains(f.icao24@)).len(),
        o.fleet_hexes == Set::new(
            |h: Seq<char>|
                fleet.contains(h) && exists|i: int|
                    0 <= i < flights.len() && (#[trigger] flights[i]).icao24@ == h,
        ).len(),
        o.matched_keys == 0 <==> forall|i: int|
            0 <= i < flights.len() && fleet.contains((#[trigger] flights[i]).icao24@)
                ==> !journal_keys.contains((flights[i].icao24@, flights[i].first_seen)),
        o.extra_vs_journal == 0 <==> forall|i: int|
            0 <= i < flights.len() && fleet.contains((#[trigger] flights[i]).icao24@)
                ==> journal_keys.contains((flights[i].icao24@, flights[i].first_seen)),
        o.missing_from_journal == 0 <==> forall|k: (Seq<char>, i64)|
            #[trigger] journal_keys.contains(k) ==> fleet.contains(k.0) && exists|i: int|
                0 <= i < flights.len() && (#[trigger] flights[i]).icao24@ == k.0
                    && flights[i].first_seen == k.1,
{
    let kept = opensky::fleet_flights(flights, fleet);
    let keys = flight_keys(kept);
    lemma_flight_keys_finite(kept);
    assert forall|k: (Seq<char>, i64)| #[trigger] keys.contains(k) <==> fleet.contains(k.0) && exists|
        i: int,
    |
        0 <= i < flights.len() && (#[trigger] flights[i]).icao24@ == k.0 && flights[i].first_seen
            == k.1 by {
        lemma_kept_key(flights, fleet, k);
    }
    let hexes = Set::new(
        |h: Seq<char>|
            fleet.contains(h) && exists|i: int|
                0 <= i < flights.len() && (#[trigger] flights[i]).icao24@ == h,
    );
    assert forall|h: Seq<char>| flight_hexes(kept).contains(h) <==> hexes.contains(h) by {
        if flight_hexes(kept).contains(h) {
            let i = choose|i: int| 0 <= i < kept.len() && (#[trigger] kept[i]).icao24@ == h;
            assert(keys.contains((h, kept[i].first_seen)));
            let j = choose|j: int|
                0 <= j < flights.len() && (#[trigger] flights[j]).icao24@ == h
                    && flights[j].first_seen == kept[i].first_seen;
            assert(flights[j].icao24@ == h);
        }
        if hexes.contains(h) {
            let j = choose|j: int| 0 <= j < flights.len() && (#[trigger] flights[j]).icao24@ == h;
            assert(keys.contains((h, flights[j].first_seen)));
            let i = choose|i: int|
                0 <= i < kept.len() && (#[trigger] kept[i]).icao24@ == h && kept[i].first_seen
                    == flights[j].first_seen;
            assert(kept[i].icao24@ == h);
        }
    }
    assert(flight_hexes(kept) =~= hexes);
    lemma_empty(keys.intersect(journal_keys), keys);
    lemma_empty(keys.difference(journal_keys), keys);
    lemma_empty(journal_keys.difference(keys), journal_keys);
    if o.matched_keys == 0 {
        assert forall|i: int| 0 <= i < flights.len() && fleet.contains(
            (#[trigger] flights[i]).icao24@,
        ) implies !journal_keys.contains((flights[i].icao24@, flights[i].first_seen)) by {
            let k = (flights[i].icao24@, flights[i].first_seen);
            assert(keys.contains(k));
            assert(!keys.intersect(journal_keys).contains(k));
        }
    } else {
        let k = choose|k: (Seq<char>, i64)| keys.intersect(journal_keys).contains(k);
        assert(keys.contains(k));
    }
    if o.extra_vs_journal == 0 {
        assert forall|i: int| 0 <= i < flights.len() && fleet.contains(
            (#[trigger] flights[i]).icao24@,
        ) implies journal_keys.contains((flights[i].icao24@, flights[i].first_seen)) by {
            let k = (flights[i].icao24@, flights[i].first_seen);
            assert(keys.contains(k));
            assert(!keys.difference(journal_keys).contains(k));
        }
    } else {
        let k = choose|k: (Seq<char>, i64)| keys.difference(journal_keys).contains(k);
        assert(keys.contains(k));
    }
    if o.missing_from_journal == 0 {
        assert forall|k: (Seq<char>, i64)| #[trigger] journal_keys.contains(k) implies fleet.contains(
            k.0,
        ) && exists|i: int|
            0 <= i < flights.len() && (#[trigger] flights[i]).icao24@ == k.0
                && flights[i].first_seen == k.1 by {
            assert(!journal_keys.difference(keys).contains(k));
            assert(keys.contains(k));
        }
    } else {
        let k = choose|k: (Seq<char>, i64)| journal_keys.difference(keys).contains(k);
        assert(journal_keys.contains(k));
        assert(!keys.contains(k));
    }
}

proof fn lemma_empty<A>(part: Set<A>, whole: Set<A>)
    requires
        whole.finite(),
        part.subset_of(whole),
    ensures
        part.len() == 0 <==> forall|a: A| !part.contains(a),
        part.len() != 0 ==> exists|a: A| part.contains(a),
{
    vstd::set_lib::lemma_len_subset(part, whole);
    if part.len() == 0 {
        assert(part =~= Set::empty());
    }
    if forall|a: A| !part.contains(a) {
        assert(part =~= Set::empty());
    }
}

proof fn lemma_kept_key(flights: Seq<Flight>, fleet: Set<Seq<char>>, k: (Seq<char>, i64))
    ensures
        has_flight_key(opensky::fleet_flights(flights, fleet), k) <==> fleet.contains(k.0) && exists|
            i: int,
        |
            0 <= i < flights.len() && (#[trigger] flights[i]).icao24@ == k.0 && flights[i].first_seen
                == k.1,
    decreases flights.len(),
{
    let kept = opensky::fleet_flights(flights, fleet);
    reveal(Seq::filter);
    if flights.len() > 0 {
        let front = flights.drop_last();
        let some = opensky::fleet_flights(front, fleet);
        lemma_kept_key(front, fleet, k);
        let last = flights.last();
        assert(flights[flights.len() - 1] == last);
        if has_flight_key(kept, k) {
            let i = choose|i: int|
                0 <= i < kept.len() && (#[trigger] kept[i]).icao24@ == k.0 && kept[i].first_seen
                    == k.1;
            if i < some.len() {
                assert(some[i] == kept[i]);
                let j = choose|j: int|
                    0 <= j < front.len() && (#[trigger] front[j]).icao24@ == k.0
                        && front[j].first_seen == k.1;
                assert(flights[j] == front[j]);
            }
        }
        if fleet.contains(k.0) && exists|i: int|
            0 <= i < flights.len() && (#[trigger] flights[i]).icao24@ == k.0
                && flights[i].first_seen == k.1 {
            let j = choose|j: int|
                0 <= j < flights.len() && (#[trigger] flights[j]).icao24@ == k.0
                    && flights[j].first_seen == k.1;
            if j < front.len() {
                assert(front[j] == flights[j]);
                let i = choose|i: int|
                    0 <= i < some.len() && (#[trigger] some[i]).icao24@ == k.0
                        && some[i].first_seen == k.1;
                assert(kept[i] == some[i]);
            } else {
                assert(kept[kept.len() - 1] == last);
            }
        }
    }
}

/// What a request cost: what went between two counts, where it lies from 0 to 60; else it is not
/// known, and neither is it where a count is missing.
pub proof fn law_spent(before: Option<u32>, after: Option<u32>)
    ensures
        match (before, after) {
            (Some(b), Some(a)) => {
                &&& a <= b <= a + 60 ==> (spent(before, after) matches Some(n) && a + n == b)
                &&& b < a || b > a + 60 ==> spent(before, after) is None
            },
            _ => spent(before, after) is None,
        },
{
}

/// What a report takes from an outcome: the status, 200 for data, 404 for nothing found and 429 for a
/// rate limit; the rest of the credits where the outcome tells it; and the flights of data alone.
pub proof fn law_report_of_an_outcome(outcome: OpenskyOutcome<Vec<Flight>>)
    ensures
        match outcome {
            OpenskyOutcome::Success { data, credit } => status_of(outcome) == 200 && remaining_after(
                outcome,
            ) == credit.remaining && flights_in(outcome) == data@,
            OpenskyOutcome::NotFound { credit } => status_of(outcome) == 404 && remaining_after(
                outcome,
            ) == credit.remaining && flights_in(outcome).len() == 0,
            OpenskyOutcome::RateLimited { credit } => status_of(outcome) == 429 && remaining_after(
                outcome,
            ) == credit.remaining && flights_in(outcome).len() == 0,
            OpenskyOutcome::Denied { status, .. } => status_of(outcome) == status && remaining_after(
                outcome,
            ) is None && flights_in(outcome).len() == 0,
            OpenskyOutcome::Other { status, .. } => status_of(outcome) == status && remaining_after(
                outcome,
            ) is None && flights_in(outcome).len() == 0,
        },
{
}

/// What the note says: `ok` for data with credible counts; what went wrong else, and behind it that
/// the count before was ignored, where both counts are there and do not fit together.
pub proof fn law_note(outcome: OpenskyOutcome<Vec<Flight>>, before: Option<u32>)
    ensures
        ({
            let after = remaining_after(outcome);
            let odd = match (before, after) {
                (Some(b), Some(a)) => b < a || b > a + 60,
                _ => false,
            };
            let ignored = "remaining_before ignored (stale or implausible delta); "@;
            match outcome {
                OpenskyOutcome::Success { .. } => (odd ==> noted(outcome, before) == ignored) && (!odd
                    ==> noted(outcome, before) == "ok"@),
                OpenskyOutcome::NotFound { .. } => noted(outcome, before)
                    == "flights/all 404 (empty interval); "@ + (if odd {
                    ignored
                } else {
                    Seq::empty()
                }),
                OpenskyOutcome::RateLimited { .. } => noted(outcome, before) == "flights/all 429; "@
                    + (if odd {
                    ignored
                } else {
                    Seq::empty()
                }),
                OpenskyOutcome::Denied { status, message } => noted(outcome, before)
                    == "flights/all "@ + text::decimal(status as nat) + " "@ + message@ + "; "@,
                OpenskyOutcome::Other { status, message } => noted(outcome, before) == "flights/all "@
                    + text::decimal(status as nat) + " "@ + message@ + "; "@,
            }
        }),
{
    reveal_strlit("remaining_before ignored (stale or implausible delta); ");
    reveal_strlit("flights/all 404 (empty interval); ");
    reveal_strlit("flights/all 429; ");
    reveal_strlit("flights/all ");
    let after = remaining_after(outcome);
    let ignored = "remaining_before ignored (stale or implausible delta); "@;
    assert(Seq::<char>::empty() + ignored =~= ignored);
    let said = outcome_noted(outcome);
    assert(said + Seq::<char>::empty() =~= said);
}

/// The frame of a report: its day, its hour and the two hours that it is about, from the hour to the
/// last second before the second next.
pub proof fn law_report_frame(
    r: OpenskyFlightsAllProbeReport,
    date: UtcDay,
    start_hour: u32,
    before: Option<u32>,
    tens: char,
    ones: char,
)
    requires
        report_frame(r, date, start_hour, before),
        start_hour < 24,
        tens as int == 48 + start_hour / 10,
        ones as int == 48 + start_hour % 10,
    ensures
        r.date@ == date.text(),
        r.start_hour == start_hour,
        r.flights_remaining_before == before,
        r.flights_begin matches Some(b) && b == date.number * 86_400 + start_hour * 3_600,
        r.flights_end matches Some(e) && e == date.number * 86_400 + start_hour * 3_600 + 7_199,
        r.flights_window@ == "2h from "@ + seq![tens, ones] + ":00 UTC"@,
{
    reveal_strlit("0");
    reveal_with_fuel(text::decimal, 2);
    assert(collect::two_digits(start_hour as nat) =~= seq![tens, ones]);
}

/// The report on a response: whether it aborts is whether the response is an error; its counts are
/// those of the overlap of what was found; and what it took is told as it was measured.
pub proof fn law_probe_report(
    date: UtcDay,
    start_hour: u32,
    before: Option<u32>,
    fleet: KeySet<String>,
    journal_keys: KeySet<(String, i64)>,
    outcome: OpenskyOutcome<Vec<Flight>>,
    body_bytes: usize,
    elapsed_ms: u128,
    r: OpenskyFlightsAllProbeReport,
)
    requires
        call_ensures(
            probe_report,
            (
                date,
                start_hour,
                before,
                &fleet,
                &journal_keys,
                outcome,
                body_bytes,
                elapsed_ms,
            ),
            r,
        ),
    ensures
        r.token_ok,
        r.abort <==> !(outcome is Success || outcome is NotFound),
        r.flights_status == Some(status_of(outcome)),
        r.flights_remaining == remaining_after(outcome),
        r.flights_credits_spent == spent(before, remaining_after(outcome)),
        r.body_bytes == body_bytes && r.elapsed_ms == elapsed_ms,
        outcome matches OpenskyOutcome::Success { data, .. } ==> r.raw_count == data@.len(),
        !(outcome is Success) ==> r.raw_count == 0,
        overlap_is(
            FlightsAllOverlap {
                fleet_count: r.fleet_count,
                fleet_hexes: r.fleet_hexes,
                journal_trips_in_window: r.journal_trips_in_window,
                matched_keys: r.matched_keys,
                extra_vs_journal: r.extra_vs_journal,
                missing_from_journal: r.missing_from_journal,
            },
            flights_in(outcome),
            fleet@,
            journal_keys@,
        ),
        r.note@ == noted(outcome, before),
{
}

/// The report where no token could be had: it aborts, has found nothing and misses every pair of the
/// journal.
pub proof fn law_token_failed_report(
    date: UtcDay,
    start_hour: u32,
    before: Option<u32>,
    journal_keys: KeySet<(String, i64)>,
    error: &str,
    r: OpenskyFlightsAllProbeReport,
)
    requires
        call_ensures(token_failed_report, (date, start_hour, before, &journal_keys, error), r),
    ensures
        !r.token_ok && r.abort,
        r.flights_status is None && r.flights_remaining is None && r.flights_credits_spent is None,
        r.body_bytes == 0 && r.elapsed_ms == 0 && r.raw_count == 0,
        r.fleet_count == 0 && r.fleet_hexes == 0 && r.matched_keys == 0 && r.extra_vs_journal == 0,
        r.journal_trips_in_window == journal_keys@.len(),
        r.missing_from_journal == r.journal_trips_in_window,
        r.note@ == "token failed: "@ + error@,
{
}

/// The rest of the credits in a written report: the low 32 bits of the number under
/// `flights_remaining`; a number that 32 bits hold is read as it is.
pub proof fn law_remaining_in_a_report(v: JsonTree, n: u64)
    ensures
        v.get("flights_remaining"@) matches Some(JsonTree::Number(_, m, _)) ==> {
            &&& m == Some(n) && n <= u32::MAX ==> remaining_in(v) == Some(n as nat)
            &&& m == Some(n) ==> (remaining_in(v) matches Some(k) && k < 0x1_0000_0000 && (n - k)
                % 0x1_0000_0000 == 0)
            &&& m is None ==> remaining_in(v) is None
        },
        v.get("flights_remaining"@) is None ==> remaining_in(v) is None,
{
}

/// The rest of the credits is read from a written report where it is a document that tells it.
pub proof fn law_remaining_is_read(raw: &str, r: Option<u32>)
    requires
        call_ensures(remaining_from_probe_json, (raw,), r),
    ensures
        json::json_document(vstd::utf8::encode_utf8(raw@)) is None ==> r is None,
        json::json_document(vstd::utf8::encode_utf8(raw@)) matches Some(v) ==> match r {
            Some(n) => remaining_in(v) == Some(n as nat),
            None => remaining_in(v) is None,
        },
{
}

/// The overlap of flights with the journal is what it is over the fleet.
pub proof fn law_overlap_is_counted(
    flights: Vec<Flight>,
    fleet: KeySet<String>,
    journal_keys: KeySet<(String, i64)>,
    r: FlightsAllOverlap,
)
    requires
        call_ensures(overlap_fleet_journal, (&flights, &fleet, &journal_keys), r),
        journal_keys@.finite(),
    ensures
        r.journal_trips_in_window == journal_keys@.len(),
        r.matched_keys + r.missing_from_journal == journal_keys@.len(),
        r.fleet_count == flights@.filter(|f: Flight| fleet@.contains(f.icao24@)).len(),
{
    law_overlap_accounts_for_every_key(r, flights@, fleet@, journal_keys@);
    law_overlap_by_fields(r, flights@, fleet@, journal_keys@);
}

} // verus!
