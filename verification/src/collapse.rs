//! Near-duplicate flights: one flight that OpenSky reports several times.

use crate::collect;
use crate::opensky::Flight;
use crate::order;
use crate::order::Ranked;
use crate::text;
use vstd::prelude::*;

verus! {

/// Cluster window for OpenSky near-duplicate flights.
pub const OPENSKY_NEAR_DUP_SECS: i64 = 180;

impl Ranked for Flight {
    /// By aircraft, then by the time it was first seen.
    open spec fn before(a: Flight, b: Flight) -> bool {
        text::text_lt(a.icao24@, b.icao24@) || (a.icao24@ == b.icao24@ && a.first_seen
            < b.first_seen)
    }

    proof fn before_asymmetric(a: Flight, b: Flight) {
        text::lemma_text_lt_total(a.icao24@, b.icao24@);
        text::lemma_text_lt_irreflexive(a.icao24@);
    }

    proof fn before_negatively_transitive(a: Flight, b: Flight, c: Flight) {
        text::lemma_text_lt_total(a.icao24@, b.icao24@);
        text::lemma_text_lt_total(b.icao24@, c.icao24@);
        text::lemma_text_lt_total(a.icao24@, c.icao24@);
        text::lemma_text_lt_weak(a.icao24@, b.icao24@, c.icao24@);
        if a.icao24@ == c.icao24@ && a.icao24@ != b.icao24@ {
            assert(text::text_lt(a.icao24@, b.icao24@));
        }
    }

    fn is_before(&self, other: &Self) -> (r: bool) {
        text::comes_before(self.icao24.as_str(), other.icao24.as_str()) || (text::same_text(
            self.icao24.as_str(),
            other.icao24.as_str(),
        ) && self.first_seen < other.first_seen)
    }
}

/// How many of the departure and arrival airports are estimated.
pub open spec fn airports_given(f: Flight) -> int {
    (if f.est_departure_airport is Some {
        1int
    } else {
        0
    }) + if f.est_arrival_airport is Some {
        1int
    } else {
        0
    }
}

/// `a` says more than `b`: more airports, then an arrival airport, then a callsign, then an
/// earlier first sight.
pub open spec fn fuller(a: Flight, b: Flight) -> bool {
    if airports_given(a) != airports_given(b) {
        airports_given(a) > airports_given(b)
    } else if a.est_arrival_airport is Some != b.est_arrival_airport is Some {
        a.est_arrival_airport is Some
    } else if a.callsign is Some != b.callsign is Some {
        a.callsign is Some
    } else {
        a.first_seen < b.first_seen
    }
}

/// Whether `a` says more than `b`.
pub fn is_fuller(a: &Flight, b: &Flight) -> (r: bool)
    ensures
        r == fuller(*a, *b),
{
    let a_arr = a.est_arrival_airport.is_some();
    let b_arr = b.est_arrival_airport.is_some();
    let a_n: u8 = (if a.est_departure_airport.is_some() {
        1u8
    } else {
        0
    }) + if a_arr {
        1u8
    } else {
        0
    };
    let b_n: u8 = (if b.est_departure_airport.is_some() {
        1u8
    } else {
        0
    }) + if b_arr {
        1u8
    } else {
        0
    };
    if a_n != b_n {
        a_n > b_n
    } else if a_arr != b_arr {
        a_arr
    } else if a.callsign.is_some() != b.callsign.is_some() {
        a.callsign.is_some()
    } else {
        a.first_seen < b.first_seen
    }
}

/// `b` is of the aircraft of `a` and was first seen no more than the window after it.
pub open spec fn near(a: Flight, b: Flight) -> bool {
    a.icao24@ == b.icao24@ && b.first_seen - a.first_seen <= OPENSKY_NEAR_DUP_SECS
}

/// Where the run of flights near the first one ends, seen from position `n`.
pub open spec fn run_end(s: Seq<Flight>, n: int) -> int
    decreases s.len() - n,
{
    if 0 <= n < s.len() && near(s[0], s[n]) {
        run_end(s, n + 1)
    } else {
        n
    }
}

/// The fullest flight; of equals the first.
pub open spec fn fullest(c: Seq<Flight>) -> Flight
    decreases c.len(),
{
    if c.len() <= 1 {
        c[0]
    } else {
        let best = fullest(c.drop_last());
        if fuller(c.last(), best) {
            c.last()
        } else {
            best
        }
    }
}

/// Of sorted flights, the fullest of each cluster: a cluster begins with the first flight that is
/// not near the beginning of the cluster before it.
pub open spec fn cluster_heads(s: Seq<Flight>) -> Seq<Flight>
    decreases s.len(),
{
    if s.len() == 0 {
        Seq::empty()
    } else {
        let n = run_end(s, 1);
        if 1 <= n <= s.len() {
            seq![fullest(s.take(n))] + cluster_heads(s.skip(n))
        } else {
            Seq::empty()
        }
    }
}

/// The most complete flight of each cluster, by aircraft and time.
pub open spec fn collapsed(flights: Seq<Flight>) -> Seq<Flight> {
    cluster_heads(order::sorted::<Flight>(flights))
}

proof fn lemma_run_end(s: Seq<Flight>, n: int)
    requires
        0 <= n <= s.len(),
    ensures
        n <= run_end(s, n) <= s.len(),
        forall|i: int| n <= i < run_end(s, n) ==> near(s[0], #[trigger] s[i]),
        run_end(s, n) < s.len() ==> !near(s[0], s[run_end(s, n)]),
    decreases s.len() - n,
{
    if n < s.len() && near(s[0], s[n]) {
        lemma_run_end(s, n + 1);
    }
}

proof fn lemma_run_end_is(s: Seq<Flight>, n: int, end: int)
    requires
        0 <= n <= end <= s.len(),
        forall|i: int| n <= i < end ==> near(s[0], #[trigger] s[i]),
        end < s.len() ==> !near(s[0], s[end]),
    ensures
        run_end(s, n) == end,
    decreases end - n,
{
    if n < end {
        assert(near(s[0], s[n]));
        lemma_run_end_is(s, n + 1, end);
    }
}

proof fn lemma_fullest(c: Seq<Flight>)
    requires
        c.len() > 0,
    ensures
        exists|i: int| 0 <= i < c.len() && #[trigger] c[i] == fullest(c),
        forall|i: int| 0 <= i < c.len() ==> !fuller(#[trigger] c[i], fullest(c)),
    decreases c.len(),
{
    if c.len() > 1 {
        let front = c.drop_last();
        lemma_fullest(front);
        let i = choose|i: int| 0 <= i < front.len() && #[trigger] front[i] == fullest(front);
        assert(c[i] == fullest(front));
        assert(c[c.len() - 1] == c.last());
        assert forall|j: int| 0 <= j < c.len() implies !fuller(#[trigger] c[j], fullest(c)) by {
            if j < front.len() {
                assert(!fuller(front[j], fullest(front)));
            }
        }
    } else {
        assert(c[0] == fullest(c));
    }
}

/// `k` stands for `f`: the same aircraft, first seen no further off than the window, and no less
/// complete.
pub open spec fn stands_for(k: Flight, f: Flight) -> bool {
    &&& k.icao24@ == f.icao24@
    &&& -OPENSKY_NEAR_DUP_SECS <= k.first_seen - f.first_seen <= OPENSKY_NEAR_DUP_SECS
    &&& !fuller(f, k)
}

/// Some kept flight stands for `f`.
pub open spec fn represented(kept: Seq<Flight>, f: Flight) -> bool {
    exists|i: int| 0 <= i < kept.len() && stands_for(#[trigger] kept[i], f)
}

proof fn lemma_in_order_skip(s: Seq<Flight>, n: int)
    requires
        order::in_order::<Flight>(s),
        0 <= n <= s.len(),
    ensures
        order::in_order::<Flight>(s.skip(n)),
{
    let rest = s.skip(n);
    assert forall|i: int, j: int| 0 <= i < j < rest.len() implies !Flight::before(
        #[trigger] rest[j],
        #[trigger] rest[i],
    ) by {
        assert(rest[i] == s[n + i]);
        assert(rest[j] == s[n + j]);
    }
}

proof fn lemma_heads_are_members(s: Seq<Flight>, i: int)
    requires
        0 <= i < cluster_heads(s).len(),
    ensures
        s.contains(cluster_heads(s)[i]),
    decreases s.len(),
{
    lemma_run_end(s, 1);
    let n = run_end(s, 1);
    let c = s.take(n);
    let rest = s.skip(n);
    if i == 0 {
        lemma_fullest(c);
        let p = choose|p: int| 0 <= p < c.len() && #[trigger] c[p] == fullest(c);
        assert(s[p] == cluster_heads(s)[0]);
    } else {
        lemma_heads_are_members(rest, i - 1);
        let h = cluster_heads(rest)[i - 1];
        let q = choose|q: int| 0 <= q < rest.len() && rest[q] == h;
        assert(s[n + q] == cluster_heads(s)[i]);
    }
}

/// Every flight of the run is near its first one, and none is earlier.
proof fn lemma_run_member(s: Seq<Flight>, j: int)
    requires
        order::in_order::<Flight>(s),
        0 <= j < run_end(s, 1),
        s.len() > 0,
    ensures
        s[j].icao24@ == s[0].icao24@,
        0 <= s[j].first_seen - s[0].first_seen <= OPENSKY_NEAR_DUP_SECS,
{
    lemma_run_end(s, 1);
    if j > 0 {
        assert(near(s[0], s[j]));
        assert(!Flight::before(s[j], s[0]));
    }
}

proof fn lemma_heads_stand(s: Seq<Flight>, j: int)
    requires
        order::in_order::<Flight>(s),
        0 <= j < s.len(),
    ensures
        represented(cluster_heads(s), s[j]),
    decreases s.len(),
{
    lemma_run_end(s, 1);
    let n = run_end(s, 1);
    let c = s.take(n);
    let rest = s.skip(n);
    let r = cluster_heads(s);
    if j < n {
        lemma_fullest(c);
        let p = choose|p: int| 0 <= p < c.len() && #[trigger] c[p] == fullest(c);
        assert(r[0] == s[p]);
        lemma_run_member(s, p);
        lemma_run_member(s, j);
        assert(c[j] == s[j]);
        assert(stands_for(r[0], s[j]));
    } else {
        lemma_in_order_skip(s, n);
        lemma_heads_stand(rest, j - n);
        let tail = cluster_heads(rest);
        let i = choose|i: int| 0 <= i < tail.len() && stands_for(#[trigger] tail[i], rest[j - n]);
        assert(r[i + 1] == tail[i]);
        assert(stands_for(r[i + 1], s[j]));
    }
}

proof fn lemma_heads_rise(s: Seq<Flight>, i: int, j: int)
    requires
        order::in_order::<Flight>(s),
        0 <= i < j < cluster_heads(s).len(),
    ensures
        Flight::before(cluster_heads(s)[i], cluster_heads(s)[j]),
    decreases s.len(),
{
    lemma_run_end(s, 1);
    let n = run_end(s, 1);
    let c = s.take(n);
    let rest = s.skip(n);
    lemma_in_order_skip(s, n);
    if i > 0 {
        lemma_heads_rise(rest, i - 1, j - 1);
    } else {
        lemma_fullest(c);
        let p = choose|p: int| 0 <= p < c.len() && #[trigger] c[p] == fullest(c);
        assert(cluster_heads(s)[0] == s[p]);
        lemma_heads_are_members(rest, j - 1);
        let h = cluster_heads(rest)[j - 1];
        let q = choose|q: int| 0 <= q < rest.len() && rest[q] == h;
        assert(s[n + q] == cluster_heads(s)[j]);
        lemma_beyond_run(s, n, n + q);
        lemma_run_member(s, p);
        assert(!Flight::before(s[n + q], s[p]));
        text::lemma_text_lt_total(s[p].icao24@, s[n + q].icao24@);
    }
}

/// Sorted flights behind the run of the first one are of another aircraft or later than the
/// window.
proof fn lemma_beyond_run(s: Seq<Flight>, n: int, q: int)
    requires
        order::in_order::<Flight>(s),
        n == run_end(s, 1),
        1 <= n <= q < s.len(),
        !near(s[0], s[n]),
    ensures
        !near(s[0], s[q]),
{
    if near(s[0], s[q]) {
        assert(!Flight::before(s[q], s[n])) by {
            if n < q {
                assert(!Flight::before(s[q], s[n]));
            } else {
                text::lemma_text_lt_irreflexive(s[n].icao24@);
            }
        }
        assert(!Flight::before(s[n], s[0]));
        text::lemma_text_lt_total(s[0].icao24@, s[n].icao24@);
        text::lemma_text_lt_total(s[n].icao24@, s[q].icao24@);
    }
}

/// Collapsing keeps flights as they are and makes up none; every flight that was there has one
/// that stands for it; and what is kept rises strictly by aircraft and time, so no aircraft keeps
/// two flights with one first sight.
pub proof fn law_collapsed(flights: Seq<Flight>)
    ensures
        forall|i: int|
            0 <= i < collapsed(flights).len() ==> flights.contains(#[trigger] collapsed(flights)[i]),
        forall|j: int|
            0 <= j < flights.len() ==> represented(collapsed(flights), #[trigger] flights[j]),
        forall|i: int, j: int|
            0 <= i < j < collapsed(flights).len() ==> Flight::before(
                #[trigger] collapsed(flights)[i],
                #[trigger] collapsed(flights)[j],
            ),
{
    broadcast use vstd::seq_lib::group_to_multiset_ensures;

    let s = order::sorted::<Flight>(flights);
    order::law_sorted::<Flight>(flights);
    let r = collapsed(flights);
    assert forall|i: int| 0 <= i < r.len() implies flights.contains(#[trigger] r[i]) by {
        lemma_heads_are_members(s, i);
        assert(s.to_multiset().count(r[i]) > 0);
        assert(flights.to_multiset().count(r[i]) > 0);
    }
    assert forall|j: int| 0 <= j < flights.len() implies represented(r, #[trigger] flights[j]) by {
        assert(flights.contains(flights[j]));
        assert(flights.to_multiset().count(flights[j]) > 0);
        assert(s.to_multiset().count(flights[j]) > 0);
        assert(s.contains(flights[j]));
        let q = choose|q: int| 0 <= q < s.len() && s[q] == flights[j];
        lemma_heads_stand(s, q);
    }
    assert forall|i: int, j: int| 0 <= i < j < r.len() implies Flight::before(
        #[trigger] r[i],
        #[trigger] r[j],
    ) by {
        lemma_heads_rise(s, i, j);
    }
}

proof fn lemma_heads_of_sparse(s: Seq<Flight>)
    requires
        forall|i: int, j: int|
            0 <= i < j < s.len() ==> !near(#[trigger] s[i], #[trigger] s[j]),
    ensures
        cluster_heads(s) == s,
    decreases s.len(),
{
    if s.len() > 0 {
        lemma_run_end_is(s, 1, 1);
        let rest = s.skip(1);
        assert forall|i: int, j: int| 0 <= i < j < rest.len() implies !near(
            #[trigger] rest[i],
            #[trigger] rest[j],
        ) by {
            assert(rest[i] == s[i + 1]);
            assert(rest[j] == s[j + 1]);
        }
        lemma_heads_of_sparse(rest);
        assert(fullest(s.take(1)) == s[0]);
        assert(cluster_heads(s) =~= s);
    }
}

/// Flights that are all further apart than the window, aircraft by aircraft, are all kept: they
/// are only put in order.
pub proof fn law_collapse_keeps_sparse_flights(flights: Seq<Flight>)
    requires
        forall|i: int, j: int|
            0 <= i < flights.len() && 0 <= j < flights.len() && i != j && (#[trigger] flights[i]).icao24@
                == (#[trigger] flights[j]).icao24@ ==> flights[j].first_seen - flights[i].first_seen
                > OPENSKY_NEAR_DUP_SECS || flights[i].first_seen - flights[j].first_seen
                > OPENSKY_NEAR_DUP_SECS,
    ensures
        collapsed(flights) == order::sorted::<Flight>(flights),
        collapsed(flights).to_multiset() == flights.to_multiset(),
{
    broadcast use vstd::seq_lib::group_to_multiset_ensures;

    let s = order::sorted::<Flight>(flights);
    order::law_sorted::<Flight>(flights);
    assert(flights.no_duplicates()) by {
        assert forall|i: int, j: int| 0 <= i < j < flights.len() implies flights[i] != flights[j] by {
            if flights[i] == flights[j] {
                assert(flights[i].icao24@ == flights[j].icao24@);
            }
        }
    }
    flights.lemma_multiset_has_no_duplicates();
    s.lemma_multiset_has_no_duplicates_conv();
    assert forall|i: int, j: int| 0 <= i < j < s.len() implies !near(
        #[trigger] s[i],
        #[trigger] s[j],
    ) by {
        assert(s.contains(s[i]) && s.contains(s[j]));
        assert(flights.to_multiset().count(s[i]) > 0);
        assert(flights.to_multiset().count(s[j]) > 0);
        assert(flights.contains(s[i]) && flights.contains(s[j]));
        let a = choose|a: int| 0 <= a < flights.len() && flights[a] == s[i];
        let b = choose|b: int| 0 <= b < flights.len() && flights[b] == s[j];
        if near(s[i], s[j]) {
            assert(a != b);
            assert(!Flight::before(s[j], s[i]));
        }
    }
    lemma_heads_of_sparse(s);
}

/// A flight that stands among others already does not become the fullest by standing there again.
proof fn lemma_fullest_again(c: Seq<Flight>, q: int, at: int)
    requires
        0 <= q < at <= c.len(),
    ensures
        fullest(c.insert(at, c[q])) == fullest(c),
    decreases c.len(),
{
    let f = c[q];
    let d = c.insert(at, f);
    if at == c.len() {
        assert(d.drop_last() =~= c);
        lemma_fullest(c);
        assert(!fuller(c[q], fullest(c)));
    } else {
        let front = c.drop_last();
        assert(front[q] == f);
        lemma_fullest_again(front, q, at);
        assert(d.drop_last() =~= front.insert(at, f));
        assert(d.last() == c.last());
    }
}

/// A flight that stands again at the end of its peers leaves the heads of the clusters as they are.
proof fn lemma_heads_again(s: Seq<Flight>, q: int, at: int)
    requires
        order::in_order::<Flight>(s),
        0 <= q < at <= s.len(),
        s[at - 1].icao24@ == s[q].icao24@,
        s[at - 1].first_seen == s[q].first_seen,
    ensures
        cluster_heads(s.insert(at, s[q])) == cluster_heads(s),
    decreases s.len(),
{
    let f = s[q];
    let t = s.insert(at, f);
    lemma_run_end(s, 1);
    let n = run_end(s, 1);
    assert(t[0] == s[0]);
    if at <= n {
        lemma_run_member(s, at - 1);
        assert forall|i: int| 1 <= i < n + 1 implies near(t[0], #[trigger] t[i]) by {
            if i < at {
                assert(t[i] == s[i]);
            } else if i == at {
                assert(t[i] == f);
            } else {
                assert(t[i] == s[i - 1]);
            }
        }
        if n + 1 < t.len() {
            assert(t[n + 1] == s[n]);
        }
        lemma_run_end_is(t, 1, n + 1);
        let c = s.take(n);
        assert(c[q] == f);
        lemma_fullest_again(c, q, at);
        assert(t.take(n + 1) =~= c.insert(at, f));
        assert(t.skip(n + 1) =~= s.skip(n));
    } else {
        lemma_beyond_run(s, n, at - 1);
        if q < n {
            lemma_run_member(s, q);
        }
        assert forall|i: int| 1 <= i < n implies near(t[0], #[trigger] t[i]) by {
            assert(t[i] == s[i]);
        }
        assert(t[n] == s[n]);
        lemma_run_end_is(t, 1, n);
        let rest = s.skip(n);
        lemma_in_order_skip(s, n);
        assert(rest[q - n] == f && rest[at - n - 1] == s[at - 1]);
        lemma_heads_again(rest, q - n, at - n);
        assert(t.take(n) =~= s.take(n));
        assert(t.skip(n) =~= rest.insert(at - n, f));
    }
}

proof fn lemma_collapse_again(flights: Seq<Flight>, f: Flight)
    requires
        flights.contains(f),
    ensures
        collapsed(flights.push(f)) == collapsed(flights),
{
    broadcast use vstd::seq_lib::group_to_multiset_ensures;

    let s = order::sorted::<Flight>(flights);
    order::law_sorted::<Flight>(flights);
    assert(flights.to_multiset().count(f) > 0);
    assert(s.contains(f));
    let q = choose|q: int| 0 <= q < s.len() && s[q] == f;
    let at = order::lemma_placed_somewhere::<Flight>(s, f);
    text::lemma_text_lt_irreflexive(f.icao24@);
    assert(q < at);
    if q < at - 1 {
        assert(!Flight::before(s[at - 1], s[q]));
    }
    text::lemma_text_lt_total(f.icao24@, s[at - 1].icao24@);
    lemma_heads_again(s, q, at);
    assert(flights.push(f).drop_last() =~= flights);
    assert(order::sorted::<Flight>(flights.push(f)) == s.insert(at, f));
}

/// Flights that are reported again, as by an adjacent slice, change nothing.
pub proof fn law_collapse_absorbs_repeats(flights: Seq<Flight>, again: Seq<Flight>)
    requires
        forall|i: int| 0 <= i < again.len() ==> flights.contains(#[trigger] again[i]),
    ensures
        collapsed(flights + again) == collapsed(flights),
    decreases again.len(),
{
    if again.len() == 0 {
        assert(flights + again =~= flights);
    } else {
        let front = again.drop_last();
        let f = again.last();
        assert forall|i: int| 0 <= i < front.len() implies flights.contains(#[trigger] front[i]) by {
            assert(front[i] == again[i]);
        }
        law_collapse_absorbs_repeats(flights, front);
        assert(flights.contains(again[again.len() - 1]));
        let k = choose|k: int| 0 <= k < flights.len() && flights[k] == f;
        assert((flights + front)[k] == f);
        lemma_collapse_again(flights + front, f);
        assert((flights + front).push(f) =~= flights + again);
    }
}

proof fn lemma_flights_of_push(s: Seq<Flight>, f: Flight, hex: Seq<char>)
    ensures
        collect::flights_of(s.push(f), hex) == if f.icao24@ == hex {
            collect::flights_of(s, hex).push(f)
        } else {
            collect::flights_of(s, hex)
        },
{
    reveal(Seq::filter);
    assert(s.push(f).drop_last() =~= s);
}

proof fn lemma_flights_of_concat(a: Seq<Flight>, b: Seq<Flight>, hex: Seq<char>)
    ensures
        collect::flights_of(a + b, hex) == collect::flights_of(a, hex) + collect::flights_of(
            b,
            hex,
        ),
    decreases b.len(),
{
    reveal(Seq::filter);
    if b.len() == 0 {
        assert(a + b =~= a);
    } else {
        lemma_flights_of_concat(a, b.drop_last(), hex);
        assert((a + b).drop_last() =~= a + b.drop_last());
        assert((a + b).last() == b.last());
    }
}

/// What is left for an aircraft where all flights, or none, are of it.
proof fn lemma_flights_of_alike(s: Seq<Flight>, hex: Seq<char>)
    ensures
        (forall|i: int| 0 <= i < s.len() ==> (#[trigger] s[i]).icao24@ == hex)
            ==> collect::flights_of(s, hex) == s,
        (forall|i: int| 0 <= i < s.len() ==> (#[trigger] s[i]).icao24@ != hex)
            ==> collect::flights_of(s, hex).len() == 0,
    decreases s.len(),
{
    reveal(Seq::filter);
    if s.len() > 0 {
        let front = s.drop_last();
        lemma_flights_of_alike(front, hex);
        assert forall|i: int| 0 <= i < front.len() implies front[i] == #[trigger] s[i] by {}
        assert(s[s.len() - 1] == s.last());
        assert(front.push(s.last()) =~= s);
        if forall|i: int| 0 <= i < s.len() ==> (#[trigger] s[i]).icao24@ == hex {
            assert forall|i: int| 0 <= i < front.len() implies (#[trigger] front[i]).icao24@
                == hex by {
                assert(s[i].icao24@ == hex);
            }
        }
        if forall|i: int| 0 <= i < s.len() ==> (#[trigger] s[i]).icao24@ != hex {
            assert forall|i: int| 0 <= i < front.len() implies (#[trigger] front[i]).icao24@
                != hex by {
                assert(s[i].icao24@ != hex);
            }
        }
    }
}

proof fn lemma_flights_of_member(s: Seq<Flight>, hex: Seq<char>, k: int)
    requires
        0 <= k < collect::flights_of(s, hex).len(),
    ensures
        exists|q: int| 0 <= q < s.len() && #[trigger] s[q] == collect::flights_of(s, hex)[k],
        collect::flights_of(s, hex)[k].icao24@ == hex,
    decreases s.len(),
{
    reveal(Seq::filter);
    let front = s.drop_last();
    if k < collect::flights_of(front, hex).len() {
        lemma_flights_of_member(front, hex, k);
        let q = choose|q: int|
            0 <= q < front.len() && #[trigger] front[q] == collect::flights_of(front, hex)[k];
        assert(s[q] == collect::flights_of(s, hex)[k]);
    } else {
        assert(s[s.len() - 1] == collect::flights_of(s, hex)[k]);
    }
}

proof fn lemma_placed_of_hex(s: Seq<Flight>, f: Flight, hex: Seq<char>)
    requires
        order::in_order::<Flight>(s),
    ensures
        collect::flights_of(order::placed::<Flight>(s, f), hex) == if f.icao24@ == hex {
            order::placed::<Flight>(collect::flights_of(s, hex), f)
        } else {
            collect::flights_of(s, hex)
        },
    decreases s.len(),
{
    let kept = collect::flights_of(s, hex);
    if s.len() == 0 || !Flight::before(f, s.last()) {
        lemma_flights_of_push(s, f, hex);
        if kept.len() > 0 {
            lemma_flights_of_member(s, hex, kept.len() - 1);
            let q = choose|q: int| 0 <= q < s.len() && #[trigger] s[q] == kept[kept.len() - 1];
            if q < s.len() - 1 {
                assert(!Flight::before(s[s.len() - 1], s[q]));
                Flight::before_negatively_transitive(s[q], s.last(), f);
            }
        }
    } else {
        let front = s.drop_last();
        lemma_placed_of_hex(front, f, hex);
        lemma_flights_of_push(order::placed::<Flight>(front, f), s.last(), hex);
        lemma_flights_of_push(front, s.last(), hex);
        assert(front.push(s.last()) =~= s);
        if s.last().icao24@ == hex {
            assert(kept.drop_last() =~= collect::flights_of(front, hex));
        }
    }
}

proof fn lemma_sorted_of_hex(flights: Seq<Flight>, hex: Seq<char>)
    ensures
        collect::flights_of(order::sorted::<Flight>(flights), hex) == order::sorted::<Flight>(
            collect::flights_of(flights, hex),
        ),
    decreases flights.len(),
{
    reveal(Seq::filter);
    if flights.len() > 0 {
        let front = flights.drop_last();
        let f = flights.last();
        lemma_sorted_of_hex(front, hex);
        order::law_sorted::<Flight>(front);
        lemma_placed_of_hex(order::sorted::<Flight>(front), f, hex);
        if f.icao24@ == hex {
            let kept = collect::flights_of(front, hex);
            assert(kept.push(f).drop_last() =~= kept);
        }
    }
}

/// The first flight of an aircraft behind the run of its first flights is the one the run ends at.
proof fn lemma_first_beyond_run(s: Seq<Flight>, n: int, hex: Seq<char>)
    requires
        order::in_order::<Flight>(s),
        0 < n <= s.len(),
        s[0].icao24@ == hex,
        collect::flights_of(s.skip(n), hex).len() > 0,
    ensures
        n < s.len(),
        collect::flights_of(s.skip(n), hex)[0] == s[n],
{
    let rest = s.skip(n);
    let of_rest = collect::flights_of(rest, hex);
    lemma_flights_of_member(rest, hex, 0);
    let q = choose|q: int| 0 <= q < rest.len() && #[trigger] rest[q] == of_rest[0];
    assert(rest[q] == s[n + q]);
    assert(rest[0] == s[n]);
    assert(!Flight::before(s[n], s[0]));
    if q > 0 {
        assert(!Flight::before(s[n + q], s[n]));
    }
    text::lemma_text_lt_total(s[n].icao24@, hex);
    assert(rest[0].icao24@ == hex);
    assert(seq![rest[0]] + rest.skip(1) =~= rest);
    lemma_flights_of_concat(seq![rest[0]], rest.skip(1), hex);
    lemma_flights_of_alike(seq![rest[0]], hex);
}

/// Of the run of an aircraft's first flights and its flights behind it, the run is the first cluster.
proof fn lemma_run_is_the_first_cluster(s: Seq<Flight>, hex: Seq<char>)
    requires
        order::in_order::<Flight>(s),
        s.len() > 0,
        s[0].icao24@ == hex,
    ensures
        ({
            let n = run_end(s, 1);
            let of_rest = collect::flights_of(s.skip(n), hex);
            &&& 1 <= n <= s.len()
            &&& cluster_heads(s.take(n) + of_rest) == seq![fullest(s.take(n))] + cluster_heads(
                of_rest,
            )
        }),
{
    lemma_run_end(s, 1);
    let n = run_end(s, 1);
    let c = s.take(n);
    let of_rest = collect::flights_of(s.skip(n), hex);
    let all = c + of_rest;
    if of_rest.len() > 0 {
        lemma_first_beyond_run(s, n, hex);
        assert(all[n] == s[n]);
    }
    assert(all[0] == s[0]);
    assert forall|i: int| 1 <= i < n implies near(all[0], #[trigger] all[i]) by {
        assert(all[i] == s[i]);
    }
    lemma_run_end_is(all, 1, n);
    assert(all.take(n) =~= c);
    assert(all.skip(n) =~= of_rest);
}

proof fn lemma_heads_of_hex(s: Seq<Flight>, hex: Seq<char>)
    requires
        order::in_order::<Flight>(s),
    ensures
        collect::flights_of(cluster_heads(s), hex) == cluster_heads(collect::flights_of(s, hex)),
    decreases s.len(),
{
    if s.len() == 0 {
        lemma_flights_of_alike(s, hex);
        lemma_flights_of_alike(cluster_heads(s), hex);
    } else {
        lemma_run_end(s, 1);
        let n = run_end(s, 1);
        let c = s.take(n);
        let rest = s.skip(n);
        let head = fullest(c);
        lemma_in_order_skip(s, n);
        lemma_heads_of_hex(rest, hex);
        assert forall|i: int| 0 <= i < n implies (#[trigger] c[i]).icao24@ == s[0].icao24@ by {
            assert(c[i] == s[i]);
        }
        assert(head.icao24@ == s[0].icao24@) by {
            lemma_fullest(c);
        }
        assert(c + rest =~= s);
        lemma_flights_of_concat(c, rest, hex);
        lemma_flights_of_concat(seq![head], cluster_heads(rest), hex);
        lemma_flights_of_alike(c, hex);
        lemma_flights_of_alike(seq![head], hex);
        let of_rest = collect::flights_of(rest, hex);
        if s[0].icao24@ == hex {
            lemma_run_is_the_first_cluster(s, hex);
        } else {
            assert(collect::flights_of(s, hex) =~= of_rest);
            assert(collect::flights_of(cluster_heads(s), hex) =~= collect::flights_of(
                cluster_heads(rest),
                hex,
            ));
        }
    }
}

/// The flights of other aircraft never change what is kept for one: the flights kept for it are
/// what its own flights collapse to.
pub proof fn law_collapse_is_per_aircraft(flights: Seq<Flight>, hex: Seq<char>)
    ensures
        collect::flights_of(collapsed(flights), hex) == collapsed(
            collect::flights_of(flights, hex),
        ),
{
    order::law_sorted::<Flight>(flights);
    lemma_sorted_of_hex(flights, hex);
    lemma_heads_of_hex(order::sorted::<Flight>(flights), hex);
}

/// The flight lies in the window of an aircraft that begins at a time.
pub open spec fn in_window(f: Flight, window: (Seq<char>, int)) -> bool {
    f.icao24@ == window.0 && window.1 <= f.first_seen <= window.1 + OPENSKY_NEAR_DUP_SECS
}

/// The flight lies in one of the windows.
pub open spec fn covered(f: Flight, windows: Seq<(Seq<char>, int)>) -> bool {
    exists|k: int| 0 <= k < windows.len() && in_window(f, #[trigger] windows[k])
}

proof fn lemma_heads_are_fewest(s: Seq<Flight>, windows: Seq<(Seq<char>, int)>)
    requires
        order::in_order::<Flight>(s),
        forall|i: int| 0 <= i < s.len() ==> covered(#[trigger] s[i], windows),
    ensures
        cluster_heads(s).len() <= windows.len(),
    decreases s.len(),
{
    if s.len() > 0 {
        lemma_run_end(s, 1);
        let n = run_end(s, 1);
        let rest = s.skip(n);
        lemma_in_order_skip(s, n);
        assert(covered(s[0], windows));
        let w = choose|k: int| 0 <= k < windows.len() && in_window(s[0], #[trigger] windows[k]);
        let others = windows.remove(w);
        assert forall|i: int| 0 <= i < rest.len() implies covered(#[trigger] rest[i], others) by {
            assert(rest[i] == s[n + i]);
            lemma_beyond_run(s, n, n + i);
            assert(covered(s[n + i], windows));
            let k = choose|k: int|
                0 <= k < windows.len() && in_window(s[n + i], #[trigger] windows[k]);
            if k < w {
                assert(in_window(rest[i], others[k]));
            } else {
                assert(k != w);
                assert(in_window(rest[i], others[k - 1]));
            }
        }
        lemma_heads_are_fewest(rest, others);
    }
}

/// As few flights are kept as can be: however windows of the length of the cluster window are laid
/// over the flights, so that each flight lies in one of its aircraft, there are no fewer of them
/// than flights that are kept.
pub proof fn law_collapse_keeps_the_fewest(flights: Seq<Flight>, windows: Seq<(Seq<char>, int)>)
    requires
        forall|i: int| 0 <= i < flights.len() ==> covered(#[trigger] flights[i], windows),
    ensures
        collapsed(flights).len() <= windows.len(),
{
    broadcast use vstd::seq_lib::group_to_multiset_ensures;

    let s = order::sorted::<Flight>(flights);
    order::law_sorted::<Flight>(flights);
    assert forall|i: int| 0 <= i < s.len() implies covered(#[trigger] s[i], windows) by {
        assert(s.contains(s[i]));
        assert(s.to_multiset().count(s[i]) > 0);
        assert(flights.contains(s[i]));
        let j = choose|j: int| 0 <= j < flights.len() && flights[j] == s[i];
        assert(covered(flights[j], windows));
    }
    lemma_heads_are_fewest(s, windows);
}

/// The fullest flight of `s[from..to]`.
fn fullest_in(s: &Vec<Flight>, from: usize, to: usize) -> (best: usize)
    requires
        from < to <= s@.len(),
    ensures
        from <= best < to,
        s@[best as int] == fullest(s@.subrange(from as int, to as int)),
{
    let mut best: usize = from;
    let mut i: usize = from + 1;
    while i < to
        invariant
            from < i <= to <= s@.len(),
            from <= best < i,
            s@[best as int] == fullest(s@.subrange(from as int, i as int)),
        decreases to - i,
    {
        proof {
            let more = s@.subrange(from as int, i + 1);
            assert(more.drop_last() =~= s@.subrange(from as int, i as int));
            assert(more.last() == s@[i as int]);
        }
        if is_fuller(&s[i], &s[best]) {
            best = i;
        }
        i += 1;
    }
    best
}

/// Keeps the most complete flight when several share a hex and a first sight within 180 s.
pub fn collapse_near_duplicate_flights(flights: &Vec<Flight>) -> (r: Vec<Flight>)
    ensures
        r@ == collapsed(flights@),
{
    let mut copy: Vec<Flight> = Vec::new();
    let mut k: usize = 0;
    while k < flights.len()
        invariant
            0 <= k <= flights@.len(),
            copy@ == flights@.take(k as int),
        decreases flights@.len() - k,
    {
        copy.push(flights[k].clone());
        k += 1;
    }
    let s = order::sort(copy);
    proof {
        assert(flights@.take(k as int) =~= flights@);
        assert(order::views(copy@) =~= flights@);
        assert(order::views(s@) =~= s@);
    }
    let mut out: Vec<Flight> = Vec::new();
    let mut i: usize = 0;
    proof {
        assert(s@.skip(0) =~= s@);
        assert(out@ + cluster_heads(s@) =~= cluster_heads(s@));
    }
    while i < s.len()
        invariant
            0 <= i <= s@.len(),
            out@ + cluster_heads(s@.skip(i as int)) == cluster_heads(s@),
        decreases s@.len() - i,
    {
        let ghost rest = s@.skip(i as int);
        let mut end: usize = i + 1;
        while end < s.len() && text::same_text(s[i].icao24.as_str(), s[end].icao24.as_str())
            && s[end].first_seen as i128 - s[i].first_seen as i128 <= OPENSKY_NEAR_DUP_SECS as i128
            invariant
                i < end <= s@.len(),
                rest == s@.skip(i as int),
                forall|j: int| 1 <= j < end - i ==> near(rest[0], #[trigger] rest[j]),
            decreases s@.len() - end,
        {
            proof {
                assert(rest[end - i] == s@[end as int]);
            }
            end += 1;
        }
        proof {
            if end < s@.len() {
                assert(rest[end - i] == s@[end as int]);
            }
            lemma_run_end_is(rest, 1, end - i);
            assert(rest.take(end - i) =~= s@.subrange(i as int, end as int));
            assert(rest.skip(end - i) =~= s@.skip(end as int));
        }
        let best = fullest_in(&s, i, end);
        let ghost done = out@;
        out.push(s[best].clone());
        proof {
            let head = fullest(rest.take(end - i));
            assert(out@ + cluster_heads(s@.skip(end as int)) =~= done + (seq![head]
                + cluster_heads(s@.skip(end as int))));
        }
        i = end;
    }
    proof {
        assert(out@ + cluster_heads(s@.skip(i as int)) =~= out@);
    }
    out
}

/// Which of two flights says more, by their fields: the one with both airports before one without;
/// the one with an airport before one with none; of one airport each, the arrival before the
/// departure; with the same airports, the one with a callsign; and with the same of all these, the
/// one first seen earlier. Of no two flights does each say more than the other.
pub proof fn law_fuller_by_fields(a: Flight, b: Flight)
    ensures
        !(fuller(a, b) && fuller(b, a)),
        a.est_departure_airport is Some && a.est_arrival_airport is Some && (
        b.est_departure_airport is None || b.est_arrival_airport is None) ==> fuller(a, b),
        (a.est_departure_airport is Some || a.est_arrival_airport is Some)
            && b.est_departure_airport is None && b.est_arrival_airport is None ==> fuller(a, b),
        a.est_departure_airport is None && a.est_arrival_airport is Some
            && b.est_departure_airport is Some && b.est_arrival_airport is None ==> fuller(a, b),
        (a.est_departure_airport is Some <==> b.est_departure_airport is Some) && (
        a.est_arrival_airport is Some <==> b.est_arrival_airport is Some) ==> {
            &&& a.callsign is Some && b.callsign is None ==> fuller(a, b)
            &&& (a.callsign is Some <==> b.callsign is Some) ==> (fuller(a, b) <==> a.first_seen
                < b.first_seen)
        },
{
}

/// For every flight one is kept that says no less, by the fields of the two: of the same aircraft and
/// first seen within 180 seconds of it; with both airports where the flight has both, with an airport
/// where it has one, with an arrival airport where it has one; where the two have the same airports,
/// with a callsign where it has one; and where they have the same of all these, first seen no later.
pub proof fn law_kept_flight_says_no_less(flights: Seq<Flight>, j: int)
    requires
        0 <= j < flights.len(),
    ensures
        exists|i: int|
            0 <= i < collapsed(flights).len() && {
                let k = #[trigger] collapsed(flights)[i];
                let f = flights[j];
                &&& k.icao24@ == f.icao24@
                &&& -180 <= k.first_seen - f.first_seen <= 180
                &&& f.est_departure_airport is Some && f.est_arrival_airport is Some
                    ==> k.est_departure_airport is Some && k.est_arrival_airport is Some
                &&& f.est_departure_airport is Some ==> k.est_departure_airport is Some
                    || k.est_arrival_airport is Some
                &&& f.est_arrival_airport is Some ==> k.est_arrival_airport is Some
                &&& (k.est_departure_airport is Some <==> f.est_departure_airport is Some) && (
                k.est_arrival_airport is Some <==> f.est_arrival_airport is Some) ==> {
                    &&& f.callsign is Some ==> k.callsign is Some
                    &&& (k.callsign is Some <==> f.callsign is Some) ==> k.first_seen
                        <= f.first_seen
                }
            },
{
    law_collapsed(flights);
    let kept = collapsed(flights);
    assert(represented(kept, flights[j]));
    let i = choose|i: int| 0 <= i < kept.len() && stands_for(#[trigger] kept[i], flights[j]);
    law_fuller_by_fields(flights[j], kept[i]);
    law_fuller_by_fields(kept[i], flights[j]);
}

/// Of the flights of one aircraft that were first seen within 180 seconds of its first one, no two
/// are kept.
pub proof fn law_one_kept_in_the_first_window(flights: Seq<Flight>, first: int, a: int, b: int)
    requires
        0 <= first < flights.len(),
        forall|j: int|
            0 <= j < flights.len() && (#[trigger] flights[j]).icao24@ == flights[first].icao24@
                ==> flights[first].first_seen <= flights[j].first_seen,
        0 <= a < collapsed(flights).len(),
        0 <= b < collapsed(flights).len(),
        collapsed(flights)[a].icao24@ == flights[first].icao24@,
        collapsed(flights)[b].icao24@ == flights[first].icao24@,
        collapsed(flights)[a].first_seen - flights[first].first_seen <= 180,
        collapsed(flights)[b].first_seen - flights[first].first_seen <= 180,
    ensures
        a == b,
{
    broadcast use vstd::seq_lib::group_to_multiset_ensures;

    let s = order::sorted::<Flight>(flights);
    order::law_sorted::<Flight>(flights);
    assert(flights.contains(flights[first]));
    assert(s.to_multiset().count(flights[first]) > 0);
    assert(s.contains(flights[first]));
    let q = choose|q: int| 0 <= q < s.len() && s[q] == flights[first];
    assert forall|i: int| 0 <= i < s.len() && (#[trigger] s[i]).icao24@
        == flights[first].icao24@ implies flights[first].first_seen <= s[i].first_seen by {
        assert(s.to_multiset().count(s[i]) > 0);
        assert(flights.to_multiset().count(s[i]) > 0);
        assert(flights.contains(s[i]));
        let j = choose|j: int| 0 <= j < flights.len() && flights[j] == s[i];
        assert(flights[j].icao24@ == flights[first].icao24@);
    }
    lemma_one_in_first_window(s, q, a, b);
}

proof fn lemma_one_in_first_window(s: Seq<Flight>, q: int, a: int, b: int)
    requires
        order::in_order::<Flight>(s),
        0 <= q < s.len(),
        forall|i: int|
            0 <= i < s.len() && (#[trigger] s[i]).icao24@ == s[q].icao24@ ==> s[q].first_seen
                <= s[i].first_seen,
        0 <= a < cluster_heads(s).len(),
        0 <= b < cluster_heads(s).len(),
        cluster_heads(s)[a].icao24@ == s[q].icao24@,
        cluster_heads(s)[b].icao24@ == s[q].icao24@,
        cluster_heads(s)[a].first_seen - s[q].first_seen <= 180,
        cluster_heads(s)[b].first_seen - s[q].first_seen <= 180,
    ensures
        a == b,
    decreases s.len(),
{
    lemma_run_end(s, 1);
    let n = run_end(s, 1);
    let c = s.take(n);
    let rest = s.skip(n);
    let heads = cluster_heads(s);
    lemma_fullest(c);
    let p = choose|p: int| 0 <= p < c.len() && #[trigger] c[p] == fullest(c);
    assert(heads[0] == s[p]);
    lemma_run_member(s, p);
    if s[0].icao24@ == s[q].icao24@ {
        assert(s[q].first_seen <= s[0].first_seen);
        if q > 0 {
            assert(!Flight::before(s[q], s[0]));
        }
        assert(s[0].first_seen == s[q].first_seen);
        assert forall|h: int| 0 < h < heads.len() && (#[trigger] heads[h]).icao24@
            == s[q].icao24@ implies heads[h].first_seen - s[q].first_seen > 180 by {
            lemma_heads_are_members(rest, h - 1);
            let m = choose|m: int| 0 <= m < rest.len() && rest[m] == cluster_heads(rest)[h - 1];
            assert(heads[h] == s[n + m]);
            assert(!near(s[0], s[n]));
            if m > 0 {
                assert(!Flight::before(s[n + m], s[n]));
                assert(!Flight::before(s[n], s[0]));
                text::lemma_text_lt_total(s[0].icao24@, s[n].icao24@);
                text::lemma_text_lt_total(s[n].icao24@, s[n + m].icao24@);
            }
        }
    } else {
        if q < n {
            lemma_run_member(s, q);
        }
        lemma_in_order_skip(s, n);
        assert(rest[q - n] == s[q]);
        assert(heads[0].icao24@ != s[q].icao24@);
        assert(cluster_heads(rest)[a - 1] == heads[a]);
        assert(cluster_heads(rest)[b - 1] == heads[b]);
        assert forall|i: int| 0 <= i < rest.len() && (#[trigger] rest[i]).icao24@
            == rest[q - n].icao24@ implies rest[q - n].first_seen <= rest[i].first_seen by {
            assert(rest[i] == s[n + i]);
        }
        lemma_one_in_first_window(rest, q - n, a - 1, b - 1);
    }
}

/// Of two flights the first says more exactly where it has more of the two airports; or as many, but
/// the arrival where the other has the departure; or the same airports and alone a callsign; or the
/// same of all these and was first seen earlier.
pub proof fn law_is_fuller(a: Flight, b: Flight, r: bool)
    requires
        call_ensures(is_fuller, (&a, &b), r),
    ensures
        ({
            let a_both = a.est_departure_airport is Some && a.est_arrival_airport is Some;
            let b_both = b.est_departure_airport is Some && b.est_arrival_airport is Some;
            let a_none = a.est_departure_airport is None && a.est_arrival_airport is None;
            let b_none = b.est_departure_airport is None && b.est_arrival_airport is None;
            let same = (a.est_departure_airport is Some <==> b.est_departure_airport is Some) && (
            a.est_arrival_airport is Some <==> b.est_arrival_airport is Some);
            r <==> (a_both && !b_both) || (!a_none && b_none) || (!a_none && !a_both && !b_none
                && !b_both && a.est_arrival_airport is Some && b.est_arrival_airport is None) || (same
                && a.callsign is Some && b.callsign is None) || (same && (a.callsign is Some
                <==> b.callsign is Some) && a.first_seen < b.first_seen)
        }),
{
    law_fuller_by_fields(a, b);
    law_fuller_by_fields(b, a);
}

/// The flights that are kept come by aircraft in the order of texts, and those of one aircraft in the
/// order of time.
pub proof fn law_kept_flights_in_order(flights: Seq<Flight>, i: int, j: int)
    requires
        0 <= i < j < collapsed(flights).len(),
    ensures
        text::text_lt(collapsed(flights)[i].icao24@, collapsed(flights)[j].icao24@) || (
        collapsed(flights)[i].icao24@ == collapsed(flights)[j].icao24@
            && collapsed(flights)[i].first_seen < collapsed(flights)[j].first_seen),
{
    law_collapsed(flights);
    assert(Flight::before(collapsed(flights)[i], collapsed(flights)[j]));
}

/// What is kept of flights: some of them, by aircraft and time; and for each of them one that says no
/// less.
pub proof fn law_collapse(flights: Vec<Flight>, r: Vec<Flight>, i: int, j: int)
    requires
        call_ensures(collapse_near_duplicate_flights, (&flights,), r),
        0 <= i < r@.len(),
        0 <= j < flights@.len(),
    ensures
        flights@.contains(r@[i]),
        exists|k: int|
            0 <= k < r@.len() && (#[trigger] r@[k]).icao24@ == flights@[j].icao24@ && -180
                <= r@[k].first_seen - flights@[j].first_seen <= 180 && !fuller(flights@[j], r@[k]),
{
    law_collapsed(flights@);
    assert(represented(collapsed(flights@), flights@[j]));
    let k = choose|k: int|
        0 <= k < collapsed(flights@).len() && stands_for(
            #[trigger] collapsed(flights@)[k],
            flights@[j],
        );
    assert(r@[k] == collapsed(flights@)[k]);
}

} // verus!
