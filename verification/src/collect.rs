//! The pieces of the daily collect: which days, which aircraft, which files, and which legs.
//!
//! [`crate::collector`] puts them together.

use crate::calendar;
use crate::calendar::UtcDay;
use crate::collapse;
use crate::fleet::FleetRow;
use crate::opensky::Flight;
use crate::order;
use crate::sets;
use crate::sets::KeySet;
use crate::text;
use vstd::prelude::*;

verus! {

#[derive(Debug, Clone, Copy, PartialEq, Eq, Structural)]
pub struct CollectReport {
    pub fleet_hexes: usize,
    pub skipped_empty_icao24: u64,
    pub days_ok: u64,
    pub days_not_found: u64,
    pub days_from_cache: u64,
    pub trips_upserted: u64,
    pub hexes_stopped_on_error: u64,
    pub live_polls: u64,
    pub live_trips: u64,
    pub flights_calls: u64,
    pub tracks_calls: u64,
    pub skipped_no_coords: u64,
    pub estimated_flights_credits: u32,
}

impl CollectReport {
    /// A report on a fleet with nothing done yet.
    pub open spec fn fresh(fleet_hexes: usize, skipped_empty_icao24: u64) -> CollectReport {
        CollectReport {
            fleet_hexes,
            skipped_empty_icao24,
            days_ok: 0,
            days_not_found: 0,
            days_from_cache: 0,
            trips_upserted: 0,
            hexes_stopped_on_error: 0,
            live_polls: 0,
            live_trips: 0,
            flights_calls: 0,
            tracks_calls: 0,
            skipped_no_coords: 0,
            estimated_flights_credits: 0,
        }
    }

    /// A report on a fleet with nothing done yet.
    pub fn on_fleet(fleet_hexes: usize, skipped_empty_icao24: u64) -> (r: CollectReport)
        ensures
            r == CollectReport::fresh(fleet_hexes, skipped_empty_icao24),
    {
        CollectReport {
            fleet_hexes,
            skipped_empty_icao24,
            days_ok: 0,
            days_not_found: 0,
            days_from_cache: 0,
            trips_upserted: 0,
            hexes_stopped_on_error: 0,
            live_polls: 0,
            live_trips: 0,
            flights_calls: 0,
            tracks_calls: 0,
            skipped_no_coords: 0,
            estimated_flights_credits: 0,
        }
    }
}

impl Default for CollectReport {
    fn default() -> (r: Self)
        ensures
            r == CollectReport::fresh(0, 0),
    {
        CollectReport::on_fleet(0, 0)
    }
}

/// A counter that went up, and that stays at its largest value.
pub open spec fn counted(n: u64, by: nat) -> u64 {
    if n + by <= u64::MAX {
        (n + by) as u64
    } else {
        u64::MAX
    }
}

/// A counter that went up, and that stays at its largest value.
pub fn count(n: u64, by: u64) -> (r: u64)
    ensures
        r == counted(n, by as nat),
{
    if by <= u64::MAX - n {
        n + by
    } else {
        u64::MAX
    }
}

/// A number with at least two digits.
pub open spec fn two_digits(n: nat) -> Seq<char> {
    if n < 10 {
        "0"@ + text::decimal(n)
    } else {
        text::decimal(n)
    }
}

/// Where the cache holds the files of a slice, without the ending.
pub open spec fn slice_path(date: UtcDay, slice_idx: u32) -> Seq<char> {
    "flights_all/"@ + date.text() + "/"@ + two_digits(slice_idx as nat)
}

fn slice_stem(date: UtcDay, slice_idx: u32) -> (r: String)
    requires
        date.valid(),
    ensures
        r@ == slice_path(date, slice_idx),
{
    let dir = text::join2("flights_all/", date.to_text().as_str());
    let digits = text::number_text(slice_idx as u64);
    let name = if slice_idx < 10 {
        text::join2("0", digits.as_str())
    } else {
        digits
    };
    text::join2(text::join2(dir.as_str(), "/").as_str(), name.as_str())
}

/// The file of a slice's flights, below the cache directory.
pub fn flights_all_slice_cache_path(date: UtcDay, slice_idx: u32) -> (r: String)
    requires
        date.valid(),
    ensures
        r@ == slice_path(date, slice_idx) + ".json.gz"@,
{
    text::join2(slice_stem(date, slice_idx).as_str(), ".json.gz")
}

/// The file of a slice's track attempts, below the cache directory.
pub fn flights_all_tracks_cache_path(date: UtcDay, slice_idx: u32) -> (r: String)
    requires
        date.valid(),
    ensures
        r@ == slice_path(date, slice_idx) + ".tracks.json.gz"@,
{
    text::join2(slice_stem(date, slice_idx).as_str(), ".tracks.json.gz")
}

/// The key of a track attempt: the aircraft and the time it was first seen.
pub open spec fn attempt_key(icao24: Seq<char>, first_seen: i64) -> Seq<char> {
    icao24 + ":"@ + text::decimal_int(first_seen as int)
}

/// Attempts on the tracks of different aircraft, or at different times, never share a key.
pub proof fn law_attempt_keys_are_distinct(a: Seq<char>, t: i64, b: Seq<char>, u: i64)
    requires
        attempt_key(a, t) == attempt_key(b, u),
    ensures
        a == b,
        t == u,
{
    reveal_strlit(":");
    text::lemma_decimal_int_distinct(t as int, u as int);
    text::lemma_decimal_int_distinct(u as int, t as int);
    let key = attempt_key(a, t);
    let x = text::decimal_int(t as int);
    let y = text::decimal_int(u as int);
    assert(key.len() == a.len() + 1 + x.len());
    assert(key.len() == b.len() + 1 + y.len());
    assert(key[a.len() as int] == ':');
    assert(attempt_key(b, u)[b.len() as int] == ':');
    if a.len() < b.len() {
        assert(key[b.len() as int] == x[b.len() - a.len() - 1]);
    } else if b.len() < a.len() {
        assert(attempt_key(b, u)[a.len() as int] == y[a.len() - b.len() - 1]);
    } else {
        assert(a =~= key.take(a.len() as int));
        assert(b =~= key.take(a.len() as int));
        assert(x =~= key.skip(a.len() as int + 1));
        assert(y =~= key.skip(a.len() as int + 1));
    }
}

/// The key of a track attempt: the aircraft and the time it was first seen.
pub fn track_attempt_key(icao24: &str, first_seen: i64) -> (r: String)
    ensures
        r@ == attempt_key(icao24@, first_seen),
{
    text::join2(text::join2(icao24, ":").as_str(), text::signed_text(first_seen).as_str())
}

#[derive(Debug, Clone, Copy, PartialEq, Eq, Structural)]
pub enum CollectError {
    /// None of the hexes that were asked for is in the mapped fleet slice.
    NoHexInFleet,
}

/// The hexes of a list that are in the fleet.
pub open spec fn named_in_fleet(list: Seq<Seq<char>>, fleet: Set<Seq<char>>) -> Set<Seq<char>> {
    Set::new(|h: Seq<char>| fleet.contains(h) && list.contains(h))
}

/// The aircraft to ingest: those of the list that are in the fleet, or without a list the fleet.
pub open spec fn ingest_set(list: Seq<Seq<char>>, fleet: Set<Seq<char>>) -> Set<Seq<char>> {
    if list.len() == 0 {
        fleet
    } else {
        named_in_fleet(list, fleet)
    }
}

/// There is a list, and none of its hexes is in the fleet.
pub open spec fn names_no_aircraft(list: Seq<Seq<char>>, fleet: Set<Seq<char>>) -> bool {
    list.len() > 0 && forall|h: Seq<char>| fleet.contains(h) ==> !#[trigger] list.contains(h)
}

/// The set to cache is the mapped fleet; a list of hexes only restricts what is ingested.
pub fn opensky_hex_sets(fleet_keys: &KeySet<String>, hex_filter: &Vec<String>) -> (r: Result<
    (KeySet<String>, KeySet<String>),
    CollectError,
>)
    requires
        fleet_keys.wf(),
    ensures
        r is Err <==> names_no_aircraft(order::views(hex_filter@), fleet_keys@),
        r matches Err(e) ==> e == CollectError::NoHexInFleet,
        r matches Ok((cache, ingest)) ==> cache.wf() && ingest.wf() && cache@ == fleet_keys@
            && ingest@ == ingest_set(order::views(hex_filter@), fleet_keys@),
{
    let ghost list = order::views(hex_filter@);
    let cache = sets::copy_texts(fleet_keys);
    if hex_filter.len() == 0 {
        return Ok((cache, sets::copy_texts(fleet_keys)));
    }
    let mut ingest: KeySet<String> = KeySet::new();
    let mut i: usize = 0;
    proof {
        assert(ingest@ =~= named_in_fleet(list.take(0), fleet_keys@));
    }
    while i < hex_filter.len()
        invariant
            0 <= i <= hex_filter@.len(),
            list == order::views(hex_filter@),
            ingest.wf(),
            ingest@ == named_in_fleet(list.take(i as int), fleet_keys@),
        decreases hex_filter@.len() - i,
    {
        let ghost done = list.take(i as int);
        let ghost more = list.take(i + 1);
        if fleet_keys.contains(&hex_filter[i]) {
            ingest.insert(hex_filter[i].clone());
        }
        proof {
            let h = hex_filter@[i as int]@;
            assert(list[i as int] == h);
            assert forall|t: Seq<char>| more.contains(t) == (done.contains(t) || t == h) by {
                if done.contains(t) {
                    let j = choose|j: int| 0 <= j < done.len() && done[j] == t;
                    assert(more[j] == t);
                }
                assert(more[i as int] == h);
                if more.contains(t) && t != h {
                    let j = choose|j: int| 0 <= j < more.len() && more[j] == t;
                    assert(done[j] == t);
                }
            }
            assert(ingest@ =~= named_in_fleet(more, fleet_keys@));
        }
        i += 1;
    }
    proof {
        assert(list.take(i as int) =~= list);
    }
    if ingest.len() == 0 {
        proof {
            assert(ingest@ =~= Set::<Seq<char>>::empty());
            assert forall|h: Seq<char>| fleet_keys@.contains(h) implies !#[trigger] list.contains(
                h,
            ) by {
                assert(!ingest@.contains(h));
            }
        }
        return Err(CollectError::NoHexInFleet);
    }
    proof {
        if names_no_aircraft(list, fleet_keys@) {
            assert(ingest@ =~= Set::<Seq<char>>::empty());
        }
    }
    Ok((cache, ingest))
}

/// The addresses of the fleet.
pub open spec fn fleet_hexes(rows: Seq<FleetRow>) -> Set<Seq<char>> {
    Set::new(|h: Seq<char>| row_for(rows, h) is Some)
}

/// The addresses of the fleet.
pub fn fleet_hex_set(rows: &Vec<FleetRow>) -> (r: KeySet<String>)
    ensures
        r.wf(),
        r@ == fleet_hexes(rows@),
{
    let mut out: KeySet<String> = KeySet::new();
    let mut i: usize = 0;
    proof {
        assert(out@ =~= fleet_hexes(rows@.take(0)));
    }
    while i < rows.len()
        invariant
            0 <= i <= rows@.len(),
            out.wf(),
            out@ == fleet_hexes(rows@.take(i as int)),
        decreases rows@.len() - i,
    {
        out.insert(rows[i].icao24.clone());
        proof {
            assert(rows@.take(i + 1).drop_last() =~= rows@.take(i as int));
            assert(out@ =~= fleet_hexes(rows@.take(i + 1)));
        }
        i += 1;
    }
    proof {
        assert(rows@.take(i as int) =~= rows@);
    }
    out
}

/// What a collect run is asked to do.
#[derive(Debug)]
pub struct CollectOptions {
    /// The oldest day; without it the run goes back as far as its credits reach.
    pub from: Option<UtcDay>,
    /// The newest day, on which the run begins; never later than yesterday.
    pub to: Option<UtcDay>,
    pub max_flights_credits: u32,
    pub tracks_fallback: bool,
    /// When non-empty, ingest only these mapped hexes. The slice cache is still the full fleet,
    /// and such a run does not mark a UTC day complete.
    pub hex_filter: Vec<String>,
}

/// The day before; the first day of the calendar has none and stands for itself.
pub open spec fn day_before(today: UtcDay) -> UtcDay {
    if today.number > calendar::FIRST_DAY {
        UtcDay { number: (today.number - 1) as i32 }
    } else {
        today
    }
}

/// The newest day of a run: as asked, and never later than yesterday.
pub open spec fn last_day(to: Option<UtcDay>, yesterday: UtcDay) -> UtcDay {
    match to {
        Some(d) => if d.number < yesterday.number {
            d
        } else {
            yesterday
        },
        None => yesterday,
    }
}

/// The oldest day that a run may reach: as asked, else the first one of the calendar.
pub open spec fn first_day(from: Option<UtcDay>) -> UtcDay {
    match from {
        Some(d) => d,
        None => UtcDay { number: calendar::FIRST_DAY },
    }
}

/// The texts trimmed and in lower case, without those that are then empty.
pub open spec fn cleaned(hexes: Seq<String>) -> Seq<Seq<char>>
    decreases hexes.len(),
{
    if hexes.len() == 0 {
        Seq::empty()
    } else {
        let front = cleaned(hexes.drop_last());
        let t = text::trim(hexes.last()@);
        if t.len() > 0 {
            front.push(text::lower(t))
        } else {
            front
        }
    }
}

/// The texts trimmed and in lower case, without those that are then empty.
pub fn clean_hexes(hexes: &Vec<String>) -> (r: Vec<String>)
    ensures
        order::views(r@) == cleaned(hexes@),
{
    let mut out: Vec<String> = Vec::new();
    let mut i: usize = 0;
    while i < hexes.len()
        invariant
            0 <= i <= hexes@.len(),
            order::views(out@) == cleaned(hexes@.take(i as int)),
        decreases hexes@.len() - i,
    {
        let ghost done = order::views(out@);
        proof {
            assert(hexes@.take(i + 1).drop_last() =~= hexes@.take(i as int));
        }
        let t = text::trimmed(hexes[i].as_str());
        if !t.as_str().is_empty() {
            let low = text::to_lower(t.as_str());
            let ghost l = low@;
            out.push(low);
            proof {
                assert(order::views(out@) =~= done.push(l));
            }
        }
        i += 1;
    }
    proof {
        assert(hexes@.take(i as int) =~= hexes@);
    }
    out
}

/// The fleet row of an aircraft; of several the last.
pub open spec fn row_for(rows: Seq<FleetRow>, hex: Seq<char>) -> Option<FleetRow>
    decreases rows.len(),
{
    if rows.len() == 0 {
        None
    } else if rows.last().icao24@ == hex {
        Some(rows.last())
    } else {
        row_for(rows.drop_last(), hex)
    }
}

/// The fleet row of an aircraft; of several the last.
pub fn find_row<'a>(rows: &'a Vec<FleetRow>, hex: &str) -> (r: Option<&'a FleetRow>)
    ensures
        r is Some <==> row_for(rows@, hex@) is Some,
        r matches Some(row) ==> row_for(rows@, hex@) == Some(*row),
{
    let mut i: usize = rows.len();
    proof {
        assert(rows@.take(i as int) =~= rows@);
    }
    while i > 0
        invariant
            0 <= i <= rows@.len(),
            row_for(rows@, hex@) == row_for(rows@.take(i as int), hex@),
        decreases i,
    {
        proof {
            assert(rows@.take(i as int).drop_last() =~= rows@.take(i - 1));
        }
        if text::same_text(rows[i - 1].icao24.as_str(), hex) {
            return Some(&rows[i - 1]);
        }
        i -= 1;
    }
    None
}

/// The flights of one aircraft, near duplicates counted once.
pub struct Legs {
    pub row: FleetRow,
    pub flights: Vec<Flight>,
}

#[verifier::ext_equal]
pub struct LegsView {
    pub row: FleetRow,
    pub flights: Seq<Flight>,
}

impl View for Legs {
    type V = LegsView;

    open spec fn view(&self) -> LegsView {
        LegsView { row: self.row, flights: self.flights@ }
    }
}

/// The aircraft of flights, each once, as they first occur.
pub open spec fn hexes_of(flights: Seq<Flight>) -> Seq<Seq<char>>
    decreases flights.len(),
{
    if flights.len() == 0 {
        Seq::empty()
    } else {
        let front = hexes_of(flights.drop_last());
        let hex = flights.last().icao24@;
        if front.contains(hex) {
            front
        } else {
            front.push(hex)
        }
    }
}

/// The flights of one aircraft, as they stand.
pub open spec fn flights_of(flights: Seq<Flight>, hex: Seq<char>) -> Seq<Flight> {
    flights.filter(|f: Flight| f.icao24@ == hex)
}

/// The legs of each aircraft that has a fleet row.
pub open spec fn legs_by_hex(
    flights: Seq<Flight>,
    rows: Seq<FleetRow>,
    hexes: Seq<Seq<char>>,
) -> Seq<LegsView>
    decreases hexes.len(),
{
    if hexes.len() == 0 {
        Seq::empty()
    } else {
        let front = legs_by_hex(flights, rows, hexes.drop_last());
        match row_for(rows, hexes.last()) {
            Some(row) => front.push(
                LegsView { row, flights: collapse::collapsed(flights_of(flights, hexes.last())) },
            ),
            None => front,
        }
    }
}

/// The legs of the aircraft of a slice, aircraft by aircraft as they first occur.
pub open spec fn slice_legs(flights: Seq<Flight>, rows: Seq<FleetRow>) -> Seq<LegsView> {
    legs_by_hex(flights, rows, hexes_of(flights))
}

fn list_hexes(flights: &Vec<Flight>) -> (r: Vec<String>)
    ensures
        order::views(r@) == hexes_of(flights@),
{
    let mut out: Vec<String> = Vec::new();
    let mut i: usize = 0;
    while i < flights.len()
        invariant
            0 <= i <= flights@.len(),
            order::views(out@) == hexes_of(flights@.take(i as int)),
        decreases flights@.len() - i,
    {
        proof {
            assert(flights@.take(i + 1).drop_last() =~= flights@.take(i as int));
        }
        let ghost front = order::views(out@);
        let hex = &flights[i].icao24;
        let mut known = false;
        let mut j: usize = 0;
        while j < out.len()
            invariant
                0 <= j <= out@.len(),
                front == order::views(out@),
                known ==> front.contains(hex@),
                !known ==> forall|q: int| 0 <= q < j ==> #[trigger] front[q] != hex@,
            decreases out@.len() - j,
        {
            proof {
                assert(front[j as int] == out@[j as int]@);
            }
            if text::same_text(out[j].as_str(), hex.as_str()) {
                known = true;
            }
            j += 1;
        }
        if !known {
            out.push(hex.clone());
            proof {
                assert(order::views(out@) =~= front.push(hex@));
            }
        }
        i += 1;
    }
    proof {
        assert(flights@.take(i as int) =~= flights@);
    }
    out
}

fn select_hex(flights: &Vec<Flight>, hex: &str) -> (r: Vec<Flight>)
    ensures
        r@ == flights_of(flights@, hex@),
{
    let mut out: Vec<Flight> = Vec::new();
    let mut i: usize = 0;
    proof {
        reveal(Seq::filter);
    }
    while i < flights.len()
        invariant
            0 <= i <= flights@.len(),
            out@ == flights_of(flights@.take(i as int), hex@),
        decreases flights@.len() - i,
    {
        proof {
            reveal(Seq::filter);
            assert(flights@.take(i + 1).drop_last() =~= flights@.take(i as int));
        }
        if text::same_text(flights[i].icao24.as_str(), hex) {
            out.push(flights[i].clone());
        }
        i += 1;
    }
    proof {
        assert(flights@.take(i as int) =~= flights@);
    }
    out
}

/// The legs of the aircraft of a slice, aircraft by aircraft as they first occur.
pub fn group_legs(flights: &Vec<Flight>, rows: &Vec<FleetRow>) -> (r: Vec<Legs>)
    ensures
        order::views(r@) == slice_legs(flights@, rows@),
{
    let hexes = list_hexes(flights);
    let ghost all = order::views(hexes@);
    let mut out: Vec<Legs> = Vec::new();
    let mut i: usize = 0;
    while i < hexes.len()
        invariant
            0 <= i <= hexes@.len(),
            all == order::views(hexes@),
            order::views(out@) == legs_by_hex(flights@, rows@, all.take(i as int)),
        decreases hexes@.len() - i,
    {
        proof {
            assert(all.take(i + 1).drop_last() =~= all.take(i as int));
            assert(all.take(i + 1).last() == hexes@[i as int]@);
        }
        let ghost done = order::views(out@);
        if let Some(row) = find_row(rows, hexes[i].as_str()) {
            let mine = select_hex(flights, hexes[i].as_str());
            let legs = Legs {
                row: row.clone(),
                flights: collapse::collapse_near_duplicate_flights(&mine),
            };
            let ghost l = legs@;
            out.push(legs);
            proof {
                assert(order::views(out@) =~= done.push(l));
            }
        }
        i += 1;
    }
    proof {
        assert(all.take(i as int) =~= all);
    }
    out
}

/// The files of a slice lie in a directory of its day, under its number in two digits.
pub proof fn law_slice_path_in_digits(date: UtcDay, slice_idx: u32, tens: char, ones: char)
    requires
        slice_idx < 100,
        tens as int == 48 + slice_idx / 10,
        ones as int == 48 + slice_idx % 10,
    ensures
        slice_path(date, slice_idx) == "flights_all/"@ + calendar::date_text(date.number) + "/"@
            + seq![tens, ones],
{
    reveal_strlit("0");
    reveal_with_fuel(text::decimal, 2);
    assert(two_digits(slice_idx as nat) =~= seq![tens, ones]);
}

/// The fleet row of an aircraft is the last one with its address; there is none exactly where no row
/// has it.
pub proof fn law_row_for(rows: Seq<FleetRow>, hex: Seq<char>)
    ensures
        row_for(rows, hex) is None <==> forall|i: int|
            0 <= i < rows.len() ==> (#[trigger] rows[i]).icao24@ != hex,
        row_for(rows, hex) matches Some(row) ==> exists|k: int|
            0 <= k < rows.len() && #[trigger] rows[k] == row && row.icao24@ == hex && forall|i: int|
                k < i < rows.len() ==> (#[trigger] rows[i]).icao24@ != hex,
    decreases rows.len(),
{
    if rows.len() > 0 {
        let front = rows.drop_last();
        if rows.last().icao24@ == hex {
            assert(rows[rows.len() - 1] == rows.last());
        } else {
            law_row_for(front, hex);
            if let Some(row) = row_for(front, hex) {
                let k = choose|k: int|
                    0 <= k < front.len() && #[trigger] front[k] == row && row.icao24@ == hex
                        && forall|i: int|
                        k < i < front.len() ==> (#[trigger] front[i]).icao24@ != hex;
                assert(rows[k] == row);
                assert forall|i: int| k < i < rows.len() implies (#[trigger] rows[i]).icao24@
                    != hex by {
                    if i < front.len() {
                        assert(front[i] == rows[i]);
                    }
                }
            } else {
                assert forall|i: int| 0 <= i < rows.len() implies (#[trigger] rows[i]).icao24@
                    != hex by {
                    if i < front.len() {
                        assert(front[i] == rows[i]);
                    }
                }
            }
        }
    }
}

/// An address is one of the fleet exactly where some row has it.
pub proof fn law_fleet_hexes(rows: Seq<FleetRow>, hex: Seq<char>)
    ensures
        fleet_hexes(rows).contains(hex) <==> exists|i: int|
            0 <= i < rows.len() && (#[trigger] rows[i]).icao24@ == hex,
{
    law_row_for(rows, hex);
}

/// Without a list every aircraft of the fleet is ingested; with one, those of the fleet that it
/// names, and no other.
pub proof fn law_ingest_set(list: Seq<Seq<char>>, fleet: Set<Seq<char>>, hex: Seq<char>)
    ensures
        list.len() == 0 ==> (ingest_set(list, fleet).contains(hex) <==> fleet.contains(hex)),
        list.len() > 0 ==> (ingest_set(list, fleet).contains(hex) <==> fleet.contains(hex)
            && exists|i: int| 0 <= i < list.len() && #[trigger] list[i] == hex),
{
    if list.contains(hex) {
        let i = choose|i: int| 0 <= i < list.len() && list[i] == hex;
        assert(list[i] == hex);
    }
}

/// A hex put behind the list counts without the white space around it and in lower case; one that is
/// white space alone counts for nothing.
pub proof fn law_cleaned(hexes: Seq<String>, more: String)
    ensures
        cleaned(Seq::empty()) == Seq::<Seq<char>>::empty(),
        text::trim(more@).len() > 0 ==> cleaned(hexes.push(more)) == cleaned(hexes).push(
            text::lower(text::trim(more@)),
        ),
        text::trim(more@).len() == 0 ==> cleaned(hexes.push(more)) == cleaned(hexes),
{
    assert(hexes.push(more).drop_last() =~= hexes);
}

/// The days of a run: it begins on the day asked for or on the day before today, whichever is
/// older, and reaches back to the day asked for, or as far as the calendar does.
pub proof fn law_days_of_a_run(from: Option<UtcDay>, to: Option<UtcDay>, today: UtcDay)
    requires
        today.number > calendar::FIRST_DAY,
    ensures
        ({
            let newest = last_day(to, day_before(today));
            &&& newest.number < today.number
            &&& to matches Some(d) ==> newest.number <= d.number && (newest == d || newest.number
                == today.number - 1)
            &&& to is None ==> newest.number == today.number - 1
        }),
        from matches Some(d) ==> first_day(from) == d,
        from is None ==> forall|d: UtcDay| d.valid() ==> first_day(from).number <= (
        #[trigger] d.number),
{
}

/// A counter grows by what is counted, and stays at its largest value.
pub proof fn law_counted(n: u64, by: nat)
    ensures
        n + by <= u64::MAX ==> counted(n, by) == n + by,
        n + by > u64::MAX ==> counted(n, by) == u64::MAX,
{
}

/// The aircraft of flights: those of some flight, each once.
pub proof fn law_hexes_of(flights: Seq<Flight>)
    ensures
        hexes_of(flights).no_duplicates(),
        forall|hex: Seq<char>| #[trigger]
            hexes_of(flights).contains(hex) <==> exists|i: int|
                0 <= i < flights.len() && (#[trigger] flights[i]).icao24@ == hex,
    decreases flights.len(),
{
    if flights.len() > 0 {
        let front = flights.drop_last();
        law_hexes_of(front);
        let last = flights.last().icao24@;
        let all = hexes_of(flights);
        let some = hexes_of(front);
        assert forall|hex: Seq<char>| #[trigger] all.contains(hex) <==> exists|i: int|
            0 <= i < flights.len() && (#[trigger] flights[i]).icao24@ == hex by {
            if all.contains(hex) {
                let k = choose|k: int| 0 <= k < all.len() && all[k] == hex;
                if k < some.len() {
                    assert(some[k] == hex);
                    assert(some.contains(hex));
                    let i = choose|i: int| 0 <= i < front.len() && (#[trigger] front[i]).icao24@ == hex;
                    assert(flights[i].icao24@ == hex);
                } else {
                    assert(flights[flights.len() - 1].icao24@ == hex);
                }
            }
            if exists|i: int| 0 <= i < flights.len() && (#[trigger] flights[i]).icao24@ == hex {
                let i = choose|i: int| 0 <= i < flights.len() && (#[trigger] flights[i]).icao24@ == hex;
                if i < front.len() {
                    assert(front[i].icao24@ == hex);
                    assert(some.contains(hex));
                    let k = choose|k: int| 0 <= k < some.len() && some[k] == hex;
                    assert(all[k] == hex);
                } else if some.contains(last) {
                    let k = choose|k: int| 0 <= k < some.len() && some[k] == last;
                    assert(all[k] == hex);
                } else {
                    assert(all[all.len() - 1] == hex);
                }
            }
        }
    }
}

proof fn lemma_legs_by_hex(
    flights: Seq<Flight>,
    rows: Seq<FleetRow>,
    hexes: Seq<Seq<char>>,
    hex: Seq<char>,
)
    ensures
        forall|k: int|
            0 <= k < legs_by_hex(flights, rows, hexes).len() ==> {
                let legs = #[trigger] legs_by_hex(flights, rows, hexes)[k];
                &&& row_for(rows, legs.row.icao24@) == Some(legs.row)
                &&& legs.flights == collapse::collapsed(flights_of(flights, legs.row.icao24@))
                &&& hexes.contains(legs.row.icao24@)
            },
        hexes.contains(hex) && row_for(rows, hex) is Some ==> exists|k: int|
            0 <= k < legs_by_hex(flights, rows, hexes).len() && (#[trigger] legs_by_hex(
                flights,
                rows,
                hexes,
            )[k]).row.icao24@ == hex,
    decreases hexes.len(),
{
    if hexes.len() > 0 {
        let front = hexes.drop_last();
        lemma_legs_by_hex(flights, rows, front, hex);
        law_row_for(rows, hexes.last());
        let some = legs_by_hex(flights, rows, front);
        let all = legs_by_hex(flights, rows, hexes);
        assert(hexes[hexes.len() - 1] == hexes.last());
        assert forall|k: int| 0 <= k < all.len() implies {
            let legs = #[trigger] all[k];
            &&& row_for(rows, legs.row.icao24@) == Some(legs.row)
            &&& legs.flights == collapse::collapsed(flights_of(flights, legs.row.icao24@))
            &&& hexes.contains(legs.row.icao24@)
        } by {
            if k < some.len() {
                let h = some[k].row.icao24@;
                assert(front.contains(h));
                let i = choose|i: int| 0 <= i < front.len() && front[i] == h;
                assert(hexes[i] == h);
            }
        }
        if hexes.contains(hex) && row_for(rows, hex) is Some {
            let i = choose|i: int| 0 <= i < hexes.len() && hexes[i] == hex;
            if i < front.len() {
                assert(front[i] == hex);
                assert(front.contains(hex));
                let k = choose|k: int| 0 <= k < some.len() && (#[trigger] some[k]).row.icao24@ == hex;
                assert(all[k].row.icao24@ == hex);
            } else {
                assert(all[all.len() - 1].row.icao24@ == hex);
            }
        }
    }
}

/// The legs of a slice: every aircraft of its flights that has a fleet row has legs, and no other;
/// with them stand the last fleet row of that aircraft and its flights, all of them and of no other
/// aircraft, near duplicates counted once.
pub proof fn law_slice_legs(flights: Seq<Flight>, rows: Seq<FleetRow>, hex: Seq<char>)
    ensures
        forall|k: int|
            0 <= k < slice_legs(flights, rows).len() ==> {
                let legs = #[trigger] slice_legs(flights, rows)[k];
                &&& row_for(rows, legs.row.icao24@) == Some(legs.row)
                &&& exists|i: int|
                    0 <= i < flights.len() && (#[trigger] flights[i]).icao24@ == legs.row.icao24@
                &&& legs.flights == collapse::collapsed(
                    flights.filter(|f: Flight| f.icao24@ == legs.row.icao24@),
                )
            },
        (exists|i: int| 0 <= i < flights.len() && (#[trigger] flights[i]).icao24@ == hex) && (exists|
            j: int,
        |
            0 <= j < rows.len() && (#[trigger] rows[j]).icao24@ == hex) ==> exists|k: int|
            0 <= k < slice_legs(flights, rows).len() && (#[trigger] slice_legs(
                flights,
                rows,
            )[k]).row.icao24@ == hex,
{
    law_hexes_of(flights);
    lemma_legs_by_hex(flights, rows, hexes_of(flights), hex);
    law_row_for(rows, hex);
    assert forall|k: int| 0 <= k < slice_legs(flights, rows).len() implies {
        let legs = #[trigger] slice_legs(flights, rows)[k];
        &&& row_for(rows, legs.row.icao24@) == Some(legs.row)
        &&& exists|i: int|
            0 <= i < flights.len() && (#[trigger] flights[i]).icao24@ == legs.row.icao24@
        &&& legs.flights == collapse::collapsed(
            flights.filter(|f: Flight| f.icao24@ == legs.row.icao24@),
        )
    } by {
        let legs = slice_legs(flights, rows)[k];
        assert(hexes_of(flights).contains(legs.row.icao24@));
        assert(flights_of(flights, legs.row.icao24@) == flights.filter(
            |f: Flight| f.icao24@ == legs.row.icao24@,
        ));
    }
    if exists|i: int| 0 <= i < flights.len() && (#[trigger] flights[i]).icao24@ == hex {
        assert(hexes_of(flights).contains(hex));
    }
}

/// A report begins with the size of the fleet and with the aircraft that have no address, and with
/// nothing done.
pub proof fn law_fresh_report(fleet_hexes: usize, skipped_empty_icao24: u64)
    ensures
        ({
            let r = CollectReport::fresh(fleet_hexes, skipped_empty_icao24);
            &&& r.fleet_hexes == fleet_hexes
            &&& r.skipped_empty_icao24 == skipped_empty_icao24
            &&& r.days_ok == 0 && r.days_not_found == 0 && r.days_from_cache == 0
            &&& r.trips_upserted == 0 && r.hexes_stopped_on_error == 0
            &&& r.live_polls == 0 && r.live_trips == 0
            &&& r.flights_calls == 0 && r.tracks_calls == 0 && r.skipped_no_coords == 0
            &&& r.estimated_flights_credits == 0
        }),
{
}

/// The sets of a run: what is cached is the fleet; what is ingested is the fleet, or the part of it
/// that a list names. A list that names no aircraft of the fleet is an error, and nothing else is.
pub proof fn law_hex_sets(
    fleet_keys: KeySet<String>,
    hex_filter: Vec<String>,
    r: Result<(KeySet<String>, KeySet<String>), CollectError>,
    hex: Seq<char>,
)
    requires
        call_ensures(opensky_hex_sets, (&fleet_keys, &hex_filter), r),
    ensures
        hex_filter@.len() == 0 ==> r is Ok,
        r is Ok && hex_filter@.len() > 0 ==> exists|h: Seq<char>| #[trigger]
            fleet_keys@.contains(h) && order::views(hex_filter@).contains(h),
        fleet_keys@.contains(hex) && order::views(hex_filter@).contains(hex) ==> r is Ok,
        r matches Ok((cache, ingest)) ==> {
            &&& cache@.contains(hex) <==> fleet_keys@.contains(hex)
            &&& ingest@.contains(hex) <==> fleet_keys@.contains(hex) && (hex_filter@.len() == 0
                || order::views(hex_filter@).contains(hex))
        },
        r matches Err(e) ==> e is NoHexInFleet,
{
    let list = order::views(hex_filter@);
    law_ingest_set(list, fleet_keys@, hex);
    if list.contains(hex) {
        let i = choose|i: int| 0 <= i < list.len() && list[i] == hex;
        assert(list[i] == hex);
    }
}

/// The two files of a slice lie side by side: the flights under its number, and the track attempts
/// under its number and the word tracks.
pub proof fn law_cache_paths(
    date: UtcDay,
    slice_idx: u32,
    flights: String,
    tracks: String,
    tens: char,
    ones: char,
)
    requires
        call_ensures(flights_all_slice_cache_path, (date, slice_idx), flights),
        call_ensures(flights_all_tracks_cache_path, (date, slice_idx), tracks),
        slice_idx < 100,
        tens as int == 48 + slice_idx / 10,
        ones as int == 48 + slice_idx % 10,
    ensures
        ({
            let stem = "flights_all/"@ + calendar::date_text(date.number) + "/"@ + seq![tens, ones];
            flights@ == stem + ".json.gz"@ && tracks@ == stem + ".tracks.json.gz"@
        }),
{
    law_slice_path_in_digits(date, slice_idx, tens, ones);
}

/// The key of an attempt is the address, a colon and the time in decimal notation.
pub proof fn law_attempt_key(icao24: &str, first_seen: i64, r: String)
    requires
        call_ensures(track_attempt_key, (icao24, first_seen), r),
    ensures
        r@ == icao24@ + ":"@ + text::decimal_int(first_seen as int),
        first_seen < 0 ==> text::decimal_int(first_seen as int) == seq!['-'] + text::decimal(
            (-first_seen) as nat,
        ),
        first_seen >= 0 ==> text::decimal_int(first_seen as int) == text::decimal(first_seen as nat),
{
}

} // verus!
