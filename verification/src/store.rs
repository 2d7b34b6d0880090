//! The journal: fleet snapshot, trips, `/flights/all` progress, leftover fetch cursors.

use crate::airports;
use crate::airports::{Place, PlaceView};
use crate::calendar;
use crate::calendar::UtcDay;
use crate::double::Double;
use crate::fleet::FleetRow;
use crate::order;
use crate::table;
use crate::table::Table;
use crate::text;
use vstd::prelude::*;

verus! {

#[derive(Debug, Clone, Copy, PartialEq, Eq, Structural)]
pub enum TripSource {
    OpenskyFlights,
    OpenskyTrack,
    AdsBxLive,
}

impl TripSource {
    /// The name under which the source is stored.
    pub open spec fn name(self) -> Seq<char> {
        match self {
            TripSource::OpenskyFlights => "opensky_flights"@,
            TripSource::OpenskyTrack => "opensky_track"@,
            TripSource::AdsBxLive => "adsbx_live"@,
        }
    }

    pub fn as_str(self) -> (r: &'static str)
        ensures
            r@ == self.name(),
    {
        match self {
            TripSource::OpenskyFlights => "opensky_flights",
            TripSource::OpenskyTrack => "opensky_track",
            TripSource::AdsBxLive => "adsbx_live",
        }
    }
}

#[derive(Debug)]
pub struct TripRow {
    pub icao24: String,
    pub dep_ts: String,
    pub arr_ts: Option<String>,
    pub n_number: String,
    pub ticker: String,
    pub cik: Option<String>,
    pub dep_lat: Option<Double>,
    pub dep_lon: Option<Double>,
    pub arr_lat: Option<Double>,
    pub arr_lon: Option<Double>,
    pub dep_airport: Option<String>,
    pub arr_airport: Option<String>,
    pub dep_place: Option<Place>,
    pub arr_place: Option<Place>,
    pub source: String,
    pub fetched_at: String,
    /// OpenSky transponder label. Sparse; not identity; not a join key.
    pub callsign: Option<String>,
    pub dep_airport_horiz_m: Option<i64>,
    pub dep_airport_vert_m: Option<i64>,
    pub arr_airport_horiz_m: Option<i64>,
    pub arr_airport_vert_m: Option<i64>,
    pub dep_airport_candidates: Option<i64>,
    pub arr_airport_candidates: Option<i64>,
}

#[verifier::ext_equal]
pub struct TripView {
    pub icao24: Seq<char>,
    pub dep_ts: Seq<char>,
    pub arr_ts: Option<Seq<char>>,
    pub n_number: Seq<char>,
    pub ticker: Seq<char>,
    pub cik: Option<Seq<char>>,
    pub dep_lat: Option<Double>,
    pub dep_lon: Option<Double>,
    pub arr_lat: Option<Double>,
    pub arr_lon: Option<Double>,
    pub dep_airport: Option<Seq<char>>,
    pub arr_airport: Option<Seq<char>>,
    pub dep_place: Option<PlaceView>,
    pub arr_place: Option<PlaceView>,
    pub source: Seq<char>,
    pub fetched_at: Seq<char>,
    pub callsign: Option<Seq<char>>,
    pub dep_airport_horiz_m: Option<i64>,
    pub dep_airport_vert_m: Option<i64>,
    pub arr_airport_horiz_m: Option<i64>,
    pub arr_airport_vert_m: Option<i64>,
    pub dep_airport_candidates: Option<i64>,
    pub arr_airport_candidates: Option<i64>,
}

impl View for TripRow {
    type V = TripView;

    open spec fn view(&self) -> TripView {
        TripView {
            icao24: self.icao24@,
            dep_ts: self.dep_ts@,
            arr_ts: text::opt_view(self.arr_ts),
            n_number: self.n_number@,
            ticker: self.ticker@,
            cik: text::opt_view(self.cik),
            dep_lat: self.dep_lat,
            dep_lon: self.dep_lon,
            arr_lat: self.arr_lat,
            arr_lon: self.arr_lon,
            dep_airport: text::opt_view(self.dep_airport),
            arr_airport: text::opt_view(self.arr_airport),
            dep_place: airports::opt_place(self.dep_place),
            arr_place: airports::opt_place(self.arr_place),
            source: self.source@,
            fetched_at: self.fetched_at@,
            callsign: text::opt_view(self.callsign),
            dep_airport_horiz_m: self.dep_airport_horiz_m,
            dep_airport_vert_m: self.dep_airport_vert_m,
            arr_airport_horiz_m: self.arr_airport_horiz_m,
            arr_airport_vert_m: self.arr_airport_vert_m,
            dep_airport_candidates: self.dep_airport_candidates,
            arr_airport_candidates: self.arr_airport_candidates,
        }
    }
}

impl Clone for TripRow {
    fn clone(&self) -> (r: Self)
        ensures
            r == *self,
    {
        TripRow {
            icao24: self.icao24.clone(),
            dep_ts: self.dep_ts.clone(),
            arr_ts: text::clone_text(&self.arr_ts),
            n_number: self.n_number.clone(),
            ticker: self.ticker.clone(),
            cik: text::clone_text(&self.cik),
            dep_lat: self.dep_lat,
            dep_lon: self.dep_lon,
            arr_lat: self.arr_lat,
            arr_lon: self.arr_lon,
            dep_airport: text::clone_text(&self.dep_airport),
            arr_airport: text::clone_text(&self.arr_airport),
            dep_place: airports::clone_place(&self.dep_place),
            arr_place: airports::clone_place(&self.arr_place),
            source: self.source.clone(),
            fetched_at: self.fetched_at.clone(),
            callsign: text::clone_text(&self.callsign),
            dep_airport_horiz_m: self.dep_airport_horiz_m,
            dep_airport_vert_m: self.dep_airport_vert_m,
            arr_airport_horiz_m: self.arr_airport_horiz_m,
            arr_airport_vert_m: self.arr_airport_vert_m,
            dep_airport_candidates: self.dep_airport_candidates,
            arr_airport_candidates: self.arr_airport_candidates,
        }
    }
}

/// One aircraft of the fleet snapshot.
pub struct SnapshotRow {
    pub n_number: String,
    pub ticker: String,
    pub cik: Option<String>,
    pub company_name: Option<String>,
    pub make: Option<String>,
    pub model: Option<String>,
    pub aviation_issuer: i64,
    pub fleet_size: i64,
    pub snapshot_as_of: String,
    pub recorded_at: String,
}

#[verifier::ext_equal]
pub struct SnapshotView {
    pub n_number: Seq<char>,
    pub ticker: Seq<char>,
    pub cik: Option<Seq<char>>,
    pub company_name: Option<Seq<char>>,
    pub make: Option<Seq<char>>,
    pub model: Option<Seq<char>>,
    pub aviation_issuer: i64,
    pub fleet_size: i64,
    pub snapshot_as_of: Seq<char>,
    pub recorded_at: Seq<char>,
}

impl View for SnapshotRow {
    type V = SnapshotView;

    open spec fn view(&self) -> SnapshotView {
        SnapshotView {
            n_number: self.n_number@,
            ticker: self.ticker@,
            cik: text::opt_view(self.cik),
            company_name: text::opt_view(self.company_name),
            make: text::opt_view(self.make),
            model: text::opt_view(self.model),
            aviation_issuer: self.aviation_issuer,
            fleet_size: self.fleet_size,
            snapshot_as_of: self.snapshot_as_of@,
            recorded_at: self.recorded_at@,
        }
    }
}

/// What the snapshot holds of a fleet row.
pub open spec fn snapshot_of(
    row: FleetRow,
    as_of: Seq<char>,
    recorded_at: Seq<char>,
) -> SnapshotView {
    SnapshotView {
        n_number: row.n_number@,
        ticker: row.ticker@,
        cik: text::opt_view(row.cik),
        company_name: text::opt_view(row.company_name),
        make: text::opt_view(row.make),
        model: text::opt_view(row.model),
        aviation_issuer: row.aviation_issuer,
        fleet_size: row.fleet_size,
        snapshot_as_of: as_of,
        recorded_at,
    }
}

/// The snapshot of a fleet, aircraft by aircraft.
pub open spec fn fleet_snapshot(
    rows: Seq<FleetRow>,
    as_of: Seq<char>,
    recorded_at: Seq<char>,
) -> Seq<(Seq<char>, SnapshotView)> {
    Seq::new(rows.len(), |i: int| (rows[i].icao24@, snapshot_of(rows[i], as_of, recorded_at)))
}

/// No two rows are of one aircraft.
pub open spec fn hexes_distinct(rows: Seq<FleetRow>) -> bool {
    forall|i: int, j: int|
        0 <= i < rows.len() && 0 <= j < rows.len() && #[trigger] rows[i].icao24@
            == #[trigger] rows[j].icao24@ ==> i == j
}

pub struct CursorRow {
    pub last_ok_date: Option<String>,
    pub last_error: Option<String>,
    pub updated_at: String,
}

#[verifier::ext_equal]
pub struct CursorView {
    pub last_ok_date: Option<Seq<char>>,
    pub last_error: Option<Seq<char>>,
    pub updated_at: Seq<char>,
}

impl View for CursorRow {
    type V = CursorView;

    open spec fn view(&self) -> CursorView {
        CursorView {
            last_ok_date: text::opt_view(self.last_ok_date),
            last_error: text::opt_view(self.last_error),
            updated_at: self.updated_at@,
        }
    }
}

#[derive(Debug)]
pub struct FetchCursor {
    pub icao24: String,
    pub last_ok_date: Option<String>,
    pub last_error: Option<String>,
    pub updated_at: String,
}

/// How the last `/flights/all` work on a day ended.
pub struct DayRow {
    pub last_error: Option<String>,
    pub updated_at: String,
}

#[verifier::ext_equal]
pub struct DayView {
    pub last_error: Option<Seq<char>>,
    pub updated_at: Seq<char>,
}

impl View for DayRow {
    type V = DayView;

    open spec fn view(&self) -> DayView {
        DayView { last_error: text::opt_view(self.last_error), updated_at: self.updated_at@ }
    }
}

#[derive(Debug, Clone, Copy, PartialEq, Eq, Structural)]
pub enum StoreError {
    /// Two rows of a fleet snapshot are of one aircraft.
    DuplicateHex,
}

pub struct JournalDb {
    fleet: Table<String, SnapshotRow>,
    trips: Table<(String, String), TripRow>,
    cursors: Table<String, CursorRow>,
    seen: Table<(String, UtcDay), String>,
    slices: Table<(UtcDay, u32), String>,
    days: Table<UtcDay, DayRow>,
}

/// The tables, each a sequence of keys with their rows.
#[verifier::ext_equal]
pub struct JournalView {
    /// By transponder address.
    pub fleet: Seq<(Seq<char>, SnapshotView)>,
    /// By transponder address and departure time.
    pub trips: Seq<((Seq<char>, Seq<char>), TripView)>,
    /// By transponder address.
    pub cursors: Seq<(Seq<char>, CursorView)>,
    /// When an aircraft was first seen airborne on a day.
    pub seen: Seq<((Seq<char>, UtcDay), Seq<char>)>,
    /// When a slice of a day was completed.
    pub slices: Seq<((UtcDay, u32), Seq<char>)>,
    pub days: Seq<(UtcDay, DayView)>,
}

impl JournalView {
    /// No table holds a key twice, and the calendar can hold every day.
    pub open spec fn wf(self) -> bool {
        &&& self.days_valid()
        &&& table::keys_unique(self.fleet)
        &&& table::keys_unique(self.trips)
        &&& table::keys_unique(self.cursors)
        &&& table::keys_unique(self.seen)
        &&& table::keys_unique(self.slices)
        &&& table::keys_unique(self.days)
    }

    pub open spec fn empty() -> JournalView {
        JournalView {
            fleet: Seq::empty(),
            trips: Seq::empty(),
            cursors: Seq::empty(),
            seen: Seq::empty(),
            slices: Seq::empty(),
            days: Seq::empty(),
        }
    }

    /// The journal with a trip written: in place of the one with the same aircraft and departure,
    /// else added.
    pub open spec fn with_trip(self, trip: TripView) -> JournalView {
        JournalView {
            trips: table::with_row(self.trips, (trip.icao24, trip.dep_ts), trip),
            ..self
        }
    }

    /// The journal with a slice of a day complete and the day's error cleared.
    pub open spec fn with_slice(self, day: UtcDay, slice_idx: u32, now: Seq<char>) -> JournalView {
        JournalView {
            slices: table::with_row(self.slices, (day, slice_idx), now),
            days: table::with_row(self.days, day, DayView { last_error: None, updated_at: now }),
            ..self
        }
    }

    /// The journal with an error on a day.
    pub open spec fn with_day_error(self, day: UtcDay, err: Seq<char>, now: Seq<char>) -> JournalView {
        JournalView {
            days: table::with_row(
                self.days,
                day,
                DayView { last_error: Some(err), updated_at: now },
            ),
            ..self
        }
    }

    /// The journal with an aircraft fetched up to a day.
    pub open spec fn with_cursor_ok(
        self,
        icao24: Seq<char>,
        date: UtcDay,
        now: Seq<char>,
    ) -> JournalView {
        JournalView {
            cursors: table::with_row(
                self.cursors,
                icao24,
                CursorView { last_ok_date: Some(date.text()), last_error: None, updated_at: now },
            ),
            ..self
        }
    }

    /// The journal with an error on an aircraft.
    pub open spec fn with_cursor_error(
        self,
        icao24: Seq<char>,
        err: Seq<char>,
        now: Seq<char>,
    ) -> JournalView {
        JournalView {
            cursors: table::with_row(
                self.cursors,
                icao24,
                CursorView {
                    last_ok_date: match table::row_of(self.cursors, icao24) {
                        Some(c) => c.last_ok_date,
                        None => None,
                    },
                    last_error: Some(err),
                    updated_at: now,
                },
            ),
            ..self
        }
    }

    /// The journal with an aircraft seen airborne on a day, unless it was seen before.
    pub open spec fn with_seen(self, hex: Seq<char>, day: UtcDay, now: Seq<char>) -> JournalView {
        if table::has_key(self.seen, (hex, day)) {
            self
        } else {
            JournalView { seen: self.seen.push(((hex, day), now)), ..self }
        }
    }

    /// The day up to which an aircraft was fetched, by its number.
    pub open spec fn last_ok(self, icao24: Seq<char>) -> Option<i32> {
        match table::row_of(self.cursors, icao24) {
            Some(c) => match c.last_ok_date {
                Some(t) => calendar::date_parse(t, "%Y-%m-%d"@),
                None => None,
            },
            None => None,
        }
    }

    pub open spec fn slice_complete(self, day: UtcDay, slice_idx: u32) -> bool {
        table::has_key(self.slices, (day, slice_idx))
    }

    /// How many slices of a day are complete.
    pub open spec fn slices_done(self, day: UtcDay) -> nat {
        slices_on(self.slices, day)
    }

    /// Whether a day of `n_slices` slices is complete; the count is one of 32 bits.
    pub open spec fn day_complete(self, day: UtcDay, n_slices: u32) -> bool {
        self.slices_done(day) % 0x1_0000_0000 >= n_slices
    }
}

/// How many rows are slices of a day.
pub open spec fn slices_on(rows: Seq<((UtcDay, u32), Seq<char>)>, day: UtcDay) -> nat
    decreases rows.len(),
{
    if rows.len() == 0 {
        0
    } else {
        slices_on(rows.drop_last(), day) + if rows.last().0.0 == day {
            1nat
        } else {
            0
        }
    }
}

impl View for JournalDb {
    type V = JournalView;

    closed spec fn view(&self) -> JournalView {
        JournalView {
            fleet: self.fleet@,
            trips: self.trips@,
            cursors: self.cursors@,
            seen: self.seen@,
            slices: self.slices@,
            days: self.days@,
        }
    }
}

impl JournalDb {
    /// A journal with nothing in it.
    pub fn new() -> (r: JournalDb)
        ensures
            r@.wf(),
            r@ == JournalView::empty(),
    {
        JournalDb {
            fleet: Table::new(),
            trips: Table::new(),
            cursors: Table::new(),
            seen: Table::new(),
            slices: Table::new(),
            days: Table::new(),
        }
    }

    /// Puts the fleet in the place of the snapshot that was there. Where two rows are of one
    /// aircraft, the snapshot stays as it was.
    pub fn replace_fleet_snapshot(
        &mut self,
        rows: &Vec<FleetRow>,
        snapshot_as_of: &str,
        recorded_at: &str,
    ) -> (r: Result<(), StoreError>)
        requires
            old(self)@.wf(),
        ensures
            final(self)@.wf(),
            r is Ok <==> hexes_distinct(rows@),
            r is Ok ==> final(self)@ == (JournalView {
                fleet: fleet_snapshot(rows@, snapshot_as_of@, recorded_at@),
                ..old(self)@
            }),
            r is Err ==> r == Err::<(), StoreError>(StoreError::DuplicateHex) && final(self)@ == old(
                self,
            )@,
    {
        let mut fresh: Table<String, SnapshotRow> = Table::new();
        let mut i: usize = 0;
        while i < rows.len()
            invariant
                0 <= i <= rows@.len(),
                fresh.wf(),
                fresh@ == fleet_snapshot(rows@.take(i as int), snapshot_as_of@, recorded_at@),
                hexes_distinct(rows@.take(i as int)),
                old(self)@.wf(),
                self@ == old(self)@,
            decreases rows@.len() - i,
        {
            let row = &rows[i];
            let ghost done = rows@.take(i as int);
            let ghost more = rows@.take(i + 1);
            let hex = row.icao24.clone();
            match fresh.position(&hex) {
                Some(p) => {
                    proof {
                        assert(table::row_at(fresh@, hex@, p as int));
                        assert(rows@[p as int].icao24@ == rows@[i as int].icao24@);
                    }
                    return Err(StoreError::DuplicateHex);
                },
                None => {},
            }
            let snap = SnapshotRow {
                n_number: row.n_number.clone(),
                ticker: row.ticker.clone(),
                cik: text::clone_text(&row.cik),
                company_name: text::clone_text(&row.company_name),
                make: text::clone_text(&row.make),
                model: text::clone_text(&row.model),
                aviation_issuer: row.aviation_issuer,
                fleet_size: row.fleet_size,
                snapshot_as_of: snapshot_as_of.to_owned(),
                recorded_at: recorded_at.to_owned(),
            };
            let ghost before = fresh@;
            fresh.put(hex, snap);
            proof {
                assert(snap@ == snapshot_of(rows@[i as int], snapshot_as_of@, recorded_at@));
                assert(fresh@ == before.push((rows@[i as int].icao24@, snap@)));
                assert(fresh@ =~= fleet_snapshot(more, snapshot_as_of@, recorded_at@));
                assert forall|j: int| 0 <= j < i implies done[j].icao24@ != rows@[i as int].icao24@ by {
                    assert(!table::row_at(before, rows@[i as int].icao24@, j));
                }
                assert forall|a: int, b: int|
                    0 <= a < more.len() && 0 <= b < more.len() && #[trigger] more[a].icao24@
                        == #[trigger] more[b].icao24@ implies a == b by {
                    if a < i && b < i {
                        assert(done[a].icao24@ == done[b].icao24@);
                    } else if a < i {
                        assert(done[a].icao24@ != rows@[i as int].icao24@);
                    } else if b < i {
                        assert(done[b].icao24@ != rows@[i as int].icao24@);
                    }
                }
            }
            i += 1;
        }
        proof {
            assert(rows@.take(i as int) =~= rows@);
        }
        self.fleet = fresh;
        Ok(())
    }

    /// Writes a trip: in place of the one with the same aircraft and departure, else added.
    pub fn upsert_trip(&mut self, row: &TripRow)
        requires
            old(self)@.wf(),
        ensures
            final(self)@.wf(),
            final(self)@ == old(self)@.with_trip(row@),
    {
        self.trips.put((row.icao24.clone(), row.dep_ts.clone()), row.clone());
    }

    pub fn get_cursor(&self, icao24: &str) -> (r: Option<FetchCursor>)
        requires
            self@.wf(),
        ensures
            r is Some <==> table::row_of(self@.cursors, icao24@) is Some,
            r matches Some(c) ==> c.icao24@ == icao24@ && table::row_of(self@.cursors, icao24@)
                == Some(
                CursorView {
                    last_ok_date: text::opt_view(c.last_ok_date),
                    last_error: text::opt_view(c.last_error),
                    updated_at: c.updated_at@,
                },
            ),
    {
        let key: String = icao24.to_owned();
        match self.cursors.get(&key) {
            Some(row) => Some(
                FetchCursor {
                    icao24: key,
                    last_ok_date: text::clone_text(&row.last_ok_date),
                    last_error: text::clone_text(&row.last_error),
                    updated_at: row.updated_at.clone(),
                },
            ),
            None => None,
        }
    }

    /// The day up to which an aircraft was fetched.
    pub fn last_ok_date(&self, icao24: &str) -> (r: Option<UtcDay>)
        requires
            self@.wf(),
        ensures
            r is Some <==> self@.last_ok(icao24@) is Some,
            r matches Some(d) ==> self@.last_ok(icao24@) == Some(d.number) && d.valid(),
    {
        match self.get_cursor(icao24) {
            Some(c) => match c.last_ok_date {
                Some(t) => UtcDay::parse(t.as_str()),
                None => None,
            },
            None => None,
        }
    }

    /// Successful fetch, including one that found nothing. Advances `last_ok_date`.
    pub fn advance_cursor_ok(&mut self, icao24: &str, date: UtcDay, now: &str)
        requires
            old(self)@.wf(),
            date.valid(),
        ensures
            final(self)@.wf(),
            final(self)@ == (JournalView {
                cursors: table::with_row(
                    old(self)@.cursors,
                    icao24@,
                    CursorView {
                        last_ok_date: Some(date.text()),
                        last_error: None,
                        updated_at: now@,
                    },
                ),
                ..old(self)@
            }),
            final(self)@.last_ok(icao24@) == Some(date.number),
            final(self)@ == old(self)@.with_cursor_ok(icao24@, date, now@),
    {
        proof {
            table::law_with_row(
                self.cursors@,
                icao24@,
                CursorView { last_ok_date: Some(date.text()), last_error: None, updated_at: now@ },
            );
        }
        self.cursors.put(
            icao24.to_owned(),
            CursorRow {
                last_ok_date: Some(date.to_text()),
                last_error: None,
                updated_at: now.to_owned(),
            },
        );
    }

    /// A failed fetch: records the error and leaves `last_ok_date` as it is.
    pub fn set_cursor_error(&mut self, icao24: &str, err: &str, now: &str)
        requires
            old(self)@.wf(),
        ensures
            final(self)@.wf(),
            final(self)@ == (JournalView {
                cursors: table::with_row(
                    old(self)@.cursors,
                    icao24@,
                    CursorView {
                        last_ok_date: match table::row_of(old(self)@.cursors, icao24@) {
                            Some(c) => c.last_ok_date,
                            None => None,
                        },
                        last_error: Some(err@),
                        updated_at: now@,
                    },
                ),
                ..old(self)@
            }),
            final(self)@.last_ok(icao24@) == old(self)@.last_ok(icao24@),
            final(self)@ == old(self)@.with_cursor_error(icao24@, err@, now@),
    {
        let last_ok_date = match self.get_cursor(icao24) {
            Some(c) => c.last_ok_date,
            None => None,
        };
        let row = CursorRow {
            last_ok_date,
            last_error: Some(err.to_owned()),
            updated_at: now.to_owned(),
        };
        proof {
            table::law_with_row(self.cursors@, icao24@, row@);
        }
        self.cursors.put(icao24.to_owned(), row);
    }

    pub fn trip_count(&self) -> (r: u64)
        ensures
            r == self@.trips.len(),
    {
        self.trips.len() as u64
    }

    pub fn get_trip(&self, icao24: &str, dep_ts: &str) -> (r: Option<TripRow>)
        requires
            self@.wf(),
        ensures
            r is Some <==> table::row_of(self@.trips, (icao24@, dep_ts@)) is Some,
            r matches Some(t) ==> table::row_of(self@.trips, (icao24@, dep_ts@)) == Some(t@),
    {
        let key: (String, String) = (icao24.to_owned(), dep_ts.to_owned());
        match self.trips.get(&key) {
            Some(row) => Some(row.clone()),
            None => None,
        }
    }

    /// Whether an aircraft is in the snapshot.
    pub fn in_fleet(&self, icao24: &str) -> (r: bool)
        ensures
            r == table::has_key(self@.fleet, icao24@),
    {
        let key: String = icao24.to_owned();
        self.fleet.position(&key).is_some()
    }

    /// Records that an aircraft was seen airborne on a day; the first record of the day stays.
    pub fn mark_seen_airborne(&mut self, icao24: &str, date: UtcDay, now: &str)
        requires
            old(self)@.wf(),
        ensures
            final(self)@.wf(),
            final(self)@ == old(self)@.with_seen(text::lower(text::trim(icao24@)), date, now@),
    {
        let trimmed = text::trimmed(icao24);
        let hex = text::to_lower(trimmed.as_str());
        let key: (String, UtcDay) = (hex, date);
        if self.seen.position(&key).is_none() {
            self.seen.put(key, now.to_owned());
        }
    }

    /// When an aircraft was first seen airborne on a day.
    pub fn first_seen_at(&self, icao24: &str, date: UtcDay) -> (r: Option<String>)
        requires
            self@.wf(),
        ensures
            text::opt_view(r) == table::row_of(self@.seen, (icao24@, date)),
    {
        let key: (String, UtcDay) = (icao24.to_owned(), date);
        match self.seen.get(&key) {
            Some(at) => Some(at.clone()),
            None => None,
        }
    }

    pub fn flights_all_slice_complete(&self, date: UtcDay, slice_idx: u32) -> (r: bool)
        ensures
            r == self@.slice_complete(date, slice_idx),
    {
        let key: (UtcDay, u32) = (date, slice_idx);
        self.slices.position(&key).is_some()
    }

    fn count_slices(&self, date: UtcDay) -> (n: usize)
        ensures
            n == self@.slices_done(date),
    {
        let mut n: usize = 0;
        let mut i: usize = 0;
        while i < self.slices.len()
            invariant
                0 <= i <= self.slices@.len(),
                n <= i,
                n == slices_on(self.slices@.take(i as int), date),
            decreases self.slices@.len() - i,
        {
            proof {
                assert(self.slices@.take(i + 1).drop_last() =~= self.slices@.take(i as int));
            }
            if self.slices.key(i).0 == date {
                n += 1;
            }
            i += 1;
        }
        proof {
            assert(self.slices@.take(i as int) =~= self.slices@);
        }
        n
    }

    /// How many slices of a day are complete, as a count of 32 bits.
    pub fn flights_all_slices_done(&self, date: UtcDay) -> (r: u32)
        ensures
            r == self@.slices_done(date) % 0x1_0000_0000,
    {
        let n: u64 = self.count_slices(date) as u64;
        (n % 0x1_0000_0000) as u32
    }

    pub fn flights_all_day_complete(&self, date: UtcDay, n_slices: u32) -> (r: bool)
        ensures
            r == self@.day_complete(date, n_slices),
    {
        self.flights_all_slices_done(date) >= n_slices
    }

    /// Records a slice of a day as complete and clears the day's error.
    pub fn mark_flights_all_slice_ok(&mut self, date: UtcDay, slice_idx: u32, now: &str)
        requires
            old(self)@.wf(),
            date.valid(),
        ensures
            final(self)@.wf(),
            final(self)@ == old(self)@.with_slice(date, slice_idx, now@),
    {
        proof {
            table::lemma_with_row_keys(self.slices@, (date, slice_idx), now@);
            table::lemma_with_row_keys(
                self.days@,
                date,
                DayView { last_error: None, updated_at: now@ },
            );
        }
        self.slices.put((date, slice_idx), now.to_owned());
        self.days.put(date, DayRow { last_error: None, updated_at: now.to_owned() });
    }

    /// Records an error on a day.
    pub fn set_flights_all_error(&mut self, date: UtcDay, err: &str, now: &str)
        requires
            old(self)@.wf(),
            date.valid(),
        ensures
            final(self)@.wf(),
            final(self)@ == old(self)@.with_day_error(date, err@, now@),
    {
        proof {
            table::lemma_with_row_keys(
                self.days@,
                date,
                DayView { last_error: Some(err@), updated_at: now@ },
            );
        }
        self.days.put(
            date,
            DayRow { last_error: Some(err.to_owned()), updated_at: now.to_owned() },
        );
    }

    /// The aircraft seen airborne on a day, in the order of their addresses.
    pub fn seen_airborne_on(&self, date: UtcDay) -> (r: Vec<String>)
        ensures
            order::views(r@) == order::sorted::<String>(hexes_seen(self@.seen, date)),
    {
        let mut out: Vec<String> = Vec::new();
        let mut i: usize = 0;
        while i < self.seen.len()
            invariant
                0 <= i <= self.seen@.len(),
                order::views(out@) == hexes_seen(self.seen@.take(i as int), date),
            decreases self.seen@.len() - i,
        {
            let ghost done = order::views(out@);
            let key = self.seen.key(i);
            proof {
                assert(self.seen@.take(i + 1).drop_last() =~= self.seen@.take(i as int));
            }
            if key.1 == date {
                out.push(key.0.clone());
                proof {
                    assert(order::views(out@) =~= done.push(self.seen@[i as int].0.0));
                }
            }
            i += 1;
        }
        proof {
            assert(self.seen@.take(i as int) =~= self.seen@);
        }
        order::sort(out)
    }

    /// Whether a trip departs on a day. A departure time that was written for an instant counts
    /// for the day of the instant and for no other, in years of four digits; the last day of the
    /// year 9999 is left out, since the text of the day behind it comes before all of these.
    pub fn has_trips_on(&self, date: UtcDay) -> (r: bool)
        requires
            date.valid(),
        ensures
            r == exists|i: int| 0 <= i < self@.trips.len() && departs_on(#[trigger] self@.trips[i], date),
            r == self@.departures_on(date),
            self@.departs_by_instants(date),
            calendar::four_digit_year(date.start()) && calendar::four_digit_year(
                date.start() + calendar::DAY_SECS,
            ) ==> forall|i: int, t: i64|
                #![trigger self@.trips[i], calendar::iso_text(t)]
                0 <= i < self@.trips.len() && self@.trips[i].0.1 == calendar::iso_text(t)
                    && calendar::four_digit_year(t as int) ==> (departs_on(self@.trips[i], date)
                    <==> date.start() <= t < date.start() + calendar::DAY_SECS),
    {
        let day = date.to_text();
        let start = text::join2(day.as_str(), "T00:00:00Z");
        let end = match date.succ_opt() {
            Some(n) => {
                let next = n.to_text();
                text::join2(next.as_str(), "T00:00:00Z")
            },
            None => text::join2(day.as_str(), "T23:59:59Z"),
        };
        let mut i: usize = 0;
        while i < self.trips.len()
            invariant
                0 <= i <= self.trips@.len(),
                date.valid(),
                start@ == date.text() + "T00:00:00Z"@,
                end@ == day_end(date),
                calendar::four_digit_year(date.start()) && calendar::four_digit_year(
                    date.start() + calendar::DAY_SECS,
                ) ==> forall|t: i64|
                    calendar::four_digit_year(t as int) ==> {
                        let text = #[trigger] calendar::iso_text(t);
                        &&& text::text_lt(text, start@) <==> t < date.start()
                        &&& text::text_lt(text, end@) <==> t < date.start() + calendar::DAY_SECS
                    },
                forall|j: int| 0 <= j < i ==> !departs_on(#[trigger] self.trips@[j], date),
            decreases self.trips@.len() - i,
        {
            let dep = &self.trips.key(i).1;
            if !text::comes_before(dep.as_str(), start.as_str()) && text::comes_before(
                dep.as_str(),
                end.as_str(),
            ) {
                proof {
                    assert(departs_on(self@.trips[i as int], date));
                }
                return true;
            }
            i += 1;
        }
        false
    }

    /// `(icao24, departure)` of the trips that depart from `begin_unix` to `end_unix`, both
    /// included. Nothing where the calendar cannot hold a bound. A trip whose departure time was
    /// written for an instant is listed with it where the instant lies between the bounds, in years
    /// of four digits.
    pub fn trip_keys_between(&self, begin_unix: i64, end_unix: i64) -> (r: Vec<(String, i64)>)
        ensures
            order::views(r@) == if calendar::instant_in_range(begin_unix)
                && calendar::instant_in_range(end_unix) {
                keys_between(
                    self@.trips,
                    calendar::iso_text(begin_unix),
                    calendar::iso_text(end_unix),
                )
            } else {
                Seq::empty()
            },
            calendar::four_digit_year(begin_unix as int) && calendar::four_digit_year(
                end_unix as int,
            ) ==> forall|i: int, t: i64|
                #![trigger self@.trips[i], calendar::iso_text(t)]
                0 <= i < self@.trips.len() && self@.trips[i].0.1 == calendar::iso_text(t)
                    && begin_unix <= t <= end_unix ==> order::views(r@).contains(
                    (self@.trips[i].0.0, t),
                ),
    {
        let mut out: Vec<(String, i64)> = Vec::new();
        proof {
            assert(order::views(out@) =~= Seq::<(Seq<char>, i64)>::empty());
        }
        let start = match calendar::unix_to_iso(begin_unix) {
            Some(t) => t,
            None => {
                return out;
            },
        };
        let end = match calendar::unix_to_iso(end_unix) {
            Some(t) => t,
            None => {
                return out;
            },
        };
        let mut i: usize = 0;
        while i < self.trips.len()
            invariant
                0 <= i <= self.trips@.len(),
                order::views(out@) == keys_between(self.trips@.take(i as int), start@, end@),
                forall|j: int, t: i64|
                    #![trigger self.trips@[j], calendar::iso_text(t)]
                    0 <= j < i && self.trips@[j].0.1 == calendar::iso_text(t)
                        && calendar::four_digit_year(t as int) && !text::text_lt(
                        self.trips@[j].0.1,
                        start@,
                    ) && !text::text_lt(end@, self.trips@[j].0.1) ==> calendar::iso_seconds(
                        self.trips@[j].0.1,
                    ) == Some(t),
            decreases self.trips@.len() - i,
        {
            let ghost done = order::views(out@);
            let key = self.trips.key(i);
            proof {
                assert(self.trips@.take(i + 1).drop_last() =~= self.trips@.take(i as int));
            }
            if !text::comes_before(key.1.as_str(), start.as_str()) && !text::comes_before(
                end.as_str(),
                key.1.as_str(),
            ) {
                if let Some(ts) = calendar::iso_to_unix(key.1.as_str()) {
                    out.push((key.0.clone(), ts));
                    proof {
                        assert(order::views(out@) =~= done.push((self.trips@[i as int].0.0, ts)));
                    }
                }
            }
            i += 1;
        }
        proof {
            assert(self.trips@.take(i as int) =~= self.trips@);
            assert forall|k: int, t: i64|
                #![trigger self@.trips[k], calendar::iso_text(t)]
                calendar::four_digit_year(begin_unix as int) && calendar::four_digit_year(
                    end_unix as int,
                ) && 0 <= k < self@.trips.len() && self@.trips[k].0.1 == calendar::iso_text(t)
                    && begin_unix <= t <= end_unix implies order::views(out@).contains(
                (self@.trips[k].0.0, t),
            ) by {
                assert(calendar::iso_seconds(self.trips@[k].0.1) == Some(t));
                lemma_key_listed(self@.trips, start@, end@, k);
            }
        }
        out
    }

    /// The oldest day that still needs `/flights/all` slices, never started or incomplete, within
    /// `lookback_days` before yesterday; else yesterday. A day that was started and is incomplete
    /// counts however old it is. What was seen airborne does not count.
    pub fn default_opensky_collect_from(
        &self,
        yesterday: UtcDay,
        n_slices: u32,
        lookback_days: u64,
    ) -> (r: UtcDay)
        requires
            yesterday.valid(),
        ensures
            self@.starts_from(r, yesterday, n_slices, lookback_days),
    {
        let floor = match yesterday.checked_sub_days(lookback_days) {
            Some(d) => d,
            None => yesterday,
        };
        let mut start = yesterday;
        let mut i: usize = 0;
        while i < self.slices.len()
            invariant
                0 <= i <= self.slices@.len(),
                start == yesterday || self@.needs_slices(start, yesterday, n_slices, lookback_days),
                start.number <= yesterday.number,
                forall|j: int|
                    0 <= j < i ==> {
                        let d = (#[trigger] self.slices@[j]).0.0;
                        d.number <= yesterday.number && !self@.day_complete(d, n_slices)
                            ==> start.number <= d.number
                    },
            decreases self.slices@.len() - i,
        {
            let d = self.slices.key(i).0;
            if d.number <= yesterday.number && d.number < start.number {
                if !self.flights_all_day_complete(d, n_slices) {
                    proof {
                        assert(starts_day(self@.slices[i as int], d));
                        assert(self@.day_started(d));
                    }
                    start = d;
                }
            }
            i += 1;
        }
        let mut n: i32 = floor.number;
        while n <= yesterday.number
            invariant
                floor.number <= n <= yesterday.number + 1,
                yesterday.valid(),
                floor == lookback_floor(yesterday, lookback_days),
                start == yesterday || self@.needs_slices(start, yesterday, n_slices, lookback_days),
                start.number <= yesterday.number,
                forall|j: int|
                    0 <= j < self.slices@.len() ==> {
                        let d = (#[trigger] self.slices@[j]).0.0;
                        d.number <= yesterday.number && !self@.day_complete(d, n_slices)
                            ==> start.number <= d.number
                    },
                forall|d: UtcDay|
                    floor.number <= d.number < n && !#[trigger] self@.day_complete(d, n_slices)
                        ==> start.number <= d.number,
            decreases yesterday.number + 1 - n,
        {
            let d = UtcDay { number: n };
            if d.number < start.number {
                if !self.flights_all_day_complete(d, n_slices) {
                    start = d;
                }
            }
            n += 1;
        }
        proof {
            assert forall|d: UtcDay| #[trigger]
                self@.needs_slices(d, yesterday, n_slices, lookback_days) implies start.number
                <= d.number by {
                if floor.number > d.number {
                    assert(self@.day_started(d));
                    let j = choose|j: int|
                        0 <= j < self@.slices.len() && starts_day(#[trigger] self@.slices[j], d);
                    assert(self.slices@[j].0.0 == d);
                }
            }
        }
        start
    }

    /// Whether some slice of a day is complete.
    pub fn has_slices_on(&self, date: UtcDay) -> (r: bool)
        ensures
            r == self@.day_started(date),
    {
        let mut i: usize = 0;
        while i < self.slices.len()
            invariant
                0 <= i <= self.slices@.len(),
                forall|j: int| 0 <= j < i ==> !starts_day(#[trigger] self.slices@[j], date),
            decreases self.slices@.len() - i,
        {
            if self.slices.key(i).0 == date {
                assert(starts_day(self@.slices[i as int], date));
                return true;
            }
            i += 1;
        }
        false
    }

    /// The newest day before another of which some slice is complete.
    pub fn newest_slice_day_before(&self, date: UtcDay) -> (r: Option<UtcDay>)
        requires
            self@.wf(),
        ensures
            match r {
                Some(n) => {
                    &&& n.valid() && n.number < date.number
                    &&& self@.day_started(n)
                    &&& forall|d: UtcDay|
                        n.number < d.number < date.number ==> !#[trigger] self@.day_started(d)
                },
                None => forall|d: UtcDay|
                    d.number < date.number ==> !#[trigger] self@.day_started(d),
            },
            self@.newest_before(date, r),
    {
        let mut newest: Option<UtcDay> = None;
        let mut i: usize = 0;
        while i < self.slices.len()
            invariant
                0 <= i <= self.slices@.len(),
                self@.wf(),
                newest matches Some(n) ==> n.valid() && n.number < date.number
                    && self@.day_started(n),
                forall|j: int|
                    0 <= j < i && (#[trigger] self.slices@[j]).0.0.number < date.number ==> (newest
                        matches Some(n) && self.slices@[j].0.0.number <= n.number),
            decreases self.slices@.len() - i,
        {
            let d = self.slices.key(i).0;
            proof {
                assert(starts_day(self@.slices[i as int], d));
                assert(self@.slices[i as int].0.0.valid());
            }
            if d.number < date.number {
                let newer = match newest {
                    Some(n) => d.number > n.number,
                    None => true,
                };
                if newer {
                    newest = Some(d);
                }
            }
            i += 1;
        }
        newest
    }

    /// The days of which some slice is complete, as they were started.
    fn days_in_progress(&self) -> (r: Vec<UtcDay>)
        ensures
            r@ == started_days(self@.slices),
    {
        let mut out: Vec<UtcDay> = Vec::new();
        let mut i: usize = 0;
        while i < self.slices.len()
            invariant
                0 <= i <= self.slices@.len(),
                out@ == started_days(self.slices@.take(i as int)),
            decreases self.slices@.len() - i,
        {
            proof {
                assert(self.slices@.take(i + 1).drop_last() =~= self.slices@.take(i as int));
            }
            let d = self.slices.key(i).0;
            let mut known = false;
            let mut j: usize = 0;
            while j < out.len()
                invariant
                    0 <= j <= out@.len(),
                    known == out@.take(j as int).contains(d),
                decreases out@.len() - j,
            {
                proof {
                    assert(out@.take(j + 1) =~= out@.take(j as int).push(out@[j as int]));
                    if out@.take(j as int).contains(d) {
                        let k = choose|k: int|
                            0 <= k < out@.take(j as int).len() && out@.take(j as int)[k] == d;
                        assert(out@.take(j + 1)[k] == d);
                    }
                    if out@[j as int] == d {
                        assert(out@.take(j + 1)[j as int] == d);
                    }
                }
                if out[j] == d {
                    known = true;
                }
                j += 1;
            }
            proof {
                assert(out@.take(j as int) =~= out@);
            }
            if !known {
                out.push(d);
            }
            i += 1;
        }
        proof {
            assert(self.slices@.take(i as int) =~= self.slices@);
        }
        out
    }

    /// The texts of the days on which an error stands, each with its error.
    fn day_errors(&self) -> (r: Vec<(String, String)>)
        requires
            self@.wf(),
        ensures
            order::views(r@) == errors_listed(self@.days),
    {
        let mut out: Vec<(String, String)> = Vec::new();
        let mut i: usize = 0;
        while i < self.days.len()
            invariant
                0 <= i <= self.days@.len(),
                self@.wf(),
                order::views(out@) == errors_listed(self.days@.take(i as int)),
            decreases self.days@.len() - i,
        {
            let ghost done = order::views(out@);
            proof {
                assert(self.days@.take(i + 1).drop_last() =~= self.days@.take(i as int));
                assert(self@.days[i as int].0.valid());
            }
            let day = *self.days.key(i);
            if let Some(e) = &self.days.row(i).last_error {
                if !e.as_str().is_empty() {
                    out.push((day.to_text(), e.clone()));
                    proof {
                        assert(order::views(out@) =~= done.push((day.text(), e@)));
                    }
                }
            }
            i += 1;
        }
        proof {
            assert(self.days@.take(i as int) =~= self.days@);
        }
        out
    }

    /// What the journal holds, in numbers.
    pub fn status(&self, path: &str) -> (r: JournalStatus)
        requires
            self@.wf(),
        ensures
            r.path@ == path@,
            r.fleet_hexes == self@.fleet.len(),
            text::opt_view(r.snapshot_as_of) == (if self@.fleet.len() > 0 {
                Some(self@.fleet[0].1.snapshot_as_of)
            } else {
                None
            }),
            text::opt_view(r.recorded_at) == (if self@.fleet.len() > 0 {
                Some(self@.fleet[0].1.recorded_at)
            } else {
                None
            }),
            r.trips == self@.trips.len(),
            text::opt_view(r.flights_all_complete_max) == last_text(
                complete_listed(self@.slices, started_days(self@.slices)),
            ),
            order::views(r.flights_all_incomplete@) == order::sorted::<(String, u64)>(
                incomplete_listed(self@.slices, started_days(self@.slices)),
            ),
            order::views(r.flights_all_errors@) == order::sorted::<(String, String)>(
                errors_listed(self@.days),
            ),
    {
        let days = self.days_in_progress();
        let mut complete_max: Option<String> = None;
        let mut incomplete: Vec<(String, u64)> = Vec::new();
        let mut i: usize = 0;
        proof {
            assert(days@.take(0) =~= Seq::<UtcDay>::empty());
            assert(order::views(incomplete@) =~= Seq::<(Seq<char>, u64)>::empty());
        }
        while i < days.len()
            invariant
                0 <= i <= days@.len(),
                self@.wf(),
                days@ == started_days(self@.slices),
                text::opt_view(complete_max) == last_text(
                    complete_listed(self@.slices, days@.take(i as int)),
                ),
                order::views(incomplete@) == incomplete_listed(
                    self@.slices,
                    days@.take(i as int),
                ),
            decreases days@.len() - i,
        {
            let ghost done = order::views(incomplete@);
            proof {
                assert(days@.take(i + 1).drop_last() =~= days@.take(i as int));
                lemma_started_days(self@.slices, days@[i as int]);
                assert(days@.contains(days@[i as int]));
            }
            let day = days[i];
            let n = self.count_slices(day);
            let name = day.to_text();
            if n >= 12 {
                let ghost front = complete_listed(self@.slices, days@.take(i as int));
                proof {
                    assert(front.push(day.text()).drop_last() =~= front);
                }
                let later = match &complete_max {
                    None => true,
                    Some(t) => text::comes_before(t.as_str(), name.as_str()),
                };
                if later {
                    complete_max = Some(name);
                }
            } else {
                incomplete.push((name, n as u64));
                proof {
                    assert(order::views(incomplete@) =~= done.push((day.text(), n as u64)));
                }
            }
            i += 1;
        }
        proof {
            assert(days@.take(i as int) =~= days@);
        }
        let (snapshot_as_of, recorded_at): (Option<String>, Option<String>) = if self.fleet.len()
            > 0 {
            let row = self.fleet.row(0);
            (Some(row.snapshot_as_of.clone()), Some(row.recorded_at.clone()))
        } else {
            (None, None)
        };
        JournalStatus {
            path: path.to_owned(),
            fleet_hexes: self.fleet.len() as u64,
            snapshot_as_of,
            recorded_at,
            trips: self.trip_count(),
            flights_all_complete_max: complete_max,
            flights_all_incomplete: order::sort(incomplete),
            flights_all_errors: order::sort(self.day_errors()),
        }
    }
}

/// The days of which some slice is complete, each once, as they were started.
pub open spec fn started_days(rows: Seq<((UtcDay, u32), Seq<char>)>) -> Seq<UtcDay>
    decreases rows.len(),
{
    if rows.len() == 0 {
        Seq::empty()
    } else {
        let front = started_days(rows.drop_last());
        let day = rows.last().0.0;
        if front.contains(day) {
            front
        } else {
            front.push(day)
        }
    }
}

proof fn lemma_started_days(rows: Seq<((UtcDay, u32), Seq<char>)>, day: UtcDay)
    ensures
        started_days(rows).contains(day) ==> exists|j: int|
            0 <= j < rows.len() && (#[trigger] rows[j]).0.0 == day,
    decreases rows.len(),
{
    if rows.len() > 0 && started_days(rows).contains(day) {
        let front = rows.drop_last();
        lemma_started_days(front, day);
        let k = choose|k: int| 0 <= k < started_days(rows).len() && started_days(rows)[k] == day;
        if k < started_days(front).len() {
            assert(started_days(front)[k] == day);
            let j = choose|j: int| 0 <= j < front.len() && (#[trigger] front[j]).0.0 == day;
            assert(rows[j].0.0 == day);
        } else {
            assert(rows[rows.len() - 1].0.0 == day);
        }
    }
}

/// The texts of those days of which all twelve slices are complete.
pub open spec fn complete_listed(
    rows: Seq<((UtcDay, u32), Seq<char>)>,
    days: Seq<UtcDay>,
) -> Seq<Seq<char>>
    decreases days.len(),
{
    if days.len() == 0 {
        Seq::empty()
    } else {
        let front = complete_listed(rows, days.drop_last());
        if slices_on(rows, days.last()) >= 12 {
            front.push(days.last().text())
        } else {
            front
        }
    }
}

/// The texts of the other days, each with the number of its complete slices.
pub open spec fn incomplete_listed(
    rows: Seq<((UtcDay, u32), Seq<char>)>,
    days: Seq<UtcDay>,
) -> Seq<(Seq<char>, u64)>
    decreases days.len(),
{
    if days.len() == 0 {
        Seq::empty()
    } else {
        let front = incomplete_listed(rows, days.drop_last());
        if slices_on(rows, days.last()) < 12 {
            front.push((days.last().text(), slices_on(rows, days.last()) as u64))
        } else {
            front
        }
    }
}

/// The texts of the days on which an error stands, each with its error.
pub open spec fn errors_listed(rows: Seq<(UtcDay, DayView)>) -> Seq<(Seq<char>, Seq<char>)>
    decreases rows.len(),
{
    if rows.len() == 0 {
        Seq::empty()
    } else {
        let front = errors_listed(rows.drop_last());
        match rows.last().1.last_error {
            Some(e) => if e.len() > 0 {
                front.push((rows.last().0.text(), e))
            } else {
                front
            },
            None => front,
        }
    }
}

/// The text that comes last.
pub open spec fn last_text(s: Seq<Seq<char>>) -> Option<Seq<char>>
    decreases s.len(),
{
    if s.len() == 0 {
        None
    } else {
        match last_text(s.drop_last()) {
            None => Some(s.last()),
            Some(t) => if text::text_lt(t, s.last()) {
                Some(s.last())
            } else {
                Some(t)
            },
        }
    }
}

#[derive(Debug)]
pub struct JournalStatus {
    pub path: String,
    pub fleet_hexes: u64,
    pub snapshot_as_of: Option<String>,
    pub recorded_at: Option<String>,
    pub trips: u64,
    pub flights_all_complete_max: Option<String>,
    pub flights_all_incomplete: Vec<(String, u64)>,
    pub flights_all_errors: Vec<(String, String)>,
}

impl JournalView {
    /// The newest day before `date` of which some slice is complete.
    pub open spec fn newest_before(self, date: UtcDay, newest: Option<UtcDay>) -> bool {
        match newest {
            Some(n) => {
                &&& n.valid() && n.number < date.number
                &&& self.day_started(n)
                &&& forall|d: UtcDay|
                    n.number < d.number < date.number ==> !#[trigger] self.day_started(d)
            },
            None => forall|d: UtcDay|
                d.number < date.number ==> !#[trigger] self.day_started(d),
        }
    }

    /// Some trip departs on the day.
    pub open spec fn departures_on(self, day: UtcDay) -> bool {
        exists|i: int| 0 <= i < self.trips.len() && departs_on(#[trigger] self.trips[i], day)
    }

    /// A trip whose departure was written for an instant departs on the day of the instant.
    pub open spec fn departs_by_instants(self, day: UtcDay) -> bool {
        calendar::four_digit_year(day.start()) && calendar::four_digit_year(
            day.start() + calendar::DAY_SECS,
        ) ==> forall|i: int, t: i64|
            #![trigger self.trips[i], calendar::iso_text(t)]
            0 <= i < self.trips.len() && self.trips[i].0.1 == calendar::iso_text(t)
                && calendar::four_digit_year(t as int) ==> (departs_on(self.trips[i], day)
                <==> day.start() <= t < day.start() + calendar::DAY_SECS)
    }
}

/// The row is a slice of the day.
pub open spec fn starts_day(row: ((UtcDay, u32), Seq<char>), day: UtcDay) -> bool {
    row.0.0 == day
}

/// The first day of the window that reaches `lookback_days` back; without such a day, yesterday.
pub open spec fn lookback_floor(yesterday: UtcDay, lookback_days: u64) -> UtcDay {
    if yesterday.number - lookback_days >= calendar::FIRST_DAY {
        UtcDay { number: (yesterday.number - lookback_days) as i32 }
    } else {
        yesterday
    }
}

impl JournalView {
    /// The calendar can hold every day in the journal.
    pub open spec fn days_valid(self) -> bool {
        &&& forall|i: int| 0 <= i < self.slices.len() ==> (#[trigger] self.slices[i]).0.0.valid()
        &&& forall|i: int| 0 <= i < self.days.len() ==> (#[trigger] self.days[i]).0.valid()
    }

    /// Some slice of the day is complete.
    pub open spec fn day_started(self, day: UtcDay) -> bool {
        exists|j: int| 0 <= j < self.slices.len() && starts_day(#[trigger] self.slices[j], day)
    }

    /// A day up to yesterday that is not complete and that was started or lies in the window.
    pub open spec fn needs_slices(
        self,
        day: UtcDay,
        yesterday: UtcDay,
        n_slices: u32,
        lookback_days: u64,
    ) -> bool {
        &&& day.number <= yesterday.number
        &&& !self.day_complete(day, n_slices)
        &&& self.day_started(day) || lookback_floor(yesterday, lookback_days).number <= day.number
    }
}

impl JournalView {
    /// `day` is the oldest day that needs slices, or yesterday where no day does.
    pub open spec fn starts_from(
        self,
        day: UtcDay,
        yesterday: UtcDay,
        n_slices: u32,
        lookback_days: u64,
    ) -> bool {
        &&& day == yesterday || self.needs_slices(day, yesterday, n_slices, lookback_days)
        &&& day.number <= yesterday.number
        &&& forall|d: UtcDay| #[trigger]
            self.needs_slices(d, yesterday, n_slices, lookback_days) ==> day.number <= d.number
    }
}

/// The aircraft seen airborne on a day, as they were recorded.
pub open spec fn hexes_seen(
    rows: Seq<((Seq<char>, UtcDay), Seq<char>)>,
    day: UtcDay,
) -> Seq<Seq<char>>
    decreases rows.len(),
{
    if rows.len() == 0 {
        Seq::empty()
    } else {
        let front = hexes_seen(rows.drop_last(), day);
        if rows.last().0.1 == day {
            front.push(rows.last().0.0)
        } else {
            front
        }
    }
}

/// The time at which a day has ended, as the departure times are written.
pub open spec fn day_end(day: UtcDay) -> Seq<char> {
    if day.number < calendar::LAST_DAY {
        UtcDay { number: (day.number + 1) as i32 }.text() + "T00:00:00Z"@
    } else {
        day.text() + "T23:59:59Z"@
    }
}

/// Whether the departure time of a trip lies on a day, as the texts are ordered.
pub open spec fn departs_on(row: ((Seq<char>, Seq<char>), TripView), day: UtcDay) -> bool {
    !text::text_lt(row.0.1, day.text() + "T00:00:00Z"@) && text::text_lt(row.0.1, day_end(day))
}

/// The aircraft and the departure of each trip whose departure time lies between two others, as
/// the texts are ordered, and names an instant.
pub open spec fn keys_between(
    rows: Seq<((Seq<char>, Seq<char>), TripView)>,
    start: Seq<char>,
    end: Seq<char>,
) -> Seq<(Seq<char>, i64)>
    decreases rows.len(),
{
    if rows.len() == 0 {
        Seq::empty()
    } else {
        let front = keys_between(rows.drop_last(), start, end);
        let key = rows.last().0;
        if !text::text_lt(key.1, start) && !text::text_lt(end, key.1) && calendar::iso_seconds(
            key.1,
        ) is Some {
            front.push((key.0, calendar::iso_seconds(key.1)->0))
        } else {
            front
        }
    }
}

/// A trip between two times whose departure names an instant is listed with it.
proof fn lemma_key_listed(
    rows: Seq<((Seq<char>, Seq<char>), TripView)>,
    start: Seq<char>,
    end: Seq<char>,
    i: int,
)
    requires
        0 <= i < rows.len(),
        !text::text_lt(rows[i].0.1, start),
        !text::text_lt(end, rows[i].0.1),
        calendar::iso_seconds(rows[i].0.1) is Some,
    ensures
        keys_between(rows, start, end).contains(
            (rows[i].0.0, calendar::iso_seconds(rows[i].0.1)->0),
        ),
    decreases rows.len(),
{
    let front = rows.drop_last();
    let all = keys_between(rows, start, end);
    let key = (rows[i].0.0, calendar::iso_seconds(rows[i].0.1)->0);
    if i < front.len() {
        lemma_key_listed(front, start, end, i);
        let some = keys_between(front, start, end);
        let q = choose|q: int| 0 <= q < some.len() && some[q] == key;
        assert(all[q] == key);
    } else {
        assert(all[all.len() - 1] == key);
    }
}

/// A trip that is written stands in the journal. Writing it twice is the same as writing it once,
/// leaves every other trip as it was, and adds one trip exactly where its aircraft had none with
/// that departure.
pub proof fn law_upsert_trip(journal: JournalView, trip: TripView)
    requires
        journal.wf(),
    ensures
        journal.with_trip(trip).with_trip(trip) == journal.with_trip(trip),
        table::row_of(journal.with_trip(trip).trips, (trip.icao24, trip.dep_ts)) == Some(trip),
        journal.with_trip(trip).trips.contains(((trip.icao24, trip.dep_ts), trip)),
        forall|hex: Seq<char>, dep: Seq<char>|
            (hex, dep) != (trip.icao24, trip.dep_ts) ==> #[trigger] table::row_of(
                journal.with_trip(trip).trips,
                (hex, dep),
            ) == table::row_of(journal.trips, (hex, dep)),
        journal.with_trip(trip).trips.len() == journal.trips.len() + if table::has_key(
            journal.trips,
            (trip.icao24, trip.dep_ts),
        ) {
            0int
        } else {
            1
        },
{
    let key = (trip.icao24, trip.dep_ts);
    let after = journal.with_trip(trip).trips;
    table::law_with_row(journal.trips, key, trip);
    table::law_with_row_twice(journal.trips, key, trip);
    let p = choose|i: int| table::row_at(after, key, i);
    assert(table::row_at(after, key, p));
    assert(after[p] == (key, trip));
}

proof fn lemma_slices_on_update(
    rows: Seq<((UtcDay, u32), Seq<char>)>,
    i: int,
    row: ((UtcDay, u32), Seq<char>),
    day: UtcDay,
)
    requires
        0 <= i < rows.len(),
        rows[i].0 == row.0,
    ensures
        slices_on(rows.update(i, row), day) == slices_on(rows, day),
    decreases rows.len(),
{
    let after = rows.update(i, row);
    if i < rows.len() - 1 {
        lemma_slices_on_update(rows.drop_last(), i, row, day);
        assert(after.drop_last() =~= rows.drop_last().update(i, row));
    } else {
        assert(after.drop_last() =~= rows.drop_last());
    }
}

/// Completing a slice completes that slice and no other, keeps every completed slice, adds one to
/// the count of its day exactly where it was not complete before, changes the count of no other
/// day, and clears the day's error.
pub proof fn law_complete_slice(journal: JournalView, day: UtcDay, slice_idx: u32, now: Seq<char>)
    requires
        journal.wf(),
    ensures
        ({
            let after = journal.with_slice(day, slice_idx, now);
            &&& after.slice_complete(day, slice_idx)
            &&& forall|d: UtcDay, i: u32|
                (d, i) != (day, slice_idx) ==> #[trigger] after.slice_complete(d, i)
                    == journal.slice_complete(d, i)
            &&& after.slices_done(day) == journal.slices_done(day) + if journal.slice_complete(
                day,
                slice_idx,
            ) {
                0nat
            } else {
                1
            }
            &&& forall|d: UtcDay|
                d != day ==> #[trigger] after.slices_done(d) == journal.slices_done(d)
            &&& table::row_of(after.days, day) == Some(DayView { last_error: None, updated_at: now })
            &&& after.trips == journal.trips
            &&& after.cursors == journal.cursors
        }),
{
    let key = (day, slice_idx);
    let after = journal.with_slice(day, slice_idx, now);
    table::law_with_row(journal.slices, key, now);
    table::law_with_row(journal.days, day, DayView { last_error: None, updated_at: now });
    assert(table::row_of(after.slices, key) is Some);
    assert forall|d: UtcDay, i: u32| (d, i) != key implies #[trigger] after.slice_complete(d, i)
        == journal.slice_complete(d, i) by {
        assert(table::row_of(after.slices, (d, i)) == table::row_of(journal.slices, (d, i)));
    }
    if table::has_key(journal.slices, key) {
        let p = choose|i: int| table::row_at(journal.slices, key, i);
        assert forall|d: UtcDay| #[trigger] after.slices_done(d) == journal.slices_done(d) by {
            lemma_slices_on_update(journal.slices, p, (key, now), d);
        }
    } else {
        assert(after.slices.drop_last() =~= journal.slices);
    }
}

/// An error on a day, and an error on a cursor, complete nothing and take nothing back.
pub proof fn law_errors_complete_nothing(
    journal: JournalView,
    day: UtcDay,
    err: Seq<char>,
    now: Seq<char>,
)
    ensures
        journal.with_day_error(day, err, now).slices == journal.slices,
        journal.with_day_error(day, err, now).trips == journal.trips,
        journal.with_day_error(day, err, now).cursors == journal.cursors,
        forall|d: UtcDay, n: u32| #[trigger]
            journal.with_day_error(day, err, now).day_complete(d, n) == journal.day_complete(d, n),
{
}

/// Where the journal starts to collect rests on the completed slices alone: not on what was seen
/// airborne, not on trips, not on cursors.
pub proof fn law_start_rests_on_slices(
    a: JournalView,
    b: JournalView,
    day: UtcDay,
    yesterday: UtcDay,
    n_slices: u32,
    lookback_days: u64,
)
    requires
        a.slices == b.slices,
    ensures
        a.needs_slices(day, yesterday, n_slices, lookback_days) == b.needs_slices(
            day,
            yesterday,
            n_slices,
            lookback_days,
        ),
{
}

/// An aircraft seen airborne again on a day leaves the journal as it was.
pub proof fn law_seen_once_a_day(
    journal: JournalView,
    hex: Seq<char>,
    day: UtcDay,
    first: Seq<char>,
    again: Seq<char>,
)
    ensures
        journal.with_seen(hex, day, first).with_seen(hex, day, again) == journal.with_seen(
            hex,
            day,
            first,
        ),
{
    let after = journal.with_seen(hex, day, first);
    if !table::has_key(journal.seen, (hex, day)) {
        assert(table::row_at(after.seen, (hex, day), journal.seen.len() as int));
    }
}

/// The numbers of the completed slices of a day.
pub open spec fn slice_numbers(rows: Seq<((UtcDay, u32), Seq<char>)>, day: UtcDay) -> Set<u32> {
    Set::new(|i: u32| table::has_key(rows, (day, i)))
}

proof fn lemma_slice_numbers(rows: Seq<((UtcDay, u32), Seq<char>)>, day: UtcDay)
    requires
        table::keys_unique(rows),
    ensures
        slice_numbers(rows, day).finite(),
        slice_numbers(rows, day).len() == slices_on(rows, day),
    decreases rows.len(),
{
    let all = slice_numbers(rows, day);
    if rows.len() == 0 {
        assert(all =~= Set::<u32>::empty()) by {
            assert forall|i: u32| !all.contains(i) by {
                if all.contains(i) {
                    let p = choose|p: int| table::row_at(rows, (day, i), p);
                    assert(table::row_at(rows, (day, i), p));
                }
            }
        }
    } else {
        let front = rows.drop_last();
        let last = rows.last().0;
        assert(table::keys_unique(front)) by {
            assert forall|i: int, j: int|
                0 <= i < front.len() && 0 <= j < front.len() && #[trigger] front[i].0
                    == #[trigger] front[j].0 implies i == j by {
                assert(rows[i].0 == rows[j].0);
            }
        }
        lemma_slice_numbers(front, day);
        let some = slice_numbers(front, day);
        assert forall|i: u32| (day, i) != last implies all.contains(i) == some.contains(i) by {
            if some.contains(i) {
                let p = choose|p: int| table::row_at(front, (day, i), p);
                assert(table::row_at(rows, (day, i), p));
            }
            if all.contains(i) {
                let p = choose|p: int| table::row_at(rows, (day, i), p);
                assert(table::row_at(front, (day, i), p));
            }
        }
        if last.0 == day {
            assert(table::row_at(rows, last, rows.len() - 1));
            assert(!some.contains(last.1)) by {
                if some.contains(last.1) {
                    let p = choose|p: int| table::row_at(front, (day, last.1), p);
                    assert(rows[p].0 == rows[rows.len() - 1].0);
                }
            }
            assert(all =~= some.insert(last.1));
        } else {
            assert(all =~= some);
        }
    }
}

/// A day is complete only once every one of its slices is: where no slice beyond the last was
/// ever completed, a complete day has all of them.
pub proof fn law_complete_day_has_every_slice(journal: JournalView, day: UtcDay, n_slices: u32)
    requires
        journal.wf(),
        forall|i: u32| #[trigger] journal.slice_complete(day, i) ==> i < n_slices,
        journal.day_complete(day, n_slices),
    ensures
        forall|i: u32| i < n_slices ==> #[trigger] journal.slice_complete(day, i),
{
    lemma_slice_numbers(journal.slices, day);
    let have = slice_numbers(journal.slices, day);
    let want = Set::new(|i: u32| i < n_slices);
    lemma_numbers_below(n_slices);
    assert(have.subset_of(want)) by {
        assert forall|i: u32| have.contains(i) implies want.contains(i) by {
            assert(journal.slice_complete(day, i));
        }
    }
    vstd::set_lib::lemma_len_subset(have, want);
    assert(journal.slices_done(day) == n_slices);
    vstd::set_lib::lemma_subset_equality(have, want);
    assert forall|i: u32| i < n_slices implies #[trigger] journal.slice_complete(day, i) by {
        assert(want.contains(i));
        assert(have.contains(i));
    }
}

proof fn lemma_numbers_below(n: u32)
    ensures
        Set::new(|i: u32| i < n).finite(),
        Set::new(|i: u32| i < n).len() == n,
    decreases n,
{
    let all = Set::new(|i: u32| i < n);
    if n == 0 {
        assert(all =~= Set::<u32>::empty());
    } else {
        let m = (n - 1) as u32;
        lemma_numbers_below(m);
        assert(all =~= Set::new(|i: u32| i < m).insert(m));
    }
}

/// Of one day's aircraft the journal tells each once, in strictly rising order.
pub proof fn law_seen_strictly_rising(journal: JournalView, day: UtcDay)
    requires
        journal.wf(),
    ensures
        ({
            let hexes = order::sorted::<String>(hexes_seen(journal.seen, day));
            forall|i: int, j: int|
                0 <= i < j < hexes.len() ==> text::text_lt(#[trigger] hexes[i], #[trigger] hexes[j])
        }),
{
    broadcast use vstd::seq_lib::group_to_multiset_ensures;

    let list = hexes_seen(journal.seen, day);
    let hexes = order::sorted::<String>(list);
    order::law_sorted::<String>(list);
    lemma_hexes_seen_distinct(journal.seen, day);
    list.lemma_multiset_has_no_duplicates();
    hexes.lemma_multiset_has_no_duplicates_conv();
    assert forall|i: int, j: int| 0 <= i < j < hexes.len() implies text::text_lt(
        #[trigger] hexes[i],
        #[trigger] hexes[j],
    ) by {
        assert(!<String as order::Ranked>::before(hexes[j], hexes[i]));
        text::lemma_text_lt_total(hexes[i], hexes[j]);
    }
}

proof fn lemma_hexes_seen_distinct(rows: Seq<((Seq<char>, UtcDay), Seq<char>)>, day: UtcDay)
    requires
        table::keys_unique(rows),
    ensures
        hexes_seen(rows, day).no_duplicates(),
        forall|h: Seq<char>|
            hexes_seen(rows, day).contains(h) ==> #[trigger] table::has_key(rows, (h, day)),
    decreases rows.len(),
{
    if rows.len() > 0 {
        let front = rows.drop_last();
        assert(table::keys_unique(front)) by {
            assert forall|i: int, j: int|
                0 <= i < front.len() && 0 <= j < front.len() && #[trigger] front[i].0
                    == #[trigger] front[j].0 implies i == j by {
                assert(rows[i].0 == rows[j].0);
            }
        }
        lemma_hexes_seen_distinct(front, day);
        let some = hexes_seen(front, day);
        let all = hexes_seen(rows, day);
        let last = rows.last().0;
        assert forall|h: Seq<char>| all.contains(h) implies #[trigger] table::has_key(
            rows,
            (h, day),
        ) by {
            let k = choose|k: int| 0 <= k < all.len() && all[k] == h;
            if k < some.len() {
                assert(some[k] == h);
                assert(some.contains(h));
                assert(table::has_key(front, (h, day)));
                let p = choose|p: int| table::row_at(front, (h, day), p);
                assert(table::row_at(rows, (h, day), p));
            } else {
                assert(table::row_at(rows, (h, day), rows.len() - 1));
            }
        }
        if last.1 == day && some.contains(last.0) {
            assert(table::has_key(front, (last.0, day)));
            let p = choose|p: int| table::row_at(front, (last.0, day), p);
            assert(rows[p].0 == rows[rows.len() - 1].0);
        }
    }
}

/// A trip is seen column by column as it is held.
pub proof fn law_trip_is_seen_as_held(t: TripRow)
    ensures
        t@.icao24 == t.icao24@ && t@.n_number == t.n_number@ && t@.ticker == t.ticker@,
        t@.dep_ts == t.dep_ts@ && t@.source == t.source@ && t@.fetched_at == t.fetched_at@,
        t@.arr_ts is Some <==> t.arr_ts is Some,
        t.arr_ts matches Some(x) ==> t@.arr_ts == Some(x@),
        t@.cik is Some <==> t.cik is Some,
        t.cik matches Some(x) ==> t@.cik == Some(x@),
        t@.callsign is Some <==> t.callsign is Some,
        t.callsign matches Some(x) ==> t@.callsign == Some(x@),
        t@.dep_airport is Some <==> t.dep_airport is Some,
        t.dep_airport matches Some(x) ==> t@.dep_airport == Some(x@),
        t@.arr_airport is Some <==> t.arr_airport is Some,
        t.arr_airport matches Some(x) ==> t@.arr_airport == Some(x@),
        t@.dep_place is Some <==> t.dep_place is Some,
        t.dep_place matches Some(x) ==> t@.dep_place == Some(x@),
        t@.arr_place is Some <==> t.arr_place is Some,
        t.arr_place matches Some(x) ==> t@.arr_place == Some(x@),
        t@.dep_lat == t.dep_lat && t@.dep_lon == t.dep_lon,
        t@.arr_lat == t.arr_lat && t@.arr_lon == t.arr_lon,
        t@.dep_airport_horiz_m == t.dep_airport_horiz_m,
        t@.dep_airport_vert_m == t.dep_airport_vert_m,
        t@.arr_airport_horiz_m == t.arr_airport_horiz_m,
        t@.arr_airport_vert_m == t.arr_airport_vert_m,
        t@.dep_airport_candidates == t.dep_airport_candidates,
        t@.arr_airport_candidates == t.arr_airport_candidates,
{
}

/// The snapshot of a fleet holds every row of it under its address, in order: the registration, the
/// ticker, the company, the make and the model of the aircraft, whether its issuer is one of
/// aviation, the size of the fleet, and the two times of the snapshot, each in its own column.
pub proof fn law_snapshot_columns(
    rows: Seq<FleetRow>,
    as_of: Seq<char>,
    recorded_at: Seq<char>,
    i: int,
)
    requires
        0 <= i < rows.len(),
    ensures
        fleet_snapshot(rows, as_of, recorded_at).len() == rows.len(),
        ({
            let (hex, held) = fleet_snapshot(rows, as_of, recorded_at)[i];
            let row = rows[i];
            &&& hex == row.icao24@
            &&& held.n_number == row.n_number@
            &&& held.ticker == row.ticker@
            &&& held.cik == text::opt_view(row.cik)
            &&& held.company_name == text::opt_view(row.company_name)
            &&& held.make == text::opt_view(row.make)
            &&& held.model == text::opt_view(row.model)
            &&& held.aviation_issuer == row.aviation_issuer
            &&& held.fleet_size == row.fleet_size
            &&& held.snapshot_as_of == as_of
            &&& held.recorded_at == recorded_at
        }),
{
}

/// A snapshot row, a cursor and a day are seen column by column as they are held.
pub proof fn law_rows_are_seen_as_held(s: SnapshotRow, c: CursorRow, d: DayRow)
    ensures
        s@.n_number == s.n_number@ && s@.ticker == s.ticker@,
        s@.cik == text::opt_view(s.cik) && s@.company_name == text::opt_view(s.company_name),
        s@.make == text::opt_view(s.make) && s@.model == text::opt_view(s.model),
        s@.aviation_issuer == s.aviation_issuer && s@.fleet_size == s.fleet_size,
        s@.snapshot_as_of == s.snapshot_as_of@ && s@.recorded_at == s.recorded_at@,
        c@.last_ok_date == text::opt_view(c.last_ok_date),
        c@.last_error == text::opt_view(c.last_error),
        c@.updated_at == c.updated_at@,
        d@.last_error == text::opt_view(d.last_error),
        d@.updated_at == d.updated_at@,
{
}

/// A cursor that advances says up to which day its aircraft was fetched and forgets its error; one
/// that gets an error keeps its day. Either leaves every other cursor, and all else, as it was.
pub proof fn law_cursors(
    journal: JournalView,
    hex: Seq<char>,
    date: UtcDay,
    err: Seq<char>,
    now: Seq<char>,
    other: Seq<char>,
)
    requires
        journal.wf(),
    ensures
        ({
            let ok = journal.with_cursor_ok(hex, date, now);
            let failed = journal.with_cursor_error(hex, err, now);
            &&& table::row_of(ok.cursors, hex) matches Some(c) && c.last_ok_date == Some(
                calendar::date_text(date.number),
            ) && c.last_error is None && c.updated_at == now
            &&& table::row_of(failed.cursors, hex) matches Some(c) && c.last_error == Some(err)
                && c.updated_at == now && c.last_ok_date == match table::row_of(
                journal.cursors,
                hex,
            ) {
                Some(b) => b.last_ok_date,
                None => None,
            }
            &&& other != hex ==> table::row_of(ok.cursors, other) == table::row_of(
                journal.cursors,
                other,
            ) && table::row_of(failed.cursors, other) == table::row_of(journal.cursors, other)
            &&& ok == (JournalView { cursors: ok.cursors, ..journal })
            &&& failed == (JournalView { cursors: failed.cursors, ..journal })
        }),
{
    table::law_with_row(
        journal.cursors,
        hex,
        CursorView {
            last_ok_date: Some(date.text()),
            last_error: None,
            updated_at: now,
        },
    );
    table::law_with_row(
        journal.cursors,
        hex,
        CursorView {
            last_ok_date: match table::row_of(journal.cursors, hex) {
                Some(c) => c.last_ok_date,
                None => None,
            },
            last_error: Some(err),
            updated_at: now,
        },
    );
}

/// A cursor is handed out column by column as it stands in the journal.
pub proof fn law_cursor_is_handed_out(db: JournalDb, icao24: &str, r: Option<FetchCursor>)
    requires
        call_ensures(JournalDb::get_cursor, (&db, icao24), r),
    ensures
        r is Some <==> table::row_of(db@.cursors, icao24@) is Some,
        r matches Some(c) ==> {
            let row = table::row_of(db@.cursors, icao24@)->0;
            &&& c.icao24@ == icao24@
            &&& text::opt_view(c.last_ok_date) == row.last_ok_date
            &&& text::opt_view(c.last_error) == row.last_error
            &&& c.updated_at@ == row.updated_at
        },
{
}

/// An aircraft is recorded for a day with the time at which it was first seen: nothing takes that
/// time back, and a record for one aircraft and day touches no other.
pub proof fn law_first_sight_stays(
    journal: JournalView,
    hex: Seq<char>,
    day: UtcDay,
    now: Seq<char>,
    key: (Seq<char>, UtcDay),
)
    requires
        table::keys_unique(journal.seen),
    ensures
        ({
            let after = journal.with_seen(hex, day, now);
            &&& table::row_of(after.seen, (hex, day)) == match table::row_of(
                journal.seen,
                (hex, day),
            ) {
                Some(t) => Some(t),
                None => Some(now),
            }
            &&& key != (hex, day) ==> table::row_of(after.seen, key) == table::row_of(
                journal.seen,
                key,
            )
            &&& after == (JournalView { seen: after.seen, ..journal })
        }),
{
    if !table::has_key(journal.seen, (hex, day)) {
        table::law_with_row(journal.seen, (hex, day), now);
        assert(journal.with_seen(hex, day, now).seen == table::with_row(
            journal.seen,
            (hex, day),
            now,
        ));
    }
}

/// The count of a day is that of its complete slices, and the day is complete where the count is as
/// large as the number of its slices.
pub proof fn law_slices_are_counted(journal: JournalView, day: UtcDay, n_slices: u32)
    requires
        journal.wf(),
    ensures
        journal.slices_done(day) == Set::new(|i: u32| journal.slice_complete(day, i)).len(),
        journal.slices_done(day) <= u32::MAX ==> (journal.day_complete(day, n_slices)
            <==> journal.slices_done(day) >= n_slices),
{
    lemma_slice_numbers(journal.slices, day);
    assert(Set::new(|i: u32| journal.slice_complete(day, i)) =~= slice_numbers(
        journal.slices,
        day,
    ));
}

/// A day with every one of its slices complete is complete.
pub proof fn law_every_slice_completes_the_day(journal: JournalView, day: UtcDay, n_slices: u32)
    requires
        journal.wf(),
        journal.slices_done(day) <= u32::MAX,
        forall|i: u32| i < n_slices ==> #[trigger] journal.slice_complete(day, i),
    ensures
        journal.day_complete(day, n_slices),
{
    lemma_slice_numbers(journal.slices, day);
    lemma_numbers_below(n_slices);
    let have = slice_numbers(journal.slices, day);
    let want = Set::new(|i: u32| i < n_slices);
    assert(want.subset_of(have)) by {
        assert forall|i: u32| want.contains(i) implies have.contains(i) by {
            assert(journal.slice_complete(day, i));
        }
    }
    vstd::set_lib::lemma_len_subset(want, have);
}

/// Where the journal starts to collect: never later than yesterday; never later than an incomplete
/// day of the window, which reaches a number of days back from yesterday, nor than an incomplete day
/// that was started, however old; and on yesterday or on such a day itself.
pub proof fn law_start_of_collect(
    journal: JournalView,
    start: UtcDay,
    yesterday: UtcDay,
    n_slices: u32,
    lookback_days: u64,
    day: UtcDay,
)
    requires
        journal.starts_from(start, yesterday, n_slices, lookback_days),
        yesterday.number - lookback_days >= calendar::FIRST_DAY,
    ensures
        start.number <= yesterday.number,
        yesterday.number - lookback_days <= day.number <= yesterday.number && !journal.day_complete(
            day,
            n_slices,
        ) ==> start.number <= day.number,
        day.number <= yesterday.number && !journal.day_complete(day, n_slices) && (exists|j: int|
            0 <= j < journal.slices.len() && (#[trigger] journal.slices[j]).0.0 == day)
            ==> start.number <= day.number,
        start == yesterday || (!journal.day_complete(start, n_slices) && (start.number
            >= yesterday.number - lookback_days || exists|j: int|
            0 <= j < journal.slices.len() && (#[trigger] journal.slices[j]).0.0 == start)),
{
    if exists|j: int| 0 <= j < journal.slices.len() && (#[trigger] journal.slices[j]).0.0 == day {
        let j = choose|j: int|
            0 <= j < journal.slices.len() && (#[trigger] journal.slices[j]).0.0 == day;
        assert(starts_day(journal.slices[j], day));
    }
    assert(journal.needs_slices(day, yesterday, n_slices, lookback_days) ==> start.number
        <= day.number);
    if start != yesterday && journal.day_started(start) {
        let j = choose|j: int|
            0 <= j < journal.slices.len() && starts_day(#[trigger] journal.slices[j], start);
        assert(journal.slices[j].0.0 == start);
    }
}

/// The newest day before another that has a complete slice.
pub proof fn law_newest_slice_day(db: JournalDb, date: UtcDay, r: Option<UtcDay>, j: int)
    requires
        call_ensures(JournalDb::newest_slice_day_before, (&db, date), r),
        0 <= j < db@.slices.len(),
        db@.slices[j].0.0.number < date.number,
    ensures
        r matches Some(d) && db@.slices[j].0.0.number <= d.number < date.number && exists|k: int|
            0 <= k < db@.slices.len() && (#[trigger] db@.slices[k]).0.0 == d,
{
    let day = db@.slices[j].0.0;
    assert(starts_day(db@.slices[j], day));
    assert(db@.day_started(day));
    assert(db@.newest_before(date, r));
    if let Some(d) = r {
        let k = choose|k: int| 0 <= k < db@.slices.len() && starts_day(#[trigger] db@.slices[k], d);
        assert(db@.slices[k].0.0 == d);
    }
}

/// The aircraft that the journal tells for a day are those that it recorded for it, and no other.
pub proof fn law_seen_on_a_day(
    rows: Seq<((Seq<char>, UtcDay), Seq<char>)>,
    day: UtcDay,
    hex: Seq<char>,
)
    ensures
        hexes_seen(rows, day).contains(hex) <==> exists|i: int|
            0 <= i < rows.len() && (#[trigger] rows[i]).0 == (hex, day),
    decreases rows.len(),
{
    if rows.len() > 0 {
        let front = rows.drop_last();
        law_seen_on_a_day(front, day, hex);
        let all = hexes_seen(rows, day);
        let some = hexes_seen(front, day);
        if all.contains(hex) {
            let k = choose|k: int| 0 <= k < all.len() && all[k] == hex;
            if k < some.len() {
                assert(some[k] == hex);
                let i = choose|i: int| 0 <= i < front.len() && (#[trigger] front[i]).0 == (hex, day);
                assert(rows[i].0 == (hex, day));
            } else {
                assert(rows[rows.len() - 1].0 == (hex, day));
            }
        }
        if exists|i: int| 0 <= i < rows.len() && (#[trigger] rows[i]).0 == (hex, day) {
            let i = choose|i: int| 0 <= i < rows.len() && (#[trigger] rows[i]).0 == (hex, day);
            if i < front.len() {
                assert(front[i].0 == (hex, day));
                let k = choose|k: int| 0 <= k < some.len() && some[k] == hex;
                assert(all[k] == hex);
            } else {
                assert(all[all.len() - 1] == hex);
            }
        }
    }
}

/// A trip departs on the day of its instant and on no other, where the years have four digits.
pub proof fn law_trips_on_a_day(db: JournalDb, date: UtcDay, r: bool, i: int, t: i64)
    requires
        call_ensures(JournalDb::has_trips_on, (&db, date), r),
        calendar::four_digit_year(date.number * 86_400),
        calendar::four_digit_year((date.number + 1) * 86_400),
        calendar::four_digit_year(t as int),
        0 <= i < db@.trips.len(),
        db@.trips[i].0.1 == calendar::iso_text(t),
    ensures
        departs_on(db@.trips[i], date) <==> date.number * 86_400 <= t < (date.number + 1) * 86_400,
        date.number * 86_400 <= t < (date.number + 1) * 86_400 ==> r,
        db@.trips.len() == 1 && r ==> date.number * 86_400 <= t < (date.number + 1) * 86_400,
{
    assert(db@.departs_by_instants(date));
    let text = calendar::iso_text(t);
    assert(db@.trips[i].0.1 == text);
}

proof fn lemma_keys_between(
    rows: Seq<((Seq<char>, Seq<char>), TripView)>,
    start: Seq<char>,
    end: Seq<char>,
    key: (Seq<char>, i64),
)
    ensures
        keys_between(rows, start, end).contains(key) ==> exists|i: int|
            0 <= i < rows.len() && (#[trigger] rows[i]).0.0 == key.0 && calendar::iso_seconds(
                rows[i].0.1,
            ) == Some(key.1) && !text::text_lt(rows[i].0.1, start) && !text::text_lt(
                end,
                rows[i].0.1,
            ),
    decreases rows.len(),
{
    if rows.len() > 0 {
        let front = rows.drop_last();
        lemma_keys_between(front, start, end, key);
        let all = keys_between(rows, start, end);
        let some = keys_between(front, start, end);
        if all.contains(key) {
            let k = choose|k: int| 0 <= k < all.len() && all[k] == key;
            if k < some.len() {
                assert(some[k] == key);
                let i = choose|i: int|
                    0 <= i < front.len() && (#[trigger] front[i]).0.0 == key.0
                        && calendar::iso_seconds(front[i].0.1) == Some(key.1) && !text::text_lt(
                        front[i].0.1,
                        start,
                    ) && !text::text_lt(end, front[i].0.1);
                assert(rows[i] == front[i]);
            } else {
                assert(rows[rows.len() - 1] == rows.last());
            }
        }
    }
}

/// The keys between two instants: a pair is among them only where a trip of that aircraft departs at
/// that instant and between the two, as texts are ordered; and a trip that departs at an instant
/// between the two, both included, is among them, where the years have four digits.
pub proof fn law_trip_keys_between(
    db: JournalDb,
    begin: i64,
    end: i64,
    r: Vec<(String, i64)>,
    key: (Seq<char>, i64),
    i: int,
    t: i64,
)
    requires
        call_ensures(JournalDb::trip_keys_between, (&db, begin, end), r),
        calendar::four_digit_year(begin as int),
        calendar::four_digit_year(end as int),
    ensures
        order::views(r@).contains(key) ==> exists|k: int|
            0 <= k < db@.trips.len() && (#[trigger] db@.trips[k]).0.0 == key.0
                && calendar::iso_seconds(db@.trips[k].0.1) == Some(key.1) && !text::text_lt(
                db@.trips[k].0.1,
                calendar::iso_text(begin),
            ) && !text::text_lt(calendar::iso_text(end), db@.trips[k].0.1),
        0 <= i < db@.trips.len() && db@.trips[i].0.1 == calendar::iso_text(t) && begin <= t <= end
            ==> order::views(r@).contains((db@.trips[i].0.0, t)),
{
    lemma_keys_between(
        db@.trips,
        calendar::iso_text(begin),
        calendar::iso_text(end),
        key,
    );
    if 0 <= i < db@.trips.len() && db@.trips[i].0.1 == calendar::iso_text(t) && begin <= t <= end {
        let text = calendar::iso_text(t);
        assert(db@.trips[i].0.1 == text);
    }
}

proof fn lemma_started(rows: Seq<((UtcDay, u32), Seq<char>)>, day: UtcDay)
    ensures
        started_days(rows).contains(day) <==> slices_on(rows, day) > 0,
    decreases rows.len(),
{
    if rows.len() > 0 {
        let front = rows.drop_last();
        lemma_started(front, day);
        let all = started_days(rows);
        let some = started_days(front);
        let last = rows.last().0.0;
        if some.contains(day) {
            let k = choose|k: int| 0 <= k < some.len() && some[k] == day;
            assert(all[k] == day);
        }
        if last == day && !some.contains(day) {
            assert(all[all.len() - 1] == day);
        }
        if all.contains(day) && last != day {
            let k = choose|k: int| 0 <= k < all.len() && all[k] == day;
            assert(some[k] == day);
        }
    }
}

proof fn lemma_complete_listed(
    rows: Seq<((UtcDay, u32), Seq<char>)>,
    days: Seq<UtcDay>,
    t: Seq<char>,
)
    ensures
        complete_listed(rows, days).contains(t) <==> exists|i: int|
            0 <= i < days.len() && (#[trigger] days[i]).text() == t && slices_on(rows, days[i]) >= 12,
    decreases days.len(),
{
    if days.len() > 0 {
        let front = days.drop_last();
        lemma_complete_listed(rows, front, t);
        let all = complete_listed(rows, days);
        let some = complete_listed(rows, front);
        assert(days[days.len() - 1] == days.last());
        if all.contains(t) {
            let k = choose|k: int| 0 <= k < all.len() && all[k] == t;
            if k < some.len() {
                assert(some[k] == t);
                let i = choose|i: int|
                    0 <= i < front.len() && (#[trigger] front[i]).text() == t && slices_on(
                        rows,
                        front[i],
                    ) >= 12;
                assert(days[i] == front[i]);
            }
        }
        if exists|i: int|
            0 <= i < days.len() && (#[trigger] days[i]).text() == t && slices_on(rows, days[i])
                >= 12 {
            let i = choose|i: int|
                0 <= i < days.len() && (#[trigger] days[i]).text() == t && slices_on(rows, days[i])
                    >= 12;
            if i < front.len() {
                assert(front[i] == days[i]);
                let k = choose|k: int| 0 <= k < some.len() && some[k] == t;
                assert(all[k] == t);
            } else {
                assert(all[all.len() - 1] == t);
            }
        }
    }
}

proof fn lemma_incomplete_listed(
    rows: Seq<((UtcDay, u32), Seq<char>)>,
    days: Seq<UtcDay>,
    e: (Seq<char>, u64),
)
    ensures
        incomplete_listed(rows, days).contains(e) <==> exists|i: int|
            0 <= i < days.len() && (#[trigger] days[i]).text() == e.0 && slices_on(rows, days[i]) < 12
                && e.1 == slices_on(rows, days[i]),
    decreases days.len(),
{
    if days.len() > 0 {
        let front = days.drop_last();
        lemma_incomplete_listed(rows, front, e);
        let all = incomplete_listed(rows, days);
        let some = incomplete_listed(rows, front);
        assert(days[days.len() - 1] == days.last());
        if all.contains(e) {
            let k = choose|k: int| 0 <= k < all.len() && all[k] == e;
            if k < some.len() {
                assert(some[k] == e);
                let i = choose|i: int|
                    0 <= i < front.len() && (#[trigger] front[i]).text() == e.0 && slices_on(
                        rows,
                        front[i],
                    ) < 12 && e.1 == slices_on(rows, front[i]);
                assert(days[i] == front[i]);
            }
        }
        if exists|i: int|
            0 <= i < days.len() && (#[trigger] days[i]).text() == e.0 && slices_on(rows, days[i]) < 12
                && e.1 == slices_on(rows, days[i]) {
            let i = choose|i: int|
                0 <= i < days.len() && (#[trigger] days[i]).text() == e.0 && slices_on(rows, days[i])
                    < 12 && e.1 == slices_on(rows, days[i]);
            if i < front.len() {
                assert(front[i] == days[i]);
                let k = choose|k: int| 0 <= k < some.len() && some[k] == e;
                assert(all[k] == e);
            } else {
                assert(all[all.len() - 1] == e);
            }
        }
    }
}

proof fn lemma_errors_listed(rows: Seq<(UtcDay, DayView)>, e: (Seq<char>, Seq<char>))
    ensures
        errors_listed(rows).contains(e) <==> exists|i: int|
            0 <= i < rows.len() && (#[trigger] rows[i]).0.text() == e.0 && rows[i].1.last_error
                == Some(e.1) && e.1.len() > 0,
    decreases rows.len(),
{
    if rows.len() > 0 {
        let front = rows.drop_last();
        lemma_errors_listed(front, e);
        let all = errors_listed(rows);
        let some = errors_listed(front);
        assert(rows[rows.len() - 1] == rows.last());
        if all.contains(e) {
            let k = choose|k: int| 0 <= k < all.len() && all[k] == e;
            if k < some.len() {
                assert(some[k] == e);
                let i = choose|i: int|
                    0 <= i < front.len() && (#[trigger] front[i]).0.text() == e.0
                        && front[i].1.last_error == Some(e.1) && e.1.len() > 0;
                assert(rows[i] == front[i]);
            }
        }
        if exists|i: int|
            0 <= i < rows.len() && (#[trigger] rows[i]).0.text() == e.0 && rows[i].1.last_error
                == Some(e.1) && e.1.len() > 0 {
            let i = choose|i: int|
                0 <= i < rows.len() && (#[trigger] rows[i]).0.text() == e.0 && rows[i].1.last_error
                    == Some(e.1) && e.1.len() > 0;
            if i < front.len() {
                assert(front[i] == rows[i]);
                let k = choose|k: int| 0 <= k < some.len() && some[k] == e;
                assert(all[k] == e);
            } else {
                assert(all[all.len() - 1] == e);
            }
        }
    }
}

proof fn lemma_last_text(s: Seq<Seq<char>>)
    ensures
        last_text(s) is None <==> s.len() == 0,
        last_text(s) matches Some(t) ==> s.contains(t) && forall|i: int|
            0 <= i < s.len() ==> !text::text_lt(t, #[trigger] s[i]),
    decreases s.len(),
{
    if s.len() > 0 {
        let front = s.drop_last();
        lemma_last_text(front);
        let t = last_text(s)->0;
        assert(s[s.len() - 1] == s.last());
        text::lemma_text_lt_irreflexive(s.last());
        if let Some(f) = last_text(front) {
            let k = choose|k: int| 0 <= k < front.len() && front[k] == f;
            assert(s[k] == f);
            text::lemma_text_lt_total(f, s.last());
            assert forall|i: int| 0 <= i < s.len() implies !text::text_lt(t, #[trigger] s[i]) by {
                if i < front.len() {
                    assert(front[i] == s[i]);
                    assert(!text::text_lt(f, s[i]));
                    if t == s.last() && t != f && text::text_lt(t, s[i]) {
                        text::lemma_text_lt_transitive(f, t, s[i]);
                    }
                }
            }
        }
    }
}

/// What the status tells of days: the last complete day is one of twelve complete slices or more, and
/// of no such day is the text later; a day is in progress with a count exactly where it has that many
/// complete slices, more than none and less than twelve; and a day has an error exactly where one that
/// is not empty stands on it. It tells the fleet by its first row, and counts the trips.
pub proof fn law_status(
    db: JournalDb,
    path: &str,
    r: JournalStatus,
    day: UtcDay,
    e: Seq<char>,
)
    requires
        call_ensures(JournalDb::status, (&db, path), r),
        db@.slices_done(day) <= u64::MAX,
    ensures
        r.path@ == path@,
        r.trips == db@.trips.len() && r.fleet_hexes == db@.fleet.len(),
        db@.fleet.len() == 0 ==> r.snapshot_as_of is None && r.recorded_at is None,
        db@.fleet.len() > 0 ==> text::opt_view(r.snapshot_as_of) == Some(
            db@.fleet[0].1.snapshot_as_of,
        ) && text::opt_view(r.recorded_at) == Some(db@.fleet[0].1.recorded_at),
        db@.slices_done(day) >= 12 ==> (r.flights_all_complete_max matches Some(t) && !text::text_lt(
            t@,
            day.text(),
        )),
        r.flights_all_complete_max matches Some(t) ==> exists|d: UtcDay|
            #[trigger] db@.slices_done(d) >= 12 && d.text() == t@,
        0 < db@.slices_done(day) < 12 ==> order::views(r.flights_all_incomplete@).contains(
            (day.text(), db@.slices_done(day) as u64),
        ),
        forall|x: (Seq<char>, u64)| #[trigger]
            order::views(r.flights_all_incomplete@).contains(x) ==> exists|d: UtcDay|
                0 < #[trigger] db@.slices_done(d) < 12 && x == (d.text(), db@.slices_done(d) as u64),
        e.len() > 0 && (exists|i: int|
            0 <= i < db@.days.len() && (#[trigger] db@.days[i]).0 == day && db@.days[i].1.last_error
                == Some(e)) ==> order::views(r.flights_all_errors@).contains((day.text(), e)),
        forall|x: (Seq<char>, Seq<char>)| #[trigger]
            order::views(r.flights_all_errors@).contains(x) ==> x.1.len() > 0 && exists|i: int|
                0 <= i < db@.days.len() && (#[trigger] db@.days[i]).0.text() == x.0
                    && db@.days[i].1.last_error == Some(x.1),
{
    broadcast use vstd::seq_lib::group_to_multiset_ensures;

    let rows = db@.slices;
    let days = started_days(rows);
    let complete = complete_listed(rows, days);
    let incomplete = incomplete_listed(rows, days);
    let errors = errors_listed(db@.days);
    lemma_last_text(complete);
    order::law_sorted::<(String, u64)>(incomplete);
    order::law_sorted::<(String, String)>(errors);
    lemma_started(rows, day);
    if slices_on(rows, day) > 0 {
        let i = choose|i: int| 0 <= i < days.len() && days[i] == day;
        assert(days[i].text() == day.text());
        lemma_complete_listed(rows, days, day.text());
        lemma_incomplete_listed(rows, days, (day.text(), slices_on(rows, day) as u64));
    }
    if db@.slices_done(day) >= 12 {
        assert(complete.contains(day.text()));
        let k = choose|k: int| 0 <= k < complete.len() && complete[k] == day.text();
        assert(complete[k] == day.text());
    }
    if let Some(t) = r.flights_all_complete_max {
        lemma_complete_listed(rows, days, t@);
        let i = choose|i: int|
            0 <= i < days.len() && (#[trigger] days[i]).text() == t@ && slices_on(rows, days[i])
                >= 12;
        assert(db@.slices_done(days[i]) >= 12);
    }
    let shown = order::views(r.flights_all_incomplete@);
    assert forall|x: (Seq<char>, u64)| incomplete.contains(x) == #[trigger] shown.contains(x) by {
        assert(shown.to_multiset().count(x) == incomplete.to_multiset().count(x));
    }
    assert forall|x: (Seq<char>, u64)| #[trigger] shown.contains(x) implies exists|d: UtcDay|
        0 < #[trigger] db@.slices_done(d) < 12 && x == (d.text(), db@.slices_done(d) as u64) by {
        lemma_incomplete_listed(rows, days, x);
        let i = choose|i: int|
            0 <= i < days.len() && (#[trigger] days[i]).text() == x.0 && slices_on(rows, days[i])
                < 12 && x.1 == slices_on(rows, days[i]);
        lemma_started(rows, days[i]);
        assert(days.contains(days[i]));
        assert(0 < db@.slices_done(days[i]) < 12);
    }
    let told = order::views(r.flights_all_errors@);
    assert forall|x: (Seq<char>, Seq<char>)| errors.contains(x) == #[trigger] told.contains(x) by {
        assert(told.to_multiset().count(x) == errors.to_multiset().count(x));
    }
    assert forall|x: (Seq<char>, Seq<char>)| #[trigger] told.contains(x) implies x.1.len() > 0
        && exists|i: int|
        0 <= i < db@.days.len() && (#[trigger] db@.days[i]).0.text() == x.0
            && db@.days[i].1.last_error == Some(x.1) by {
        lemma_errors_listed(db@.days, x);
    }
    lemma_errors_listed(db@.days, (day.text(), e));
}

/// What the journal hands out: a trip as it stands under its aircraft and departure, whether an
/// aircraft is of the snapshot, and when it was first seen on a day.
pub proof fn law_journal_hands_out(
    db: JournalDb,
    icao24: &str,
    dep_ts: &str,
    date: UtcDay,
    trip: Option<TripRow>,
    mapped: bool,
    seen: Option<String>,
    trips: u64,
)
    requires
        call_ensures(JournalDb::get_trip, (&db, icao24, dep_ts), trip),
        call_ensures(JournalDb::in_fleet, (&db, icao24), mapped),
        call_ensures(JournalDb::first_seen_at, (&db, icao24, date), seen),
        call_ensures(JournalDb::trip_count, (&db,), trips),
    ensures
        trip is Some <==> table::row_of(db@.trips, (icao24@, dep_ts@)) is Some,
        trip matches Some(t) ==> table::row_of(db@.trips, (icao24@, dep_ts@)) == Some(t@),
        mapped <==> table::row_of(db@.fleet, icao24@) is Some,
        seen is Some <==> table::row_of(db@.seen, (icao24@, date)) is Some,
        seen matches Some(t) ==> table::row_of(db@.seen, (icao24@, date)) == Some(t@),
        trips == db@.trips.len(),
{
}

/// What the journal tells of days: where it starts to collect, whether a slice or a day is complete,
/// how many slices are, and which aircraft were seen airborne, in order.
pub proof fn law_journal_tells_of_days(
    db: JournalDb,
    day: UtcDay,
    slice_idx: u32,
    n_slices: u32,
    lookback_days: u64,
    start: UtcDay,
    slice: bool,
    done: u32,
    complete: bool,
    started: bool,
    seen: Vec<String>,
)
    requires
        call_ensures(
            JournalDb::default_opensky_collect_from,
            (&db, day, n_slices, lookback_days),
            start,
        ),
        call_ensures(JournalDb::flights_all_slice_complete, (&db, day, slice_idx), slice),
        call_ensures(JournalDb::flights_all_slices_done, (&db, day), done),
        call_ensures(JournalDb::flights_all_day_complete, (&db, day, n_slices), complete),
        call_ensures(JournalDb::has_slices_on, (&db, day), started),
        call_ensures(JournalDb::seen_airborne_on, (&db, day), seen),
    ensures
        db@.starts_from(start, day, n_slices, lookback_days),
        slice <==> table::row_of(db@.slices, (day, slice_idx)) is Some,
        db@.slices_done(day) <= u32::MAX ==> done == db@.slices_done(day) && (complete <==> done
            >= n_slices),
        started <==> db@.day_started(day),
        order::views(seen@) == order::sorted::<String>(hexes_seen(db@.seen, day)),
{
}

/// A fleet snapshot is taken where no two rows are of one aircraft, and refused where two are.
pub proof fn law_snapshot_of_distinct_aircraft(rows: Seq<FleetRow>)
    ensures
        hexes_distinct(rows) <==> forall|i: int, j: int|
            0 <= i < j < rows.len() ==> (#[trigger] rows[i]).icao24@ != (#[trigger] rows[j]).icao24@,
{
    if forall|i: int, j: int|
        0 <= i < j < rows.len() ==> (#[trigger] rows[i]).icao24@ != (#[trigger] rows[j]).icao24@ {
        assert forall|i: int, j: int|
            0 <= i < rows.len() && 0 <= j < rows.len() && #[trigger] rows[i].icao24@
                == #[trigger] rows[j].icao24@ implies i == j by {
            if i < j {
                assert(rows[i].icao24@ != rows[j].icao24@);
            } else if j < i {
                assert(rows[j].icao24@ != rows[i].icao24@);
            }
        }
    }
}

} // verus!
