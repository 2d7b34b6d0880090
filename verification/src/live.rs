//! Live positions: ground, then airborne, then ground is a trip.

use crate::calendar::UtcInstant;
use crate::collect;
use crate::double;
use crate::double::Double;
use crate::fleet::FleetRow;
use crate::json;
use crate::json::{Json, JsonTree};
use crate::opensky_client::NotJson;
use crate::order;
use crate::store::TripSource;
use crate::table;
use crate::table::Table;
use crate::text;
use vstd::prelude::*;

verus! {

/// The bits of 100.0: up to this many feet an aircraft may be on the ground.
pub const LOW_ALT_FT_BITS: u64 = 0x4059_0000_0000_0000;

/// The bits of 40.0: from this many knots on a low aircraft flies.
pub const FLYING_GS_KT_BITS: u64 = 0x4044_0000_0000_0000;

#[derive(Debug, Clone, Copy, PartialEq, Eq, Structural)]
pub enum LiveAlt {
    Ground,
    Feet(Double),
}

#[derive(Debug)]
pub struct LiveAircraft {
    pub hex: String,
    pub lat: Option<Double>,
    pub lon: Option<Double>,
    pub alt_baro: Option<LiveAlt>,
    pub gs: Option<Double>,
}

#[derive(Debug)]
pub struct CompletedLiveTrip {
    pub icao24: String,
    pub n_number: String,
    pub ticker: String,
    pub cik: Option<String>,
    pub dep_ts: UtcInstant,
    pub arr_ts: UtcInstant,
    pub dep_lat: Double,
    pub dep_lon: Double,
    pub arr_lat: Double,
    pub arr_lon: Double,
    pub source: TripSource,
}

#[verifier::ext_equal]
pub struct LiveTripView {
    pub icao24: Seq<char>,
    pub n_number: Seq<char>,
    pub ticker: Seq<char>,
    pub cik: Option<Seq<char>>,
    pub dep_ts: UtcInstant,
    pub arr_ts: UtcInstant,
    pub dep_lat: Double,
    pub dep_lon: Double,
    pub arr_lat: Double,
    pub arr_lon: Double,
    pub source: TripSource,
}

impl View for CompletedLiveTrip {
    type V = LiveTripView;

    open spec fn view(&self) -> LiveTripView {
        LiveTripView {
            icao24: self.icao24@,
            n_number: self.n_number@,
            ticker: self.ticker@,
            cik: text::opt_view(self.cik),
            dep_ts: self.dep_ts,
            arr_ts: self.arr_ts,
            dep_lat: self.dep_lat,
            dep_lon: self.dep_lon,
            arr_lat: self.arr_lat,
            arr_lon: self.arr_lon,
            source: self.source,
        }
    }
}

/// What is known of an aircraft.
#[derive(Debug, Clone, Copy, PartialEq, Eq, Structural)]
pub enum Phase {
    Unknown,
    Ground,
    Airborne { dep_ts: UtcInstant, dep_lat: Double, dep_lon: Double },
}

impl View for Phase {
    type V = Phase;

    open spec fn view(&self) -> Phase {
        *self
    }
}

/// A ground speed that only a flying aircraft has.
pub open spec fn fast(gs: Option<Double>) -> bool {
    gs matches Some(g) && Double { bits: FLYING_GS_KT_BITS }.le(g)
}

/// Whether an aircraft flies: not on the ground, and fast where it is low or its altitude is not
/// known.
pub open spec fn airborne(s: LiveAircraft) -> bool {
    match s.alt_baro {
        Some(LiveAlt::Ground) => false,
        Some(LiveAlt::Feet(ft)) => !ft.le(Double { bits: LOW_ALT_FT_BITS }) || fast(s.gs),
        None => fast(s.gs),
    }
}

fn is_fast(gs: Option<Double>) -> (r: bool)
    ensures
        r == fast(gs),
{
    match gs {
        Some(g) => Double { bits: FLYING_GS_KT_BITS }.at_most(g),
        None => false,
    }
}

/// Whether an aircraft flies.
pub fn is_airborne(s: &LiveAircraft) -> (r: bool)
    ensures
        r == airborne(*s),
{
    match s.alt_baro {
        Some(LiveAlt::Ground) => false,
        Some(LiveAlt::Feet(ft)) => if ft.at_most(Double { bits: LOW_ALT_FT_BITS }) {
            is_fast(s.gs)
        } else {
            true
        },
        None => is_fast(s.gs),
    }
}

/// Where an aircraft is, if it says so.
pub open spec fn position(s: LiveAircraft) -> Option<(Double, Double)> {
    match (s.lat, s.lon) {
        (Some(lat), Some(lon)) => Some((lat, lon)),
        _ => None,
    }
}

/// What is known of an aircraft after a sample.
pub open spec fn next_phase(
    phase: Phase,
    flies: bool,
    at: Option<(Double, Double)>,
    now: UtcInstant,
) -> Phase {
    match (phase, at) {
        (Phase::Airborne { .. }, Some(_)) => if flies {
            phase
        } else {
            Phase::Ground
        },
        (Phase::Airborne { .. }, None) => phase,
        (Phase::Unknown, None) => if flies {
            phase
        } else {
            Phase::Ground
        },
        (Phase::Ground, None) => phase,
        (_, Some((lat, lon))) => if flies {
            Phase::Airborne { dep_ts: now, dep_lat: lat, dep_lon: lon }
        } else {
            Phase::Ground
        },
    }
}

/// The trip that a sample completes: that of an airborne aircraft now on the ground.
pub open spec fn completed(
    phase: Phase,
    flies: bool,
    at: Option<(Double, Double)>,
    now: UtcInstant,
    hex: Seq<char>,
    row: FleetRow,
) -> Option<LiveTripView> {
    match (phase, at) {
        (Phase::Airborne { dep_ts, dep_lat, dep_lon }, Some((lat, lon))) => if !flies {
            Some(
                LiveTripView {
                    icao24: hex,
                    n_number: row.n_number@,
                    ticker: row.ticker@,
                    cik: text::opt_view(row.cik),
                    dep_ts,
                    arr_ts: now,
                    dep_lat,
                    dep_lon,
                    arr_lat: lat,
                    arr_lon: lon,
                    source: TripSource::AdsBxLive,
                },
            )
        } else {
            None
        },
        _ => None,
    }
}

/// What is known of an aircraft, nothing where it was not seen.
pub open spec fn phase_of(phases: Seq<(Seq<char>, Phase)>, hex: Seq<char>) -> Phase {
    match table::row_of(phases, hex) {
        Some(p) => p,
        None => Phase::Unknown,
    }
}

/// What is known after samples, and the trips that they complete. A sample of an aircraft that is
/// not in the fleet changes nothing.
pub open spec fn after_samples(
    phases: Seq<(Seq<char>, Phase)>,
    rows: Seq<FleetRow>,
    samples: Seq<LiveAircraft>,
    now: UtcInstant,
) -> (Seq<(Seq<char>, Phase)>, Seq<LiveTripView>)
    decreases samples.len(),
{
    if samples.len() == 0 {
        (phases, Seq::empty())
    } else {
        let (known, trips) = after_samples(phases, rows, samples.drop_last(), now);
        let s = samples.last();
        let hex = text::lower(s.hex@);
        match collect::row_for(rows, hex) {
            None => (known, trips),
            Some(row) => {
                let phase = phase_of(known, hex);
                (
                    table::with_row(known, hex, next_phase(phase, airborne(s), position(s), now)),
                    match completed(phase, airborne(s), position(s), now, hex, row) {
                        Some(t) => trips.push(t),
                        None => trips,
                    },
                )
            },
        }
    }
}

pub struct LiveTracker {
    phases: Table<String, Phase>,
    fleet: Vec<FleetRow>,
}

impl LiveTracker {
    /// What is known of each aircraft.
    pub closed spec fn phases(&self) -> Seq<(Seq<char>, Phase)> {
        self.phases@
    }

    pub closed spec fn fleet(&self) -> Seq<FleetRow> {
        self.fleet@
    }

    pub closed spec fn wf(&self) -> bool {
        self.phases.wf()
    }

    /// A tracker that knows nothing of the fleet yet.
    pub fn new(fleet: Vec<FleetRow>) -> (r: LiveTracker)
        ensures
            r.wf(),
            r.fleet() == fleet@,
            r.phases() == Seq::<(Seq<char>, Phase)>::empty(),
    {
        LiveTracker { phases: Table::new(), fleet }
    }

    /// Takes the samples of one poll and hands out the trips that they complete. An aircraft that
    /// the poll missed stays as it was.
    pub fn ingest(&mut self, samples: &Vec<LiveAircraft>, now: UtcInstant) -> (r: Vec<
        CompletedLiveTrip,
    >)
        requires
            old(self).wf(),
        ensures
            final(self).wf(),
            final(self).fleet() == old(self).fleet(),
            final(self).phases() == after_samples(
                old(self).phases(),
                old(self).fleet(),
                samples@,
                now,
            ).0,
            order::views(r@) == after_samples(
                old(self).phases(),
                old(self).fleet(),
                samples@,
                now,
            ).1,
    {
        let mut done: Vec<CompletedLiveTrip> = Vec::new();
        let mut i: usize = 0;
        proof {
            assert(order::views(done@) =~= Seq::<LiveTripView>::empty());
        }
        while i < samples.len()
            invariant
                0 <= i <= samples@.len(),
                self.wf(),
                self.fleet@ == old(self).fleet@,
                self.phases@ == after_samples(
                    old(self).phases@,
                    old(self).fleet@,
                    samples@.take(i as int),
                    now,
                ).0,
                order::views(done@) == after_samples(
                    old(self).phases@,
                    old(self).fleet@,
                    samples@.take(i as int),
                    now,
                ).1,
            decreases samples@.len() - i,
        {
            let s = &samples[i];
            let ghost trips = order::views(done@);
            proof {
                assert(samples@.take(i + 1).drop_last() =~= samples@.take(i as int));
            }
            let hex = text::to_lower(s.hex.as_str());
            if let Some(row) = collect::find_row(&self.fleet, hex.as_str()) {
                let flies = is_airborne(s);
                let phase: Phase = match self.phases.get(&hex) {
                    Some(p) => *p,
                    None => Phase::Unknown,
                };
                let mut next = phase;
                match (phase, s.lat, s.lon) {
                    (Phase::Airborne { dep_ts, dep_lat, dep_lon }, Some(lat), Some(lon)) => {
                        if !flies {
                            let trip = CompletedLiveTrip {
                                icao24: hex.clone(),
                                n_number: row.n_number.clone(),
                                ticker: row.ticker.clone(),
                                cik: text::clone_text(&row.cik),
                                dep_ts,
                                arr_ts: now,
                                dep_lat,
                                dep_lon,
                                arr_lat: lat,
                                arr_lon: lon,
                                source: TripSource::AdsBxLive,
                            };
                            let ghost t = trip@;
                            done.push(trip);
                            proof {
                                assert(order::views(done@) =~= trips.push(t));
                            }
                            next = Phase::Ground;
                        }
                    },
                    (Phase::Airborne { .. }, _, _) => {},
                    (_, Some(lat), Some(lon)) => {
                        next = if flies {
                            Phase::Airborne { dep_ts: now, dep_lat: lat, dep_lon: lon }
                        } else {
                            Phase::Ground
                        };
                    },
                    (Phase::Unknown, _, _) => {
                        if !flies {
                            next = Phase::Ground;
                        }
                    },
                    (Phase::Ground, _, _) => {},
                }
                self.phases.put(hex, next);
            }
            i += 1;
        }
        proof {
            assert(samples@.take(i as int) =~= samples@);
        }
        done
    }
}

/// An aircraft that a poll missed stays as it was: an open leg is not closed by a missed poll.
pub proof fn law_missed_poll_changes_nothing(
    phases: Seq<(Seq<char>, Phase)>,
    rows: Seq<FleetRow>,
    samples: Seq<LiveAircraft>,
    now: UtcInstant,
    hex: Seq<char>,
)
    requires
        table::keys_unique(phases),
        forall|i: int| 0 <= i < samples.len() ==> text::lower((#[trigger] samples[i]).hex@) != hex,
    ensures
        table::keys_unique(after_samples(phases, rows, samples, now).0),
        phase_of(after_samples(phases, rows, samples, now).0, hex) == phase_of(phases, hex),
        forall|i: int|
            0 <= i < after_samples(phases, rows, samples, now).1.len() ==> (
            #[trigger] after_samples(phases, rows, samples, now).1[i]).icao24 != hex,
    decreases samples.len(),
{
    if samples.len() > 0 {
        let front = samples.drop_last();
        assert forall|i: int| 0 <= i < front.len() implies text::lower((#[trigger] front[i]).hex@)
            != hex by {
            assert(front[i] == samples[i]);
        }
        law_missed_poll_changes_nothing(phases, rows, front, now, hex);
        let s = samples[samples.len() - 1];
        let h = text::lower(s.hex@);
        assert(h != hex);
        let known = after_samples(phases, rows, front, now).0;
        if collect::row_for(rows, h) is Some {
            table::law_with_row(
                known,
                h,
                next_phase(phase_of(known, h), airborne(s), position(s), now),
            );
        }
    }
}

/// A sample completes a trip exactly where it finds an airborne aircraft on the ground, and the
/// trip runs from where and when it was first airborne to where and when it is now.
pub proof fn law_trip_runs_from_departure(
    phase: Phase,
    flies: bool,
    at: Option<(Double, Double)>,
    now: UtcInstant,
    hex: Seq<char>,
    row: FleetRow,
)
    ensures
        completed(phase, flies, at, now, hex, row) is Some <==> phase is Airborne && !flies && at
            is Some,
        completed(phase, flies, at, now, hex, row) matches Some(t) ==> {
            &&& phase == (Phase::Airborne {
                dep_ts: t.dep_ts,
                dep_lat: t.dep_lat,
                dep_lon: t.dep_lon,
            })
            &&& t.arr_ts == now && at == Some((t.arr_lat, t.arr_lon))
            &&& next_phase(phase, flies, at, now) == Phase::Ground
        },
        phase is Airborne && next_phase(phase, flies, at, now) is Airborne ==> next_phase(
            phase,
            flies,
            at,
            now,
        ) == phase,
{
}

/// What a live document says of an altitude.
pub open spec fn altitude_in(v: JsonTree) -> Option<LiveAlt> {
    match v.get("alt_baro"@) {
        Some(x) => match x.as_str() {
            Some(s) => if text::lower(s) == text::lower("ground"@) {
                Some(LiveAlt::Ground)
            } else {
                None
            },
            None => match x.as_double() {
                Some(ft) => Some(LiveAlt::Feet(ft)),
                None => None,
            },
        },
        None => None,
    }
}

/// The address in an item of a live document; empty where there is none.
pub open spec fn hex_in(v: JsonTree) -> Seq<char> {
    match json::text_at(v, "hex"@) {
        Some(h) => text::lower(h),
        None => Seq::empty(),
    }
}

/// The aircraft is what the item says.
pub open spec fn read_from(a: LiveAircraft, v: JsonTree) -> bool {
    &&& a.hex@ == hex_in(v)
    &&& a.lat == json::double_at(v, "lat"@)
    &&& a.lon == json::double_at(v, "lon"@)
    &&& a.alt_baro == altitude_in(v)
    &&& a.gs == json::double_at(v, "gs"@)
}

/// The items that have an address.
pub open spec fn with_hex(items: Seq<JsonTree>) -> Seq<JsonTree> {
    items.filter(|v: JsonTree| hex_in(v).len() > 0)
}

/// The items of a live document that have an address.
pub open spec fn aircraft_in(v: JsonTree) -> Seq<JsonTree> {
    match json::array_at(v, "ac"@) {
        Some(items) => with_hex(items),
        None => Seq::empty(),
    }
}

fn read_altitude(v: &Json) -> (r: Option<LiveAlt>)
    ensures
        r == altitude_in(v@),
{
    match v.get("alt_baro") {
        Some(x) => match x.as_str() {
            Some(s) => if text::same_ignoring_case(s.as_str(), "ground") {
                Some(LiveAlt::Ground)
            } else {
                None
            },
            None => match x.as_double() {
                Some(ft) => Some(LiveAlt::Feet(ft)),
                None => None,
            },
        },
        None => None,
    }
}

/// The aircraft of a live document.
pub fn live_aircraft(v: &Json) -> (r: Vec<LiveAircraft>)
    ensures
        r@.len() == aircraft_in(v@).len(),
        forall|i: int| 0 <= i < r@.len() ==> read_from(#[trigger] r@[i], aircraft_in(v@)[i]),
{
    let mut out: Vec<LiveAircraft> = Vec::new();
    let items = match v.array_at("ac") {
        Some(a) => a,
        None => {
            return out;
        },
    };
    let ghost all = json::array_at(v@, "ac"@)->0;
    let mut i: usize = 0;
    proof {
        reveal(Seq::filter);
    }
    while i < items.len()
        invariant
            0 <= i <= items@.len(),
            all.len() == items@.len(),
            forall|j: int| 0 <= j < items@.len() ==> (#[trigger] items@[j])@ == all[j],
            out@.len() == with_hex(all.take(i as int)).len(),
            forall|j: int|
                0 <= j < out@.len() ==> read_from(
                    #[trigger] out@[j],
                    with_hex(all.take(i as int))[j],
                ),
        decreases items@.len() - i,
    {
        proof {
            reveal(Seq::filter);
            assert(all.take(i + 1).drop_last() =~= all.take(i as int));
            assert(items@[i as int]@ == all[i as int]);
        }
        let a = &items[i];
        let hex = match a.text_at("hex") {
            Some(h) => text::to_lower(h.as_str()),
            None => String::new(),
        };
        proof {
            assert(hex@ =~= hex_in(all[i as int]));
        }
        if !hex.as_str().is_empty() {
            out.push(
                LiveAircraft {
                    hex,
                    lat: a.double_at("lat"),
                    lon: a.double_at("lon"),
                    alt_baro: read_altitude(a),
                    gs: a.double_at("gs"),
                },
            );
        }
        i += 1;
    }
    proof {
        assert(all.take(i as int) =~= all);
    }
    out
}

/// The aircraft in the body of a live response.
pub fn parse_live_aircraft(body: &[u8]) -> (r: Result<Vec<LiveAircraft>, NotJson>)
    ensures
        match json::json_document(body@) {
            Some(v) => r matches Ok(list) && list@.len() == aircraft_in(v).len() && forall|i: int|
                0 <= i < list@.len() ==> read_from(#[trigger] list@[i], aircraft_in(v)[i]),
            None => r is Err,
        },
{
    match json::parse(body) {
        Some(v) => Ok(live_aircraft(&v)),
        None => Err(NotJson),
    }
}

/// Whether an aircraft flies, in whole feet and knots: not one that says it is on the ground; one at
/// 101 feet or more, whatever its speed; one below 100 feet, or of unknown altitude, exactly where
/// its speed is 40 knots or more.
pub proof fn law_flies_in_feet_and_knots(s: LiveAircraft)
    requires
        s.gs matches Some(g) ==> g.is_number(),
        s.alt_baro matches Some(LiveAlt::Feet(ft)) ==> ft.is_number(),
    ensures
        ({
            let quick = s.gs matches Some(g) && g.whole() >= 40;
            &&& s.alt_baro matches Some(LiveAlt::Ground) ==> !airborne(s)
            &&& s.alt_baro matches Some(LiveAlt::Feet(ft)) ==> {
                &&& ft.whole() > 100 ==> airborne(s)
                &&& ft.whole() < 100 ==> (airborne(s) <==> quick)
                &&& quick ==> airborne(s)
            }
            &&& s.alt_baro is None ==> (airborne(s) <==> quick)
        }),
{
    let knots = Double { bits: FLYING_GS_KT_BITS };
    let feet = Double { bits: LOW_ALT_FT_BITS };
    double::lemma_limit(knots, 40);
    double::lemma_limit(feet, 100);
    if let Some(g) = s.gs {
        assert(g.bits < double::SIGN_BIT ==> (g.whole() < 40 <==> g.lt(knots)));
    }
    if let Some(LiveAlt::Feet(ft)) = s.alt_baro {
        assert(ft.bits < double::SIGN_BIT ==> (ft.whole() < 100 <==> ft.lt(feet)));
        if ft.bits < double::SIGN_BIT && ft.le(feet) {
            double::law_whole_part_keeps_order(ft, feet);
        }
    }
}

/// The columns of a trip that a sample completes: the address that it was found under, the
/// registration, the ticker and the company key of the fleet row, the time and the coordinate at
/// which the aircraft was first airborne, and those of the sample.
pub proof fn law_live_trip_columns(
    dep_ts: UtcInstant,
    dep_lat: Double,
    dep_lon: Double,
    lat: Double,
    lon: Double,
    now: UtcInstant,
    hex: Seq<char>,
    row: FleetRow,
)
    ensures
        completed(
            Phase::Airborne { dep_ts, dep_lat, dep_lon },
            false,
            Some((lat, lon)),
            now,
            hex,
            row,
        ) matches Some(t) && {
            &&& t.icao24 == hex
            &&& t.n_number == row.n_number@
            &&& t.ticker == row.ticker@
            &&& t.cik == match row.cik {
                Some(c) => Some(c@),
                None => None,
            }
            &&& t.dep_ts == dep_ts && t.dep_lat == dep_lat && t.dep_lon == dep_lon
            &&& t.arr_ts == now && t.arr_lat == lat && t.arr_lon == lon
            &&& t.source is AdsBxLive
        },
{
}

/// What is known of an aircraft after a sample of it, case by case: one that flies and says where it
/// is departs there and then, unless it was airborne already; one that does not fly is on the ground,
/// but an airborne one only where it says where it is. One that flies and does not say where it is
/// stays as it was.
pub proof fn law_phases_case_by_case(
    phase: Phase,
    flies: bool,
    at: Option<(Double, Double)>,
    now: UtcInstant,
)
    ensures
        ({
            let next = next_phase(phase, flies, at, now);
            &&& flies && at is None ==> next == phase
            &&& flies && phase is Airborne ==> next == phase
            &&& flies && !(phase is Airborne) ==> (at matches Some((lat, lon)) ==> next
                == (Phase::Airborne { dep_ts: now, dep_lat: lat, dep_lon: lon }))
            &&& !flies && !(phase is Airborne) ==> next is Ground
            &&& !flies && phase is Airborne && at is Some ==> next is Ground
            &&& !flies && phase is Airborne && at is None ==> next == phase
        }),
{
}

/// Where an aircraft is: its latitude and its longitude, where it says both.
pub proof fn law_position(s: LiveAircraft)
    ensures
        position(s) matches Some((lat, lon)) ==> s.lat == Some(lat) && s.lon == Some(lon),
        s.lat is Some && s.lon is Some ==> position(s) is Some,
{
}

/// One more sample: of an aircraft that has no fleet row it changes nothing; of one that has, it
/// changes what is known of that aircraft alone, whatever the case in which the sample has its
/// address, and adds at most one trip, behind all others, with that address.
pub proof fn law_one_more_sample(
    phases: Seq<(Seq<char>, Phase)>,
    rows: Seq<FleetRow>,
    samples: Seq<LiveAircraft>,
    s: LiveAircraft,
    now: UtcInstant,
    other: Seq<char>,
)
    requires
        table::keys_unique(phases),
    ensures
        ({
            let (known, trips) = after_samples(phases, rows, samples, now);
            let (next, more) = after_samples(phases, rows, samples.push(s), now);
            let hex = text::lower(s.hex@);
            let flies = airborne(s);
            &&& table::keys_unique(known) && table::keys_unique(next)
            &&& (forall|i: int| 0 <= i < rows.len() ==> (#[trigger] rows[i]).icao24@ != hex)
                ==> next == known && more == trips
            &&& other != hex ==> phase_of(next, other) == phase_of(known, other)
            &&& collect::row_for(rows, hex) matches Some(row) ==> {
                &&& phase_of(next, hex) == next_phase(phase_of(known, hex), flies, position(s), now)
                &&& more == match completed(
                    phase_of(known, hex),
                    flies,
                    position(s),
                    now,
                    hex,
                    row,
                ) {
                    Some(t) => trips.push(t),
                    None => trips,
                }
            }
            &&& trips.len() <= more.len() <= trips.len() + 1
            &&& forall|i: int| 0 <= i < trips.len() ==> #[trigger] more[i] == trips[i]
            &&& more.len() > trips.len() ==> more.last().icao24 == hex && phase_of(known, hex)
                is Airborne && phase_of(next, hex) is Ground
        }),
{
    let all = samples.push(s);
    assert(all.drop_last() =~= samples);
    let hex = text::lower(s.hex@);
    collect::law_row_for(rows, hex);
    lemma_phases_unique(phases, rows, samples, now);
    let known = after_samples(phases, rows, samples, now).0;
    table::law_with_row(
        known,
        hex,
        next_phase(phase_of(known, hex), airborne(s), position(s), now),
    );
}

proof fn lemma_phases_unique(
    phases: Seq<(Seq<char>, Phase)>,
    rows: Seq<FleetRow>,
    samples: Seq<LiveAircraft>,
    now: UtcInstant,
)
    requires
        table::keys_unique(phases),
    ensures
        table::keys_unique(after_samples(phases, rows, samples, now).0),
    decreases samples.len(),
{
    if samples.len() > 0 {
        lemma_phases_unique(phases, rows, samples.drop_last(), now);
        let s = samples.last();
        let hex = text::lower(s.hex@);
        let known = after_samples(phases, rows, samples.drop_last(), now).0;
        table::law_with_row(
            known,
            hex,
            next_phase(phase_of(known, hex), airborne(s), position(s), now),
        );
    }
}

/// What an item of a live document says: the address under `hex` in lower case, the numbers under
/// `lat`, `lon` and `gs`, and under `alt_baro` a number of feet or the word ground in whatever case.
pub proof fn law_live_item(a: LiveAircraft, v: JsonTree)
    requires
        read_from(a, v),
    ensures
        v.get("hex"@) matches Some(JsonTree::Text(h)) ==> a.hex@ == text::lower(h),
        v.get("lat"@) matches Some(JsonTree::Number(x, _, _)) ==> a.lat == x,
        v.get("lon"@) matches Some(JsonTree::Number(x, _, _)) ==> a.lon == x,
        v.get("gs"@) matches Some(JsonTree::Number(x, _, _)) ==> a.gs == x,
        v.get("lat"@) is None ==> a.lat is None,
        v.get("lon"@) is None ==> a.lon is None,
        v.get("gs"@) is None ==> a.gs is None,
        match v.get("alt_baro"@) {
            Some(JsonTree::Number(Some(ft), _, _)) => a.alt_baro == Some(LiveAlt::Feet(ft)),
            Some(JsonTree::Text(s)) => a.alt_baro == (if text::lower(s) == "ground"@ {
                Some(LiveAlt::Ground)
            } else {
                None
            }),
            _ => a.alt_baro is None,
        },
{
    reveal_strlit("ground");
    assert(text::lower("ground"@) =~= "ground"@);
}

/// The aircraft of a live document are the items under `ac` that have an address, in order: an item
/// put behind counts exactly where it has a text under `hex` that is not empty.
pub proof fn law_live_items_have_addresses(items: Seq<JsonTree>, v: JsonTree)
    ensures
        with_hex(Seq::empty()) == Seq::<JsonTree>::empty(),
        with_hex(items.push(v)) == (if v.get("hex"@) matches Some(JsonTree::Text(h)) && h.len() > 0 {
            with_hex(items).push(v)
        } else {
            with_hex(items)
        }),
        v.get("ac"@) == Some(JsonTree::Array(items)) ==> aircraft_in(v) == with_hex(items),
        v.get("ac"@) is None ==> aircraft_in(v).len() == 0,
{
    reveal(Seq::filter);
    assert(items.push(v).drop_last() =~= items);
}

/// A completed trip is seen column by column as it is held.
pub proof fn law_live_trip_is_seen_as_held(t: CompletedLiveTrip)
    ensures
        t@.icao24 == t.icao24@,
        t@.n_number == t.n_number@,
        t@.ticker == t.ticker@,
        t@.cik == match t.cik {
            Some(c) => Some(c@),
            None => None,
        },
        t@.dep_ts == t.dep_ts && t@.arr_ts == t.arr_ts,
        t@.dep_lat == t.dep_lat && t@.dep_lon == t.dep_lon,
        t@.arr_lat == t.arr_lat && t@.arr_lon == t.arr_lon,
        t@.source == t.source,
{
}

/// Nothing is known of an aircraft before it is seen.
pub proof fn law_unseen_is_unknown(phases: Seq<(Seq<char>, Phase)>, hex: Seq<char>)
    ensures
        (forall|i: int| 0 <= i < phases.len() ==> (#[trigger] phases[i]).0 != hex) ==> phase_of(
            phases,
            hex,
        ) is Unknown,
        table::row_of(phases, hex) matches Some(p) ==> phase_of(phases, hex) == p,
{
    if table::has_key(phases, hex) {
        let i = choose|i: int| table::row_at(phases, hex, i);
        assert(phases[i].0 == hex);
    }
}

} // verus!
