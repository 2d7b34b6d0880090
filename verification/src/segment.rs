//! A daily trace as legs.

use crate::calendar;
use crate::calendar::UtcInstant;
use crate::double;
use crate::double::Double;
use crate::json::{Json, JsonTree};
use crate::text;
use vstd::prelude::*;

verus! {

pub const NEW_LEG_FLAG: u32 = 2;

pub const STALE_FLAG: u32 = 1;

/// The bits of 40.0: below this many knots an aircraft taxies.
pub const TAXI_GS_KT_BITS: u64 = 0x4044_0000_0000_0000;

/// The bits of 100.0: up to this many feet an aircraft may be on the ground.
pub const GROUND_ALT_FT_BITS: u64 = 0x4059_0000_0000_0000;

/// The bits of 900.0: as many seconds on the ground part two legs.
pub const GROUND_DWELL_SECS_BITS: u64 = 0x408c_2000_0000_0000;

#[derive(Debug, Clone, Copy, PartialEq, Eq, Structural)]
pub enum Altitude {
    Feet(Double),
    Ground,
    Unknown,
}

#[derive(Debug, Clone, Copy, PartialEq, Eq, Structural)]
pub struct TracePoint {
    /// Seconds since the beginning of the trace.
    pub seconds: Double,
    pub lat: Option<Double>,
    pub lon: Option<Double>,
    pub altitude: Altitude,
    pub gs: Option<Double>,
    pub flags: u32,
}

#[derive(Debug)]
pub struct TraceFile {
    pub icao: Option<String>,
    /// The beginning of the trace, in seconds since 1970-01-01T00:00:00Z.
    pub timestamp: Double,
    pub trace: Vec<TracePoint>,
}

#[derive(Debug, Clone, Copy, PartialEq, Eq, Structural)]
pub struct Leg {
    pub dep_ts: UtcInstant,
    pub arr_ts: Option<UtcInstant>,
    pub dep_lat: Double,
    pub dep_lon: Double,
    pub arr_lat: Double,
    pub arr_lon: Double,
    /// The last leg of the trace, with the aircraft still airborne.
    pub still_airborne: bool,
    /// The leg began with the new-leg flag, or followed a long stay on the ground.
    pub new_leg_boundary: bool,
}

impl TracePoint {
    /// A ground speed of taxiing; `unsaid` where there is none.
    pub open spec fn slow(self, unsaid: bool) -> bool {
        match self.gs {
            Some(g) => g.lt(Double { bits: TAXI_GS_KT_BITS }),
            None => unsaid,
        }
    }

    /// On the ground: by its altitude, or low or of unknown altitude and slow.
    pub open spec fn ground(self) -> bool {
        match self.altitude {
            Altitude::Ground => true,
            Altitude::Feet(ft) => ft.le(Double { bits: GROUND_ALT_FT_BITS }) && self.slow(true),
            Altitude::Unknown => self.slow(false),
        }
    }

    pub open spec fn stale(self) -> bool {
        self.flags & STALE_FLAG != 0
    }

    pub open spec fn new_leg(self) -> bool {
        self.flags & NEW_LEG_FLAG != 0
    }

    /// A coordinate on the globe.
    pub open spec fn located(self) -> bool {
        self.lat is Some && self.lon is Some && double::on_globe(self.lat->0, self.lon->0)
    }

    fn is_slow(&self, unsaid: bool) -> (r: bool)
        ensures
            r == self.slow(unsaid),
    {
        match self.gs {
            Some(g) => g.less(Double { bits: TAXI_GS_KT_BITS }),
            None => unsaid,
        }
    }
}

pub fn is_ground(p: &TracePoint) -> (r: bool)
    ensures
        r == p.ground(),
{
    match p.altitude {
        Altitude::Ground => true,
        Altitude::Feet(ft) => ft.at_most(Double { bits: GROUND_ALT_FT_BITS }) && p.is_slow(true),
        Altitude::Unknown => p.is_slow(false),
    }
}

pub fn is_stale(p: &TracePoint) -> (r: bool)
    ensures
        r == p.stale(),
{
    p.flags & STALE_FLAG != 0
}

pub fn has_coords(p: &TracePoint) -> (r: bool)
    ensures
        r == p.located(),
{
    match (p.lat, p.lon) {
        (Some(lat), Some(lon)) => double::is_on_globe(lat, lon),
        _ => false,
    }
}

pub fn is_airborne(p: &TracePoint) -> (r: bool)
    ensures
        r == !p.ground(),
{
    !is_ground(p)
}

/// Where the stay on the ground began that reaches up to just before point `i`.
pub open spec fn ground_since(points: Seq<TracePoint>, i: int) -> Option<int>
    decreases i,
{
    if i <= 0 || !points[i - 1].ground() {
        None
    } else {
        match ground_since(points, i - 1) {
            Some(k) => Some(k),
            None => Some(i - 1),
        }
    }
}

/// For each point, where the stay on the ground began that reaches up to just before it.
pub fn ground_anchors(points: &Vec<TracePoint>) -> (r: Vec<Option<usize>>)
    ensures
        r@.len() == points@.len(),
        forall|i: int|
            0 <= i < r@.len() ==> match #[trigger] r@[i] {
                Some(k) => ground_since(points@, i) == Some(k as int) && k < i,
                None => ground_since(points@, i) is None,
            },
{
    let mut out: Vec<Option<usize>> = Vec::new();
    let mut since: Option<usize> = None;
    let mut i: usize = 0;
    while i < points.len()
        invariant
            0 <= i <= points@.len(),
            out@.len() == i,
            match since {
                Some(k) => ground_since(points@, i as int) == Some(k as int) && k < i,
                None => ground_since(points@, i as int) is None,
            },
            forall|j: int|
                0 <= j < i ==> match #[trigger] out@[j] {
                    Some(k) => ground_since(points@, j) == Some(k as int) && k < j,
                    None => ground_since(points@, j) is None,
                },
        decreases points@.len() - i,
    {
        out.push(since);
        if is_ground(&points[i]) {
            if since.is_none() {
                since = Some(i);
            }
        } else {
            since = None;
        }
        i += 1;
    }
    out
}

/// A new leg begins at point `i`: by its flag, or because the aircraft leaves the ground after a
/// long stay. `elapsed[i]` is the time from the beginning of that stay to the point.
pub open spec fn splits_at(points: Seq<TracePoint>, elapsed: Seq<Double>, i: int) -> bool {
    &&& i > 0
    &&& points[i].new_leg() || (ground_since(points, i) is Some && !points[i].ground() && Double {
        bits: GROUND_DWELL_SECS_BITS,
    }.le(elapsed[i]))
}

/// Points `from` up to `to`, and whether they begin a new leg.
#[derive(Debug, Clone, Copy, PartialEq, Eq, Structural)]
pub struct Group {
    pub from: usize,
    pub to: usize,
    pub new_leg_boundary: bool,
}

/// The first `n` points in groups, one for each leg.
pub open spec fn groups(points: Seq<TracePoint>, elapsed: Seq<Double>, n: int) -> Seq<Group>
    decreases n,
{
    if n <= 0 {
        Seq::empty()
    } else {
        let before = groups(points, elapsed, n - 1);
        if before.len() == 0 {
            seq![Group { from: 0, to: n as usize, new_leg_boundary: points[n - 1].new_leg() }]
        } else if splits_at(points, elapsed, n - 1) {
            before.push(Group { from: (n - 1) as usize, to: n as usize, new_leg_boundary: true })
        } else {
            before.update(before.len() - 1, Group { to: n as usize, ..before.last() })
        }
    }
}

/// The points in groups, one for each leg.
pub fn split_groups(points: &Vec<TracePoint>, elapsed: &Vec<Double>) -> (r: Vec<Group>)
    requires
        elapsed@.len() == points@.len(),
    ensures
        r@ == groups(points@, elapsed@, points@.len() as int),
{
    let anchors = ground_anchors(points);
    let mut out: Vec<Group> = Vec::new();
    let mut i: usize = 0;
    while i < points.len()
        invariant
            0 <= i <= points@.len(),
            elapsed@.len() == points@.len(),
            anchors@.len() == points@.len(),
            forall|j: int|
                0 <= j < anchors@.len() ==> match #[trigger] anchors@[j] {
                    Some(k) => ground_since(points@, j) == Some(k as int) && k < j,
                    None => ground_since(points@, j) is None,
                },
            out@ == groups(points@, elapsed@, i as int),
            out@.len() == 0 <==> i == 0,
        decreases points@.len() - i,
    {
        let p = &points[i];
        let flagged = p.flags & NEW_LEG_FLAG != 0;
        proof {
            assert(match anchors@[i as int] {
                Some(k) => ground_since(points@, i as int) == Some(k as int),
                None => ground_since(points@, i as int) is None,
            });
        }
        let n = out.len();
        if n == 0 {
            out.push(Group { from: 0, to: i + 1, new_leg_boundary: flagged });
            proof {
                assert(out@ =~= groups(points@, elapsed@, i + 1));
            }
        } else {
            let dwelt = anchors[i].is_some() && !is_ground(p) && Double {
                bits: GROUND_DWELL_SECS_BITS,
            }.at_most(elapsed[i]);
            if flagged || dwelt {
                out.push(Group { from: i, to: i + 1, new_leg_boundary: true });
            } else {
                let last = out[n - 1];
                out.set(
                    n - 1,
                    Group { from: last.from, to: i + 1, new_leg_boundary: last.new_leg_boundary },
                );
            }
        }
        i += 1;
    }
    out
}

/// The groups part the trace: the first begins with it, the last ends with it, each begins where
/// the one before it has ended, and none is empty. Legs part exactly where a new one begins, and
/// every group but the first begins a new leg; the first does where its first point says so.
pub proof fn law_groups_part_the_trace(points: Seq<TracePoint>, elapsed: Seq<Double>, n: int)
    requires
        0 <= n <= usize::MAX,
    ensures
        ({
            let g = groups(points, elapsed, n);
            &&& g.len() == 0 <==> n == 0
            &&& n > 0 ==> g.first().from == 0 && g.last().to == n
            &&& n > 0 ==> g.first().new_leg_boundary == points[0].new_leg()
            &&& forall|k: int| 0 <= k < g.len() ==> (#[trigger] g[k]).from < g[k].to
            &&& forall|k: int| 0 < k < g.len() ==> (#[trigger] g[k]).from == g[k - 1].to
            &&& forall|k: int|
                0 < k < g.len() ==> splits_at(points, elapsed, (#[trigger] g[k]).from as int)
                    && g[k].new_leg_boundary
            &&& forall|k: int, i: int|
                0 <= k < g.len() && (#[trigger] g[k]).from < i < g[k].to ==> !#[trigger] splits_at(
                    points,
                    elapsed,
                    i,
                )
        }),
    decreases n,
{
    if n > 0 {
        law_groups_part_the_trace(points, elapsed, n - 1);
        let before = groups(points, elapsed, n - 1);
        let g = groups(points, elapsed, n);
        if before.len() > 0 && !splits_at(points, elapsed, n - 1) {
            assert forall|k: int, i: int|
                0 <= k < g.len() && (#[trigger] g[k]).from < i < g[k].to implies !#[trigger] splits_at(
                points,
                elapsed,
                i,
            ) by {
                assert(before[k].from == g[k].from);
            }
            assert forall|k: int| 0 < k < g.len() implies (#[trigger] g[k]).from == g[k - 1].to by {
                assert(before[k].from == before[k - 1].to);
            }
            assert forall|k: int| 0 < k < g.len() implies splits_at(
                points,
                elapsed,
                (#[trigger] g[k]).from as int,
            ) && g[k].new_leg_boundary by {
                assert(before[k].from == g[k].from);
            }
        } else if before.len() > 0 {
            assert forall|k: int, i: int|
                0 <= k < g.len() && (#[trigger] g[k]).from < i < g[k].to implies !#[trigger] splits_at(
                points,
                elapsed,
                i,
            ) by {
                if k < before.len() {
                    assert(before[k] == g[k]);
                }
            }
            assert forall|k: int| 0 < k < g.len() implies (#[trigger] g[k]).from == g[k - 1].to by {
                if k < before.len() {
                    assert(before[k].from == before[k - 1].to);
                }
            }
            assert forall|k: int| 0 < k < g.len() implies splits_at(
                points,
                elapsed,
                (#[trigger] g[k]).from as int,
            ) && g[k].new_leg_boundary by {
                if k < before.len() {
                    assert(before[k] == g[k]);
                }
            }
        }
    }
}

/// What a point has to be for one end of a leg.
#[derive(Debug, Clone, Copy, PartialEq, Eq, Structural)]
pub enum Wanted {
    /// Located, not stale and airborne.
    Flying,
    /// Located and not stale.
    Fresh,
    /// Located.
    Located,
}

impl Wanted {
    pub open spec fn fits(self, p: TracePoint) -> bool {
        match self {
            Wanted::Flying => !p.stale() && !p.ground() && p.located(),
            Wanted::Fresh => !p.stale() && p.located(),
            Wanted::Located => p.located(),
        }
    }

    fn suits(self, p: &TracePoint) -> (r: bool)
        ensures
            r == self.fits(*p),
    {
        match self {
            Wanted::Flying => !is_stale(p) && is_airborne(p) && has_coords(p),
            Wanted::Fresh => !is_stale(p) && has_coords(p),
            Wanted::Located => has_coords(p),
        }
    }
}

/// The first point from `from` up to `to` that fits.
pub open spec fn first_fit(points: Seq<TracePoint>, from: int, to: int, w: Wanted) -> Option<int>
    decreases to - from,
{
    if from >= to {
        None
    } else if w.fits(points[from]) {
        Some(from)
    } else {
        first_fit(points, from + 1, to, w)
    }
}

/// The last point from `from` up to `to` that fits.
pub open spec fn last_fit(points: Seq<TracePoint>, from: int, to: int, w: Wanted) -> Option<int>
    decreases to - from,
{
    if from >= to {
        None
    } else if w.fits(points[to - 1]) {
        Some(to - 1)
    } else {
        last_fit(points, from, to - 1, w)
    }
}

fn find_first(points: &Vec<TracePoint>, from: usize, to: usize, w: Wanted) -> (r: Option<usize>)
    requires
        from <= to <= points@.len(),
    ensures
        match r {
            Some(k) => first_fit(points@, from as int, to as int, w) == Some(k as int) && from <= k
                < to && w.fits(points@[k as int]),
            None => first_fit(points@, from as int, to as int, w) is None,
        },
{
    let mut i: usize = from;
    while i < to
        invariant
            from <= i <= to <= points@.len(),
            first_fit(points@, from as int, to as int, w) == first_fit(
                points@,
                i as int,
                to as int,
                w,
            ),
        decreases to - i,
    {
        if w.suits(&points[i]) {
            return Some(i);
        }
        i += 1;
    }
    None
}

fn find_last(points: &Vec<TracePoint>, from: usize, to: usize, w: Wanted) -> (r: Option<usize>)
    requires
        from <= to <= points@.len(),
    ensures
        match r {
            Some(k) => last_fit(points@, from as int, to as int, w) == Some(k as int) && from <= k
                < to && w.fits(points@[k as int]),
            None => last_fit(points@, from as int, to as int, w) is None,
        },
{
    let mut i: usize = to;
    while i > from
        invariant
            from <= i <= to <= points@.len(),
            last_fit(points@, from as int, to as int, w) == last_fit(
                points@,
                from as int,
                i as int,
                w,
            ),
        decreases i,
    {
        if w.suits(&points[i - 1]) {
            return Some(i - 1);
        }
        i -= 1;
    }
    None
}

/// Where a leg departs: at its first fresh airborne point, else at its first fresh point, else at
/// its first point that has a coordinate at all.
pub open spec fn departure(points: Seq<TracePoint>, from: int, to: int) -> Option<int> {
    match first_fit(points, from, to, Wanted::Flying) {
        Some(k) => Some(k),
        None => match first_fit(points, from, to, Wanted::Fresh) {
            Some(k) => Some(k),
            None => first_fit(points, from, to, Wanted::Located),
        },
    }
}

/// Where a leg arrives: at its last fresh point, else at its last point that has a coordinate.
pub open spec fn arrival(points: Seq<TracePoint>, from: int, to: int) -> Option<int> {
    match last_fit(points, from, to, Wanted::Fresh) {
        Some(k) => Some(k),
        None => last_fit(points, from, to, Wanted::Located),
    }
}

fn pick_dep(points: &Vec<TracePoint>, from: usize, to: usize) -> (r: Option<usize>)
    requires
        from <= to <= points@.len(),
    ensures
        match r {
            Some(k) => departure(points@, from as int, to as int) == Some(k as int) && from <= k
                < to && points@[k as int].located(),
            None => departure(points@, from as int, to as int) is None,
        },
{
    match find_first(points, from, to, Wanted::Flying) {
        Some(k) => Some(k),
        None => match find_first(points, from, to, Wanted::Fresh) {
            Some(k) => Some(k),
            None => find_first(points, from, to, Wanted::Located),
        },
    }
}

fn pick_arr(points: &Vec<TracePoint>, from: usize, to: usize) -> (r: Option<usize>)
    requires
        from <= to <= points@.len(),
    ensures
        match r {
            Some(k) => arrival(points@, from as int, to as int) == Some(k as int) && from <= k < to
                && points@[k as int].located(),
            None => arrival(points@, from as int, to as int) is None,
        },
{
    match find_last(points, from, to, Wanted::Fresh) {
        Some(k) => Some(k),
        None => find_last(points, from, to, Wanted::Located),
    }
}

/// Some point from `from` up to `to` is airborne.
pub open spec fn any_airborne(points: Seq<TracePoint>, from: int, to: int) -> bool {
    exists|i: int| from <= i < to && !(#[trigger] points[i]).ground()
}

/// The leg of a group: none where the aircraft never left the ground and no new leg began, and none
/// where no point has a coordinate. `clock[i]` is the time of point `i`.
pub open spec fn leg_of(
    points: Seq<TracePoint>,
    clock: Seq<UtcInstant>,
    g: Group,
    last_of_day: bool,
) -> Option<Leg> {
    let dep = departure(points, g.from as int, g.to as int);
    if (!any_airborne(points, g.from as int, g.to as int) && !g.new_leg_boundary) || dep is None {
        None
    } else {
        let d = dep->0;
        let a = match arrival(points, g.from as int, g.to as int) {
            Some(k) => k,
            None => d,
        };
        let still = last_of_day && !points[a].ground();
        Some(
            Leg {
                dep_ts: clock[d],
                arr_ts: if still {
                    None
                } else {
                    Some(clock[a])
                },
                dep_lat: points[d].lat->0,
                dep_lon: points[d].lon->0,
                arr_lat: points[a].lat->0,
                arr_lon: points[a].lon->0,
                still_airborne: still,
                new_leg_boundary: g.new_leg_boundary,
            },
        )
    }
}

fn has_airborne(points: &Vec<TracePoint>, from: usize, to: usize) -> (r: bool)
    requires
        from <= to <= points@.len(),
    ensures
        r == any_airborne(points@, from as int, to as int),
{
    let mut i: usize = from;
    while i < to
        invariant
            from <= i <= to <= points@.len(),
            forall|j: int| from <= j < i ==> (#[trigger] points@[j]).ground(),
        decreases to - i,
    {
        if is_airborne(&points[i]) {
            proof {
                assert(!points@[i as int].ground());
            }
            return true;
        }
        i += 1;
    }
    false
}

/// The leg of a group.
pub fn group_to_leg(
    points: &Vec<TracePoint>,
    clock: &Vec<UtcInstant>,
    g: Group,
    last_of_day: bool,
) -> (r: Option<Leg>)
    requires
        clock@.len() == points@.len(),
        g.from <= g.to <= points@.len(),
    ensures
        r == leg_of(points@, clock@, g, last_of_day),
{
    if !has_airborne(points, g.from, g.to) && !g.new_leg_boundary {
        return None;
    }
    let d = match pick_dep(points, g.from, g.to) {
        Some(k) => k,
        None => {
            return None;
        },
    };
    let a = match pick_arr(points, g.from, g.to) {
        Some(k) => k,
        None => d,
    };
    let still_airborne = last_of_day && is_airborne(&points[a]);
    match (points[d].lat, points[d].lon, points[a].lat, points[a].lon) {
        (Some(dep_lat), Some(dep_lon), Some(arr_lat), Some(arr_lon)) => Some(
            Leg {
                dep_ts: clock[d],
                arr_ts: if still_airborne {
                    None
                } else {
                    Some(clock[a])
                },
                dep_lat,
                dep_lon,
                arr_lat,
                arr_lon,
                still_airborne,
                new_leg_boundary: g.new_leg_boundary,
            },
        ),
        _ => None,
    }
}

/// The legs of the first `n` groups, without those that have none.
pub open spec fn legs_of(
    points: Seq<TracePoint>,
    clock: Seq<UtcInstant>,
    all: Seq<Group>,
    n: int,
) -> Seq<Leg>
    decreases n,
{
    if n <= 0 {
        Seq::empty()
    } else {
        let front = legs_of(points, clock, all, n - 1);
        match leg_of(points, clock, all[n - 1], n == all.len()) {
            Some(leg) => front.push(leg),
            None => front,
        }
    }
}

/// The legs of a daily trace. `clock[i]` is the time of point `i`, and `elapsed[i]` the seconds from
/// the beginning of the stay on the ground that [`ground_anchors`] gives for it to the point.
pub fn segment_legs(file: &TraceFile, elapsed: &Vec<Double>, clock: &Vec<UtcInstant>) -> (r: Vec<
    Leg,
>)
    requires
        elapsed@.len() == file.trace@.len(),
        clock@.len() == file.trace@.len(),
    ensures
        ({
            let all = groups(file.trace@, elapsed@, file.trace@.len() as int);
            r@ == legs_of(file.trace@, clock@, all, all.len() as int)
        }),
{
    let points = &file.trace;
    let all = split_groups(points, elapsed);
    let mut out: Vec<Leg> = Vec::new();
    let mut i: usize = 0;
    proof {
        assert(points@.len() == points.len());
        law_groups_part_the_trace(points@, elapsed@, points@.len() as int);
        lemma_groups_within(points@, elapsed@, points@.len() as int);
    }
    while i < all.len()
        invariant
            0 <= i <= all@.len(),
            clock@.len() == points@.len(),
            all@ == groups(points@, elapsed@, points@.len() as int),
            forall|k: int|
                0 <= k < all@.len() ==> (#[trigger] all@[k]).from <= all@[k].to <= points@.len(),
            out@ == legs_of(points@, clock@, all@, i as int),
        decreases all@.len() - i,
    {
        let last_of_day = i + 1 == all.len();
        if let Some(leg) = group_to_leg(points, clock, all[i], last_of_day) {
            out.push(leg);
        }
        i += 1;
    }
    out
}

proof fn lemma_groups_within(points: Seq<TracePoint>, elapsed: Seq<Double>, n: int)
    requires
        0 <= n <= usize::MAX,
    ensures
        forall|k: int|
            0 <= k < groups(points, elapsed, n).len() ==> (#[trigger] groups(
                points,
                elapsed,
                n,
            )[k]).from <= groups(points, elapsed, n)[k].to <= n,
    decreases n,
{
    if n > 0 {
        lemma_groups_within(points, elapsed, n - 1);
        let before = groups(points, elapsed, n - 1);
        let g = groups(points, elapsed, n);
        assert forall|k: int| 0 <= k < g.len() implies (#[trigger] g[k]).from <= g[k].to <= n by {
            if before.len() > 0 && k < before.len() {
                assert(before[k].from <= before[k].to <= n - 1);
                assert(g[k].from == before[k].from);
            }
        }
    }
}

/// A leg has an arrival time unless the aircraft is still airborne, and that only the leg of the
/// last group can be.
pub proof fn law_only_the_last_leg_is_open(
    points: Seq<TracePoint>,
    clock: Seq<UtcInstant>,
    g: Group,
    last_of_day: bool,
)
    ensures
        leg_of(points, clock, g, last_of_day) matches Some(leg) ==> {
            &&& leg.arr_ts is None <==> leg.still_airborne
            &&& leg.still_airborne ==> last_of_day
            &&& leg.new_leg_boundary == g.new_leg_boundary
        },
{
}

/// The end of the hours in which a leg may go on from the day before.
pub const CONTINUATION_END_SECS: i64 = 7_200;

/// The leg may go on from the day before.
pub open spec fn continues_overnight(first: Leg) -> bool {
    first.dep_ts.seconds % calendar::DAY_SECS < CONTINUATION_END_SECS && !first.new_leg_boundary
}

/// Whether the first leg of a new UTC day closes the open trip of the day before: one that departs
/// before 02:00 and does not begin a new leg.
pub fn is_overnight_continuation(first: &Leg) -> (r: bool)
    ensures
        r == (first.dep_ts.seconds % calendar::DAY_SECS < CONTINUATION_END_SECS
            && !first.new_leg_boundary),
        r == continues_overnight(*first),
{
    let s: i64 = first.dep_ts.seconds;
    let rest: i64 = if s >= 0 {
        s % calendar::DAY_SECS
    } else {
        let short: i64 = (-(s + 1)) % calendar::DAY_SECS;
        calendar::DAY_SECS - 1 - short
    };
    rest < CONTINUATION_END_SECS && !first.new_leg_boundary
}

/// What a cell of a trace says of an altitude.
pub open spec fn altitude_in(v: JsonTree) -> Altitude {
    match v {
        JsonTree::Text(s) => if text::lower(s) == text::lower("ground"@) {
            Altitude::Ground
        } else {
            Altitude::Unknown
        },
        JsonTree::Number(value, _, _) => match value {
            Some(ft) => Altitude::Feet(ft),
            None => Altitude::Unknown,
        },
        _ => Altitude::Unknown,
    }
}

/// The flags in a cell of a trace: its low 32 bits as an unsigned integer.
pub open spec fn flags_in(v: JsonTree) -> nat {
    match v.as_u64() {
        Some(n) => n as nat % 0x1_0000_0000,
        None => match v.as_double() {
            Some(x) => x.whole() % 0x1_0000_0000,
            None => 0,
        },
    }
}

/// The point in a row of a trace: none where the row has less than four cells or no time.
pub open spec fn point_matches(p: Option<TracePoint>, row: JsonTree) -> bool {
    match row.as_array() {
        Some(cells) => if cells.len() < 4 || cells[0].as_double() is None {
            p is None
        } else {
            p matches Some(t) && {
                &&& Some(t.seconds) == cells[0].as_double()
                &&& t.lat == cells[1].as_double()
                &&& t.lon == cells[2].as_double()
                &&& t.altitude == altitude_in(cells[3])
                &&& t.gs == (if cells.len() > 4 {
                    cells[4].as_double()
                } else {
                    None
                })
                &&& t.flags == (if cells.len() > 6 {
                    flags_in(cells[6])
                } else {
                    0
                })
            }
        },
        None => p is None,
    }
}

fn parse_alt(v: &Json) -> (r: Altitude)
    ensures
        r == altitude_in(v@),
{
    match v {
        Json::Text(s) => if text::same_ignoring_case(s.as_str(), "ground") {
            Altitude::Ground
        } else {
            Altitude::Unknown
        },
        Json::Number(value, _, _) => match value {
            Some(ft) => Altitude::Feet(*ft),
            None => Altitude::Unknown,
        },
        _ => Altitude::Unknown,
    }
}

fn parse_flags(v: &Json) -> (r: u32)
    ensures
        r == flags_in(v@),
{
    let n: u64 = match v.as_u64() {
        Some(n) => n,
        None => match v.as_double() {
            Some(x) => x.to_u64(),
            None => 0,
        },
    };
    (n % 0x1_0000_0000) as u32
}

/// The point in a row of a trace.
pub fn parse_point(row: &Json) -> (r: Option<TracePoint>)
    ensures
        point_matches(r, row@),
{
    let cells = match row.as_array() {
        Some(a) => a,
        None => {
            return None;
        },
    };
    if cells.len() < 4 {
        return None;
    }
    let ghost all = row@.as_array()->0;
    proof {
        assert(cells@[0]@ == all[0] && cells@[1]@ == all[1]);
        assert(cells@[2]@ == all[2] && cells@[3]@ == all[3]);
    }
    let seconds = match cells[0].as_double() {
        Some(s) => s,
        None => {
            return None;
        },
    };
    let gs = if cells.len() > 4 {
        proof {
            assert(cells@[4]@ == all[4]);
        }
        cells[4].as_double()
    } else {
        None
    };
    let flags: u32 = if cells.len() > 6 {
        proof {
            assert(cells@[6]@ == all[6]);
        }
        parse_flags(&cells[6])
    } else {
        0
    };
    Some(
        TracePoint {
            seconds,
            lat: cells[1].as_double(),
            lon: cells[2].as_double(),
            altitude: parse_alt(&cells[3]),
            gs,
            flags,
        },
    )
}

/// The rows of a trace that hold a point.
pub open spec fn rows_with_points(rows: Seq<JsonTree>) -> Seq<JsonTree> {
    rows.filter(|row: JsonTree| !point_matches(None, row))
}

/// A trace from what its document says: the address in lower case, and the points of its rows. A row
/// that holds none is passed over.
pub fn parse_trace_json(icao: &Option<String>, timestamp: Double, rows: &Vec<Json>) -> (r: TraceFile)
    ensures
        text::opt_view(r.icao) == match *icao {
            Some(s) => Some(text::lower(s@)),
            None => None,
        },
        r.timestamp == timestamp,
        ({
            let kept = rows_with_points(Seq::new(rows@.len(), |i: int| rows@[i]@));
            &&& r.trace@.len() == kept.len()
            &&& forall|i: int|
                0 <= i < kept.len() ==> point_matches(Some(#[trigger] r.trace@[i]), kept[i])
        }),
{
    let ghost all = Seq::new(rows@.len(), |i: int| rows@[i]@);
    let mut trace: Vec<TracePoint> = Vec::new();
    let mut i: usize = 0;
    proof {
        reveal(Seq::filter);
    }
    while i < rows.len()
        invariant
            0 <= i <= rows@.len(),
            all == Seq::new(rows@.len(), |i: int| rows@[i]@),
            trace@.len() == rows_with_points(all.take(i as int)).len(),
            forall|j: int|
                0 <= j < trace@.len() ==> point_matches(
                    Some(#[trigger] trace@[j]),
                    rows_with_points(all.take(i as int))[j],
                ),
        decreases rows@.len() - i,
    {
        proof {
            reveal(Seq::filter);
            assert(all.take(i + 1).drop_last() =~= all.take(i as int));
        }
        if let Some(p) = parse_point(&rows[i]) {
            trace.push(p);
        }
        i += 1;
    }
    proof {
        assert(all.take(i as int) =~= all);
    }
    let icao = match icao {
        Some(s) => Some(text::to_lower(s.as_str())),
        None => None,
    };
    TraceFile { icao, timestamp, trace }
}

proof fn lemma_first_fit(points: Seq<TracePoint>, from: int, to: int, w: Wanted)
    ensures
        first_fit(points, from, to, w) matches Some(k) ==> from <= k < to && w.fits(points[k])
            && forall|i: int| from <= i < k ==> !w.fits(#[trigger] points[i]),
        first_fit(points, from, to, w) is None ==> forall|i: int|
            from <= i < to ==> !w.fits(#[trigger] points[i]),
    decreases to - from,
{
    if from < to && !w.fits(points[from]) {
        lemma_first_fit(points, from + 1, to, w);
    }
}

proof fn lemma_last_fit(points: Seq<TracePoint>, from: int, to: int, w: Wanted)
    ensures
        last_fit(points, from, to, w) matches Some(k) ==> from <= k < to && w.fits(points[k])
            && forall|i: int| k < i < to ==> !w.fits(#[trigger] points[i]),
        last_fit(points, from, to, w) is None ==> forall|i: int|
            from <= i < to ==> !w.fits(#[trigger] points[i]),
    decreases to - from,
{
    if from < to && !w.fits(points[to - 1]) {
        lemma_last_fit(points, from, to - 1, w);
    }
}

/// A leg departs at one point of its group: its departure time is the clock of the point whose
/// coordinate is its departure coordinate. That point is the first that is fresh, airborne and
/// located; where none is, the first that is fresh and located; where all located points are stale,
/// the first of them. A point is fresh where bit 0 of its flags is not set.
pub proof fn law_leg_departs_at_a_point(
    points: Seq<TracePoint>,
    clock: Seq<UtcInstant>,
    g: Group,
    last_of_day: bool,
)
    ensures
        leg_of(points, clock, g, last_of_day) matches Some(leg) ==> exists|d: int|
            g.from <= d < g.to && {
                &&& (#[trigger] points[d]).lat == Some(leg.dep_lat)
                &&& points[d].lon == Some(leg.dep_lon)
                &&& clock[d] == leg.dep_ts
                &&& points[d].located()
                &&& forall|i: int|
                    g.from <= i < g.to && (#[trigger] points[i]).flags & 1 == 0 && points[i].located()
                        && !points[i].ground() ==> d <= i && points[d].flags & 1 == 0
                        && !points[d].ground()
                &&& forall|i: int|
                    g.from <= i < g.to && (#[trigger] points[i]).flags & 1 == 0 && points[i].located()
                        ==> points[d].flags & 1 == 0 && (d <= i || !points[d].ground())
                &&& forall|i: int|
                    g.from <= i < g.to && (#[trigger] points[i]).located() ==> d <= i
                        || points[d].flags & 1 == 0
            },
{
    lemma_first_fit(points, g.from as int, g.to as int, Wanted::Flying);
    lemma_first_fit(points, g.from as int, g.to as int, Wanted::Fresh);
    lemma_first_fit(points, g.from as int, g.to as int, Wanted::Located);
    if let Some(leg) = leg_of(points, clock, g, last_of_day) {
        let d = departure(points, g.from as int, g.to as int)->0;
        assert(points[d].located());
        assert forall|i: int| g.from <= i < g.to && (#[trigger] points[i]).flags & 1 == 0
            && points[i].located() && !points[i].ground() implies d <= i && points[d].flags & 1 == 0
            && !points[d].ground() by {
            assert(Wanted::Flying.fits(points[i]));
        }
        assert forall|i: int| g.from <= i < g.to && (#[trigger] points[i]).flags & 1 == 0
            && points[i].located() implies points[d].flags & 1 == 0 && (d <= i
            || !points[d].ground()) by {
            assert(Wanted::Fresh.fits(points[i]));
        }
        assert forall|i: int| g.from <= i < g.to && (#[trigger] points[i]).located() implies d <= i
            || points[d].flags & 1 == 0 by {
            assert(Wanted::Located.fits(points[i]));
        }
    }
}

/// A leg arrives at one point of its group: the arrival time of a leg that has landed is the clock
/// of the point whose coordinate is its arrival coordinate. That point is the last that is fresh and
/// located; where all located points are stale, the last of them. The leg is still open exactly
/// where it is the last of the day and that point is airborne.
pub proof fn law_leg_arrives_at_a_point(
    points: Seq<TracePoint>,
    clock: Seq<UtcInstant>,
    g: Group,
    last_of_day: bool,
)
    ensures
        leg_of(points, clock, g, last_of_day) matches Some(leg) ==> exists|a: int|
            g.from <= a < g.to && {
                &&& (#[trigger] points[a]).lat == Some(leg.arr_lat)
                &&& points[a].lon == Some(leg.arr_lon)
                &&& points[a].located()
                &&& leg.arr_ts matches Some(t) ==> t == clock[a]
                &&& leg.arr_ts is None <==> last_of_day && !points[a].ground()
                &&& leg.still_airborne <==> last_of_day && !points[a].ground()
                &&& forall|i: int|
                    g.from <= i < g.to && (#[trigger] points[i]).flags & 1 == 0 && points[i].located()
                        ==> i <= a && points[a].flags & 1 == 0
                &&& forall|i: int|
                    g.from <= i < g.to && (#[trigger] points[i]).located() ==> i <= a
                        || points[a].flags & 1 == 0
            },
{
    lemma_first_fit(points, g.from as int, g.to as int, Wanted::Flying);
    lemma_first_fit(points, g.from as int, g.to as int, Wanted::Fresh);
    lemma_first_fit(points, g.from as int, g.to as int, Wanted::Located);
    lemma_last_fit(points, g.from as int, g.to as int, Wanted::Fresh);
    lemma_last_fit(points, g.from as int, g.to as int, Wanted::Located);
    if let Some(leg) = leg_of(points, clock, g, last_of_day) {
        let d = departure(points, g.from as int, g.to as int)->0;
        assert(Wanted::Located.fits(points[d]));
        let a = arrival(points, g.from as int, g.to as int)->0;
        assert(points[a].located());
        assert forall|i: int| g.from <= i < g.to && (#[trigger] points[i]).flags & 1 == 0
            && points[i].located() implies i <= a && points[a].flags & 1 == 0 by {
            assert(Wanted::Fresh.fits(points[i]));
        }
        assert forall|i: int| g.from <= i < g.to && (#[trigger] points[i]).located() implies i <= a
            || points[a].flags & 1 == 0 by {
            assert(Wanted::Located.fits(points[i]));
        }
    }
}

/// A group has a leg exactly where some point of it is located and either some point is airborne or
/// the group begins a new leg.
pub proof fn law_group_has_a_leg(
    points: Seq<TracePoint>,
    clock: Seq<UtcInstant>,
    g: Group,
    last_of_day: bool,
)
    ensures
        leg_of(points, clock, g, last_of_day) is Some <==> (exists|i: int|
            g.from <= i < g.to && (#[trigger] points[i]).located()) && ((exists|i: int|
            g.from <= i < g.to && !(#[trigger] points[i]).ground()) || g.new_leg_boundary),
        leg_of(points, clock, g, last_of_day) matches Some(leg) ==> leg.new_leg_boundary
            == g.new_leg_boundary,
{
    lemma_first_fit(points, g.from as int, g.to as int, Wanted::Flying);
    lemma_first_fit(points, g.from as int, g.to as int, Wanted::Fresh);
    lemma_first_fit(points, g.from as int, g.to as int, Wanted::Located);
    if exists|i: int| g.from <= i < g.to && (#[trigger] points[i]).located() {
        let i = choose|i: int| g.from <= i < g.to && (#[trigger] points[i]).located();
        assert(Wanted::Located.fits(points[i]));
    }
    if let Some(d) = departure(points, g.from as int, g.to as int) {
        assert(points[d].located());
    }
}

/// What is on the ground, in whole knots and feet: a point that says so; one below 100 feet whose
/// speed is below 40 knots or unsaid; and one of unknown altitude whose speed is below 40 knots.
/// From 40 knots on nothing is but what says so, nor is anything at 101 feet or more, nor what tells
/// neither altitude nor speed. A number below zero counts as low, or slow.
pub proof fn law_ground_in_knots_and_feet(p: TracePoint)
    requires
        p.gs matches Some(g) ==> g.is_number(),
        p.altitude matches Altitude::Feet(ft) ==> ft.is_number(),
    ensures
        p.altitude is Ground ==> p.ground(),
        !(p.altitude is Ground) && (p.gs matches Some(g) && g.whole() >= 40) ==> !p.ground(),
        p.altitude matches Altitude::Feet(ft) ==> {
            &&& ft.whole() < 100 && (p.gs matches Some(g) ==> g.whole() < 40) ==> p.ground()
            &&& ft.whole() > 100 ==> !p.ground()
        },
        p.altitude is Unknown ==> (p.ground() <==> (p.gs matches Some(g) && g.whole() < 40)),
{
    let knots = Double { bits: TAXI_GS_KT_BITS };
    let feet = Double { bits: GROUND_ALT_FT_BITS };
    double::lemma_limit(knots, 40);
    double::lemma_limit(feet, 100);
    if let Some(g) = p.gs {
        assert(g.bits < double::SIGN_BIT ==> (g.whole() < 40 <==> g.lt(knots)));
    }
    if let Altitude::Feet(ft) = p.altitude {
        assert(ft.bits < double::SIGN_BIT ==> (ft.whole() < 100 <==> ft.lt(feet)));
        if ft.bits < double::SIGN_BIT && ft.le(feet) {
            double::law_whole_part_keeps_order(ft, feet);
        }
    }
}

/// Where a leg begins, in flags and whole seconds: at every point but the first with bit 1 of its
/// flags set; and at an airborne point behind a stay on the ground of 900 seconds or more. At no
/// other point: not on the ground, not behind an airborne point, and not after less than 900 seconds.
pub proof fn law_legs_part_in_seconds(points: Seq<TracePoint>, elapsed: Seq<Double>, i: int)
    requires
        0 < i < points.len(),
        elapsed[i].is_number(),
    ensures
        points[i].flags & 2 != 0 ==> splits_at(points, elapsed, i),
        points[i].flags & 2 == 0 ==> (splits_at(points, elapsed, i) <==> points[i - 1].ground()
            && !points[i].ground() && elapsed[i].whole() >= 900),
        !splits_at(points, elapsed, 0),
{
    let dwell = Double { bits: GROUND_DWELL_SECS_BITS };
    double::lemma_limit(dwell, 900);
    let e = elapsed[i];
    assert(e.bits < double::SIGN_BIT ==> (e.whole() < 900 <==> e.lt(dwell)));
}

/// A stay on the ground that reaches up to just before a point began at the first point of an
/// unbroken row of points on the ground; there is none exactly where the point before it is airborne,
/// or where there is no point before it.
pub proof fn law_ground_since(points: Seq<TracePoint>, i: int)
    requires
        0 <= i <= points.len(),
    ensures
        ground_since(points, i) is Some <==> i > 0 && points[i - 1].ground(),
        ground_since(points, i) matches Some(k) ==> {
            &&& 0 <= k < i
            &&& forall|j: int| k <= j < i ==> (#[trigger] points[j]).ground()
            &&& k > 0 ==> !points[k - 1].ground()
        },
    decreases i,
{
    if i > 0 {
        law_ground_since(points, i - 1);
    }
}

proof fn lemma_legs_of(points: Seq<TracePoint>, clock: Seq<UtcInstant>, all: Seq<Group>, n: int)
    requires
        0 <= n <= all.len(),
    ensures
        legs_of(points, clock, all, n).len() <= n,
        forall|j: int|
            0 <= j < legs_of(points, clock, all, n).len() ==> exists|k: int|
                0 <= k < n && leg_of(points, clock, #[trigger] all[k], k + 1 == all.len()) == Some(
                    #[trigger] legs_of(points, clock, all, n)[j],
                ),
        forall|k: int|
            0 <= k < n && leg_of(points, clock, #[trigger] all[k], k + 1 == all.len()) is Some
                ==> legs_of(points, clock, all, n).contains(
                leg_of(points, clock, all[k], k + 1 == all.len())->0,
            ),
    decreases n,
{
    if n > 0 {
        lemma_legs_of(points, clock, all, n - 1);
        let front = legs_of(points, clock, all, n - 1);
        let now = legs_of(points, clock, all, n);
        assert forall|j: int| 0 <= j < now.len() implies exists|k: int|
            0 <= k < n && leg_of(points, clock, #[trigger] all[k], k + 1 == all.len()) == Some(
                #[trigger] now[j],
            ) by {
            if j < front.len() {
                let k = choose|k: int|
                    0 <= k < n - 1 && leg_of(points, clock, #[trigger] all[k], k + 1 == all.len())
                        == Some(front[j]);
                assert(all[k] == all[k]);
            } else {
                assert(leg_of(points, clock, all[n - 1], n == all.len()) == Some(now[j]));
            }
        }
        assert forall|k: int|
            0 <= k < n && leg_of(points, clock, #[trigger] all[k], k + 1 == all.len())
                is Some implies now.contains(
            leg_of(points, clock, all[k], k + 1 == all.len())->0,
        ) by {
            let leg = leg_of(points, clock, all[k], k + 1 == all.len())->0;
            if k < n - 1 {
                assert(front.contains(leg));
                let j = choose|j: int| 0 <= j < front.len() && front[j] == leg;
                assert(now[j] == leg);
            } else {
                assert(now[now.len() - 1] == leg);
            }
        }
    }
}

/// The legs of a trace are those of its groups: every group with a leg brings it, no leg comes from
/// elsewhere, and only the last group can leave its leg open.
pub proof fn law_legs_are_of_the_groups(
    points: Seq<TracePoint>,
    clock: Seq<UtcInstant>,
    all: Seq<Group>,
)
    ensures
        ({
            let legs = legs_of(points, clock, all, all.len() as int);
            &&& forall|j: int|
                0 <= j < legs.len() ==> exists|k: int|
                    0 <= k < all.len() && leg_of(points, clock, #[trigger] all[k], k + 1 == all.len())
                        == Some(#[trigger] legs[j])
            &&& forall|k: int|
                0 <= k < all.len() && leg_of(points, clock, #[trigger] all[k], k + 1 == all.len())
                    is Some ==> legs.contains(
                    leg_of(points, clock, all[k], k + 1 == all.len())->0,
                )
            &&& forall|j: int|
                0 <= j < legs.len() - 1 ==> (#[trigger] legs[j]).arr_ts is Some
        }),
{
    lemma_legs_of(points, clock, all, all.len() as int);
    lemma_closed_but_last(points, clock, all, all.len() as int);
}

proof fn lemma_closed_but_last(
    points: Seq<TracePoint>,
    clock: Seq<UtcInstant>,
    all: Seq<Group>,
    n: int,
)
    requires
        0 <= n <= all.len(),
    ensures
        forall|j: int|
            0 <= j < legs_of(points, clock, all, n).len() - (if n == all.len() {
                1int
            } else {
                0
            }) ==> (#[trigger] legs_of(points, clock, all, n)[j]).arr_ts is Some,
    decreases n,
{
    if n > 0 {
        lemma_closed_but_last(points, clock, all, n - 1);
    }
}

/// By the clock of the day on which it departs, a leg may go on from the day before where it departs
/// at 00:00:00 to 01:59:59, and at no other hour; one that begins a new leg never does.
pub proof fn law_overnight_by_the_clock(leg: Leg, day: int, hour: int, minute: int, second: int)
    requires
        0 <= hour < 24,
        0 <= minute < 60,
        0 <= second < 60,
        leg.dep_ts.seconds == day * 86_400 + hour * 3_600 + minute * 60 + second,
    ensures
        continues_overnight(leg) <==> hour < 2 && !leg.new_leg_boundary,
{
    let t = hour * 3_600 + minute * 60 + second;
    assert((day * 86_400 + t) % 86_400 == t);
}

/// The legs of the first groups come first.
pub proof fn law_legs_come_in_order(
    points: Seq<TracePoint>,
    clock: Seq<UtcInstant>,
    all: Seq<Group>,
    n: int,
    m: int,
)
    requires
        0 <= n <= m <= all.len(),
    ensures
        legs_of(points, clock, all, n).len() <= legs_of(points, clock, all, m).len(),
        legs_of(points, clock, all, m).take(legs_of(points, clock, all, n).len() as int) == legs_of(
            points,
            clock,
            all,
            n,
        ),
    decreases m,
{
    let some = legs_of(points, clock, all, n);
    if n < m {
        law_legs_come_in_order(points, clock, all, n, m - 1);
        let most = legs_of(points, clock, all, m - 1);
        assert(most.take(some.len() as int) == some);
        assert(legs_of(points, clock, all, m).take(some.len() as int) =~= most.take(
            some.len() as int,
        ));
    } else {
        assert(some.take(some.len() as int) =~= some);
    }
}

/// What a row of a trace says, cell by cell: the time in cell 0, the latitude in cell 1, the
/// longitude in cell 2, the altitude in cell 3, the speed in cell 4 and the flags in cell 6.
pub proof fn law_point_by_cells(p: TracePoint, cells: Seq<JsonTree>)
    requires
        point_matches(Some(p), JsonTree::Array(cells)),
    ensures
        cells.len() >= 4,
        cells[0] matches JsonTree::Number(t, _, _) && t == Some(p.seconds),
        match cells[1] {
            JsonTree::Number(x, _, _) => p.lat == x,
            _ => p.lat is None,
        },
        match cells[2] {
            JsonTree::Number(x, _, _) => p.lon == x,
            _ => p.lon is None,
        },
        match cells[3] {
            JsonTree::Number(Some(ft), _, _) => p.altitude == Altitude::Feet(ft),
            JsonTree::Text(s) => p.altitude == (if text::lower(s) == "ground"@ {
                Altitude::Ground
            } else {
                Altitude::Unknown
            }),
            _ => p.altitude is Unknown,
        },
        cells.len() <= 4 ==> p.gs is None,
        cells.len() > 4 ==> match cells[4] {
            JsonTree::Number(x, _, _) => p.gs == x,
            _ => p.gs is None,
        },
        cells.len() <= 6 ==> p.flags == 0,
        cells.len() > 6 ==> match cells[6] {
            JsonTree::Number(_, Some(n), _) => p.flags == n % 0x1_0000_0000,
            JsonTree::Number(Some(x), None, _) => p.flags == x.whole() % 0x1_0000_0000,
            _ => p.flags == 0,
        },
{
    reveal_strlit("ground");
    assert(text::lower("ground"@) =~= "ground"@);
}

/// A row of a trace holds a point exactly where it is an array of four cells or more of which the
/// first is a number.
pub proof fn law_row_holds_a_point(row: JsonTree)
    ensures
        !point_matches(None, row) <==> (row matches JsonTree::Array(cells) && cells.len() >= 4 && (
        cells[0] matches JsonTree::Number(Some(_), _, _))),
{
}

/// The leg that a group comes to departs at one of its points and arrives at one: its departure time
/// and coordinate are those of the one, its arrival time, where it has landed, and coordinate those
/// of the other. It departs at the first fresh airborne located point, where there is one, and
/// arrives at the last fresh located one, where there is one.
pub proof fn law_group_to_leg(
    points: Vec<TracePoint>,
    clock: Vec<UtcInstant>,
    g: Group,
    last_of_day: bool,
    r: Option<Leg>,
)
    requires
        call_ensures(group_to_leg, (&points, &clock, g, last_of_day), r),
    ensures
        r matches Some(leg) ==> {
            &&& exists|d: int|
                g.from <= d < g.to && {
                    &&& (#[trigger] points@[d]).lat == Some(leg.dep_lat)
                    &&& points@[d].lon == Some(leg.dep_lon)
                    &&& clock@[d] == leg.dep_ts
                    &&& forall|i: int|
                        g.from <= i < g.to && (#[trigger] points@[i]).flags & 1 == 0
                            && points@[i].located() && !points@[i].ground() ==> d <= i
                            && points@[d].flags & 1 == 0 && !points@[d].ground()
                }
            &&& exists|a: int|
                g.from <= a < g.to && {
                    &&& (#[trigger] points@[a]).lat == Some(leg.arr_lat)
                    &&& points@[a].lon == Some(leg.arr_lon)
                    &&& leg.arr_ts matches Some(t) ==> t == clock@[a]
                    &&& leg.arr_ts is None <==> last_of_day && !points@[a].ground()
                    &&& forall|i: int|
                        g.from <= i < g.to && (#[trigger] points@[i]).flags & 1 == 0
                            && points@[i].located() ==> i <= a && points@[a].flags & 1 == 0
                }
        },
{
    law_leg_departs_at_a_point(points@, clock@, g, last_of_day);
    law_leg_arrives_at_a_point(points@, clock@, g, last_of_day);
}

/// A trace that is read has the address of its document in lower case, the time that it is told, and
/// a point for each row that holds one.
pub proof fn law_parsed_trace(
    icao: Option<String>,
    timestamp: Double,
    rows: Vec<Json>,
    r: TraceFile,
)
    requires
        call_ensures(parse_trace_json, (&icao, timestamp, &rows), r),
    ensures
        icao matches Some(s) ==> (r.icao matches Some(t) && t@ == text::lower(s@)),
        icao is None ==> r.icao is None,
        r.timestamp == timestamp,
        r.trace@.len() == Seq::new(rows@.len(), |i: int| rows@[i]@).filter(
            |row: JsonTree| !point_matches(None, row),
        ).len(),
{
}

/// The legs of a trace are those of the groups that part it, in order, and a leg closes the open trip
/// of the day before only where it departs before 02:00 and begins no new leg.
pub proof fn law_segmented_legs(
    file: TraceFile,
    elapsed: Vec<Double>,
    clock: Vec<UtcInstant>,
    legs: Vec<Leg>,
    j: int,
    goes_on: bool,
)
    requires
        call_ensures(segment_legs, (&file, &elapsed, &clock), legs),
        0 <= j < legs@.len(),
        call_ensures(is_overnight_continuation, (&legs@[j],), goes_on),
    ensures
        ({
            let all = groups(file.trace@, elapsed@, file.trace@.len() as int);
            exists|k: int|
                0 <= k < all.len() && leg_of(file.trace@, clock@, #[trigger] all[k], k + 1 == all.len())
                    == Some(legs@[j])
        }),
        j + 1 < legs@.len() ==> legs@[j].arr_ts is Some,
        goes_on <==> legs@[j].dep_ts.seconds % 86_400 < 2 * 3_600 && !legs@[j].new_leg_boundary,
{
    let all = groups(file.trace@, elapsed@, file.trace@.len() as int);
    law_legs_are_of_the_groups(file.trace@, clock@, all);
    assert(legs@[j] == legs_of(file.trace@, clock@, all, all.len() as int)[j]);
}

/// The groups that a trace is parted into are those that part it.
pub proof fn law_split_groups(points: Vec<TracePoint>, elapsed: Vec<Double>, r: Vec<Group>, k: int)
    requires
        call_ensures(split_groups, (&points, &elapsed), r),
        points@.len() <= usize::MAX,
    ensures
        r@.len() == 0 <==> points@.len() == 0,
        r@.len() > 0 ==> r@.first().from == 0 && r@.last().to == points@.len(),
        0 < k < r@.len() ==> r@[k].from == r@[k - 1].to && r@[k].new_leg_boundary && splits_at(
            points@,
            elapsed@,
            r@[k].from as int,
        ),
{
    law_groups_part_the_trace(points@, elapsed@, points@.len() as int);
}

} // verus!
