//! Airports by ident, and the airport that a coordinate snaps to.

use crate::double;
use crate::double::Double;
use crate::text;
use vstd::hash_map::StringHashMap;
use vstd::prelude::*;

verus! {

/// The bits of 8.0, the snap radius in kilometres.
pub const SNAP_RADIUS_KM_BITS: u64 = 0x4020_0000_0000_0000;

#[derive(Debug, Clone, Copy, PartialEq, Eq, Structural)]
pub enum AirportType {
    Large,
    Medium,
    Small,
    Heliport,
}

/// One record of the airports table as it is read.
#[derive(Debug)]
pub struct AirportRow {
    pub ident: String,
    pub type_field: String,
    pub latitude_deg: Option<Double>,
    pub longitude_deg: Option<Double>,
}

#[derive(Debug)]
pub struct Airport {
    pub ident: String,
    pub lat: Double,
    pub lon: Double,
    pub kind: AirportType,
}

/// Where a leg begins or ends, for display: an airport ident, or the coordinate itself.
#[derive(Debug)]
pub enum Place {
    Ident(String),
    LatLon(Double, Double),
}

#[verifier::ext_equal]
pub enum PlaceView {
    Ident(Seq<char>),
    LatLon(Double, Double),
}

impl View for Place {
    type V = PlaceView;

    open spec fn view(&self) -> PlaceView {
        match *self {
            Place::Ident(s) => PlaceView::Ident(s@),
            Place::LatLon(lat, lon) => PlaceView::LatLon(lat, lon),
        }
    }
}

impl Clone for Place {
    fn clone(&self) -> (r: Self)
        ensures
            r == *self,
    {
        match self {
            Place::Ident(s) => Place::Ident(s.clone()),
            Place::LatLon(lat, lon) => Place::LatLon(*lat, *lon),
        }
    }
}

/// What is shown of a place that may be missing.
pub open spec fn opt_place(p: Option<Place>) -> Option<PlaceView> {
    match p {
        Some(place) => Some(place@),
        None => None,
    }
}

/// A copy of a place that may be missing.
pub fn clone_place(p: &Option<Place>) -> (r: Option<Place>)
    ensures
        r == *p,
{
    match p {
        Some(place) => Some(place.clone()),
        None => None,
    }
}

#[derive(Debug)]
pub struct Snap {
    pub ident: Option<String>,
    pub place: Place,
}

impl AirportType {
    /// Large before medium before small before heliport.
    pub open spec fn rank(self) -> int {
        match self {
            AirportType::Large => 0,
            AirportType::Medium => 1,
            AirportType::Small => 2,
            AirportType::Heliport => 3,
        }
    }

    /// The type that a name of the airports table stands for; none for the types that are skipped.
    pub open spec fn named(s: Seq<char>) -> Option<AirportType> {
        if s == "large_airport"@ {
            Some(AirportType::Large)
        } else if s == "medium_airport"@ {
            Some(AirportType::Medium)
        } else if s == "small_airport"@ {
            Some(AirportType::Small)
        } else if s == "heliport"@ {
            Some(AirportType::Heliport)
        } else {
            None
        }
    }

    /// The type that a name of the airports table stands for; none for the types that are skipped.
    pub fn parse(s: &str) -> (r: Option<AirportType>)
        ensures
            r == AirportType::named(s@),
    {
        if text::same_text(s, "large_airport") {
            Some(AirportType::Large)
        } else if text::same_text(s, "medium_airport") {
            Some(AirportType::Medium)
        } else if text::same_text(s, "small_airport") {
            Some(AirportType::Small)
        } else if text::same_text(s, "heliport") {
            Some(AirportType::Heliport)
        } else {
            None
        }
    }

    /// Whether `self` is preferred to `other`.
    pub fn before(self, other: AirportType) -> (r: bool)
        ensures
            r == (self.rank() < other.rank()),
    {
        self.place_in_order() < other.place_in_order()
    }

    fn place_in_order(self) -> (r: u8)
        ensures
            r == self.rank(),
    {
        match self {
            AirportType::Large => 0,
            AirportType::Medium => 1,
            AirportType::Small => 2,
            AirportType::Heliport => 3,
        }
    }
}

impl AirportRow {
    /// The key under which the airport is found: its ident, trimmed and in upper case.
    pub open spec fn key(self) -> Seq<char> {
        text::upper(text::trim(self.ident@))
    }

    /// A record of a known type, with a coordinate and an ident.
    pub open spec fn usable(self) -> bool {
        &&& AirportType::named(self.type_field@) is Some
        &&& self.latitude_deg is Some
        &&& self.longitude_deg is Some
        &&& text::trim(self.ident@).len() > 0
    }

    pub open spec fn rank(self) -> int {
        AirportType::named(self.type_field@)->0.rank()
    }

    /// The airport of a usable record.
    fn airport(&self) -> (r: Option<Airport>)
        ensures
            r is Some <==> self.usable(),
            r matches Some(a) ==> a.reads(*self),
    {
        let kind = match AirportType::parse(self.type_field.as_str()) {
            Some(k) => k,
            None => {
                return None;
            },
        };
        let (lat, lon) = match (self.latitude_deg, self.longitude_deg) {
            (Some(lat), Some(lon)) => (lat, lon),
            _ => {
                return None;
            },
        };
        let ident = text::trimmed(self.ident.as_str());
        if ident.as_str().is_empty() {
            return None;
        }
        Some(Airport { ident, lat, lon, kind })
    }
}

impl Airport {
    /// The key under which the airport is found.
    pub open spec fn key(self) -> Seq<char> {
        text::upper(self.ident@)
    }

    /// The airport holds what the record says, its ident trimmed.
    pub open spec fn reads(self, row: AirportRow) -> bool {
        &&& row.usable()
        &&& self.ident@ == text::trim(row.ident@)
        &&& row.latitude_deg == Some(self.lat)
        &&& row.longitude_deg == Some(self.lon)
        &&& AirportType::named(row.type_field@) == Some(self.kind)
    }
}

/// The place in `picks` of a record with the given key.
pub open spec fn pick_with_key(rows: Seq<AirportRow>, picks: Seq<int>, key: Seq<char>, p: int) -> bool {
    0 <= p < picks.len() && rows[picks[p]].key() == key
}

/// The records that the index keeps, by their positions: one per key, in the order in which the
/// keys first occur; of several records with one key, the first of the most preferred type.
pub open spec fn picked(rows: Seq<AirportRow>) -> Seq<int>
    decreases rows.len(),
{
    if rows.len() == 0 {
        Seq::empty()
    } else {
        let picks = picked(rows.drop_last());
        let row = rows.last();
        let key = row.key();
        if !row.usable() {
            picks
        } else if exists|p: int| pick_with_key(rows, picks, key, p) {
            let p = choose|p: int| pick_with_key(rows, picks, key, p);
            if row.rank() < rows[picks[p]].rank() {
                picks.update(p, rows.len() - 1)
            } else {
                picks
            }
        } else {
            picks.push(rows.len() - 1)
        }
    }
}

/// Whether the airport at `p` is found under `key`.
pub open spec fn listed_at(entries: Seq<Airport>, key: Seq<char>, p: int) -> bool {
    0 <= p < entries.len() && entries[p].key() == key
}

/// The airport found under an ident, whatever its case and the white space around it.
pub open spec fn airport_named(entries: Seq<Airport>, ident: Seq<char>) -> Option<Airport> {
    let key = text::upper(text::trim(ident));
    if exists|p: int| listed_at(entries, key, p) {
        Some(entries[choose|p: int| listed_at(entries, key, p)])
    } else {
        None
    }
}

/// No two airports share a key.
pub open spec fn keys_distinct(entries: Seq<Airport>) -> bool {
    forall|p: int, q: int|
        0 <= p < entries.len() && 0 <= q < entries.len() && #[trigger] entries[p].key()
            == #[trigger] entries[q].key() ==> p == q
}

pub struct AirportIndex {
    airports: Vec<Airport>,
    by_ident: StringHashMap<usize>,
}

/// `map` leads from the key of each airport to its position, and holds no other key.
pub open spec fn indexes(entries: Seq<Airport>, map: Map<Seq<char>, usize>) -> bool {
    &&& forall|p: int|
        0 <= p < entries.len() ==> map.contains_key(#[trigger] entries[p].key())
            && map[entries[p].key()] == p
    &&& forall|k: Seq<char>| #[trigger]
        map.contains_key(k) ==> map[k] < entries.len() && entries[map[k] as int].key() == k
}

impl AirportIndex {
    /// The airports in order.
    pub closed spec fn entries(self) -> Seq<Airport> {
        self.airports@
    }

    /// Each airport is found under its key, and nothing else is.
    pub closed spec fn wf(self) -> bool {
        indexes(self.airports@, self.by_ident@)
    }

    /// The airports are those of the records that are kept, in order, and no two share a key.
    pub open spec fn holds(self, rows: Seq<AirportRow>) -> bool {
        &&& keys_distinct(self.entries())
        &&& self.entries().len() == picked(rows).len()
        &&& forall|p: int|
            0 <= p < self.entries().len() ==> (#[trigger] self.entries()[p]).reads(
                rows[picked(rows)[p]],
            )
    }

    /// An index that finds nothing.
    pub fn empty() -> (r: AirportIndex)
        ensures
            r.wf(),
            r.entries() == Seq::<Airport>::empty(),
    {
        AirportIndex { airports: Vec::new(), by_ident: StringHashMap::new() }
    }

    /// The index of the usable records.
    pub fn from_rows(rows: &Vec<AirportRow>) -> (r: AirportIndex)
        ensures
            r.wf(),
            keys_distinct(r.entries()),
            r.entries().len() == picked(rows@).len(),
            forall|p: int|
                0 <= p < r.entries().len() ==> (#[trigger] r.entries()[p]).reads(
                    rows@[picked(rows@)[p]],
                ),
            r.holds(rows@),
    {
        let mut airports: Vec<Airport> = Vec::new();
        let mut by_ident: StringHashMap<usize> = StringHashMap::new();
        let mut i: usize = 0;
        while i < rows.len()
            invariant
                0 <= i <= rows@.len(),
                indexes(airports@, by_ident@),
                airports@.len() == picked(rows@.take(i as int)).len(),
                forall|p: int|
                    0 <= p < airports@.len() ==> {
                        let k = #[trigger] picked(rows@.take(i as int))[p];
                        0 <= k < i && airports@[p].reads(rows@[k])
                    },
            decreases rows@.len() - i,
        {
            let ghost before = rows@.take(i as int);
            let ghost after = rows@.take(i + 1);
            let ghost picks = picked(before);
            proof {
                assert(after.drop_last() == before);
                assert(after.last() == rows@[i as int]);
            }
            if let Some(airport) = rows[i].airport() {
                let key = text::to_upper(airport.ident.as_str());
                let ghost k = key@;
                proof {
                    assert(k == rows@[i as int].key());
                    assert forall|p: int| pick_with_key(after, picks, k, p) == listed_at(
                        airports@,
                        k,
                        p,
                    ) by {
                        if 0 <= p < picks.len() {
                            assert(airports@[p].reads(rows@[picks[p]]));
                            assert(after[picks[p]] == rows@[picks[p]]);
                        }
                    }
                }
                let known: Option<usize> = match by_ident.get(key.as_str()) {
                    Some(idx) => Some(*idx),
                    None => None,
                };
                if let Some(idx) = known {
                    proof {
                        assert(listed_at(airports@, k, idx as int));
                        assert(pick_with_key(after, picks, k, idx as int));
                        let p = choose|p: int| pick_with_key(after, picks, k, p);
                        assert(listed_at(airports@, k, p));
                        assert(p == idx);
                        assert(airports@[p].reads(rows@[picks[p]]));
                        assert(after[picks[p]] == rows@[picks[p]]);
                    }
                    if airport.kind.before(airports[idx].kind) {
                        let ghost old_airports = airports@;
                        airports.set(idx, airport);
                        proof {
                            assert(picked(after) == picks.update(idx as int, i as int));
                            assert(forall|p: int|
                                0 <= p < airports@.len() ==> #[trigger] airports@[p].key()
                                    == old_airports[p].key());
                        }
                    } else {
                        proof {
                            assert(picked(after) == picks);
                        }
                    }
                } else {
                    proof {
                        assert forall|p: int| !listed_at(airports@, k, p) by {
                            if listed_at(airports@, k, p) {
                                assert(by_ident@.contains_key(airports@[p].key()));
                            }
                        }
                        assert(picked(after) == picks.push(i as int));
                    }
                    let ghost old_airports = airports@;
                    let ghost old_map = by_ident@;
                    by_ident.insert(key, airports.len());
                    airports.push(airport);
                    proof {
                        assert forall|p: int| 0 <= p < airports@.len() implies by_ident@.contains_key(
                            #[trigger] airports@[p].key(),
                        ) && by_ident@[airports@[p].key()] == p by {
                            if p < old_airports.len() {
                                assert(airports@[p] == old_airports[p]);
                                assert(old_map.contains_key(old_airports[p].key()));
                                assert(!listed_at(old_airports, k, p));
                            }
                        }
                        assert forall|q: Seq<char>| #[trigger]
                            by_ident@.contains_key(q) implies by_ident@[q] < airports@.len()
                            && airports@[by_ident@[q] as int].key() == q by {
                            if q != k {
                                assert(old_map.contains_key(q));
                            }
                        }
                    }
                }
            } else {
                proof {
                    assert(picked(after) == picks);
                }
            }
            i += 1;
        }
        proof {
            assert(rows@.take(i as int) == rows@);
        }
        AirportIndex { airports, by_ident }
    }

    pub fn len(&self) -> (r: usize)
        ensures
            r == self.entries().len(),
    {
        self.airports.len()
    }

    pub fn is_empty(&self) -> (r: bool)
        ensures
            r == (self.entries().len() == 0),
    {
        self.airports.len() == 0
    }

    /// The airport at a position.
    pub fn airport(&self, i: usize) -> (r: &Airport)
        requires
            i < self.entries().len(),
        ensures
            *r == self.entries()[i as int],
    {
        &self.airports[i]
    }

    /// The airport found under an ident, whatever its case and the white space around it.
    pub fn by_ident(&self, ident: &str) -> (r: Option<&Airport>)
        requires
            self.wf(),
        ensures
            r is Some <==> airport_named(self.entries(), ident@) is Some,
            r matches Some(a) ==> Some(*a) == airport_named(self.entries(), ident@),
    {
        let key = text::to_upper(text::trimmed(ident).as_str());
        match self.by_ident.get(key.as_str()) {
            Some(p) => {
                proof {
                    assert(listed_at(self.airports@, key@, *p as int));
                    let q = choose|q: int| listed_at(self.airports@, key@, q);
                    assert(listed_at(self.airports@, key@, q));
                }
                Some(&self.airports[*p])
            },
            None => {
                proof {
                    assert forall|q: int| !listed_at(self.airports@, key@, q) by {
                        if listed_at(self.airports@, key@, q) {
                            assert(self.by_ident@.contains_key(self.airports@[q].key()));
                        }
                    }
                }
                None
            },
        }
    }

    /// The airport within `SNAP_RADIUS_KM_BITS` that the coordinate snaps to.
    /// `distances` holds the distance in kilometres from the coordinate to each airport.
    pub fn snap(&self, lat: Double, lon: Double, distances: &Vec<Double>) -> (r: Snap)
        requires
            distances@.len() == self.entries().len(),
        ensures
            r.settles(
                self.entries(),
                lat,
                lon,
                snap_hit(self.entries(), distances@, Double { bits: SNAP_RADIUS_KM_BITS }),
            ),
    {
        self.snap_radius(lat, lon, distances, Double { bits: SNAP_RADIUS_KM_BITS })
    }

    /// The airport within a radius that the coordinate snaps to: of the most preferred type the
    /// nearest, and a heliport only where nothing else is in the radius. Without one the place is
    /// the coordinate itself.
    pub fn snap_radius(
        &self,
        lat: Double,
        lon: Double,
        distances: &Vec<Double>,
        radius_km: Double,
    ) -> (r: Snap)
        requires
            distances@.len() == self.entries().len(),
        ensures
            r.settles(self.entries(), lat, lon, snap_hit(self.entries(), distances@, radius_km)),
    {
        let mut field: Option<usize> = None;
        let mut heli: Option<usize> = None;
        let mut i: usize = 0;
        while i < self.airports.len()
            invariant
                0 <= i <= self.airports@.len(),
                distances@.len() == self.airports@.len(),
                as_index(field) == best_field(self.airports@, distances@, radius_km, i as int),
                as_index(heli) == best_heliport(self.airports@, distances@, radius_km, i as int),
                field matches Some(k) ==> k < i,
                heli matches Some(k) ==> k < i,
            decreases self.airports@.len() - i,
        {
            let d = distances[i];
            if !radius_km.less(d) {
                let kind = self.airports[i].kind;
                if kind == AirportType::Heliport {
                    let nearer = match heli {
                        None => true,
                        Some(k) => d.less(distances[k]),
                    };
                    if nearer {
                        heli = Some(i);
                    }
                } else {
                    let better = match field {
                        None => true,
                        Some(k) => {
                            let held = self.airports[k].kind;
                            kind.before(held) || (kind == held && d.less(distances[k]))
                        },
                    };
                    if better {
                        field = Some(i);
                    }
                }
            }
            i += 1;
        }
        let hit: Option<usize> = if field.is_some() {
            field
        } else {
            heli
        };
        match hit {
            Some(k) => Snap {
                ident: Some(self.airports[k].ident.clone()),
                place: Place::Ident(self.airports[k].ident.clone()),
            },
            None => Snap { ident: None, place: Place::LatLon(lat, lon) },
        }
    }
}

spec fn as_index(i: Option<usize>) -> Option<int> {
    match i {
        Some(k) => Some(k as int),
        None => None,
    }
}

/// Among the first `n` airports, the one within the radius that is not a heliport and that no
/// other beats: by a more preferred type, or by the same type and a smaller distance. Of equals
/// the first stays.
pub open spec fn best_field(
    entries: Seq<Airport>,
    distances: Seq<Double>,
    radius: Double,
    n: int,
) -> Option<int>
    decreases n,
{
    if n <= 0 {
        None
    } else {
        let best = best_field(entries, distances, radius, n - 1);
        let k = n - 1;
        if radius.lt(distances[k]) || entries[k].kind == AirportType::Heliport {
            best
        } else {
            match best {
                None => Some(k),
                Some(b) => if entries[k].kind.rank() < entries[b].kind.rank() || (entries[k].kind
                    == entries[b].kind && distances[k].lt(distances[b])) {
                    Some(k)
                } else {
                    best
                },
            }
        }
    }
}

/// Among the first `n` airports, the first heliport within the radius that no other heliport is
/// nearer than.
pub open spec fn best_heliport(
    entries: Seq<Airport>,
    distances: Seq<Double>,
    radius: Double,
    n: int,
) -> Option<int>
    decreases n,
{
    if n <= 0 {
        None
    } else {
        let best = best_heliport(entries, distances, radius, n - 1);
        let k = n - 1;
        if radius.lt(distances[k]) || entries[k].kind != AirportType::Heliport {
            best
        } else {
            match best {
                None => Some(k),
                Some(b) => if distances[k].lt(distances[b]) {
                    Some(k)
                } else {
                    best
                },
            }
        }
    }
}

/// The airport that a coordinate snaps to: a field where one is in the radius, else a heliport.
pub open spec fn snap_hit(
    entries: Seq<Airport>,
    distances: Seq<Double>,
    radius: Double,
) -> Option<int> {
    match best_field(entries, distances, radius, entries.len() as int) {
        Some(k) => Some(k),
        None => best_heliport(entries, distances, radius, entries.len() as int),
    }
}

impl Snap {
    /// The ident of the airport at `hit` twice; without one no ident and the coordinate.
    pub open spec fn settles(
        self,
        entries: Seq<Airport>,
        lat: Double,
        lon: Double,
        hit: Option<int>,
    ) -> bool {
        match hit {
            Some(k) => {
                &&& self.ident == Some(entries[k].ident)
                &&& self.place == Place::Ident(entries[k].ident)
            },
            None => self.ident is None && self.place == Place::LatLon(lat, lon),
        }
    }
}

/// An airport takes part in a snap when its distance is not beyond the radius.
pub open spec fn in_radius(distances: Seq<Double>, radius: Double, k: int) -> bool {
    !radius.lt(distances[k])
}

/// Whether the first airport is the better landing: by its type, then by its distance, then by
/// its place in the index.
pub open spec fn better_landing(
    entries: Seq<Airport>,
    distances: Seq<Double>,
    a: int,
    b: int,
) -> bool {
    ||| entries[a].kind.rank() < entries[b].kind.rank()
    ||| entries[a].kind == entries[b].kind && distances[a].lt(distances[b])
    ||| entries[a].kind == entries[b].kind && distances[a].rank() == distances[b].rank() && a <= b
}

proof fn lemma_best_field(entries: Seq<Airport>, distances: Seq<Double>, radius: Double, n: int)
    requires
        distances.len() == entries.len(),
        0 <= n <= entries.len(),
        forall|k: int| 0 <= k < distances.len() ==> (#[trigger] distances[k]).is_number(),
    ensures
        best_field(entries, distances, radius, n) matches Some(b) ==> {
            &&& 0 <= b < n
            &&& in_radius(distances, radius, b)
            &&& entries[b].kind != AirportType::Heliport
            &&& forall|k: int|
                0 <= k < n && #[trigger] in_radius(distances, radius, k) && entries[k].kind
                    != AirportType::Heliport ==> better_landing(entries, distances, b, k)
        },
        best_field(entries, distances, radius, n) is None ==> forall|k: int|
            0 <= k < n && #[trigger] in_radius(distances, radius, k) ==> entries[k].kind
                == AirportType::Heliport,
    decreases n,
{
    if n > 0 {
        lemma_best_field(entries, distances, radius, n - 1);
        assert(distances[n - 1].is_number());
        if let Some(b) = best_field(entries, distances, radius, n - 1) {
            assert(distances[b].is_number());
            if best_field(entries, distances, radius, n) == Some(n - 1) {
                assert forall|k: int|
                    0 <= k < n && #[trigger] in_radius(distances, radius, k) && entries[k].kind
                        != AirportType::Heliport implies better_landing(
                    entries,
                    distances,
                    n - 1,
                    k,
                ) by {
                    if k < n - 1 {
                        assert(better_landing(entries, distances, b, k));
                        assert(distances[k].is_number());
                    }
                }
            }
        }
    }
}

proof fn lemma_best_heliport(entries: Seq<Airport>, distances: Seq<Double>, radius: Double, n: int)
    requires
        distances.len() == entries.len(),
        0 <= n <= entries.len(),
        forall|k: int| 0 <= k < distances.len() ==> (#[trigger] distances[k]).is_number(),
    ensures
        best_heliport(entries, distances, radius, n) matches Some(b) ==> {
            &&& 0 <= b < n
            &&& in_radius(distances, radius, b)
            &&& entries[b].kind == AirportType::Heliport
            &&& forall|k: int|
                0 <= k < n && #[trigger] in_radius(distances, radius, k) && entries[k].kind
                    == AirportType::Heliport ==> better_landing(entries, distances, b, k)
        },
        best_heliport(entries, distances, radius, n) is None ==> forall|k: int|
            0 <= k < n && #[trigger] in_radius(distances, radius, k) ==> entries[k].kind
                != AirportType::Heliport,
    decreases n,
{
    if n > 0 {
        lemma_best_heliport(entries, distances, radius, n - 1);
        assert(distances[n - 1].is_number());
        if let Some(b) = best_heliport(entries, distances, radius, n - 1) {
            assert(distances[b].is_number());
            if best_heliport(entries, distances, radius, n) == Some(n - 1) {
                assert forall|k: int|
                    0 <= k < n && #[trigger] in_radius(distances, radius, k) && entries[k].kind
                        == AirportType::Heliport implies better_landing(
                    entries,
                    distances,
                    n - 1,
                    k,
                ) by {
                    if k < n - 1 {
                        assert(better_landing(entries, distances, b, k));
                        assert(distances[k].is_number());
                    }
                }
            }
        }
    }
}

/// A coordinate snaps to the best airport in the radius: no airport in the radius is of a more
/// preferred type, none of the same type is nearer, and a heliport is the answer only where every
/// airport in the radius is one. It snaps to nothing exactly where the radius holds no airport.
pub proof fn law_snap_is_best_in_radius(
    entries: Seq<Airport>,
    distances: Seq<Double>,
    radius: Double,
)
    requires
        distances.len() == entries.len(),
        forall|k: int| 0 <= k < distances.len() ==> (#[trigger] distances[k]).is_number(),
    ensures
        snap_hit(entries, distances, radius) matches Some(b) ==> {
            &&& 0 <= b < entries.len()
            &&& in_radius(distances, radius, b)
            &&& forall|k: int|
                0 <= k < entries.len() && #[trigger] in_radius(distances, radius, k)
                    ==> better_landing(entries, distances, b, k)
        },
        snap_hit(entries, distances, radius) is None ==> forall|k: int|
            0 <= k < entries.len() ==> !#[trigger] in_radius(distances, radius, k),
{
    lemma_best_field(entries, distances, radius, entries.len() as int);
    lemma_best_heliport(entries, distances, radius, entries.len() as int);
}

/// What the records of one key come to: every usable record's key is in the index, under the first
/// record of the most preferred type with that key; and no key is there twice.
pub proof fn law_picks_are_the_preferred_records(rows: Seq<AirportRow>)
    ensures
        forall|p: int|
            0 <= p < picked(rows).len() ==> {
                let k = #[trigger] picked(rows)[p];
                &&& 0 <= k < rows.len()
                &&& rows[k].usable()
                &&& forall|j: int|
                    0 <= j < rows.len() && (#[trigger] rows[j]).usable() && rows[j].key()
                        == rows[k].key() ==> rows[k].rank() < rows[j].rank() || (rows[k].rank()
                        == rows[j].rank() && k <= j)
            },
        forall|j: int|
            0 <= j < rows.len() && (#[trigger] rows[j]).usable() ==> exists|p: int|
                pick_with_key(rows, picked(rows), rows[j].key(), p),
        forall|p: int, q: int|
            0 <= p < picked(rows).len() && 0 <= q < picked(rows).len()
                && rows[#[trigger] picked(rows)[p]].key() == rows[#[trigger] picked(rows)[q]].key()
                ==> p == q,
    decreases rows.len(),
{
    if rows.len() > 0 {
        let prev = rows.drop_last();
        law_picks_are_the_preferred_records(prev);
        let picks = picked(prev);
        let now = picked(rows);
        let n = rows.len() - 1;
        let row = rows[n];
        assert(forall|j: int| 0 <= j < n ==> rows[j] == prev[j]);
        assert forall|k: Seq<char>, p: int| pick_with_key(prev, picks, k, p) == pick_with_key(
            rows,
            picks,
            k,
            p,
        ) by {
            if 0 <= p < picks.len() {
                assert(0 <= picks[p] < prev.len());
            }
        }
        if row.usable() {
            if exists|p: int| pick_with_key(rows, picks, row.key(), p) {
                let p = choose|p: int| pick_with_key(rows, picks, row.key(), p);
                assert(pick_with_key(rows, now, row.key(), p));
                assert forall|j: int| 0 <= j < rows.len() && (#[trigger] rows[j]).usable() implies exists|q: int|
                    pick_with_key(rows, now, rows[j].key(), q) by {
                    if j < n {
                        assert(prev[j].usable());
                        let q = choose|q: int| pick_with_key(prev, picks, prev[j].key(), q);
                        assert(pick_with_key(rows, picks, rows[j].key(), q));
                        assert(pick_with_key(rows, now, rows[j].key(), q));
                    }
                }
            } else {
                assert(now == picks.push(n));
                assert(pick_with_key(rows, now, row.key(), picks.len() as int));
                assert forall|j: int| 0 <= j < rows.len() && (#[trigger] rows[j]).usable() implies exists|q: int|
                    pick_with_key(rows, now, rows[j].key(), q) by {
                    if j < n {
                        assert(prev[j].usable());
                        let q = choose|q: int| pick_with_key(prev, picks, prev[j].key(), q);
                        assert(pick_with_key(rows, now, rows[j].key(), q));
                    }
                }
                assert forall|q: int| 0 <= q < picks.len() implies rows[#[trigger] picks[q]].key()
                    != row.key() by {
                    assert(!pick_with_key(rows, picks, row.key(), q));
                }
                assert forall|j: int|
                    0 <= j < n && (#[trigger] rows[j]).usable() implies rows[j].key()
                    != row.key() by {
                    assert(prev[j].usable());
                    let q = choose|q: int| pick_with_key(prev, picks, prev[j].key(), q);
                    assert(!pick_with_key(rows, picks, row.key(), q));
                }
            }
        } else {
            assert forall|j: int| 0 <= j < rows.len() && (#[trigger] rows[j]).usable() implies exists|q: int|
                pick_with_key(rows, now, rows[j].key(), q) by {
                assert(prev[j].usable());
                let q = choose|q: int| pick_with_key(prev, picks, prev[j].key(), q);
                assert(pick_with_key(rows, now, rows[j].key(), q));
            }
        }
        assert forall|p: int| 0 <= p < now.len() implies {
            let k = #[trigger] now[p];
            &&& 0 <= k < rows.len()
            &&& rows[k].usable()
            &&& forall|j: int|
                0 <= j < rows.len() && (#[trigger] rows[j]).usable() && rows[j].key()
                    == rows[k].key() ==> rows[k].rank() < rows[j].rank() || (rows[k].rank()
                    == rows[j].rank() && k <= j)
        } by {
            let k = now[p];
            if k < n {
                assert(k == picks[p]);
                assert(prev[k].usable());
                assert forall|j: int|
                    0 <= j < rows.len() && (#[trigger] rows[j]).usable() && rows[j].key()
                        == rows[k].key() implies rows[k].rank() < rows[j].rank() || (rows[k].rank()
                    == rows[j].rank() && k <= j) by {
                    if j < n {
                        assert(prev[j].usable());
                    } else {
                        assert(pick_with_key(rows, picks, row.key(), p));
                        let q = choose|q: int| pick_with_key(rows, picks, row.key(), q);
                        assert(prev[picks[q]].key() == prev[picks[p]].key());
                        assert(q == p);
                    }
                }
            } else if exists|q: int| pick_with_key(rows, picks, row.key(), q) {
                let q = choose|q: int| pick_with_key(rows, picks, row.key(), q);
                assert(q == p);
                let old_k = picks[q];
                assert(prev[old_k].usable());
                assert forall|j: int|
                    0 <= j < rows.len() && (#[trigger] rows[j]).usable() && rows[j].key()
                        == rows[k].key() implies rows[k].rank() < rows[j].rank() || (rows[k].rank()
                    == rows[j].rank() && k <= j) by {
                    if j < n {
                        assert(prev[j].usable());
                    }
                }
            }
        }
    }
}

/// The best field is of the most preferred kind among the fields in the radius.
proof fn lemma_best_field_kind(entries: Seq<Airport>, distances: Seq<Double>, radius: Double, n: int)
    requires
        0 <= n <= entries.len(),
    ensures
        best_field(entries, distances, radius, n) matches Some(b) ==> {
            &&& 0 <= b < n
            &&& !radius.lt(distances[b])
            &&& entries[b].kind != AirportType::Heliport
            &&& forall|k: int|
                0 <= k < n && !radius.lt(#[trigger] distances[k]) && entries[k].kind
                    == AirportType::Large ==> entries[b].kind == AirportType::Large
            &&& forall|k: int|
                0 <= k < n && !radius.lt(#[trigger] distances[k]) && entries[k].kind
                    == AirportType::Medium ==> entries[b].kind != AirportType::Small
        },
        best_field(entries, distances, radius, n) is None ==> forall|k: int|
            0 <= k < n && !radius.lt(#[trigger] distances[k]) ==> entries[k].kind
                == AirportType::Heliport,
    decreases n,
{
    if n > 0 {
        lemma_best_field_kind(entries, distances, radius, n - 1);
    }
}

proof fn lemma_best_heliport_kind(
    entries: Seq<Airport>,
    distances: Seq<Double>,
    radius: Double,
    n: int,
)
    requires
        0 <= n <= entries.len(),
    ensures
        best_heliport(entries, distances, radius, n) matches Some(b) ==> {
            &&& 0 <= b < n
            &&& !radius.lt(distances[b])
            &&& entries[b].kind == AirportType::Heliport
        },
        best_heliport(entries, distances, radius, n) is None ==> forall|k: int|
            0 <= k < n && !radius.lt(#[trigger] distances[k]) ==> entries[k].kind
                != AirportType::Heliport,
    decreases n,
{
    if n > 0 {
        lemma_best_heliport_kind(entries, distances, radius, n - 1);
    }
}

/// What a coordinate snaps to, by the kinds in the radius: a large airport where one is there; else
/// a medium one where one is there; else a small one; and a heliport only where the radius holds
/// nothing else. It snaps to something exactly where some airport is not beyond the radius, and
/// what it snaps to is not beyond it.
pub proof fn law_snap_by_kind(entries: Seq<Airport>, distances: Seq<Double>, radius: Double)
    requires
        distances.len() == entries.len(),
    ensures
        forall|k: int|
            0 <= k < entries.len() && !radius.lt(#[trigger] distances[k]) ==> {
                &&& snap_hit(entries, distances, radius) matches Some(b)
                &&& 0 <= b < entries.len()
                &&& !radius.lt(distances[b])
                &&& match entries[k].kind {
                    AirportType::Large => entries[b].kind is Large,
                    AirportType::Medium => entries[b].kind is Large || entries[b].kind is Medium,
                    AirportType::Small => !(entries[b].kind is Heliport),
                    AirportType::Heliport => true,
                }
            },
        snap_hit(entries, distances, radius) is Some ==> exists|k: int|
            0 <= k < entries.len() && !radius.lt(#[trigger] distances[k]),
{
    let n = entries.len() as int;
    lemma_best_field_kind(entries, distances, radius, n);
    lemma_best_heliport_kind(entries, distances, radius, n);
    if let Some(b) = snap_hit(entries, distances, radius) {
        assert(!radius.lt(distances[b]));
    }
}

/// Among the airports of the kind that a coordinate snaps to, none in the radius is nearer, and of
/// those as near it is the first.
pub proof fn law_snap_is_nearest_of_its_kind(
    entries: Seq<Airport>,
    distances: Seq<Double>,
    radius: Double,
)
    requires
        distances.len() == entries.len(),
        forall|k: int| 0 <= k < distances.len() ==> (#[trigger] distances[k]).is_number(),
    ensures
        snap_hit(entries, distances, radius) matches Some(b) ==> forall|k: int|
            0 <= k < entries.len() && !radius.lt(#[trigger] distances[k]) && entries[k].kind
                == entries[b].kind ==> distances[b].le(distances[k]) && (distances[k].le(
                distances[b],
            ) ==> b <= k),
{
    law_snap_is_best_in_radius(entries, distances, radius);
    if let Some(b) = snap_hit(entries, distances, radius) {
        assert forall|k: int|
            0 <= k < entries.len() && !radius.lt(#[trigger] distances[k]) && entries[k].kind
                == entries[b].kind implies distances[b].le(distances[k]) && (distances[k].le(
            distances[b],
        ) ==> b <= k) by {
            assert(in_radius(distances, radius, k));
            assert(distances[b].is_number());
        }
    }
}

/// The names of the airports table: four kinds are kept, each under its own name, and every other
/// name is skipped.
pub proof fn law_kinds_by_name(s: Seq<char>)
    ensures
        AirportType::named(s) == Some(AirportType::Large) <==> s == "large_airport"@,
        AirportType::named(s) == Some(AirportType::Medium) <==> s == "medium_airport"@,
        AirportType::named(s) == Some(AirportType::Small) <==> s == "small_airport"@,
        AirportType::named(s) == Some(AirportType::Heliport) <==> s == "heliport"@,
{
    reveal_strlit("large_airport");
    reveal_strlit("medium_airport");
    reveal_strlit("small_airport");
    reveal_strlit("heliport");
    assert("large_airport"@[0] != "small_airport"@[0]);
    assert("large_airport"@.len() == 13);
    assert("small_airport"@.len() == 13);
    assert("medium_airport"@.len() == 14);
    assert("heliport"@.len() == 8);
}

/// Of records with one ident, the index keeps a large airport where one of them is; else a medium
/// one where one of them is; else a small one; and a heliport only where all are. Of records of the
/// kept kind it keeps the first. Records are of one ident where their trimmed idents differ in case
/// alone; those without a name that is kept, a coordinate or an ident do not count.
pub proof fn law_picks_by_kind(rows: Seq<AirportRow>, j: int)
    requires
        0 <= j < rows.len(),
        rows[j].type_field@ == "large_airport"@ || rows[j].type_field@ == "medium_airport"@
            || rows[j].type_field@ == "small_airport"@ || rows[j].type_field@ == "heliport"@,
        rows[j].latitude_deg is Some,
        rows[j].longitude_deg is Some,
        text::trim(rows[j].ident@).len() > 0,
    ensures
        exists|p: int|
            0 <= p < picked(rows).len() && {
                let k = #[trigger] picked(rows)[p];
                &&& 0 <= k < rows.len()
                &&& rows[k].latitude_deg is Some
                &&& rows[k].longitude_deg is Some
                &&& text::upper(text::trim(rows[k].ident@)) == text::upper(
                    text::trim(rows[j].ident@),
                )
                &&& rows[j].type_field@ == "large_airport"@ ==> rows[k].type_field@
                    == "large_airport"@
                &&& rows[j].type_field@ == "medium_airport"@ ==> rows[k].type_field@
                    == "large_airport"@ || rows[k].type_field@ == "medium_airport"@
                &&& rows[j].type_field@ == "small_airport"@ ==> rows[k].type_field@ != "heliport"@
                &&& rows[j].type_field@ == rows[k].type_field@ ==> k <= j
            },
{
    law_kinds_by_name(rows[j].type_field@);
    law_picks_are_the_preferred_records(rows);
    assert(rows[j].usable());
    let p = choose|p: int| pick_with_key(rows, picked(rows), rows[j].key(), p);
    let k = picked(rows)[p];
    law_kinds_by_name(rows[k].type_field@);
}

/// The snap radius is 8 kilometres: an airport is in it whose distance is below 8, and one whose
/// distance is 9 or more is not.
pub proof fn law_snap_radius_in_kilometres(distance: Double)
    requires
        distance.is_number(),
    ensures
        distance.whole() < 8 ==> !(Double { bits: SNAP_RADIUS_KM_BITS }).lt(distance),
        distance.whole() > 8 ==> (Double { bits: SNAP_RADIUS_KM_BITS }).lt(distance),
        (Double { bits: SNAP_RADIUS_KM_BITS }).whole() == 8,
{
    let radius = Double { bits: SNAP_RADIUS_KM_BITS };
    double::lemma_limit(radius, 8);
    if distance.bits < double::SIGN_BIT {
        assert(distance.whole() < 8 <==> distance.lt(radius));
        if distance.le(radius) {
            double::law_whole_part_keeps_order(distance, radius);
        }
    }
}

/// An ident finds the airport whose ident it is, whatever the case of the two and the white space
/// around the one that is asked for; where no airport has it, it finds none.
pub proof fn law_airports_by_ident(entries: Seq<Airport>, ident: Seq<char>, p: int)
    requires
        forall|p: int, q: int|
            0 <= p < entries.len() && 0 <= q < entries.len() && text::upper(
                (#[trigger] entries[p]).ident@,
            ) == text::upper((#[trigger] entries[q]).ident@) ==> p == q,
    ensures
        0 <= p < entries.len() && text::upper(entries[p].ident@) == text::upper(text::trim(ident))
            ==> airport_named(entries, ident) == Some(entries[p]),
        airport_named(entries, ident) matches Some(a) ==> entries.contains(a) && text::upper(
            a.ident@,
        ) == text::upper(text::trim(ident)),
{
    let key = text::upper(text::trim(ident));
    if 0 <= p < entries.len() && text::upper(entries[p].ident@) == key {
        assert(listed_at(entries, key, p));
        let q = choose|q: int| listed_at(entries, key, q);
        assert(listed_at(entries, key, q));
        assert(entries[p].ident@ == entries[p].ident@ && entries[q].ident@ == entries[q].ident@);
    }
    if exists|q: int| listed_at(entries, key, q) {
        let q = choose|q: int| listed_at(entries, key, q);
        assert(listed_at(entries, key, q));
        assert(entries[q] == airport_named(entries, ident)->0);
    }
}

/// What a snap shows: the ident of the airport that was hit, both as ident and as place; without a
/// hit no ident, and the coordinate that was asked for, latitude first.
pub proof fn law_snap_shows_its_hit(
    snap: Snap,
    entries: Seq<Airport>,
    lat: Double,
    lon: Double,
    hit: Option<int>,
)
    requires
        snap.settles(entries, lat, lon, hit),
    ensures
        match hit {
            Some(k) => snap.ident == Some(entries[k].ident) && snap.place@ == PlaceView::Ident(
                entries[k].ident@,
            ),
            None => snap.ident is None && snap.place@ == PlaceView::LatLon(lat, lon),
        },
{
}

/// What the index holds of a record: its ident without the white space around it, its latitude and
/// its longitude, and the kind that its name stands for.
pub proof fn law_airport_holds_its_record(a: Airport, row: AirportRow)
    requires
        a.reads(row),
    ensures
        a.ident@ == text::trim(row.ident@),
        a.ident@.len() > 0,
        row.latitude_deg == Some(a.lat),
        row.longitude_deg == Some(a.lon),
        match a.kind {
            AirportType::Large => row.type_field@ == "large_airport"@,
            AirportType::Medium => row.type_field@ == "medium_airport"@,
            AirportType::Small => row.type_field@ == "small_airport"@,
            AirportType::Heliport => row.type_field@ == "heliport"@,
        },
{
    law_kinds_by_name(row.type_field@);
}

/// Which of two kinds is preferred: large to all others, medium to small and heliport, small to
/// heliport, and none to itself.
pub proof fn law_preferred_kinds(a: AirportType, b: AirportType, r: bool)
    requires
        call_ensures(AirportType::before, (a, b), r),
    ensures
        r == match a {
            AirportType::Large => !(b is Large),
            AirportType::Medium => b is Small || b is Heliport,
            AirportType::Small => b is Heliport,
            AirportType::Heliport => false,
        },
{
}

/// What a coordinate snaps to within 8 kilometres: with a large airport there, to a large one; with a
/// medium one there, never to a small one or a heliport; with a small one there, never to a heliport.
pub proof fn law_snap(
    index: AirportIndex,
    lat: Double,
    lon: Double,
    distances: Vec<Double>,
    r: Snap,
    k: int,
)
    requires
        call_ensures(AirportIndex::snap, (&index, lat, lon, &distances), r),
        distances@.len() == index.entries().len(),
        0 <= k < index.entries().len(),
        !(Double { bits: 0x4020_0000_0000_0000 }).lt(distances@[k]),
    ensures
        exists|b: int|
            0 <= b < index.entries().len() && r.ident == Some((#[trigger] index.entries()[b]).ident)
                && r.place == Place::Ident(index.entries()[b].ident) && !(Double {
                bits: 0x4020_0000_0000_0000,
            }).lt(distances@[b]) && match index.entries()[k].kind {
                AirportType::Large => index.entries()[b].kind is Large,
                AirportType::Medium => index.entries()[b].kind is Large
                    || index.entries()[b].kind is Medium,
                AirportType::Small => !(index.entries()[b].kind is Heliport),
                AirportType::Heliport => true,
            },
{
    let radius = Double { bits: 0x4020_0000_0000_0000 };
    law_snap_by_kind(index.entries(), distances@, radius);
    let b = snap_hit(index.entries(), distances@, radius)->0;
    assert(index.entries()[b] == index.entries()[b]);
}

/// The index of records finds each of them: the ident of a record that counts, whatever its case,
/// finds an airport with that ident, at the coordinate of a record with it, that is large where the
/// record is, and no small one and no heliport where the record is a medium airport.
pub proof fn law_index_finds_its_records(rows: Vec<AirportRow>, index: AirportIndex, j: int)
    requires
        call_ensures(AirportIndex::from_rows, (&rows,), index),
        0 <= j < rows@.len(),
        rows@[j].type_field@ == "large_airport"@ || rows@[j].type_field@ == "medium_airport"@
            || rows@[j].type_field@ == "small_airport"@ || rows@[j].type_field@ == "heliport"@,
        rows@[j].latitude_deg is Some,
        rows@[j].longitude_deg is Some,
        text::trim(rows@[j].ident@).len() > 0,
    ensures
        airport_named(index.entries(), rows@[j].ident@) matches Some(a) && {
            &&& text::upper(a.ident@) == text::upper(text::trim(rows@[j].ident@))
            &&& exists|k: int|
                0 <= k < rows@.len() && (#[trigger] rows@[k]).latitude_deg == Some(a.lat)
                    && rows@[k].longitude_deg == Some(a.lon) && text::trim(rows@[k].ident@) == a.ident@
            &&& rows@[j].type_field@ == "large_airport"@ ==> a.kind is Large
            &&& rows@[j].type_field@ == "medium_airport"@ ==> a.kind is Large || a.kind is Medium
            &&& rows@[j].type_field@ == "small_airport"@ ==> !(a.kind is Heliport)
        },
{
    let entries = index.entries();
    assert(index.holds(rows@));
    law_picks_by_kind(rows@, j);
    law_picks_are_the_preferred_records(rows@);
    let p = choose|p: int|
        0 <= p < picked(rows@).len() && {
            let k = #[trigger] picked(rows@)[p];
            &&& 0 <= k < rows@.len()
            &&& rows@[k].latitude_deg is Some
            &&& rows@[k].longitude_deg is Some
            &&& text::upper(text::trim(rows@[k].ident@)) == text::upper(text::trim(rows@[j].ident@))
            &&& rows@[j].type_field@ == "large_airport"@ ==> rows@[k].type_field@ == "large_airport"@
            &&& rows@[j].type_field@ == "medium_airport"@ ==> rows@[k].type_field@
                == "large_airport"@ || rows@[k].type_field@ == "medium_airport"@
            &&& rows@[j].type_field@ == "small_airport"@ ==> rows@[k].type_field@ != "heliport"@
            &&& rows@[j].type_field@ == rows@[k].type_field@ ==> k <= j
        };
    let k = picked(rows@)[p];
    assert(entries[p].reads(rows@[k]));
    law_airport_holds_its_record(entries[p], rows@[k]);
    assert forall|x: int, y: int|
        0 <= x < entries.len() && 0 <= y < entries.len() && text::upper(
            (#[trigger] entries[x]).ident@,
        ) == text::upper((#[trigger] entries[y]).ident@) implies x == y by {
        assert(entries[x].key() == entries[y].key());
    }
    law_airports_by_ident(entries, rows@[j].ident@, p);
    law_kinds_by_name(rows@[k].type_field@);
    assert(rows@[k].latitude_deg == Some(entries[p].lat));
}

} // verus!
