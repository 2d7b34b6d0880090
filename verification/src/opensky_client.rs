//! What the OpenSky client decides about requests and responses. Sending is left to the caller.

use crate::double;
use crate::double::Double;
use crate::json;
use crate::json::{Json, JsonTree};
use crate::opensky::{
    CreditBucket, CreditInfo, Flight, OpenskyOutcome, TrackEnds, FLIGHTS_ALL_SLICE_SECS, HEX_CHUNK,
};
use crate::order;
use crate::text;
use vstd::prelude::*;

verus! {

#[derive(Debug)]
pub struct OpenskyConfig {
    pub client_id: String,
    pub client_secret: String,
}

#[derive(Debug, Clone, Copy, PartialEq, Eq, Structural)]
pub enum CredentialsError {
    NotJson,
    MissingClientId,
    MissingClientSecret,
}

/// The text under the first of two keys that is there.
pub open spec fn text_under(v: JsonTree, key: Seq<char>, other: Seq<char>) -> Option<Seq<char>> {
    match v.get(key) {
        Some(x) => x.as_str(),
        None => json::text_at(v, other),
    }
}

fn text_of<'a>(v: &'a Json, key: &str, other: &str) -> (r: Option<&'a String>)
    ensures
        r is Some <==> text_under(v@, key@, other@) is Some,
        r matches Some(s) ==> text_under(v@, key@, other@) == Some(s@),
{
    match v.get(key) {
        Some(x) => x.as_str(),
        None => v.text_at(other),
    }
}

/// What a credentials document gives: the client id and the client secret.
pub open spec fn credentials_in(v: JsonTree) -> Result<(Seq<char>, Seq<char>), CredentialsError> {
    match text_under(v, "clientId"@, "client_id"@) {
        None => Err(CredentialsError::MissingClientId),
        Some(id) => match text_under(v, "clientSecret"@, "client_secret"@) {
            None => Err(CredentialsError::MissingClientSecret),
            Some(secret) => Ok((id, secret)),
        },
    }
}

/// The credentials come from the two texts, from a file, or from nowhere.
#[derive(Debug)]
pub enum ConfigSource {
    Given(OpenskyConfig),
    File(String),
    Missing,
}

impl OpenskyConfig {
    /// The credentials of a document that was read.
    pub fn from_json(v: &Json) -> (r: Result<OpenskyConfig, CredentialsError>)
        ensures
            match r {
                Ok(c) => credentials_in(v@) == Ok::<(Seq<char>, Seq<char>), CredentialsError>(
                    (c.client_id@, c.client_secret@),
                ),
                Err(e) => credentials_in(v@) == Err::<(Seq<char>, Seq<char>), CredentialsError>(e),
            },
    {
        let id = match text_of(v, "clientId", "client_id") {
            Some(s) => s.clone(),
            None => {
                return Err(CredentialsError::MissingClientId);
            },
        };
        let secret = match text_of(v, "clientSecret", "client_secret") {
            Some(s) => s.clone(),
            None => {
                return Err(CredentialsError::MissingClientSecret);
            },
        };
        Ok(OpenskyConfig { client_id: id, client_secret: secret })
    }

    /// The credentials of a JSON document.
    pub fn from_json_str(s: &str) -> (r: Result<OpenskyConfig, CredentialsError>)
        ensures
            match json::json_document(vstd::utf8::encode_utf8(s@)) {
                None => r == Err::<OpenskyConfig, CredentialsError>(CredentialsError::NotJson),
                Some(v) => match r {
                    Ok(c) => credentials_in(v) == Ok::<(Seq<char>, Seq<char>), CredentialsError>(
                        (c.client_id@, c.client_secret@),
                    ),
                    Err(e) => credentials_in(v) == Err::<(Seq<char>, Seq<char>), CredentialsError>(
                        e,
                    ),
                },
            },
    {
        match json::parse(s.as_bytes()) {
            Some(v) => OpenskyConfig::from_json(&v),
            None => Err(CredentialsError::NotJson),
        }
    }

    /// Where the credentials come from: an id with a secret, else a file. Empty texts count as
    /// missing.
    pub fn from_settings(
        client_id: &Option<String>,
        client_secret: &Option<String>,
        credentials_json: &Option<String>,
    ) -> (r: ConfigSource)
        ensures
            ({
                let id = text::trimmed_or_none(text::opt_view(*client_id));
                let secret = text::trimmed_or_none(text::opt_view(*client_secret));
                let path = text::trimmed_or_none(text::opt_view(*credentials_json));
                match r {
                    ConfigSource::Given(c) => id == Some(c.client_id@) && secret == Some(
                        c.client_secret@,
                    ),
                    ConfigSource::File(p) => (id is None || secret is None) && path == Some(p@),
                    ConfigSource::Missing => (id is None || secret is None) && path is None,
                }
            }),
    {
        let id = text::empty_to_none(client_id);
        let secret = text::empty_to_none(client_secret);
        if let (Some(client_id), Some(client_secret)) = (id, secret) {
            return ConfigSource::Given(OpenskyConfig { client_id, client_secret });
        }
        match text::empty_to_none(credentials_json) {
            Some(path) => ConfigSource::File(path),
            None => ConfigSource::Missing,
        }
    }
}

/// A token is used until this long before it expires, in milliseconds.
pub const TOKEN_REFRESH_MARGIN_MS: u128 = 30_000;

/// Whether a token that expires at a time can still be used.
pub fn token_still_good(now_ms: u128, expires_at_ms: u128) -> (r: bool)
    ensures
        r == (now_ms + TOKEN_REFRESH_MARGIN_MS < expires_at_ms),
{
    expires_at_ms > TOKEN_REFRESH_MARGIN_MS && now_ms < expires_at_ms - TOKEN_REFRESH_MARGIN_MS
}

/// How long a token holds, in seconds; half an hour where the response does not say.
pub fn token_lifetime_secs(expires_in: Option<u64>) -> (r: u64)
    ensures
        r == match expires_in {
            Some(s) => s,
            None => 1800,
        },
{
    match expires_in {
        Some(s) => s,
        None => 1800,
    }
}

/// What `String::from_utf8_lossy` makes of bytes.
pub uninterp spec fn lossy_text(bytes: Seq<u8>) -> Seq<char>;

/// `String::from_utf8_lossy`: a text for any bytes, by the bytes alone.
#[verifier::external_body]
fn bytes_to_text(bytes: &[u8]) -> (r: String)
    ensures
        r@ == lossy_text(bytes@),
{
    String::from_utf8_lossy(bytes).into_owned()
}

/// What is shown of a response body: its first 200 characters.
pub open spec fn body_shown(body: Seq<u8>) -> Seq<char> {
    text::first_chars(lossy_text(body), 200)
}

/// What is shown of a response body: its first 200 characters.
pub fn show_body(body: &[u8]) -> (r: String)
    ensures
        r@ == body_shown(body@),
{
    text::truncate(bytes_to_text(body).as_str(), 200)
}

/// What a response comes to, by its status.
pub fn classify(status: u16, body: Vec<u8>, credit: CreditInfo) -> (r: OpenskyOutcome<Vec<u8>>)
    ensures
        200 <= status <= 299 ==> r == (OpenskyOutcome::Success { data: body, credit }),
        status == 404 ==> r == (OpenskyOutcome::<Vec<u8>>::NotFound { credit }),
        status == 429 ==> r == (OpenskyOutcome::<Vec<u8>>::RateLimited { credit }),
        401 <= status <= 403 ==> (r matches OpenskyOutcome::Denied { status: s, message } && s
            == status && message@ == body_shown(body@)),
        !(200 <= status <= 299) && status != 404 && status != 429 && !(401 <= status <= 403) ==> (r
            matches OpenskyOutcome::Other { status: s, message } && s == status && message@
            == body_shown(body@)),
{
    if 200 <= status && status <= 299 {
        OpenskyOutcome::Success { data: body, credit }
    } else if status == 404 {
        OpenskyOutcome::NotFound { credit }
    } else if status == 429 {
        OpenskyOutcome::RateLimited { credit }
    } else {
        let message = show_body(body.as_slice());
        if 401 <= status && status <= 403 {
            OpenskyOutcome::Denied { status, message }
        } else {
            OpenskyOutcome::Other { status, message }
        }
    }
}

/// A header of a response.
#[derive(Debug)]
pub enum HeaderField {
    Absent,
    /// There, but not as a text.
    Opaque,
    Text(String),
}

/// The number that a header names, at most `max`.
pub open spec fn header_value(h: HeaderField, max: nat) -> Option<nat> {
    match h {
        HeaderField::Text(s) => text::parsed_number(s@, max),
        _ => None,
    }
}

/// The number that a header names, at most `max`.
pub fn header_number(h: &HeaderField, max: u64) -> (r: Option<u64>)
    ensures
        r is Some <==> header_value(*h, max as nat) is Some,
        r matches Some(v) ==> header_value(*h, max as nat) == Some(v as nat),
{
    match h {
        HeaderField::Text(s) => text::parse_number(s.as_str(), max),
        _ => None,
    }
}

/// What the headers of a response say of credits: what remains, and how long to wait. The wait is
/// that of the rate-limit header where it is there, else that of `Retry-After`.
pub fn credit_from_headers(
    remaining: &HeaderField,
    rate_limit_retry: &HeaderField,
    retry_after: &HeaderField,
    bucket: CreditBucket,
) -> (r: CreditInfo)
    ensures
        r.bucket == bucket,
        r.remaining is Some <==> header_value(*remaining, u32::MAX as nat) is Some,
        r.remaining matches Some(n) ==> header_value(*remaining, u32::MAX as nat) == Some(
            n as nat,
        ),
        ({
            let wait = if *rate_limit_retry is Absent {
                header_value(*retry_after, u64::MAX as nat)
            } else {
                header_value(*rate_limit_retry, u64::MAX as nat)
            };
            &&& r.retry_after is Some <==> wait is Some
            &&& r.retry_after matches Some(n) ==> wait == Some(n as nat)
        }),
{
    let left: Option<u32> = match header_number(remaining, u32::MAX as u64) {
        Some(n) => Some(n as u32),
        None => None,
    };
    let wait: Option<u64> = match rate_limit_retry {
        HeaderField::Absent => header_number(retry_after, u64::MAX),
        _ => header_number(rate_limit_retry, u64::MAX),
    };
    CreditInfo { remaining: left, retry_after: wait, bucket }
}

/// A label in upper case without white space around it; none where nothing is left of it.
pub open spec fn label(t: Option<Seq<char>>) -> Option<Seq<char>> {
    match text::trimmed_or_none(t) {
        Some(s) => Some(text::upper(s)),
        None => None,
    }
}

/// A label in upper case without white space around it; none where nothing is left of it.
pub fn normalize_callsign(raw: &Option<String>) -> (r: Option<String>)
    ensures
        text::opt_view(r) == label(text::opt_view(*raw)),
{
    match text::empty_to_none(raw) {
        Some(s) => Some(text::to_upper(s.as_str())),
        None => None,
    }
}

/// Brings an ident into upper case without white space around it; one of which nothing is left
/// goes.
pub fn normalize_ident(value: &mut Option<String>)
    ensures
        text::opt_view(*final(value)) == label(text::opt_view(*old(value))),
{
    let clean = normalize_callsign(value);
    *value = clean;
}

/// The flight `a` is `b` with its address in lower case and its labels brought into shape.
pub open spec fn normalized(a: Flight, b: Flight) -> bool {
    &&& a.icao24@ == text::lower(b.icao24@)
    &&& text::opt_view(a.est_departure_airport) == label(text::opt_view(b.est_departure_airport))
    &&& text::opt_view(a.est_arrival_airport) == label(text::opt_view(b.est_arrival_airport))
    &&& text::opt_view(a.callsign) == label(text::opt_view(b.callsign))
    &&& a.first_seen == b.first_seen
    &&& a.last_seen == b.last_seen
    &&& a.est_departure_airport_horiz_distance == b.est_departure_airport_horiz_distance
    &&& a.est_departure_airport_vert_distance == b.est_departure_airport_vert_distance
    &&& a.est_arrival_airport_horiz_distance == b.est_arrival_airport_horiz_distance
    &&& a.est_arrival_airport_vert_distance == b.est_arrival_airport_vert_distance
    &&& a.departure_airport_candidates_count == b.departure_airport_candidates_count
    &&& a.arrival_airport_candidates_count == b.arrival_airport_candidates_count
}

/// Flights as they were read, each with its address in lower case and its labels brought into
/// shape.
pub fn normalize_flights(raw: Vec<Flight>) -> (r: Vec<Flight>)
    ensures
        r@.len() == raw@.len(),
        forall|i: int| 0 <= i < r@.len() ==> normalized(#[trigger] r@[i], raw@[i]),
{
    let mut out: Vec<Flight> = Vec::new();
    let mut i: usize = 0;
    while i < raw.len()
        invariant
            0 <= i <= raw@.len(),
            out@.len() == i,
            forall|j: int| 0 <= j < i ==> normalized(#[trigger] out@[j], raw@[j]),
        decreases raw@.len() - i,
    {
        let mut f = raw[i].clone();
        f.icao24 = text::to_lower(f.icao24.as_str());
        normalize_ident(&mut f.est_departure_airport);
        normalize_ident(&mut f.est_arrival_airport);
        f.callsign = normalize_callsign(&f.callsign);
        out.push(f);
        i += 1;
    }
    out
}

/// Bringing labels into shape twice is the same as once.
pub proof fn law_label_is_stable(t: Option<Seq<char>>)
    ensures
        label(label(t)) == label(t),
{
    if let Some(s) = text::trimmed_or_none(t) {
        text::lemma_trim_upper(s);
        text::lemma_trimmed_ends(t->0);
    }
}

/// A document that had to be JSON is not.
#[derive(Debug, Clone, Copy, PartialEq, Eq, Structural)]
pub struct NotJson;

/// The address in one row of `/states/all`.
pub open spec fn state_hex(row: JsonTree) -> Option<Seq<char>> {
    match row.as_array() {
        Some(cells) => if cells.len() > 0 {
            match cells[0].as_str() {
                Some(h) => Some(text::lower(h)),
                None => None,
            }
        } else {
            None
        },
        None => None,
    }
}

/// The addresses in rows of `/states/all`; a row without one is passed over.
pub open spec fn state_hexes(rows: Seq<JsonTree>) -> Seq<Seq<char>>
    decreases rows.len(),
{
    if rows.len() == 0 {
        Seq::empty()
    } else {
        let front = state_hexes(rows.drop_last());
        match state_hex(rows.last()) {
            Some(h) => front.push(h),
            None => front,
        }
    }
}

/// The addresses in a `/states/all` document; none where it has no array of states.
pub open spec fn hexes_in_states(v: JsonTree) -> Seq<Seq<char>> {
    match json::array_at(v, "states"@) {
        Some(rows) => state_hexes(rows),
        None => Seq::empty(),
    }
}

/// The addresses in a `/states/all` document.
pub fn states_hexes(v: &Json) -> (r: Vec<String>)
    ensures
        order::views(r@) == hexes_in_states(v@),
{
    let mut out: Vec<String> = Vec::new();
    proof {
        assert(order::views(out@) =~= Seq::<Seq<char>>::empty());
    }
    let rows = match v.array_at("states") {
        Some(a) => a,
        None => {
            return out;
        },
    };
    let ghost all = json::array_at(v@, "states"@)->0;
    let mut i: usize = 0;
    while i < rows.len()
        invariant
            0 <= i <= rows@.len(),
            all.len() == rows@.len(),
            forall|j: int| 0 <= j < rows@.len() ==> (#[trigger] rows@[j])@ == all[j],
            order::views(out@) == state_hexes(all.take(i as int)),
        decreases rows@.len() - i,
    {
        let ghost done = order::views(out@);
        proof {
            assert(all.take(i + 1).drop_last() =~= all.take(i as int));
            assert(rows@[i as int]@ == all[i as int]);
        }
        if let Some(cells) = rows[i].as_array() {
            if cells.len() > 0 {
                proof {
                    assert(cells@[0]@ == all[i as int].as_array()->0[0]);
                }
                if let Some(h) = cells[0].as_str() {
                    let low = text::to_lower(h.as_str());
                    let ghost l = low@;
                    out.push(low);
                    proof {
                        assert(order::views(out@) =~= done.push(l));
                    }
                }
            }
        }
        i += 1;
    }
    proof {
        assert(all.take(i as int) =~= all);
    }
    out
}

/// The addresses in the body of a `/states/all` response.
pub fn parse_states_hexes(bytes: &[u8]) -> (r: Result<Vec<String>, NotJson>)
    ensures
        match json::json_document(bytes@) {
            Some(v) => r matches Ok(hexes) && order::views(hexes@) == hexes_in_states(v),
            None => r is Err,
        },
{
    match json::parse(bytes) {
        Some(v) => Ok(states_hexes(&v)),
        None => Err(NotJson),
    }
}

/// The point in one item of a track's path: its second and third cell, where both are numbers and
/// name a point on the globe.
pub open spec fn path_point(item: JsonTree) -> Option<(Double, Double)> {
    match item.as_array() {
        Some(cells) => if cells.len() >= 3 {
            match (cells[1].as_double(), cells[2].as_double()) {
                (Some(lat), Some(lon)) => if double::on_globe(lat, lon) {
                    Some((lat, lon))
                } else {
                    None
                },
                _ => None,
            }
        } else {
            None
        },
        None => None,
    }
}

/// The points of a track's path.
pub open spec fn path_points(path: Seq<JsonTree>) -> Seq<(Double, Double)>
    decreases path.len(),
{
    if path.len() == 0 {
        Seq::empty()
    } else {
        let front = path_points(path.drop_last());
        match path_point(path.last()) {
            Some(p) => front.push(p),
            None => front,
        }
    }
}

/// The ends of a track by its points and the label of its document: none without a point.
pub open spec fn ends_match(ends: Option<TrackEnds>, v: JsonTree) -> bool {
    match json::array_at(v, "path"@) {
        Some(path) => {
            let points = path_points(path);
            if points.len() == 0 {
                ends is None
            } else {
                ends matches Some(t) && (t.dep_lat, t.dep_lon) == points.first() && (
                    t.arr_lat,
                    t.arr_lon,
                ) == points.last() && text::opt_view(t.callsign) == label(
                    text_under(v, "callsign"@, "calllsign"@),
                )
            }
        },
        None => ends is None,
    }
}

fn point_of(item: &Json) -> (r: Option<(Double, Double)>)
    ensures
        r == path_point(item@),
{
    let cells = match item.as_array() {
        Some(a) => a,
        None => {
            return None;
        },
    };
    if cells.len() < 3 {
        return None;
    }
    proof {
        assert(cells@[1]@ == item@.as_array()->0[1]);
        assert(cells@[2]@ == item@.as_array()->0[2]);
    }
    match (cells[1].as_double(), cells[2].as_double()) {
        (Some(lat), Some(lon)) => if double::is_on_globe(lat, lon) {
            Some((lat, lon))
        } else {
            None
        },
        _ => None,
    }
}

/// The ends of a track document: its first and last point on the globe.
pub fn track_endpoints(v: &Json) -> (r: Option<TrackEnds>)
    ensures
        ends_match(r, v@),
{
    let path = match v.array_at("path") {
        Some(a) => a,
        None => {
            return None;
        },
    };
    let ghost all = json::array_at(v@, "path"@)->0;
    let mut first: Option<(Double, Double)> = None;
    let mut last: Option<(Double, Double)> = None;
    let mut i: usize = 0;
    while i < path.len()
        invariant
            0 <= i <= path@.len(),
            all.len() == path@.len(),
            forall|j: int| 0 <= j < path@.len() ==> (#[trigger] path@[j])@ == all[j],
            ({
                let points = path_points(all.take(i as int));
                &&& points.len() == 0 ==> first is None && last is None
                &&& points.len() > 0 ==> first == Some(points.first()) && last == Some(
                    points.last(),
                )
            }),
        decreases path@.len() - i,
    {
        proof {
            assert(all.take(i + 1).drop_last() =~= all.take(i as int));
            assert(path@[i as int]@ == all[i as int]);
        }
        if let Some(p) = point_of(&path[i]) {
            if first.is_none() {
                first = Some(p);
            }
            last = Some(p);
        }
        i += 1;
    }
    proof {
        assert(all.take(i as int) =~= all);
    }
    let ((dep_lat, dep_lon), (arr_lat, arr_lon)) = match (first, last) {
        (Some(a), Some(b)) => (a, b),
        _ => {
            return None;
        },
    };
    let raw: Option<String> = match text_of(v, "callsign", "calllsign") {
        Some(s) => Some(s.clone()),
        None => None,
    };
    Some(TrackEnds { dep_lat, dep_lon, arr_lat, arr_lon, callsign: normalize_callsign(&raw) })
}

/// The ends of the track in the body of a `/tracks/all` response.
pub fn parse_track_endpoints(bytes: &[u8]) -> (r: Option<TrackEnds>)
    ensures
        match json::json_document(bytes@) {
            Some(v) => ends_match(r, v),
            None => r is None,
        },
{
    match json::parse(bytes) {
        Some(v) => track_endpoints(&v),
        None => None,
    }
}

/// What a `/tracks/all` response comes to.
pub fn tracks_outcome(response: OpenskyOutcome<Vec<u8>>) -> (r: OpenskyOutcome<Option<TrackEnds>>)
    ensures
        match response {
            OpenskyOutcome::Success { data, credit } => r matches OpenskyOutcome::Success {
                data: ends,
                credit: c,
            } && c == credit && (match json::json_document(data@) {
                Some(v) => ends_match(ends, v),
                None => ends is None,
            }),
            OpenskyOutcome::NotFound { credit } => r == (OpenskyOutcome::<
                Option<TrackEnds>,
            >::NotFound { credit }),
            OpenskyOutcome::RateLimited { credit } => r == (OpenskyOutcome::<
                Option<TrackEnds>,
            >::RateLimited { credit }),
            OpenskyOutcome::Denied { status, message } => r == (OpenskyOutcome::<
                Option<TrackEnds>,
            >::Denied { status, message }),
            OpenskyOutcome::Other { status, message } => r == (OpenskyOutcome::<
                Option<TrackEnds>,
            >::Other { status, message }),
        },
{
    match response {
        OpenskyOutcome::Success { data, credit } => OpenskyOutcome::Success {
            data: parse_track_endpoints(data.as_slice()),
            credit,
        },
        OpenskyOutcome::NotFound { credit } => OpenskyOutcome::NotFound { credit },
        OpenskyOutcome::RateLimited { credit } => OpenskyOutcome::RateLimited { credit },
        OpenskyOutcome::Denied { status, message } => OpenskyOutcome::Denied { status, message },
        OpenskyOutcome::Other { status, message } => OpenskyOutcome::Other { status, message },
    }
}

#[derive(Debug, Clone, Copy, PartialEq, Eq, Structural)]
pub enum WindowError {
    EndNotAfterBegin,
    /// Longer than two hours.
    TooLong,
}

/// Whether `/flights/all` takes a window: one that ends after it begins, and no more than two
/// hours after.
pub fn check_flights_window(begin: i64, end: i64) -> (r: Result<(), WindowError>)
    ensures
        end <= begin ==> r == Err::<(), WindowError>(WindowError::EndNotAfterBegin),
        end > begin && end - begin > FLIGHTS_ALL_SLICE_SECS ==> r == Err::<(), WindowError>(
            WindowError::TooLong,
        ),
        begin < end <= begin + FLIGHTS_ALL_SLICE_SECS ==> r is Ok,
{
    if end <= begin {
        Err(WindowError::EndNotAfterBegin)
    } else if end as i128 - begin as i128 > FLIGHTS_ALL_SLICE_SECS as i128 {
        Err(WindowError::TooLong)
    } else {
        Ok(())
    }
}

/// The flights in a body that was read as `read`: an empty body holds none, and what was read is
/// brought into shape.
pub fn parse_flights(body: &[u8], read: Result<Vec<Flight>, String>) -> (r: Result<
    Vec<Flight>,
    String,
>)
    ensures
        body@.len() == 0 ==> (r matches Ok(flights) && flights@.len() == 0),
        body@.len() > 0 ==> match read {
            Ok(raw) => r matches Ok(flights) && flights@.len() == raw@.len() && forall|i: int|
                0 <= i < raw@.len() ==> normalized(#[trigger] flights@[i], raw@[i]),
            Err(e) => r == Err::<Vec<Flight>, String>(e),
        },
{
    if body.len() == 0 {
        return Ok(Vec::new());
    }
    match read {
        Ok(raw) => Ok(normalize_flights(raw)),
        Err(e) => Err(e),
    }
}

/// What is said of a body that is no list of flights.
pub open spec fn unparseable(body_bytes: nat, error: Seq<char>) -> Seq<char> {
    "unparseable flights/all body ("@ + text::decimal(body_bytes) + " bytes): "@ + error
}

/// What a `/flights/all` response comes to, with the flights that were read from it.
pub fn flights_outcome(
    status: u16,
    response: OpenskyOutcome<Vec<u8>>,
    flights: Result<Vec<Flight>, String>,
) -> (r: OpenskyOutcome<Vec<Flight>>)
    ensures
        match response {
            OpenskyOutcome::Success { data, credit } => match flights {
                Ok(list) => r == (OpenskyOutcome::Success { data: list, credit }),
                Err(e) => r matches OpenskyOutcome::Other { status: s, message } && s == status
                    && message@ == unparseable(data@.len(), e@),
            },
            OpenskyOutcome::NotFound { credit } => r == (OpenskyOutcome::<Vec<Flight>>::NotFound {
                credit,
            }),
            OpenskyOutcome::RateLimited { credit } => r == (OpenskyOutcome::<
                Vec<Flight>,
            >::RateLimited { credit }),
            OpenskyOutcome::Denied { status: s, message } => r == (OpenskyOutcome::<
                Vec<Flight>,
            >::Denied { status: s, message }),
            OpenskyOutcome::Other { status: s, message } => r == (OpenskyOutcome::<
                Vec<Flight>,
            >::Other { status: s, message }),
        },
{
    match response {
        OpenskyOutcome::Success { data, credit } => match flights {
            Ok(list) => OpenskyOutcome::Success { data: list, credit },
            Err(e) => {
                let size = text::number_text(data.len() as u64);
                let head = text::join2("unparseable flights/all body (", size.as_str());
                let mid = text::join2(head.as_str(), " bytes): ");
                OpenskyOutcome::Other { status, message: text::join2(mid.as_str(), e.as_str()) }
            },
        },
        OpenskyOutcome::NotFound { credit } => OpenskyOutcome::NotFound { credit },
        OpenskyOutcome::RateLimited { credit } => OpenskyOutcome::RateLimited { credit },
        OpenskyOutcome::Denied { status: s, message } => OpenskyOutcome::Denied {
            status: s,
            message,
        },
        OpenskyOutcome::Other { status: s, message } => OpenskyOutcome::Other {
            status: s,
            message,
        },
    }
}

/// Whether an error speaks of a timeout, in whatever case.
pub open spec fn speaks_of_timeout(error: Seq<char>) -> bool {
    text::occurs(text::lower(error), "timed out"@) || text::occurs(text::lower(error), "timeout"@)
}

/// What a `/flights/all` request that got no response comes to.
pub fn transport_failure(elapsed_ms: u128, error: &str) -> (r: OpenskyOutcome<Vec<Flight>>)
    ensures
        r matches OpenskyOutcome::Other { status, message } && status == 0 && message@ == (
        if speaks_of_timeout(error@) {
            "timeout after "@ + text::decimal(elapsed_ms as nat) + "ms: "@ + error@
        } else {
            "transport: "@ + error@
        }),
{
    let low = text::to_lower(error);
    let message = if text::has_part(low.as_str(), "timed out") || text::has_part(
        low.as_str(),
        "timeout",
    ) {
        let head = text::join2("timeout after ", text::large_number_text(elapsed_ms).as_str());
        text::join2(text::join2(head.as_str(), "ms: ").as_str(), error)
    } else {
        text::join2("transport: ", error)
    };
    OpenskyOutcome::Other { status: 0, message }
}

/// Texts in lower case.
pub open spec fn all_lower(s: Seq<Seq<char>>) -> Seq<Seq<char>> {
    s.map_values(|t: Seq<char>| text::lower(t))
}

/// A poll of `/states/all` for a fleet, request by request.
pub struct StatesPoll {
    hexes: Vec<String>,
    at: usize,
    found: Vec<String>,
    credit: CreditInfo,
}

#[verifier::ext_equal]
pub struct PollView {
    pub hexes: Seq<Seq<char>>,
    /// How many hexes were asked for.
    pub at: int,
    /// The addresses that the responses held.
    pub found: Seq<Seq<char>>,
    pub credit: CreditInfo,
}

impl PollView {
    /// Where the next request ends.
    pub open spec fn chunk_end(self) -> int {
        if self.at + HEX_CHUNK < self.hexes.len() {
            self.at + HEX_CHUNK
        } else {
            self.hexes.len() as int
        }
    }

    pub open spec fn wf(self) -> bool {
        0 <= self.at <= self.hexes.len()
    }
}

impl View for StatesPoll {
    type V = PollView;

    closed spec fn view(&self) -> PollView {
        PollView {
            hexes: order::views(self.hexes@),
            at: self.at as int,
            found: order::views(self.found@),
            credit: self.credit,
        }
    }
}

/// A poll after the response to the request for its chunk.
pub open spec fn after_response(poll: PollView, response: OpenskyOutcome<Vec<u8>>) -> PollView {
    match response {
        OpenskyOutcome::Success { data, credit } => match json::json_document(data@) {
            Some(v) => PollView {
                at: poll.chunk_end(),
                found: poll.found + hexes_in_states(v),
                credit,
                ..poll
            },
            None => poll,
        },
        OpenskyOutcome::NotFound { credit } => PollView { at: poll.chunk_end(), credit, ..poll },
        _ => poll,
    }
}

/// Values that stand next to their like are dropped but for the first.
pub open spec fn without_repeats(s: Seq<Seq<char>>) -> Seq<Seq<char>>
    decreases s.len(),
{
    if s.len() <= 1 {
        s
    } else {
        let front = without_repeats(s.drop_last());
        if s.last() == s[s.len() - 2] {
            front
        } else {
            front.push(s.last())
        }
    }
}

/// The texts in order, each once.
pub open spec fn in_order_once(s: Seq<Seq<char>>) -> Seq<Seq<char>> {
    without_repeats(order::sorted::<String>(s))
}

/// The texts in order, each once.
pub fn sort_and_dedup(list: Vec<String>) -> (r: Vec<String>)
    ensures
        order::views(r@) == in_order_once(order::views(list@)),
{
    let sorted = order::sort(list);
    let ghost all = order::views(sorted@);
    let mut out: Vec<String> = Vec::new();
    let mut i: usize = 0;
    proof {
        assert(order::views(out@) =~= without_repeats(all.take(0)));
    }
    while i < sorted.len()
        invariant
            0 <= i <= sorted@.len(),
            all == order::views(sorted@),
            order::views(out@) == without_repeats(all.take(i as int)),
        decreases sorted@.len() - i,
    {
        let ghost done = order::views(out@);
        proof {
            assert(all.take(i + 1).drop_last() =~= all.take(i as int));
            assert(all[i as int] == sorted@[i as int]@);
            if i > 0 {
                assert(all.take(i + 1)[i - 1] == sorted@[i - 1]@);
            } else {
                assert(without_repeats(all.take(1)) =~= seq![all[0]]);
            }
        }
        let repeated = i > 0 && text::same_text(sorted[i].as_str(), sorted[i - 1].as_str());
        if !repeated {
            out.push(sorted[i].clone());
            proof {
                assert(order::views(out@) =~= done.push(all[i as int]));
                if i == 0 {
                    assert(done =~= Seq::<Seq<char>>::empty());
                }
            }
        }
        i += 1;
    }
    proof {
        assert(all.take(i as int) =~= all);
    }
    out
}

/// Texts in order, each once, are the same texts, and rise strictly.
pub proof fn law_in_order_once(s: Seq<Seq<char>>)
    ensures
        forall|t: Seq<char>| #[trigger] in_order_once(s).contains(t) <==> s.contains(t),
        forall|i: int, j: int|
            0 <= i < j < in_order_once(s).len() ==> text::text_lt(
                #[trigger] in_order_once(s)[i],
                #[trigger] in_order_once(s)[j],
            ),
{
    broadcast use vstd::seq_lib::group_to_multiset_ensures;

    let in_order = order::sorted::<String>(s);
    order::law_sorted::<String>(s);
    lemma_without_repeats(in_order);
    assert forall|t: Seq<char>| #[trigger] in_order_once(s).contains(t) <==> s.contains(t) by {
        lemma_repeats_held(in_order, t);
        assert(in_order.to_multiset().count(t) == s.to_multiset().count(t));
    }
}

/// Dropping repeats drops no text altogether.
proof fn lemma_repeats_held(s: Seq<Seq<char>>, t: Seq<char>)
    ensures
        without_repeats(s).contains(t) <==> s.contains(t),
    decreases s.len(),
{
    if s.len() > 1 {
        let front = s.drop_last();
        lemma_repeats_held(front, t);
        assert(s =~= front.push(s.last()));
        assert(front[s.len() - 2] == s[s.len() - 2]);
        if s.contains(t) {
            let i = choose|i: int| 0 <= i < s.len() && s[i] == t;
            if i < front.len() {
                assert(front[i] == t);
            }
        }
        if front.contains(t) {
            let i = choose|i: int| 0 <= i < front.len() && front[i] == t;
            assert(s[i] == t);
        }
        assert(s[s.len() - 1] == s.last());
        let kept = without_repeats(front);
        if s.last() != s[s.len() - 2] {
            let r = without_repeats(s);
            assert(r == kept.push(s.last()));
            assert(r[kept.len() as int] == s.last());
            if kept.contains(t) {
                let i = choose|i: int| 0 <= i < kept.len() && kept[i] == t;
                assert(r[i] == t);
            }
            if r.contains(t) {
                let i = choose|i: int| 0 <= i < r.len() && r[i] == t;
                if i < kept.len() {
                    assert(kept[i] == t);
                }
            }
        }
    }
}

proof fn lemma_without_repeats(s: Seq<Seq<char>>)
    requires
        order::in_order::<String>(s),
    ensures
        forall|i: int, j: int|
            0 <= i < j < without_repeats(s).len() ==> text::text_lt(
                #[trigger] without_repeats(s)[i],
                #[trigger] without_repeats(s)[j],
            ),
        s.len() > 0 ==> without_repeats(s).len() > 0 && without_repeats(s).last() == s.last(),
    decreases s.len(),
{
    if s.len() > 1 {
        let front = s.drop_last();
        assert(order::in_order::<String>(front)) by {
            assert forall|i: int, j: int| 0 <= i < j < front.len() implies !<String as order::Ranked>::before(
                #[trigger] front[j],
                #[trigger] front[i],
            ) by {
                assert(front[i] == s[i] && front[j] == s[j]);
            }
        }
        lemma_without_repeats(front);
        let kept = without_repeats(front);
        let r = without_repeats(s);
        if s.last() != s[s.len() - 2] {
            let a = s[s.len() - 2];
            let b = s[s.len() - 1];
            assert(!<String as order::Ranked>::before(b, a));
            text::lemma_text_lt_total(a, b);
            assert(kept.last() == a);
            assert forall|i: int, j: int| 0 <= i < j < r.len() implies text::text_lt(
                #[trigger] r[i],
                #[trigger] r[j],
            ) by {
                if j == kept.len() && i < kept.len() - 1 {
                    assert(text::text_lt(kept[i], kept[kept.len() - 1]));
                    text::lemma_text_lt_transitive(kept[i], a, b);
                }
            }
        }
    }
}

impl StatesPoll {
    pub closed spec fn wf(&self) -> bool {
        self@.wf()
    }

    pub fn start(hexes: Vec<String>) -> (r: StatesPoll)
        ensures
            r.wf(),
            r@ == (PollView {
                hexes: order::views(hexes@),
                at: 0,
                found: Seq::empty(),
                credit: CreditInfo {
                    remaining: None,
                    retry_after: None,
                    bucket: CreditBucket::States,
                },
            }),
    {
        let r = StatesPoll {
            hexes,
            at: 0,
            found: Vec::new(),
            credit: CreditInfo {
                remaining: None,
                retry_after: None,
                bucket: CreditBucket::States,
            },
        };
        proof {
            assert(r@.found =~= Seq::<Seq<char>>::empty());
        }
        r
    }

    fn end_of_chunk(&self) -> (r: usize)
        requires
            self.wf(),
        ensures
            r == self@.chunk_end(),
    {
        if self.hexes.len() - self.at > HEX_CHUNK {
            self.at + HEX_CHUNK
        } else {
            self.hexes.len()
        }
    }

    /// The hexes of the next request, in lower case; none where every hex was asked for.
    pub fn chunk(&self) -> (r: Vec<String>)
        requires
            self.wf(),
        ensures
            order::views(r@) == all_lower(self@.hexes.subrange(self@.at, self@.chunk_end())),
            r@.len() == 0 <==> self@.at == self@.hexes.len(),
    {
        let end = self.end_of_chunk();
        let ghost all = self@.hexes;
        let mut out: Vec<String> = Vec::new();
        let mut i: usize = self.at;
        proof {
            assert(order::views(out@) =~= all_lower(all.subrange(self.at as int, i as int)));
        }
        while i < end
            invariant
                self.at <= i <= end <= self.hexes@.len(),
                all == order::views(self.hexes@),
                order::views(out@) == all_lower(all.subrange(self.at as int, i as int)),
                out@.len() == i - self.at,
            decreases end - i,
        {
            let ghost done = order::views(out@);
            let low = text::to_lower(self.hexes[i].as_str());
            let ghost l = low@;
            out.push(low);
            proof {
                assert(all[i as int] == self.hexes@[i as int]@);
                assert(order::views(out@) =~= done.push(l));
                assert(all_lower(all.subrange(self.at as int, i + 1)) =~= done.push(l));
            }
            i += 1;
        }
        out
    }

    /// Takes the response to the request for the chunk. An error outcome ends the poll and is
    /// handed back; a body that is no JSON is an error of its own.
    pub fn answered(&mut self, response: OpenskyOutcome<Vec<u8>>) -> (r: Result<
        Option<OpenskyOutcome<Vec<String>>>,
        NotJson,
    >)
        requires
            old(self).wf(),
        ensures
            final(self).wf(),
            match response {
                OpenskyOutcome::Success { data, credit } => match json::json_document(data@) {
                    Some(v) => {
                        &&& r matches Ok(None)
                        &&& final(self)@ == (PollView {
                            at: old(self)@.chunk_end(),
                            found: old(self)@.found + hexes_in_states(v),
                            credit,
                            ..old(self)@
                        })
                    },
                    None => r is Err && final(self)@ == old(self)@,
                },
                OpenskyOutcome::NotFound { credit } => {
                    &&& r matches Ok(None)
                    &&& final(self)@ == (PollView {
                        at: old(self)@.chunk_end(),
                        credit,
                        ..old(self)@
                    })
                },
                OpenskyOutcome::RateLimited { credit } => {
                    &&& r matches Ok(Some(o)) && o == (OpenskyOutcome::<Vec<String>>::RateLimited {
                        credit,
                    })
                    &&& final(self)@ == old(self)@
                },
                OpenskyOutcome::Denied { status, message } => {
                    &&& r matches Ok(Some(o)) && o == (OpenskyOutcome::<Vec<String>>::Denied {
                        status,
                        message,
                    })
                    &&& final(self)@ == old(self)@
                },
                OpenskyOutcome::Other { status, message } => {
                    &&& r matches Ok(Some(o)) && o == (OpenskyOutcome::<Vec<String>>::Other {
                        status,
                        message,
                    })
                    &&& final(self)@ == old(self)@
                },
            },
            final(self)@ == after_response(old(self)@, response),
    {
        let ghost before = self@;
        match response {
            OpenskyOutcome::Success { data, credit } => {
                let hexes = match parse_states_hexes(data.as_slice()) {
                    Ok(h) => h,
                    Err(e) => {
                        return Err(e);
                    },
                };
                let ghost fresh = order::views(hexes@);
                let mut i: usize = 0;
                proof {
                    assert(fresh.take(0) =~= Seq::<Seq<char>>::empty());
                    assert(before.found + fresh.take(0) =~= before.found);
                }
                while i < hexes.len()
                    invariant
                        0 <= i <= hexes@.len(),
                        fresh == order::views(hexes@),
                        self.wf(),
                        self@ == (PollView { found: before.found + fresh.take(i as int), ..before }),
                    decreases hexes@.len() - i,
                {
                    let ghost done = self@.found;
                    self.found.push(hexes[i].clone());
                    proof {
                        assert(fresh[i as int] == hexes@[i as int]@);
                        assert(self@.found =~= done.push(fresh[i as int]));
                        assert(before.found + fresh.take(i + 1) =~= done.push(fresh[i as int]));
                    }
                    i += 1;
                }
                proof {
                    assert(fresh.take(i as int) =~= fresh);
                }
                self.at = self.end_of_chunk();
                self.credit = credit;
                Ok(None)
            },
            OpenskyOutcome::NotFound { credit } => {
                self.at = self.end_of_chunk();
                self.credit = credit;
                Ok(None)
            },
            OpenskyOutcome::RateLimited { credit } => Ok(
                Some(OpenskyOutcome::RateLimited { credit }),
            ),
            OpenskyOutcome::Denied { status, message } => Ok(
                Some(OpenskyOutcome::Denied { status, message }),
            ),
            OpenskyOutcome::Other { status, message } => Ok(
                Some(OpenskyOutcome::Other { status, message }),
            ),
        }
    }

    /// What the poll found once every hex was asked for: the addresses in order, each once, and the
    /// credits that the last response told.
    pub fn finish(self) -> (r: OpenskyOutcome<Vec<String>>)
        requires
            self.wf(),
            self@.at == self@.hexes.len(),
        ensures
            r matches OpenskyOutcome::Success { data, credit } && order::views(data@)
                == in_order_once(self@.found) && credit == self@.credit,
    {
        OpenskyOutcome::Success { data: sort_and_dedup(self.found), credit: self.credit }
    }
}

/// A token is used where it has more than 30 seconds left, and not where it has less.
pub proof fn law_token_margin(now_ms: u128, expires_at_ms: u128, good: bool)
    requires
        call_ensures(token_still_good, (now_ms, expires_at_ms), good),
    ensures
        expires_at_ms - now_ms > 30_000 ==> good,
        expires_at_ms - now_ms <= 30_000 ==> !good,
{
}

/// A token holds as long as the response says, and half an hour where it does not say.
pub proof fn law_token_lifetime(expires_in: Option<u64>, secs: u64)
    requires
        call_ensures(token_lifetime_secs, (expires_in,), secs),
    ensures
        expires_in matches Some(s) ==> secs == s,
        expires_in is None ==> secs == 30 * 60,
{
}

/// What a response comes to: data for a status from 200 to 299, nothing found for 404, a rate limit
/// for 429, a denial for 401, 402 and 403, and another failure for every other status. Data and
/// credits are handed on as they came, and so is the status of a failure.
pub proof fn law_classify(
    status: u16,
    body: Vec<u8>,
    credit: CreditInfo,
    r: OpenskyOutcome<Vec<u8>>,
)
    requires
        call_ensures(classify, (status, body, credit), r),
    ensures
        r is Success <==> 200 <= status <= 299,
        r is NotFound <==> status == 404,
        r is RateLimited <==> status == 429,
        r is Denied <==> status == 401 || status == 402 || status == 403,
        match r {
            OpenskyOutcome::Success { data, credit: c } => data == body && c == credit,
            OpenskyOutcome::NotFound { credit: c } => c == credit,
            OpenskyOutcome::RateLimited { credit: c } => c == credit,
            OpenskyOutcome::Denied { status: s, message } => s == status && message@.len() <= 200,
            OpenskyOutcome::Other { status: s, message } => s == status && message@.len() <= 200,
        },
{
}

/// What is shown of a body is what its text begins with, up to 200 characters.
pub proof fn law_body_shown(body: Seq<u8>)
    ensures
        body_shown(body).len() == (if lossy_text(body).len() < 200 {
            lossy_text(body).len()
        } else {
            200
        }),
        forall|i: int|
            0 <= i < body_shown(body).len() ==> #[trigger] body_shown(body)[i] == lossy_text(body)[i],
{
}

/// The numbers in headers: one that is written as a decimal number is read as it, where it is not
/// larger than allowed; a header that is missing, or no text, or holds another character, names none.
pub proof fn law_header_numbers(h: HeaderField, n: nat, max: nat)
    ensures
        h matches HeaderField::Text(s) ==> {
            &&& s@ == text::decimal(n) && n <= max ==> header_value(h, max) == Some(n)
            &&& s@ == text::decimal(n) && n > max ==> header_value(h, max) is None
            &&& forall|i: int|
                0 <= i < s@.len() && !('0' <= #[trigger] s@[i] <= '9') && (i > 0 || s@[i] != '+')
                    ==> header_value(h, max) is None
        },
        !(h is Text) ==> header_value(h, max) is None,
{
    if let HeaderField::Text(s) = h {
        text::law_numbers_are_read_back(n, max, s@);
    }
}

/// What the headers say of credits: the rest from the header on the rest; the wait from the header
/// of the rate limit where there is one, even one that names no number, else from `Retry-After`; and
/// the bucket that was asked for.
pub proof fn law_credit_from_headers(
    remaining: HeaderField,
    rate_limit_retry: HeaderField,
    retry_after: HeaderField,
    bucket: CreditBucket,
    r: CreditInfo,
)
    requires
        call_ensures(
            credit_from_headers,
            (&remaining, &rate_limit_retry, &retry_after, bucket),
            r,
        ),
    ensures
        r.bucket == bucket,
        match r.remaining {
            Some(n) => header_value(remaining, 0xffff_ffff) == Some(n as nat),
            None => header_value(remaining, 0xffff_ffff) is None,
        },
        rate_limit_retry is Absent ==> match r.retry_after {
            Some(n) => header_value(retry_after, 0xffff_ffff_ffff_ffff) == Some(n as nat),
            None => header_value(retry_after, 0xffff_ffff_ffff_ffff) is None,
        },
        !(rate_limit_retry is Absent) ==> match r.retry_after {
            Some(n) => header_value(rate_limit_retry, 0xffff_ffff_ffff_ffff) == Some(n as nat),
            None => header_value(rate_limit_retry, 0xffff_ffff_ffff_ffff) is None,
        },
{
}

/// A label is what is left of a text without the white space around it, in upper case; there is none
/// exactly where the text is missing or white space alone.
pub proof fn law_label(s: Seq<char>)
    ensures
        label(None) is None,
        label(Some(s)) is None <==> forall|i: int| 0 <= i < s.len() ==> text::is_white(#[trigger] s[i]),
        label(Some(s)) matches Some(t) ==> t == text::upper(text::trim(s)),
{
    text::law_blank_counts_as_missing(s);
}

/// A flight that was brought into shape: its address in lower case, each label of its own field, and
/// all numbers as they were.
pub proof fn law_normalized_flight(a: Flight, b: Flight)
    requires
        normalized(a, b),
    ensures
        a.icao24@ == text::lower(b.icao24@),
        text::opt_view(a.est_departure_airport) == label(text::opt_view(b.est_departure_airport)),
        text::opt_view(a.est_arrival_airport) == label(text::opt_view(b.est_arrival_airport)),
        text::opt_view(a.callsign) == label(text::opt_view(b.callsign)),
        a.first_seen == b.first_seen && a.last_seen == b.last_seen,
        a.est_departure_airport_horiz_distance == b.est_departure_airport_horiz_distance,
        a.est_departure_airport_vert_distance == b.est_departure_airport_vert_distance,
        a.est_arrival_airport_horiz_distance == b.est_arrival_airport_horiz_distance,
        a.est_arrival_airport_vert_distance == b.est_arrival_airport_vert_distance,
        a.departure_airport_candidates_count == b.departure_airport_candidates_count,
        a.arrival_airport_candidates_count == b.arrival_airport_candidates_count,
{
}

/// The credentials of a document: the id under `clientId`, or under `client_id` where the first key
/// is not there, and the secret likewise. What is missing, or is no text, is told, the id first.
pub proof fn law_credentials(v: JsonTree)
    ensures
        ({
            let id = if v.get("clientId"@) is Some {
                v.get("clientId"@)
            } else {
                v.get("client_id"@)
            };
            let secret = if v.get("clientSecret"@) is Some {
                v.get("clientSecret"@)
            } else {
                v.get("client_secret"@)
            };
            match (id, secret) {
                (Some(JsonTree::Text(i)), Some(JsonTree::Text(s))) => credentials_in(v) == Ok::<
                    (Seq<char>, Seq<char>),
                    CredentialsError,
                >((i, s)),
                (Some(JsonTree::Text(_)), _) => credentials_in(v) == Err::<
                    (Seq<char>, Seq<char>),
                    CredentialsError,
                >(CredentialsError::MissingClientSecret),
                _ => credentials_in(v) == Err::<(Seq<char>, Seq<char>), CredentialsError>(
                    CredentialsError::MissingClientId,
                ),
            }
        }),
{
}

/// Where credentials come from: the id and the secret that are given, where both are more than white
/// space; else the file that is named; else nowhere.
pub proof fn law_config_source(
    client_id: Option<String>,
    client_secret: Option<String>,
    credentials_json: Option<String>,
    r: ConfigSource,
)
    requires
        call_ensures(
            OpenskyConfig::from_settings,
            (&client_id, &client_secret, &credentials_json),
            r,
        ),
    ensures
        ({
            let id = text::trimmed_or_none(text::opt_view(client_id));
            let secret = text::trimmed_or_none(text::opt_view(client_secret));
            let path = text::trimmed_or_none(text::opt_view(credentials_json));
            &&& r is Given <==> id is Some && secret is Some
            &&& r matches ConfigSource::Given(c) ==> Some(c.client_id@) == id && Some(
                c.client_secret@,
            ) == secret
            &&& r is File <==> (id is None || secret is None) && path is Some
            &&& r matches ConfigSource::File(p) ==> Some(p@) == path
            &&& r is Missing <==> (id is None || secret is None) && path is None
        }),
{
}

/// The address in a row of `/states/all` is the text in its first cell, in lower case; rows without
/// one are passed over, and the others keep their order.
pub proof fn law_states_rows(rows: Seq<JsonTree>, row: JsonTree)
    ensures
        state_hexes(Seq::empty()).len() == 0,
        state_hexes(rows.push(row)) == (match row {
            JsonTree::Array(cells) => if cells.len() > 0 && cells[0] is Text {
                state_hexes(rows).push(text::lower(cells[0]->Text_0))
            } else {
                state_hexes(rows)
            },
            _ => state_hexes(rows),
        }),
{
    assert(rows.push(row).drop_last() =~= rows);
}

/// The addresses of a document are those of the rows under `states`; there are none where that is no
/// array.
pub proof fn law_states_document(v: JsonTree, rows: Seq<JsonTree>)
    ensures
        v.get("states"@) == Some(JsonTree::Array(rows)) ==> hexes_in_states(v) == state_hexes(rows),
        !(v.get("states"@) matches Some(JsonTree::Array(_))) ==> hexes_in_states(v).len() == 0,
{
}

/// The points of a path: an item has one where it is an array of three cells or more whose second and
/// third are numbers, the latitude first, that name a point on the globe. Items without one are
/// passed over, and the others keep their order.
pub proof fn law_path_items(path: Seq<JsonTree>, item: JsonTree)
    ensures
        path_points(Seq::empty()).len() == 0,
        path_points(path.push(item)) == (match path_point(item) {
            Some(p) => path_points(path).push(p),
            None => path_points(path),
        }),
        path_point(item) matches Some((lat, lon)) ==> (item matches JsonTree::Array(cells)
            && cells.len() >= 3 && (cells[1] matches JsonTree::Number(x, _, _) && x == Some(lat)) && (
        cells[2] matches JsonTree::Number(y, _, _) && y == Some(lon)) && double::on_globe(lat, lon)),
        item matches JsonTree::Array(cells) && cells.len() >= 3 && (
        cells[1] matches JsonTree::Number(Some(x), _, _) && (
        cells[2] matches JsonTree::Number(Some(y), _, _) && double::on_globe(x, y)))
            ==> path_point(item) is Some,
{
    assert(path.push(item).drop_last() =~= path);
}

/// The ends of a track: it departs at the first point of its path and arrives at the last, and has
/// the callsign of its document, under either spelling, brought into shape. It has none exactly where
/// its document has no path with a point.
pub proof fn law_track_ends(ends: Option<TrackEnds>, v: JsonTree, path: Seq<JsonTree>)
    requires
        ends_match(ends, v),
        v.get("path"@) == Some(JsonTree::Array(path)),
    ensures
        ends is Some <==> path_points(path).len() > 0,
        ends matches Some(t) ==> {
            let points = path_points(path);
            &&& t.dep_lat == points[0].0 && t.dep_lon == points[0].1
            &&& t.arr_lat == points[points.len() - 1].0 && t.arr_lon == points[points.len() - 1].1
            &&& v.get("callsign"@) matches Some(JsonTree::Text(c)) ==> text::opt_view(t.callsign)
                == label(Some(c))
            &&& v.get("callsign"@) is None ==> (
            v.get("calllsign"@) matches Some(JsonTree::Text(c)) ==> text::opt_view(t.callsign)
                == label(Some(c)))
            &&& v.get("callsign"@) is None && v.get("calllsign"@) is None ==> t.callsign is None
        },
{
}

/// A window is refused where it does not end after it begins, and where it is longer than two hours;
/// every other is taken.
pub proof fn law_flights_window(begin: i64, end: i64, r: Result<(), WindowError>)
    requires
        call_ensures(check_flights_window, (begin, end), r),
    ensures
        r is Ok <==> 0 < end - begin <= 2 * 60 * 60,
        r == Err::<(), WindowError>(WindowError::EndNotAfterBegin) <==> end <= begin,
        r == Err::<(), WindowError>(WindowError::TooLong) <==> end - begin > 2 * 60 * 60,
{
}

/// What a body that is no list of flights comes to: another failure, with the status of the response
/// and a message that tells the length of the body and the error. Every failure is handed on.
pub proof fn law_flights_outcome(
    status: u16,
    response: OpenskyOutcome<Vec<u8>>,
    flights: Result<Vec<Flight>, String>,
    r: OpenskyOutcome<Vec<Flight>>,
)
    requires
        call_ensures(flights_outcome, (status, response, flights), r),
    ensures
        r is Success <==> response is Success && flights is Ok,
        r matches OpenskyOutcome::Success { data, credit } ==> flights == Ok::<Vec<Flight>, String>(
            data,
        ) && (response matches OpenskyOutcome::Success { credit: c, .. } && c == credit),
        response is NotFound <==> r is NotFound,
        response is RateLimited <==> r is RateLimited,
        response is Denied <==> r is Denied,
        response matches OpenskyOutcome::Success { data, .. } ==> (flights matches Err(e) ==> (
        r matches OpenskyOutcome::Other { status: s, message } && s == status && message@
            == "unparseable flights/all body ("@ + text::decimal(data@.len()) + " bytes): "@ + e@)),
        response matches OpenskyOutcome::NotFound { credit } ==> (
        r matches OpenskyOutcome::NotFound { credit: c } && c == credit),
        response matches OpenskyOutcome::RateLimited { credit } ==> (
        r matches OpenskyOutcome::RateLimited { credit: c } && c == credit),
        response matches OpenskyOutcome::Denied { status: s, message } ==> (
        r matches OpenskyOutcome::Denied { status: t, message: m } && t == s && m == message),
        response matches OpenskyOutcome::Other { status: s, message } ==> (
        r matches OpenskyOutcome::Other { status: t, message: m } && t == s && m == message),
{
}

/// What a request without a response comes to: a failure of status 0, told as a timeout with the
/// time that went where the error speaks of one, in whatever case, and as one of transport else.
pub proof fn law_transport_failure(elapsed_ms: u128, error: &str, r: OpenskyOutcome<Vec<Flight>>)
    requires
        call_ensures(transport_failure, (elapsed_ms, error), r),
    ensures
        r matches OpenskyOutcome::Other { status, message } && {
            let late = text::occurs(text::lower(error@), "timed out"@) || text::occurs(
                text::lower(error@),
                "timeout"@,
            );
            &&& status == 0
            &&& late ==> message@ == "timeout after "@ + text::decimal(elapsed_ms as nat) + "ms: "@
                + error@
            &&& !late ==> message@ == "transport: "@ + error@
        },
{
}

/// An empty body holds no flights, whatever was read from it; what was read from another is kept,
/// flight by flight.
pub proof fn law_parse_flights(
    body: &[u8],
    read: Result<Vec<Flight>, String>,
    r: Result<Vec<Flight>, String>,
)
    requires
        call_ensures(parse_flights, (body, read), r),
    ensures
        body@.len() == 0 ==> (r matches Ok(f) && f@.len() == 0),
        body@.len() > 0 ==> (r is Ok <==> read is Ok),
        body@.len() > 0 && r is Ok ==> (r->Ok_0)@.len() == (read->Ok_0)@.len() && forall|i: int|
            0 <= i < (r->Ok_0)@.len() ==> (#[trigger] (r->Ok_0)@[i]).first_seen == (read->Ok_0)@[i].first_seen
                && (r->Ok_0)@[i].icao24@ == text::lower((read->Ok_0)@[i].icao24@),
        body@.len() > 0 && read is Err ==> r == read,
{
    if body@.len() > 0 && r is Ok {
        assert forall|i: int| 0 <= i < (r->Ok_0)@.len() implies (#[trigger] (r->Ok_0)@[i]).first_seen
            == (read->Ok_0)@[i].first_seen && (r->Ok_0)@[i].icao24@ == text::lower(
            (read->Ok_0)@[i].icao24@,
        ) by {
            assert(normalized((r->Ok_0)@[i], (read->Ok_0)@[i]));
        }
    }
}

/// A poll asks for 80 aircraft at a time, and for the rest with its last request: it goes on as long
/// as any are left, and never asks for one twice.
pub proof fn law_poll_chunks(poll: PollView)
    requires
        0 <= poll.at <= poll.hexes.len(),
    ensures
        poll.hexes.len() - poll.at >= 80 ==> poll.chunk_end() == poll.at + 80,
        poll.hexes.len() - poll.at < 80 ==> poll.chunk_end() == poll.hexes.len(),
        poll.chunk_end() > poll.at <==> poll.at < poll.hexes.len(),
        0 <= poll.chunk_end() <= poll.hexes.len(),
{
}

/// The aircraft of a request are asked for in lower case, each in its place.
pub proof fn law_asked_in_lower_case(hexes: Seq<Seq<char>>)
    ensures
        all_lower(hexes).len() == hexes.len(),
        forall|i: int| 0 <= i < hexes.len() ==> #[trigger] all_lower(hexes)[i] == text::lower(hexes[i]),
{
}

/// A poll gathers what its responses hold: the addresses of a response come behind those that were
/// found before, with its credits, and the poll goes on with the next 80 aircraft; so it does where
/// nothing was found. An error, and a body that is no document, leave it where it was.
pub proof fn law_poll_gathers(poll: PollView, response: OpenskyOutcome<Vec<u8>>)
    requires
        0 <= poll.at <= poll.hexes.len(),
    ensures
        ({
            let next = after_response(poll, response);
            let further = if poll.hexes.len() - poll.at > 80 {
                poll.at + 80
            } else {
                poll.hexes.len() as int
            };
            &&& next.hexes == poll.hexes
            &&& match response {
                OpenskyOutcome::Success { data, credit } => match json::json_document(data@) {
                    Some(v) => {
                        &&& next.at == further && next.credit == credit
                        &&& next.found.len() == poll.found.len() + hexes_in_states(v).len()
                        &&& forall|i: int|
                            0 <= i < poll.found.len() ==> #[trigger] next.found[i] == poll.found[i]
                        &&& forall|i: int|
                            0 <= i < hexes_in_states(v).len() ==> next.found[poll.found.len() + i]
                                == #[trigger] hexes_in_states(v)[i]
                    },
                    None => next == poll,
                },
                OpenskyOutcome::NotFound { credit } => next.at == further && next.credit == credit
                    && next.found == poll.found,
                _ => next == poll,
            }
        }),
{
}

/// What a `/tracks/all` response comes to: data as the ends of its track, none where the body is no
/// document; everything else is handed on as it came.
pub proof fn law_tracks_outcome(
    response: OpenskyOutcome<Vec<u8>>,
    r: OpenskyOutcome<Option<TrackEnds>>,
)
    requires
        call_ensures(tracks_outcome, (response,), r),
    ensures
        match response {
            OpenskyOutcome::Success { data, credit } => r matches OpenskyOutcome::Success {
                data: ends,
                credit: c,
            } && c == credit && (json::json_document(data@) is None ==> ends is None) && (
            json::json_document(data@) matches Some(v) ==> ends_match(ends, v)),
            OpenskyOutcome::NotFound { credit } => r matches OpenskyOutcome::NotFound { credit: c }
                && c == credit,
            OpenskyOutcome::RateLimited { credit } => r matches OpenskyOutcome::RateLimited {
                credit: c,
            } && c == credit,
            OpenskyOutcome::Denied { status, message } => r matches OpenskyOutcome::Denied {
                status: s,
                message: m,
            } && s == status && m == message,
            OpenskyOutcome::Other { status, message } => r matches OpenskyOutcome::Other {
                status: s,
                message: m,
            } && s == status && m == message,
        },
{
}

/// A body that is no document is told apart from one that holds no addresses, and so are credentials
/// that are no document from those that lack a text.
pub proof fn law_no_document_is_told(
    bytes: &[u8],
    hexes: Result<Vec<String>, NotJson>,
    s: &str,
    config: Result<OpenskyConfig, CredentialsError>,
)
    requires
        call_ensures(parse_states_hexes, (bytes,), hexes),
        call_ensures(OpenskyConfig::from_json_str, (s,), config),
    ensures
        hexes is Err <==> json::json_document(bytes@) is None,
        hexes matches Ok(h) ==> order::views(h@) == hexes_in_states(
            json::json_document(bytes@)->0,
        ),
        json::json_document(vstd::utf8::encode_utf8(s@)) is None ==> config == Err::<
            OpenskyConfig,
            CredentialsError,
        >(CredentialsError::NotJson),
        json::json_document(vstd::utf8::encode_utf8(s@)) matches Some(v) ==> match config {
            Ok(c) => credentials_in(v) == Ok::<(Seq<char>, Seq<char>), CredentialsError>(
                (c.client_id@, c.client_secret@),
            ),
            Err(e) => credentials_in(v) == Err::<(Seq<char>, Seq<char>), CredentialsError>(e),
        },
{
}

/// Once every aircraft was asked for, a poll comes to the addresses that it found, in rising order
/// and each once, with the credits that the last response told.
pub proof fn law_poll_comes_to_what_it_found(
    poll: StatesPoll,
    r: OpenskyOutcome<Vec<String>>,
    hex: Seq<char>,
)
    requires
        call_ensures(StatesPoll::finish, (poll,), r),
    ensures
        r matches OpenskyOutcome::Success { data, credit } && {
            let hexes = order::views(data@);
            &&& credit == poll@.credit
            &&& hexes.contains(hex) <==> poll@.found.contains(hex)
            &&& forall|i: int, j: int|
                0 <= i < j < hexes.len() ==> text::text_lt(#[trigger] hexes[i], #[trigger] hexes[j])
        },
{
    law_in_order_once(poll@.found);
    assert(in_order_once(poll@.found).contains(hex) <==> poll@.found.contains(hex));
}

/// A poll starts with its aircraft as they are given, none of them asked for, nothing found and
/// nothing known of the credits of its bucket.
pub proof fn law_poll_starts(hexes: Vec<String>, r: StatesPoll)
    requires
        call_ensures(StatesPoll::start, (hexes,), r),
    ensures
        r@.hexes == order::views(hexes@),
        r@.at == 0,
        r@.found.len() == 0,
        r@.credit.remaining is None && r@.credit.retry_after is None,
        r@.credit.bucket is States,
{
}

/// What a body of `/tracks/all` holds: the ends of its track, and none where it is no document.
pub proof fn law_parse_track_endpoints(bytes: &[u8], r: Option<TrackEnds>)
    requires
        call_ensures(parse_track_endpoints, (bytes,), r),
    ensures
        json::json_document(bytes@) is None ==> r is None,
        json::json_document(bytes@) matches Some(v) ==> ends_match(r, v),
{
}

/// A callsign and an ident are brought into shape as labels are.
pub proof fn law_normalize_callsign(raw: Option<String>, r: Option<String>)
    requires
        call_ensures(normalize_callsign, (&raw,), r),
    ensures
        raw is None ==> r is None,
        raw matches Some(s) ==> match r {
            Some(t) => t@ == text::upper(text::trim(s@)) && t@.len() > 0,
            None => forall|i: int| 0 <= i < s@.len() ==> text::is_white(#[trigger] s@[i]),
        },
{
    if let Some(s) = raw {
        law_label(s@);
        assert(text::opt_view(r) == label(Some(s@)));
    }
}

} // verus!
