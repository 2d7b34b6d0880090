//! ADS-B Exchange: addresses of its endpoints, and what its responses come to.

use crate::calendar;
use crate::calendar::UtcDay;
use crate::json;
use crate::json::{JsonItems, JsonTree};
use crate::opensky;
use crate::opensky_client;
use crate::opensky_client::HeaderField;
use crate::text;
use vstd::prelude::*;

verus! {

pub const DEFAULT_TIMEOUT_SECS: u64 = 60;

/// How many aircraft one live request asks for.
pub const LIVE_CHUNK: usize = 40;

#[derive(Debug)]
pub struct AdsBxConfig {
    pub api_key: Option<String>,
    pub rapidapi_key: Option<String>,
    pub rapidapi_host: String,
    pub live_base: String,
    pub hist_base: String,
    pub s3_bucket: Option<String>,
    pub timeout_secs: u64,
}

/// A setting, or a default where it is missing or empty.
pub open spec fn setting_or(setting: Option<String>, default: Seq<char>) -> Seq<char> {
    match opensky::given_text(setting) {
        Some(s) => s,
        None => default,
    }
}

fn setting(given: &Option<String>, default: &str) -> (r: String)
    ensures
        r@ == setting_or(*given, default@),
{
    match given {
        Some(s) => if s.as_str().is_empty() {
            default.to_owned()
        } else {
            s.clone()
        },
        None => default.to_owned(),
    }
}

impl AdsBxConfig {
    /// The configuration that settings give.
    pub fn from_settings(
        api_key: &Option<String>,
        rapidapi_key: &Option<String>,
        rapidapi_host: &Option<String>,
        live_base: &Option<String>,
        hist_base: &Option<String>,
        s3_bucket: &Option<String>,
    ) -> (r: AdsBxConfig)
        ensures
            text::opt_view(r.api_key) == text::trimmed_or_none(text::opt_view(*api_key)),
            text::opt_view(r.rapidapi_key) == text::trimmed_or_none(text::opt_view(*rapidapi_key)),
            r.rapidapi_host@ == setting_or(*rapidapi_host, "adsbexchange-com1.p.rapidapi.com"@),
            r.live_base@ == setting_or(
                *live_base,
                "https://gateway.adsbexchange.com/api/aircraft/v2"@,
            ),
            r.hist_base@ == setting_or(
                *hist_base,
                "https://gateway.adsbexchange.com/api/aircraft/v2"@,
            ),
            text::opt_view(r.s3_bucket) == text::trimmed_or_none(text::opt_view(*s3_bucket)),
            r.timeout_secs == DEFAULT_TIMEOUT_SECS,
    {
        AdsBxConfig {
            api_key: text::empty_to_none(api_key),
            rapidapi_key: text::empty_to_none(rapidapi_key),
            rapidapi_host: setting(rapidapi_host, "adsbexchange-com1.p.rapidapi.com"),
            live_base: setting(live_base, "https://gateway.adsbexchange.com/api/aircraft/v2"),
            hist_base: setting(hist_base, "https://gateway.adsbexchange.com/api/aircraft/v2"),
            s3_bucket: text::empty_to_none(s3_bucket),
            timeout_secs: DEFAULT_TIMEOUT_SECS,
        }
    }

    pub fn has_credentials(&self) -> (r: bool)
        ensures
            r == (self.api_key is Some || self.rapidapi_key is Some),
    {
        self.api_key.is_some() || self.rapidapi_key.is_some()
    }
}

#[derive(Debug)]
pub enum FetchOutcome {
    Success { body: Vec<u8> },
    NotFound,
    /// 401, 402 or 403: the cursor does not advance.
    Denied { status: u16, message: String },
    /// 429: the cursor does not advance.
    RateLimited { retry_after: Option<u64> },
    Other { status: u16, message: String },
}

impl FetchOutcome {
    /// What is said of an outcome that is an error.
    pub open spec fn error(self) -> Option<Seq<char>> {
        match self {
            FetchOutcome::Denied { status, message } => Some(opensky::http_error(status, message@)),
            FetchOutcome::RateLimited { retry_after } => Some(
                "HTTP 429"@ + match retry_after {
                    Some(s) => " retry-after="@ + text::decimal(s as nat) + "s"@,
                    None => Seq::empty(),
                },
            ),
            FetchOutcome::Other { status, message } => Some(opensky::http_error(status, message@)),
            FetchOutcome::Success { .. } => None,
            FetchOutcome::NotFound => None,
        }
    }

    pub fn advances_cursor(&self) -> (r: bool)
        ensures
            r == (*self is Success || *self is NotFound),
            r == (self.error() is None),
    {
        match self {
            FetchOutcome::Success { .. } => true,
            FetchOutcome::NotFound => true,
            _ => false,
        }
    }

    pub fn error_message(&self) -> (r: Option<String>)
        ensures
            text::opt_view(r) == self.error(),
    {
        match self {
            FetchOutcome::Denied { status, message } => Some(
                opensky::http_error_text(*status, message.as_str()),
            ),
            FetchOutcome::RateLimited { retry_after } => {
                let tail = match retry_after {
                    Some(s) => {
                        let n = text::number_text(*s);
                        text::join2(text::join2(" retry-after=", n.as_str()).as_str(), "s")
                    },
                    None => String::new(),
                };
                proof {
                    if retry_after is None {
                        assert(tail@ =~= Seq::<char>::empty());
                    }
                }
                Some(text::join2("HTTP 429", tail.as_str()))
            },
            FetchOutcome::Other { status, message } => Some(
                opensky::http_error_text(*status, message.as_str()),
            ),
            FetchOutcome::Success { .. } => None,
            FetchOutcome::NotFound => None,
        }
    }

    /// Whether a search over several addresses ends here: with a body, or because the caller is
    /// denied.
    pub fn settles(&self) -> (r: bool)
        ensures
            r == (*self is Success || *self is Denied),
    {
        match self {
            FetchOutcome::Success { .. } => true,
            FetchOutcome::Denied { .. } => true,
            _ => false,
        }
    }

    /// The outcome of a search over no address at all.
    pub fn no_recent_urls() -> (r: FetchOutcome)
        ensures
            r matches FetchOutcome::Other { status, message } && status == 0 && message@
                == "no recent URLs"@,
    {
        FetchOutcome::Other { status: 0, message: "no recent URLs".to_owned() }
    }

    /// The outcome of a request that got no response.
    pub fn transport(error: &str) -> (r: FetchOutcome)
        ensures
            r matches FetchOutcome::Other { status, message } && status == 0 && message@
                == "transport: "@ + error@,
    {
        FetchOutcome::Other { status: 0, message: text::join2("transport: ", error) }
    }
}

/// What a response comes to, by its status. The message is shown of what is no success.
pub fn classify(status: u16, body: Vec<u8>, retry_after: Option<u64>) -> (r: FetchOutcome)
    ensures
        200 <= status <= 299 ==> r == (FetchOutcome::Success { body }),
        status == 404 ==> r == FetchOutcome::NotFound,
        status == 429 ==> r == (FetchOutcome::RateLimited { retry_after }),
        401 <= status <= 403 ==> (r matches FetchOutcome::Denied { status: s, message } && s
            == status && message@ == opensky_client::body_shown(body@)),
        !(200 <= status <= 299) && status != 404 && status != 429 && !(401 <= status <= 403) ==> (r
            matches FetchOutcome::Other { status: s, message } && s == status && message@
            == opensky_client::body_shown(body@)),
{
    if 200 <= status && status <= 299 {
        FetchOutcome::Success { body }
    } else if status == 404 {
        FetchOutcome::NotFound
    } else if status == 429 {
        FetchOutcome::RateLimited { retry_after }
    } else {
        let message = opensky_client::show_body(body.as_slice());
        if 401 <= status && status <= 403 {
            FetchOutcome::Denied { status, message }
        } else {
            FetchOutcome::Other { status, message }
        }
    }
}

/// The seconds that a `Retry-After` header names.
pub fn parse_retry_after(h: &HeaderField) -> (r: Option<u64>)
    ensures
        r is Some <==> opensky_client::header_value(*h, u64::MAX as nat) is Some,
        r matches Some(n) ==> opensky_client::header_value(*h, u64::MAX as nat) == Some(n as nat),
{
    opensky_client::header_number(h, u64::MAX)
}

#[derive(Debug)]
pub struct EndpointProbe {
    pub name: String,
    pub url: String,
    pub status: Option<u16>,
    pub ok: bool,
    pub note: String,
}

/// What a probe of an address got.
#[derive(Debug)]
pub enum ProbeReply {
    /// A status and the words for it.
    Answer { status: u16, reason: String },
    /// No response.
    Failure { error: String },
}

impl EndpointProbe {
    /// The probe is what the reply says.
    pub open spec fn tells(self, name: Seq<char>, url: Seq<char>, reply: ProbeReply) -> bool {
        &&& self.name@ == name
        &&& self.url@ == url
        &&& match reply {
            ProbeReply::Answer { status, reason } => {
                &&& self.status == Some(status)
                &&& self.ok == (200 <= status <= 299)
                &&& self.note@ == (if 200 <= status <= 299 {
                    "200-class"@
                } else {
                    reason@
                })
            },
            ProbeReply::Failure { error } => {
                &&& self.status is None
                &&& !self.ok
                &&& self.note@ == "transport: "@ + error@
            },
        }
    }

    /// What a reply says of an address.
    pub fn from_reply(name: &str, url: &str, reply: &ProbeReply) -> (r: EndpointProbe)
        ensures
            r.tells(name@, url@, *reply),
    {
        match reply {
            ProbeReply::Answer { status, reason } => {
                let ok = 200 <= *status && *status <= 299;
                EndpointProbe {
                    name: name.to_owned(),
                    url: url.to_owned(),
                    status: Some(*status),
                    ok,
                    note: if ok {
                        "200-class".to_owned()
                    } else {
                        reason.clone()
                    },
                }
            },
            ProbeReply::Failure { error } => EndpointProbe {
                name: name.to_owned(),
                url: url.to_owned(),
                status: None,
                ok: false,
                note: text::join2("transport: ", error.as_str()),
            },
        }
    }
}

#[derive(Debug)]
pub struct ProbeReport {
    pub hex: String,
    pub date: String,
    pub credentials_present: bool,
    pub live: EndpointProbe,
    pub recent: Vec<EndpointProbe>,
    pub hist: EndpointProbe,
    pub s3: EndpointProbe,
    pub hist_available: bool,
    pub recent_available: bool,
    pub live_available: bool,
}

/// Whether some probe succeeded.
pub open spec fn any_ok(probes: Seq<EndpointProbe>) -> bool {
    exists|i: int| 0 <= i < probes.len() && (#[trigger] probes[i]).ok
}

/// A text without the slashes at its end.
pub open spec fn without_slashes(s: Seq<char>) -> Seq<char>
    decreases s.len(),
{
    if s.len() > 0 && s.last() == '/' {
        without_slashes(s.drop_last())
    } else {
        s
    }
}

fn trim_slashes(s: &str) -> (r: String)
    ensures
        r@ == without_slashes(s@),
{
    let cs = text::chars_of(s);
    let mut n: usize = cs.len();
    proof {
        assert(cs@.take(n as int) =~= s@);
    }
    while n > 0 && cs[n - 1] == '/'
        invariant
            0 <= n <= cs@.len(),
            without_slashes(s@) == without_slashes(cs@.take(n as int)),
        decreases n,
    {
        proof {
            assert(cs@.take(n as int).drop_last() =~= cs@.take(n - 1));
        }
        n -= 1;
    }
    let r = text::text_of(&cs, 0, n);
    proof {
        assert(r@ =~= cs@.take(n as int));
    }
    r
}

/// The bytes that a character takes in UTF-8, where they are one or two; else three.
pub open spec fn width(c: char) -> int {
    if '\u{7f}' >= c {
        1
    } else if '\u{7ff}' >= c {
        2
    } else {
        3
    }
}

/// A text that can be cut two bytes before its end, or is shorter: no character lies across the cut.
pub open spec fn can_cut(s: Seq<char>) -> bool {
    s.len() == 0 || width(s.last()) == 2 || (width(s.last()) == 1 && (s.len() == 1 || width(
        s[s.len() - 2],
    ) == 1))
}

/// The last two bytes of a text, or all of a shorter one.
pub open spec fn last_bytes(s: Seq<char>) -> Seq<char> {
    if s.len() > 0 && width(s.last()) == 2 {
        s.skip(s.len() - 1)
    } else if s.len() > 2 {
        s.skip(s.len() - 2)
    } else {
        s
    }
}

/// Texts with commas between them.
pub open spec fn comma_joined(items: Seq<String>) -> Seq<char>
    decreases items.len(),
{
    if items.len() == 0 {
        Seq::empty()
    } else if items.len() == 1 {
        items[0]@
    } else {
        comma_joined(items.drop_last()) + ","@ + items.last()@
    }
}

fn join_commas(items: &Vec<String>) -> (r: String)
    ensures
        r@ == comma_joined(items@),
{
    let mut out = String::new();
    let mut i: usize = 0;
    proof {
        assert(out@ =~= Seq::<char>::empty());
    }
    while i < items.len()
        invariant
            0 <= i <= items@.len(),
            out@ == comma_joined(items@.take(i as int)),
        decreases items@.len() - i,
    {
        proof {
            assert(items@.take(i + 1).drop_last() =~= items@.take(i as int));
        }
        if i == 0 {
            out = items[i].clone();
        } else {
            out = text::join2(text::join2(out.as_str(), ",").as_str(), items[i].as_str());
        }
        i += 1;
    }
    proof {
        assert(items@.take(i as int) =~= items@);
    }
    out
}

#[derive(Debug)]
pub struct AdsBxClient {
    pub cfg: AdsBxConfig,
}

/// The probe of the S3 bucket, which is never listed: where it is, and whether one is configured.
pub open spec fn tells_of_bucket(probe: EndpointProbe, bucket: Option<String>) -> bool {
    &&& probe.name@ == "s3"@
    &&& probe.status is None
    &&& !probe.ok
    &&& match bucket {
        Some(b) => probe.url@ == "s3://"@ + b@ && probe.note@
            == "bucket configured; v1 does not list or download S3 objects"@,
        None => probe.url@.len() == 0 && probe.note@ == "ADSBX_S3_BUCKET not set"@,
    }
}

impl AdsBxClient {
    pub fn new(cfg: AdsBxConfig) -> (r: AdsBxClient)
        ensures
            r.cfg == cfg,
    {
        AdsBxClient { cfg }
    }

    pub fn config(&self) -> (r: &AdsBxConfig)
        ensures
            *r == self.cfg,
    {
        &self.cfg
    }

    /// The last two bytes of an address without white space around it, or all of a shorter one.
    pub fn last_two(icao24: &str) -> (r: String)
        requires
            can_cut(text::trim(icao24@)),
        ensures
            r@ == last_bytes(text::trim(icao24@)),
    {
        let s = text::trimmed(icao24);
        let cs = text::chars_of(s.as_str());
        let n = cs.len();
        let from: usize = if n > 0 && cs[n - 1] >= '\u{80}' {
            n - 1
        } else if n > 2 {
            n - 2
        } else {
            0
        };
        let r = text::text_of(&cs, from, n);
        proof {
            assert(r@ =~= last_bytes(text::trim(icao24@)));
        }
        r
    }

    /// Where the trace of an aircraft on a past day is.
    pub fn hist_url(&self, icao24: &str, date: UtcDay) -> (r: String)
        requires
            date.valid(),
            can_cut(text::trim(text::lower(icao24@))),
        ensures
            ({
                let hex = text::lower(icao24@);
                r@ == without_slashes(self.cfg.hist_base@) + "/traces-hist/"@
                    + calendar::date_format(date.number, "%Y"@) + "/"@ + calendar::date_format(
                    date.number,
                    "%m"@,
                ) + "/"@ + calendar::date_format(date.number, "%d"@) + "/traces/"@ + last_bytes(
                    text::trim(hex),
                ) + "/trace_full_"@ + hex + ".json"@
            }),
    {
        let hex = text::to_lower(icao24);
        let last2 = AdsBxClient::last_two(hex.as_str());
        let (y, m, d) = date.fields();
        let mut out = trim_slashes(self.cfg.hist_base.as_str());
        out = text::join2(out.as_str(), "/traces-hist/");
        out = text::join2(out.as_str(), y.as_str());
        out = text::join2(out.as_str(), "/");
        out = text::join2(out.as_str(), m.as_str());
        out = text::join2(out.as_str(), "/");
        out = text::join2(out.as_str(), d.as_str());
        out = text::join2(out.as_str(), "/traces/");
        out = text::join2(out.as_str(), last2.as_str());
        out = text::join2(out.as_str(), "/trace_full_");
        out = text::join2(out.as_str(), hex.as_str());
        text::join2(out.as_str(), ".json")
    }

    /// Where the live position of an aircraft is.
    pub fn live_url(&self, icao24: &str) -> (r: String)
        ensures
            r@ == without_slashes(self.cfg.live_base@) + "/icao/"@ + icao24@,
    {
        let base = trim_slashes(self.cfg.live_base.as_str());
        text::join2(text::join2(base.as_str(), "/icao/").as_str(), icao24)
    }

    /// Where the live positions of several aircraft are.
    pub fn live_batch_url(&self, hexes: &Vec<String>) -> (r: String)
        ensures
            r@ == without_slashes(self.cfg.live_base@) + "/icao/"@ + comma_joined(hexes@),
    {
        let joined = join_commas(hexes);
        let base = trim_slashes(self.cfg.live_base.as_str());
        text::join2(text::join2(base.as_str(), "/icao/").as_str(), joined.as_str())
    }

    /// Where recent traces of an aircraft may be, each with a name.
    pub fn recent_urls(&self, icao24: &str) -> (r: Vec<(String, String)>)
        requires
            can_cut(text::trim(text::lower(icao24@))),
        ensures
            r@.len() == 3,
            ({
                let hex = text::lower(icao24@);
                let base = without_slashes(self.cfg.live_base@);
                let dir = base + "/traces/"@ + last_bytes(text::trim(hex));
                &&& r@[0].0@ == "recent_trace"@ && r@[0].1@ == dir + "/trace_recent_"@ + hex
                    + ".json"@
                &&& r@[1].0@ == "recent_full"@ && r@[1].1@ == dir + "/trace_full_"@ + hex + ".json"@
                &&& r@[2].0@ == "api_trace"@ && r@[2].1@ == base + "/trace/"@ + hex + ".json"@
            }),
    {
        let hex = text::to_lower(icao24);
        let last2 = AdsBxClient::last_two(hex.as_str());
        let base = trim_slashes(self.cfg.live_base.as_str());
        let dir = text::join2(
            text::join2(base.as_str(), "/traces/").as_str(),
            last2.as_str(),
        );
        let recent = text::join2(
            text::join2(dir.as_str(), "/trace_recent_").as_str(),
            hex.as_str(),
        );
        let full = text::join2(
            text::join2(dir.as_str(), "/trace_full_").as_str(),
            hex.as_str(),
        );
        let api = text::join2(text::join2(base.as_str(), "/trace/").as_str(), hex.as_str());
        let mut out: Vec<(String, String)> = Vec::new();
        out.push(("recent_trace".to_owned(), text::join2(recent.as_str(), ".json")));
        out.push(("recent_full".to_owned(), text::join2(full.as_str(), ".json")));
        out.push(("api_trace".to_owned(), text::join2(api.as_str(), ".json")));
        out
    }

    /// What is said of the S3 bucket, which is never listed.
    pub fn s3_probe(&self) -> (r: EndpointProbe)
        ensures
            tells_of_bucket(r, self.cfg.s3_bucket),
    {
        match &self.cfg.s3_bucket {
            Some(b) => EndpointProbe {
                name: "s3".to_owned(),
                url: text::join2("s3://", b.as_str()),
                status: None,
                ok: false,
                note: "bucket configured; v1 does not list or download S3 objects".to_owned(),
            },
            None => EndpointProbe {
                name: "s3".to_owned(),
                url: String::new(),
                status: None,
                ok: false,
                note: "ADSBX_S3_BUCKET not set".to_owned(),
            },
        }
    }

    /// The report on the probes of an aircraft.
    pub fn probe_report(
        &self,
        icao24: &str,
        date: UtcDay,
        live: EndpointProbe,
        recent: Vec<EndpointProbe>,
        hist: EndpointProbe,
    ) -> (r: ProbeReport)
        requires
            date.valid(),
        ensures
            r.hex@ == text::lower(icao24@),
            r.date@ == date.text(),
            r.credentials_present == (self.cfg.api_key is Some || self.cfg.rapidapi_key is Some),
            r.live == live,
            r.recent == recent,
            r.hist == hist,
            tells_of_bucket(r.s3, self.cfg.s3_bucket),
            r.live_available == live.ok,
            r.recent_available == any_ok(recent@),
            r.hist_available == hist.ok,
    {
        let mut recent_available = false;
        let mut i: usize = 0;
        while i < recent.len()
            invariant
                0 <= i <= recent@.len(),
                recent_available == exists|j: int| 0 <= j < i && (#[trigger] recent@[j]).ok,
            decreases recent@.len() - i,
        {
            if recent[i].ok {
                recent_available = true;
            }
            i += 1;
        }
        ProbeReport {
            hex: text::to_lower(icao24),
            date: date.to_text(),
            credentials_present: self.cfg.has_credentials(),
            live_available: live.ok,
            recent_available,
            hist_available: hist.ok,
            s3: self.s3_probe(),
            live,
            recent,
            hist,
        }
    }
}

/// What a live batch does next.
#[derive(Debug)]
pub enum BatchStep {
    /// There are more aircraft to ask for.
    More,
    Done(FetchOutcome),
}

/// Live positions of many aircraft, request by request.
pub struct LiveBatch {
    hexes: Vec<String>,
    at: usize,
    items: JsonItems,
}

#[verifier::ext_equal]
pub struct BatchView {
    pub hexes: Seq<String>,
    /// How many aircraft were asked for.
    pub at: int,
    /// What the responses held.
    pub items: Seq<JsonTree>,
}

impl BatchView {
    /// Where the next request ends.
    pub open spec fn chunk_end(self) -> int {
        if self.at + LIVE_CHUNK < self.hexes.len() {
            self.at + LIVE_CHUNK
        } else {
            self.hexes.len() as int
        }
    }
}

impl View for LiveBatch {
    type V = BatchView;

    closed spec fn view(&self) -> BatchView {
        BatchView { hexes: self.hexes@, at: self.at as int, items: self.items@ }
    }
}

/// A batch after the outcome of the request for its chunk.
pub open spec fn after_outcome(batch: BatchView, outcome: FetchOutcome) -> BatchView {
    match outcome {
        FetchOutcome::Success { body } => if batch.hexes.len() <= LIVE_CHUNK {
            batch
        } else {
            BatchView {
                at: batch.chunk_end(),
                items: batch.items + json::items_in(body@, "ac"@),
                ..batch
            }
        },
        _ => batch,
    }
}

/// The body of a batch over no aircraft at all.
pub open spec fn empty_batch() -> Seq<u8> {
    vstd::utf8::encode_utf8("{\"ac\":[]}"@)
}

fn empty_body() -> (r: Vec<u8>)
    ensures
        r@ == empty_batch(),
{
    let bytes = "{\"ac\":[]}".as_bytes();
    let mut out: Vec<u8> = Vec::new();
    let mut i: usize = 0;
    while i < bytes.len()
        invariant
            0 <= i <= bytes@.len(),
            out@ == bytes@.take(i as int),
        decreases bytes@.len() - i,
    {
        out.push(bytes[i]);
        i += 1;
    }
    proof {
        assert(bytes@.take(i as int) =~= bytes@);
    }
    out
}

impl LiveBatch {
    pub closed spec fn wf(&self) -> bool {
        self.at <= self.hexes@.len()
    }

    pub fn start(hexes: Vec<String>) -> (r: LiveBatch)
        ensures
            r.wf(),
            r@ == (BatchView { hexes: hexes@, at: 0, items: Seq::empty() }),
    {
        LiveBatch { hexes, at: 0, items: JsonItems::new() }
    }

    fn end_of_chunk(&self) -> (r: usize)
        requires
            self.wf(),
        ensures
            r == self@.chunk_end(),
    {
        if self.hexes.len() - self.at > LIVE_CHUNK {
            self.at + LIVE_CHUNK
        } else {
            self.hexes.len()
        }
    }

    /// The aircraft of the next request; none where every one was asked for.
    pub fn chunk(&self) -> (r: Vec<String>)
        requires
            self.wf(),
        ensures
            r@ == self@.hexes.subrange(self@.at, self@.chunk_end()),
            r@.len() == 0 <==> self@.at == self@.hexes.len(),
    {
        let end = self.end_of_chunk();
        let mut out: Vec<String> = Vec::new();
        let mut i: usize = self.at;
        while i < end
            invariant
                self.at <= i <= end <= self.hexes@.len(),
                out@ == self.hexes@.subrange(self.at as int, i as int),
            decreases end - i,
        {
            out.push(self.hexes[i].clone());
            proof {
                assert(self.hexes@.subrange(self.at as int, i + 1) =~= self.hexes@.subrange(
                    self.at as int,
                    i as int,
                ).push(self.hexes@[i as int]));
            }
            i += 1;
        }
        out
    }

    /// Takes the outcome of the request for the chunk. What is no success ends the batch, and so
    /// does the only request of a small one; else the aircraft of the body are gathered.
    pub fn answered(&mut self, outcome: FetchOutcome) -> (r: BatchStep)
        requires
            old(self).wf(),
        ensures
            final(self).wf(),
            match outcome {
                FetchOutcome::Success { body } => if old(self)@.hexes.len() <= LIVE_CHUNK {
                    (r matches BatchStep::Done(o) && o == outcome) && final(self)@ == old(self)@
                } else {
                    &&& r is More
                    &&& final(self)@ == (BatchView {
                        at: old(self)@.chunk_end(),
                        items: old(self)@.items + json::items_in(body@, "ac"@),
                        ..old(self)@
                    })
                },
                _ => (r matches BatchStep::Done(o) && o == outcome) && final(self)@ == old(self)@,
            },
            final(self)@ == after_outcome(old(self)@, outcome),
    {
        match outcome {
            FetchOutcome::Success { body } => {
                if self.hexes.len() <= LIVE_CHUNK {
                    return BatchStep::Done(FetchOutcome::Success { body });
                }
                self.items.gather(body.as_slice(), "ac");
                self.at = self.end_of_chunk();
                BatchStep::More
            },
            other => BatchStep::Done(other),
        }
    }

    /// The outcome of the batch once every aircraft was asked for: all that the responses held, in
    /// one document. None where the document could not be written.
    pub fn finish(self) -> (r: Option<FetchOutcome>)
        requires
            self.wf(),
            self@.at == self@.hexes.len(),
        ensures
            self@.hexes.len() == 0 ==> (r matches Some(FetchOutcome::Success { body }) && body@
                == empty_batch()),
            self@.hexes.len() > 0 ==> match json::json_bytes(
                JsonTree::Object(seq![("ac"@, JsonTree::Array(self@.items))]),
            ) {
                Some(bytes) => r matches Some(FetchOutcome::Success { body }) && body@ == bytes,
                None => r is None,
            },
    {
        if self.hexes.len() == 0 {
            return Some(FetchOutcome::Success { body: empty_body() });
        }
        match self.items.to_document("ac") {
            Some(body) => Some(FetchOutcome::Success { body }),
            None => None,
        }
    }
}

/// A setting counts where it is given and not empty; else the default does.
pub proof fn law_settings(
    api_key: Option<String>,
    rapidapi_key: Option<String>,
    rapidapi_host: Option<String>,
    live_base: Option<String>,
    hist_base: Option<String>,
    s3_bucket: Option<String>,
    r: AdsBxConfig,
)
    requires
        call_ensures(
            AdsBxConfig::from_settings,
            (&api_key, &rapidapi_key, &rapidapi_host, &live_base, &hist_base, &s3_bucket),
            r,
        ),
    ensures
        text::opt_view(r.api_key) == text::trimmed_or_none(text::opt_view(api_key)),
        text::opt_view(r.rapidapi_key) == text::trimmed_or_none(text::opt_view(rapidapi_key)),
        text::opt_view(r.s3_bucket) == text::trimmed_or_none(text::opt_view(s3_bucket)),
        rapidapi_host matches Some(s) ==> (s@.len() > 0 ==> r.rapidapi_host@ == s@),
        live_base matches Some(s) ==> (s@.len() > 0 ==> r.live_base@ == s@),
        hist_base matches Some(s) ==> (s@.len() > 0 ==> r.hist_base@ == s@),
        !(rapidapi_host matches Some(s) && s@.len() > 0) ==> r.rapidapi_host@
            == "adsbexchange-com1.p.rapidapi.com"@,
        !(live_base matches Some(s) && s@.len() > 0) ==> r.live_base@
            == "https://gateway.adsbexchange.com/api/aircraft/v2"@,
        !(hist_base matches Some(s) && s@.len() > 0) ==> r.hist_base@
            == "https://gateway.adsbexchange.com/api/aircraft/v2"@,
        r.timeout_secs == 60,
{
}

/// There are credentials where there is a key of either kind.
pub proof fn law_credentials_are_keys(cfg: AdsBxConfig, r: bool)
    requires
        call_ensures(AdsBxConfig::has_credentials, (&cfg,), r),
    ensures
        r <==> cfg.api_key is Some || cfg.rapidapi_key is Some,
{
}

/// What a response comes to: a body for a status from 200 to 299, nothing found for 404, a rate limit
/// with its wait for 429, a denial for 401, 402 and 403, and another failure for every other status.
pub proof fn law_classify(status: u16, body: Vec<u8>, retry_after: Option<u64>, r: FetchOutcome)
    requires
        call_ensures(classify, (status, body, retry_after), r),
    ensures
        r is Success <==> 200 <= status <= 299,
        r is NotFound <==> status == 404,
        r is RateLimited <==> status == 429,
        r is Denied <==> status == 401 || status == 402 || status == 403,
        match r {
            FetchOutcome::Success { body: b } => b == body,
            FetchOutcome::NotFound => true,
            FetchOutcome::RateLimited { retry_after: w } => w == retry_after,
            FetchOutcome::Denied { status: s, message } => s == status && message@.len() <= 200,
            FetchOutcome::Other { status: s, message } => s == status && message@.len() <= 200,
        },
{
}

/// A body and nothing found are no errors; of an error the status and the message are told, and of a
/// rate limit the wait where it is known.
pub proof fn law_errors_are_told(outcome: FetchOutcome)
    ensures
        match outcome {
            FetchOutcome::Success { .. } => outcome.error() is None,
            FetchOutcome::NotFound => outcome.error() is None,
            FetchOutcome::Denied { status, message } => outcome.error() == Some(
                "HTTP "@ + text::decimal(status as nat) + ": "@ + message@,
            ),
            FetchOutcome::Other { status, message } => outcome.error() == Some(
                "HTTP "@ + text::decimal(status as nat) + ": "@ + message@,
            ),
            FetchOutcome::RateLimited { retry_after: Some(s) } => outcome.error() == Some(
                "HTTP 429"@ + (" retry-after="@ + text::decimal(s as nat) + "s"@),
            ),
            FetchOutcome::RateLimited { retry_after: None } => outcome.error() == Some(
                "HTTP 429"@ + Seq::empty(),
            ),
        },
{
}

/// A search over addresses ends with a body or a denial, and goes on after every other outcome; a
/// cursor advances with a body or nothing found.
pub proof fn law_search_ends(outcome: FetchOutcome, settled: bool, advances: bool)
    requires
        call_ensures(FetchOutcome::settles, (&outcome,), settled),
        call_ensures(FetchOutcome::advances_cursor, (&outcome,), advances),
    ensures
        settled == match outcome {
            FetchOutcome::Success { .. } => true,
            FetchOutcome::Denied { .. } => true,
            _ => false,
        },
        advances == match outcome {
            FetchOutcome::Success { .. } => true,
            FetchOutcome::NotFound => true,
            _ => false,
        },
{
}

/// What a probe tells: the name and the address that were probed; of an answer its status, whether
/// that is one from 200 to 299, and else its reason; of none that there was none, and why.
pub proof fn law_probe_tells(
    probe: EndpointProbe,
    name: Seq<char>,
    url: Seq<char>,
    reply: ProbeReply,
)
    requires
        probe.tells(name, url, reply),
    ensures
        probe.name@ == name && probe.url@ == url,
        match reply {
            ProbeReply::Answer { status, reason } => {
                &&& probe.status == Some(status)
                &&& 200 <= status <= 299 ==> probe.ok && probe.note@ == "200-class"@
                &&& status < 200 || status > 299 ==> !probe.ok && probe.note@ == reason@
            },
            ProbeReply::Failure { error } => probe.status is None && !probe.ok && probe.note@
                == "transport: "@ + error@,
        },
{
}

/// A text without the slashes at its end is what stands before them: it does not end with a slash,
/// and all that goes are slashes.
pub proof fn law_without_slashes(s: Seq<char>)
    ensures
        without_slashes(s).len() <= s.len(),
        without_slashes(s) == s.take(without_slashes(s).len() as int),
        forall|i: int| without_slashes(s).len() <= i < s.len() ==> #[trigger] s[i] == '/',
        without_slashes(s).len() > 0 ==> without_slashes(s).last() != '/',
    decreases s.len(),
{
    if s.len() > 0 && s.last() == '/' {
        let front = s.drop_last();
        law_without_slashes(front);
        assert(front.take(without_slashes(front).len() as int) =~= s.take(
            without_slashes(front).len() as int,
        ));
        assert forall|i: int| without_slashes(s).len() <= i < s.len() implies #[trigger] s[i]
            == '/' by {
            if i < front.len() {
                assert(front[i] == s[i]);
            }
        }
    } else {
        assert(s.take(s.len() as int) =~= s);
    }
}

/// Of an address in plain characters, the last two are taken; a shorter one is taken whole.
pub proof fn law_last_two(s: Seq<char>)
    requires
        forall|i: int| 0 <= i < s.len() ==> (#[trigger] s[i] as int) < 128,
    ensures
        can_cut(s),
        s.len() <= 2 ==> last_bytes(s) == s,
        s.len() > 2 ==> last_bytes(s) == seq![s[s.len() - 2], s[s.len() - 1]],
{
    if s.len() > 0 {
        assert((s[s.len() - 1] as int) < 128);
        if s.len() > 1 {
            assert((s[s.len() - 2] as int) < 128);
        }
        if s.len() > 2 {
            assert(last_bytes(s) =~= seq![s[s.len() - 2], s[s.len() - 1]]);
        }
    }
}

/// Texts are joined with a comma between each two: none gives nothing, one gives itself, and one more
/// comes behind a comma.
pub proof fn law_comma_joined(items: Seq<String>, more: String)
    ensures
        comma_joined(Seq::empty()).len() == 0,
        items.len() == 0 ==> comma_joined(items.push(more)) == more@,
        items.len() > 0 ==> comma_joined(items.push(more)) == comma_joined(items) + ","@ + more@,
{
    assert(items.push(more).drop_last() =~= items);
}

/// Where traces and positions are: below the base of their kind, without slashes at its end; a past
/// trace in a directory of its year, month and day and then of the last two characters of the
/// address; all with the address in lower case, but the live one with the address as it is.
pub proof fn law_addresses(
    client: AdsBxClient,
    icao24: &str,
    date: UtcDay,
    live: String,
    hist: String,
    recent: Vec<(String, String)>,
)
    requires
        call_ensures(AdsBxClient::live_url, (&client, icao24), live),
        call_ensures(AdsBxClient::hist_url, (&client, icao24, date), hist),
        call_ensures(AdsBxClient::recent_urls, (&client, icao24), recent),
    ensures
        ({
            let hex = text::lower(icao24@);
            let two = last_bytes(text::trim(hex));
            let live_base = without_slashes(client.cfg.live_base@);
            let hist_base = without_slashes(client.cfg.hist_base@);
            &&& live@ == live_base + "/icao/"@ + icao24@
            &&& hist@ == hist_base + "/traces-hist/"@ + calendar::date_format(date.number, "%Y"@)
                + "/"@ + calendar::date_format(date.number, "%m"@) + "/"@ + calendar::date_format(
                date.number,
                "%d"@,
            ) + "/traces/"@ + two + "/trace_full_"@ + hex + ".json"@
            &&& recent@.len() == 3
            &&& recent@[0].0@ == "recent_trace"@
            &&& recent@[0].1@ == live_base + "/traces/"@ + two + "/trace_recent_"@ + hex + ".json"@
            &&& recent@[1].0@ == "recent_full"@
            &&& recent@[1].1@ == live_base + "/traces/"@ + two + "/trace_full_"@ + hex + ".json"@
            &&& recent@[2].0@ == "api_trace"@
            &&& recent@[2].1@ == live_base + "/trace/"@ + hex + ".json"@
        }),
{
}

/// What is told of the bucket: never a status and never success, but where it is, if one is set.
pub proof fn law_bucket_is_never_listed(probe: EndpointProbe, bucket: Option<String>)
    requires
        tells_of_bucket(probe, bucket),
    ensures
        probe.name@ == "s3"@ && probe.status is None && !probe.ok,
        bucket matches Some(b) ==> probe.url@ == "s3://"@ + b@,
        bucket is None ==> probe.url@.len() == 0 && probe.note@ == "ADSBX_S3_BUCKET not set"@,
{
}

/// The report on the probes of an aircraft: its address in lower case, the day, whether there are
/// credentials, every probe in its place, and of each kind whether it can be had, which for the
/// recent ones is where any of them could.
pub proof fn law_probe_report(
    client: AdsBxClient,
    icao24: &str,
    date: UtcDay,
    live: EndpointProbe,
    recent: Vec<EndpointProbe>,
    hist: EndpointProbe,
    r: ProbeReport,
)
    requires
        call_ensures(AdsBxClient::probe_report, (&client, icao24, date, live, recent, hist), r),
    ensures
        r.hex@ == text::lower(icao24@),
        r.date@ == calendar::date_text(date.number),
        r.credentials_present <==> client.cfg.api_key is Some || client.cfg.rapidapi_key is Some,
        r.live == live && r.recent == recent && r.hist == hist,
        tells_of_bucket(r.s3, client.cfg.s3_bucket),
        r.live_available <==> live.ok,
        r.hist_available <==> hist.ok,
        r.recent_available <==> exists|i: int| 0 <= i < recent@.len() && (#[trigger] recent@[i]).ok,
{
}

/// A batch asks for 40 aircraft at a time, and for the rest with its last request.
pub proof fn law_batch_chunks(batch: BatchView)
    requires
        0 <= batch.at <= batch.hexes.len(),
    ensures
        batch.hexes.len() - batch.at >= 40 ==> batch.chunk_end() == batch.at + 40,
        batch.hexes.len() - batch.at < 40 ==> batch.chunk_end() == batch.hexes.len(),
        batch.chunk_end() > batch.at <==> batch.at < batch.hexes.len(),
{
}

/// A batch of more than 40 aircraft gathers what its responses hold under `ac`, in order, and goes on
/// with the next 40; a smaller one, and an outcome without a body, leave it as it was.
pub proof fn law_batch_gathers(batch: BatchView, outcome: FetchOutcome)
    requires
        0 <= batch.at <= batch.hexes.len(),
    ensures
        ({
            let next = after_outcome(batch, outcome);
            let further = if batch.hexes.len() - batch.at > 40 {
                batch.at + 40
            } else {
                batch.hexes.len() as int
            };
            &&& next.hexes == batch.hexes
            &&& outcome is Success && batch.hexes.len() > 40 ==> {
                let more = json::items_in((outcome->Success_body)@, "ac"@);
                &&& next.at == further
                &&& next.items.len() == batch.items.len() + more.len()
                &&& forall|i: int|
                    0 <= i < batch.items.len() ==> #[trigger] next.items[i] == batch.items[i]
                &&& forall|i: int|
                    0 <= i < more.len() ==> next.items[batch.items.len() + i] == #[trigger] more[i]
            }
            &&& !(outcome is Success) || batch.hexes.len() <= 40 ==> next == batch
        }),
{
}

/// What stands for a request without a response, for a search over no address and for a header: the
/// first two are failures of status 0 that say so, and the header names a number or none.
pub proof fn law_other_failures(
    error: &str,
    lost: FetchOutcome,
    none: FetchOutcome,
    h: HeaderField,
    wait: Option<u64>,
)
    requires
        call_ensures(FetchOutcome::transport, (error,), lost),
        call_ensures(FetchOutcome::no_recent_urls, (), none),
        call_ensures(parse_retry_after, (&h,), wait),
    ensures
        lost matches FetchOutcome::Other { status, message } && status == 0 && message@
            == "transport: "@ + error@,
        none matches FetchOutcome::Other { status, message } && status == 0 && message@
            == "no recent URLs"@,
        match wait {
            Some(n) => opensky_client::header_value(h, 0xffff_ffff_ffff_ffff) == Some(n as nat),
            None => opensky_client::header_value(h, 0xffff_ffff_ffff_ffff) is None,
        },
{
}

/// Where the positions of several aircraft are: at the address of one, with all of them behind it,
/// commas between them.
pub proof fn law_batch_address(client: AdsBxClient, hexes: Vec<String>, r: String)
    requires
        call_ensures(AdsBxClient::live_batch_url, (&client, &hexes), r),
    ensures
        r@ == without_slashes(client.cfg.live_base@) + "/icao/"@ + comma_joined(hexes@),
{
}

/// A batch over no aircraft comes to a document with no aircraft; any other to all that its responses
/// held, under `ac`, where that can be written.
pub proof fn law_batch_comes_to_what_it_gathered(batch: LiveBatch, r: Option<FetchOutcome>)
    requires
        call_ensures(LiveBatch::finish, (batch,), r),
    ensures
        batch@.hexes.len() == 0 ==> (r matches Some(FetchOutcome::Success { body }) && body@
            == vstd::utf8::encode_utf8("{\"ac\":[]}"@)),
        batch@.hexes.len() > 0 ==> ({
            let whole = JsonTree::Object(seq![("ac"@, JsonTree::Array(batch@.items))]);
            match r {
                Some(FetchOutcome::Success { body }) => json::json_bytes(whole) == Some(body@),
                Some(_) => false,
                None => json::json_bytes(whole) is None,
            }
        }),
{
}

} // verus!
