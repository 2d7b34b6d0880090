//! What is printed of the journal, of runs and of probes.

use crate::adsbx::{EndpointProbe, ProbeReport};
use crate::collect::CollectReport;
use crate::opensky;
use crate::opensky_probe::OpenskyFlightsAllProbeReport;
use crate::order;
use crate::store::JournalStatus;
use crate::text;
use vstd::prelude::*;

verus! {

/// A text, or a question mark where it is missing.
pub open spec fn or_unknown(t: Option<String>) -> Seq<char> {
    match t {
        Some(s) => s@,
        None => "?"@,
    }
}

fn text_or_unknown(t: &Option<String>) -> (r: String)
    ensures
        r@ == or_unknown(*t),
{
    match t {
        Some(s) => s.clone(),
        None => "?".to_owned(),
    }
}

/// Texts one after the other.
fn join3(a: &str, b: &str, c: &str) -> (r: String)
    ensures
        r@ == a@ + b@ + c@,
{
    text::join2(text::join2(a, b).as_str(), c)
}

/// The lines on days in progress.
pub open spec fn progress_lines(days: Seq<(String, u64)>) -> Seq<Seq<char>> {
    Seq::new(
        days.len(),
        |i: int|
            "  flights_all in progress "@ + days[i].0@ + ": "@ + text::decimal(days[i].1 as nat)
                + "/12 slices"@,
    )
}

/// The lines on days with an error.
pub open spec fn error_lines(days: Seq<(String, String)>) -> Seq<Seq<char>> {
    Seq::new(days.len(), |i: int| "  flights_all error "@ + days[i].0@ + ": "@ + days[i].1@)
}

/// The line on the last complete day.
pub open spec fn complete_line(last: Option<String>) -> Seq<char> {
    match last {
        Some(d) => "flights_all last complete UTC day: "@ + d@ + " (12/12)"@,
        None => "flights_all last complete UTC day: —"@,
    }
}

/// The lines on the journal, with the aircraft that the map has without an address where a map was
/// read.
pub open spec fn status_shown(status: JournalStatus, skipped_empty_icao24: Option<u64>) -> Seq<
    Seq<char>,
> {
    seq![
        "journal: "@ + status.path@,
        "fleet_snapshot: "@ + text::decimal(status.fleet_hexes as nat) + " hexes (as of "@
            + or_unknown(status.snapshot_as_of) + ", recorded_at "@ + or_unknown(status.recorded_at)
            + ")"@,
    ] + (match skipped_empty_icao24 {
        Some(n) => seq!["skipped_empty_icao24 (current map slice): "@ + text::decimal(n as nat)],
        None => Seq::empty(),
    }) + seq![complete_line(status.flights_all_complete_max)] + progress_lines(
        status.flights_all_incomplete@,
    ) + error_lines(status.flights_all_errors@) + seq![
        "trips: "@ + text::decimal(status.trips as nat),
    ]
}

/// The lines on the journal.
pub fn status_lines(status: &JournalStatus, skipped_empty_icao24: Option<u64>) -> (r: Vec<String>)
    ensures
        order::views(r@) == status_shown(*status, skipped_empty_icao24),
{
    let mut out: Vec<String> = Vec::new();
    out.push(text::join2("journal: ", status.path.as_str()));
    let hexes = join3(
        "fleet_snapshot: ",
        text::number_text(status.fleet_hexes).as_str(),
        " hexes (as of ",
    );
    let as_of = join3(
        hexes.as_str(),
        text_or_unknown(&status.snapshot_as_of).as_str(),
        ", recorded_at ",
    );
    out.push(join3(as_of.as_str(), text_or_unknown(&status.recorded_at).as_str(), ")"));
    if let Some(n) = skipped_empty_icao24 {
        out.push(
            text::join2(
                "skipped_empty_icao24 (current map slice): ",
                text::number_text(n).as_str(),
            ),
        );
    }
    match &status.flights_all_complete_max {
        Some(d) => out.push(
            join3("flights_all last complete UTC day: ", d.as_str(), " (12/12)"),
        ),
        None => out.push("flights_all last complete UTC day: —".to_owned()),
    }
    let ghost top = order::views(out@);
    proof {
        assert(top =~= seq![
            "journal: "@ + status.path@,
            "fleet_snapshot: "@ + text::decimal(status.fleet_hexes as nat) + " hexes (as of "@
                + or_unknown(status.snapshot_as_of) + ", recorded_at "@ + or_unknown(
                status.recorded_at,
            ) + ")"@,
        ] + (match skipped_empty_icao24 {
            Some(n) => seq![
                "skipped_empty_icao24 (current map slice): "@ + text::decimal(n as nat),
            ],
            None => Seq::empty(),
        }) + seq![complete_line(status.flights_all_complete_max)]);
    }
    let days = &status.flights_all_incomplete;
    let mut i: usize = 0;
    proof {
        assert(top + progress_lines(days@).take(0) =~= top);
    }
    while i < days.len()
        invariant
            0 <= i <= days@.len(),
            order::views(out@) == top + progress_lines(days@).take(i as int),
        decreases days@.len() - i,
    {
        let ghost done = order::views(out@);
        let head = join3("  flights_all in progress ", days[i].0.as_str(), ": ");
        let line = join3(head.as_str(), text::number_text(days[i].1).as_str(), "/12 slices");
        let ghost l = line@;
        out.push(line);
        proof {
            assert(l == progress_lines(days@)[i as int]);
            assert(order::views(out@) =~= done.push(l));
            assert(top + progress_lines(days@).take(i + 1) =~= done.push(l));
        }
        i += 1;
    }
    let ghost mid = order::views(out@);
    proof {
        assert(progress_lines(days@).take(i as int) =~= progress_lines(days@));
    }
    let errors = &status.flights_all_errors;
    let mut j: usize = 0;
    proof {
        assert(mid + error_lines(errors@).take(0) =~= mid);
    }
    while j < errors.len()
        invariant
            0 <= j <= errors@.len(),
            order::views(out@) == mid + error_lines(errors@).take(j as int),
        decreases errors@.len() - j,
    {
        let ghost done = order::views(out@);
        let head = join3("  flights_all error ", errors[j].0.as_str(), ": ");
        let line = text::join2(head.as_str(), errors[j].1.as_str());
        let ghost l = line@;
        out.push(line);
        proof {
            assert(l == error_lines(errors@)[j as int]);
            assert(order::views(out@) =~= done.push(l));
            assert(mid + error_lines(errors@).take(j + 1) =~= done.push(l));
        }
        j += 1;
    }
    let ghost done = order::views(out@);
    proof {
        assert(error_lines(errors@).take(j as int) =~= error_lines(errors@));
    }
    let trips = text::join2("trips: ", text::number_text(status.trips).as_str());
    let ghost t = trips@;
    out.push(trips);
    proof {
        assert(order::views(out@) =~= done.push(t));
        assert(order::views(out@) =~= status_shown(*status, skipped_empty_icao24));
    }
    out
}

/// The first line on a run.
pub open spec fn run_line(r: CollectReport) -> Seq<char> {
    "collect fleet_hexes="@ + text::decimal(r.fleet_hexes as nat) + " skipped_empty_icao24="@
        + text::decimal(r.skipped_empty_icao24 as nat) + " days_ok="@ + text::decimal(
        r.days_ok as nat,
    ) + " days_404="@ + text::decimal(r.days_not_found as nat) + " from_cache="@ + text::decimal(
        r.days_from_cache as nat,
    ) + " trips_upserted="@ + text::decimal(r.trips_upserted as nat) + " stopped_hexes="@
        + text::decimal(r.hexes_stopped_on_error as nat) + " live_polls="@ + text::decimal(
        r.live_polls as nat,
    ) + " live_trips="@ + text::decimal(r.live_trips as nat)
}

/// The second line on a run.
pub open spec fn spending_line(r: CollectReport) -> Seq<char> {
    "  opensky flights_calls="@ + text::decimal(r.flights_calls as nat) + " tracks_calls="@
        + text::decimal(r.tracks_calls as nat) + " skipped_no_coords="@ + text::decimal(
        r.skipped_no_coords as nat,
    ) + " estimated_flights_credits="@ + text::decimal(r.estimated_flights_credits as nat)
}

/// Whether a run called OpenSky or passed over a flight.
pub open spec fn tells_spending(r: CollectReport) -> bool {
    r.flights_calls > 0 || r.tracks_calls > 0 || r.estimated_flights_credits > 0
        || r.skipped_no_coords > 0
}

/// A text, a label and a number.
fn with_number(line: &str, label: &str, n: u64) -> (r: String)
    ensures
        r@ == line@ + label@ + text::decimal(n as nat),
{
    join3(line, label, text::number_text(n).as_str())
}

/// The lines on a run: one on what was done, and one on OpenSky where there is something to tell.
pub fn report_lines(r: &CollectReport) -> (lines: Vec<String>)
    ensures
        order::views(lines@) == if tells_spending(*r) {
            seq![run_line(*r), spending_line(*r)]
        } else {
            seq![run_line(*r)]
        },
{
    let mut out: Vec<String> = Vec::new();
    let mut line = text::join2(
        "collect fleet_hexes=",
        text::number_text(r.fleet_hexes as u64).as_str(),
    );
    line = with_number(line.as_str(), " skipped_empty_icao24=", r.skipped_empty_icao24);
    line = with_number(line.as_str(), " days_ok=", r.days_ok);
    line = with_number(line.as_str(), " days_404=", r.days_not_found);
    line = with_number(line.as_str(), " from_cache=", r.days_from_cache);
    line = with_number(line.as_str(), " trips_upserted=", r.trips_upserted);
    line = with_number(line.as_str(), " stopped_hexes=", r.hexes_stopped_on_error);
    line = with_number(line.as_str(), " live_polls=", r.live_polls);
    line = with_number(line.as_str(), " live_trips=", r.live_trips);
    out.push(line);
    if r.flights_calls > 0 || r.tracks_calls > 0 || r.estimated_flights_credits > 0
        || r.skipped_no_coords > 0 {
        let mut more = text::join2(
            "  opensky flights_calls=",
            text::number_text(r.flights_calls).as_str(),
        );
        more = with_number(more.as_str(), " tracks_calls=", r.tracks_calls);
        more = with_number(more.as_str(), " skipped_no_coords=", r.skipped_no_coords);
        more =
        with_number(
            more.as_str(),
            " estimated_flights_credits=",
            r.estimated_flights_credits as u64,
        );
        out.push(more);
        proof {
            assert(order::views(out@) =~= seq![run_line(*r), spending_line(*r)]);
        }
    } else {
        proof {
            assert(order::views(out@) =~= seq![run_line(*r)]);
        }
    }
    out
}

/// A text with spaces behind it, at least `n` characters long.
pub open spec fn padded(s: Seq<char>, n: nat) -> Seq<char>
    decreases n - s.len(),
{
    if s.len() >= n {
        s
    } else {
        padded(s.push(' '), n)
    }
}

fn pad(s: &str, n: usize) -> (r: String)
    ensures
        r@ == padded(s@, n as nat),
{
    let mut out: String = s.to_owned();
    let mut len: usize = text::chars_of(s).len();
    while len < n
        invariant
            len == out@.len(),
            padded(out@, n as nat) == padded(s@, n as nat),
        decreases n - len,
    {
        out.push(' ');
        len += 1;
    }
    out
}

/// What is shown of a status that may be missing.
pub open spec fn status_or_dash(status: Option<u16>) -> Seq<char> {
    match status {
        Some(s) => text::decimal(s as nat),
        None => "—"@,
    }
}

/// A status, or a dash where it is missing.
fn show_status(status: Option<u16>) -> (r: String)
    ensures
        r@ == status_or_dash(status),
{
    match status {
        Some(s) => text::number_text(s as u64),
        None => "—".to_owned(),
    }
}

/// `true` or `false`.
pub open spec fn truth(b: bool) -> Seq<char> {
    if b {
        "true"@
    } else {
        "false"@
    }
}

fn show_truth(b: bool) -> (r: &'static str)
    ensures
        r@ == truth(b),
{
    if b {
        "true"
    } else {
        "false"
    }
}

/// What is shown of a probed address.
pub open spec fn endpoint_shown(e: EndpointProbe) -> Seq<char> {
    "  "@ + padded(e.name@, 14) + " status="@ + padded(status_or_dash(e.status), 6) + " ok="@
        + truth(e.ok) + "  "@ + e.note@
}

/// The line on a probed address.
pub fn endpoint_line(e: &EndpointProbe) -> (r: String)
    ensures
        r@ == endpoint_shown(*e),
{
    let head = join3("  ", pad(e.name.as_str(), 14).as_str(), " status=");
    let mid = join3(head.as_str(), pad(show_status(e.status).as_str(), 6).as_str(), " ok=");
    join3(text::join2(mid.as_str(), show_truth(e.ok)).as_str(), "  ", e.note.as_str())
}

/// The lines on the probed addresses.
pub open spec fn endpoints_shown(probes: Seq<EndpointProbe>) -> Seq<Seq<char>> {
    Seq::new(probes.len(), |i: int| endpoint_shown(probes[i]))
}

/// What is shown of a probe of ADS-B Exchange: what was probed, each address, and what is
/// available.
pub open spec fn probe_shown(r: ProbeReport) -> Seq<Seq<char>> {
    seq![
        "probe hex="@ + r.hex@ + " date="@ + r.date@ + " credentials="@ + truth(
            r.credentials_present,
        ),
        endpoint_shown(r.live),
    ] + endpoints_shown(r.recent@) + seq![
        endpoint_shown(r.hist),
        endpoint_shown(r.s3),
        "summary live="@ + truth(r.live_available) + " recent="@ + truth(r.recent_available)
            + " hist="@ + truth(r.hist_available),
    ] + if r.hist_available {
        Seq::empty()
    } else {
        seq![
            "historical traces unavailable — v1 collect is forward-only / cache-only until this returns 200."@,
        ]
    }
}

/// The lines on a probe of ADS-B Exchange.
pub fn probe_lines(r: &ProbeReport) -> (lines: Vec<String>)
    ensures
        order::views(lines@) == probe_shown(*r),
{
    let mut out: Vec<String> = Vec::new();
    let hex = join3("probe hex=", r.hex.as_str(), " date=");
    let date = join3(hex.as_str(), r.date.as_str(), " credentials=");
    out.push(text::join2(date.as_str(), show_truth(r.credentials_present)));
    out.push(endpoint_line(&r.live));
    let ghost top = order::views(out@);
    proof {
        assert(endpoints_shown(r.recent@).take(0) =~= Seq::<Seq<char>>::empty());
        assert(order::views(out@) =~= top + endpoints_shown(r.recent@).take(0));
    }
    let mut i: usize = 0;
    while i < r.recent.len()
        invariant
            0 <= i <= r.recent@.len(),
            order::views(out@) == top + endpoints_shown(r.recent@).take(i as int),
        decreases r.recent@.len() - i,
    {
        let ghost done = order::views(out@);
        let line = endpoint_line(&r.recent[i]);
        let ghost l = line@;
        out.push(line);
        i += 1;
        proof {
            assert(order::views(out@) =~= done.push(l));
            assert(order::views(out@) =~= top + endpoints_shown(r.recent@).take(i as int));
        }
    }
    proof {
        assert(endpoints_shown(r.recent@).take(i as int) =~= endpoints_shown(r.recent@));
    }
    let ghost mid = order::views(out@);
    out.push(endpoint_line(&r.hist));
    out.push(endpoint_line(&r.s3));
    let live = join3("summary live=", show_truth(r.live_available), " recent=");
    let recent = join3(live.as_str(), show_truth(r.recent_available), " hist=");
    out.push(text::join2(recent.as_str(), show_truth(r.hist_available)));
    if !r.hist_available {
        out.push(
            "historical traces unavailable — v1 collect is forward-only / cache-only until this returns 200.".to_owned(),
        );
    }
    proof {
        assert(top =~= seq![
            "probe hex="@ + r.hex@ + " date="@ + r.date@ + " credentials="@ + truth(
                r.credentials_present,
            ),
            endpoint_shown(r.live),
        ]);
        assert(order::views(out@) =~= probe_shown(*r));
    }
    out
}

/// What is shown of a `/flights/all` probe.
pub open spec fn flights_all_probe_shown(r: OpenskyFlightsAllProbeReport) -> Seq<Seq<char>> {
    seq![
        "opensky flights/all probe date="@ + r.date@ + " window="@ + r.flights_window@ + " abort="@
            + truth(r.abort) + " note="@ + r.note@,
        "  status="@ + status_or_dash(r.flights_status) + " bytes="@ + text::decimal(
            r.body_bytes as nat,
        ) + " elapsed_ms="@ + text::decimal(r.elapsed_ms as nat) + " raw_count="@ + text::decimal(
            r.raw_count as nat,
        ),
        "  remaining_before="@ + opensky::shown_count(r.flights_remaining_before)
            + " remaining_after="@ + opensky::shown_count(r.flights_remaining) + " spent="@
            + opensky::shown_count(r.flights_credits_spent),
        "  fleet_flights="@ + text::decimal(r.fleet_count as nat) + " fleet_hexes="@
            + text::decimal(r.fleet_hexes as nat) + " journal_in_window="@ + text::decimal(
            r.journal_trips_in_window as nat,
        ) + " matched="@ + text::decimal(r.matched_keys as nat) + " extra="@ + text::decimal(
            r.extra_vs_journal as nat,
        ) + " missing="@ + text::decimal(r.missing_from_journal as nat),
    ]
}

/// The lines on a `/flights/all` probe.
pub fn flights_all_probe_lines(r: &OpenskyFlightsAllProbeReport) -> (lines: Vec<String>)
    ensures
        order::views(lines@) == flights_all_probe_shown(*r),
{
    let mut out: Vec<String> = Vec::new();
    let date = join3("opensky flights/all probe date=", r.date.as_str(), " window=");
    let window = join3(date.as_str(), r.flights_window.as_str(), " abort=");
    let abort = join3(window.as_str(), show_truth(r.abort), " note=");
    out.push(text::join2(abort.as_str(), r.note.as_str()));
    let status = text::join2("  status=", show_status(r.flights_status).as_str());
    let bytes = with_number(status.as_str(), " bytes=", r.body_bytes as u64);
    let elapsed = join3(
        bytes.as_str(),
        " elapsed_ms=",
        text::large_number_text(r.elapsed_ms).as_str(),
    );
    out.push(with_number(elapsed.as_str(), " raw_count=", r.raw_count as u64));
    let before = join3(
        "  remaining_before=",
        opensky::show_count(r.flights_remaining_before).as_str(),
        " remaining_after=",
    );
    let after = join3(
        before.as_str(),
        opensky::show_count(r.flights_remaining).as_str(),
        " spent=",
    );
    out.push(
        text::join2(after.as_str(), opensky::show_count(r.flights_credits_spent).as_str()),
    );
    let mut line = text::join2(
        "  fleet_flights=",
        text::number_text(r.fleet_count as u64).as_str(),
    );
    line = with_number(line.as_str(), " fleet_hexes=", r.fleet_hexes as u64);
    line = with_number(line.as_str(), " journal_in_window=", r.journal_trips_in_window as u64);
    line = with_number(line.as_str(), " matched=", r.matched_keys as u64);
    line = with_number(line.as_str(), " extra=", r.extra_vs_journal as u64);
    line = with_number(line.as_str(), " missing=", r.missing_from_journal as u64);
    out.push(line);
    proof {
        assert(order::views(out@) =~= flights_all_probe_shown(*r));
    }
    out
}

/// The line has a value behind a label, and the line ends there or goes on with a space.
pub open spec fn says(line: Seq<char>, label: Seq<char>, value: Seq<char>) -> bool {
    exists|i: int|
        #[trigger] text::occurs_at(line, label + value, i) && (i + (label + value).len() == line.len()
            || line[i + (label + value).len()] == ' ')
}

/// A line that goes on with a label and a value says that value behind the label, and all that it
/// said before.
proof fn lemma_says_more(line: Seq<char>, label: Seq<char>, value: Seq<char>)
    requires
        label.len() > 0,
        label[0] == ' ',
    ensures
        says(line + label + value, label, value),
        forall|l: Seq<char>, v: Seq<char>| #[trigger]
            says(line, l, v) ==> says(line + label + value, l, v),
{
    let more = line + label + value;
    assert(more.subrange(line.len() as int, more.len() as int) =~= label + value);
    assert(text::occurs_at(more, label + value, line.len() as int));
    assert forall|l: Seq<char>, v: Seq<char>| #[trigger] says(line, l, v) implies says(more, l, v) by {
        let i = choose|i: int|
            #[trigger] text::occurs_at(line, l + v, i) && (i + (l + v).len() == line.len() || line[i
                + (l + v).len()] == ' ');
        assert(more.subrange(i, i + (l + v).len()) =~= line.subrange(i, i + (l + v).len()));
        assert(text::occurs_at(more, l + v, i));
    }
}

proof fn lemma_says_first(label: Seq<char>, value: Seq<char>)
    ensures
        says(label + value, label, value),
{
    let line = label + value;
    assert(line.subrange(0, line.len() as int) =~= line);
    assert(text::occurs_at(line, label + value, 0));
}

/// What the first line on a run says behind each of its labels.
pub proof fn law_run_line_says(r: CollectReport)
    ensures
        says(run_line(r), "collect fleet_hexes="@, text::decimal(r.fleet_hexes as nat)),
        says(run_line(r), " skipped_empty_icao24="@, text::decimal(r.skipped_empty_icao24 as nat)),
        says(run_line(r), " days_ok="@, text::decimal(r.days_ok as nat)),
        says(run_line(r), " days_404="@, text::decimal(r.days_not_found as nat)),
        says(run_line(r), " from_cache="@, text::decimal(r.days_from_cache as nat)),
        says(run_line(r), " trips_upserted="@, text::decimal(r.trips_upserted as nat)),
        says(run_line(r), " stopped_hexes="@, text::decimal(r.hexes_stopped_on_error as nat)),
        says(run_line(r), " live_polls="@, text::decimal(r.live_polls as nat)),
        says(run_line(r), " live_trips="@, text::decimal(r.live_trips as nat)),
{
    reveal_strlit(" skipped_empty_icao24=");
    reveal_strlit(" days_ok=");
    reveal_strlit(" days_404=");
    reveal_strlit(" from_cache=");
    reveal_strlit(" trips_upserted=");
    reveal_strlit(" stopped_hexes=");
    reveal_strlit(" live_polls=");
    reveal_strlit(" live_trips=");
    let a = "collect fleet_hexes="@ + text::decimal(r.fleet_hexes as nat);
    let b = a + " skipped_empty_icao24="@ + text::decimal(r.skipped_empty_icao24 as nat);
    let c = b + " days_ok="@ + text::decimal(r.days_ok as nat);
    let d = c + " days_404="@ + text::decimal(r.days_not_found as nat);
    let e = d + " from_cache="@ + text::decimal(r.days_from_cache as nat);
    let f = e + " trips_upserted="@ + text::decimal(r.trips_upserted as nat);
    let g = f + " stopped_hexes="@ + text::decimal(r.hexes_stopped_on_error as nat);
    let h = g + " live_polls="@ + text::decimal(r.live_polls as nat);
    lemma_says_first("collect fleet_hexes="@, text::decimal(r.fleet_hexes as nat));
    lemma_says_more(a, " skipped_empty_icao24="@, text::decimal(r.skipped_empty_icao24 as nat));
    lemma_says_more(b, " days_ok="@, text::decimal(r.days_ok as nat));
    lemma_says_more(c, " days_404="@, text::decimal(r.days_not_found as nat));
    lemma_says_more(d, " from_cache="@, text::decimal(r.days_from_cache as nat));
    lemma_says_more(e, " trips_upserted="@, text::decimal(r.trips_upserted as nat));
    lemma_says_more(f, " stopped_hexes="@, text::decimal(r.hexes_stopped_on_error as nat));
    lemma_says_more(g, " live_polls="@, text::decimal(r.live_polls as nat));
    lemma_says_more(h, " live_trips="@, text::decimal(r.live_trips as nat));
}

/// What the second line on a run says behind each of its labels; and that there is one exactly where
/// some call was made, some credit spent or some flight passed over.
pub proof fn law_spending_line_says(r: CollectReport)
    ensures
        says(spending_line(r), "  opensky flights_calls="@, text::decimal(r.flights_calls as nat)),
        says(spending_line(r), " tracks_calls="@, text::decimal(r.tracks_calls as nat)),
        says(spending_line(r), " skipped_no_coords="@, text::decimal(r.skipped_no_coords as nat)),
        says(
            spending_line(r),
            " estimated_flights_credits="@,
            text::decimal(r.estimated_flights_credits as nat),
        ),
        !tells_spending(r) <==> r.flights_calls == 0 && r.tracks_calls == 0
            && r.estimated_flights_credits == 0 && r.skipped_no_coords == 0,
{
    reveal_strlit(" tracks_calls=");
    reveal_strlit(" skipped_no_coords=");
    reveal_strlit(" estimated_flights_credits=");
    let a = "  opensky flights_calls="@ + text::decimal(r.flights_calls as nat);
    let b = a + " tracks_calls="@ + text::decimal(r.tracks_calls as nat);
    let c = b + " skipped_no_coords="@ + text::decimal(r.skipped_no_coords as nat);
    lemma_says_first("  opensky flights_calls="@, text::decimal(r.flights_calls as nat));
    lemma_says_more(a, " tracks_calls="@, text::decimal(r.tracks_calls as nat));
    lemma_says_more(b, " skipped_no_coords="@, text::decimal(r.skipped_no_coords as nat));
    lemma_says_more(
        c,
        " estimated_flights_credits="@,
        text::decimal(r.estimated_flights_credits as nat),
    );
}

/// A padded text is the text with spaces behind it, as long as asked for, and longer only where the
/// text is.
pub proof fn law_padded(s: Seq<char>, n: nat)
    ensures
        padded(s, n).len() == (if s.len() >= n {
            s.len()
        } else {
            n
        }),
        forall|i: int|
            0 <= i < padded(s, n).len() ==> #[trigger] padded(s, n)[i] == (if i < s.len() {
                s[i]
            } else {
                ' '
            }),
    decreases n - s.len(),
{
    if s.len() < n {
        law_padded(s.push(' '), n);
    }
}

/// What the line on a probed address says: its name first, its status or a dash, whether it could be
/// had, and the note at its end.
pub proof fn law_endpoint_line_says(e: EndpointProbe)
    ensures
        ({
            let line = endpoint_shown(e);
            let status = match e.status {
                Some(s) => text::decimal(s as nat),
                None => "—"@,
            };
            let name_len = if e.name@.len() >= 14 {
                e.name@.len()
            } else {
                14
            };
            &&& line.subrange(2, 2 + e.name@.len() as int) == e.name@
            &&& line.subrange(2 + name_len as int, 10 + name_len as int + status.len() as int)
                == " status="@ + status
            &&& e.ok ==> says(line, " ok="@, "true"@)
            &&& !e.ok ==> says(line, " ok="@, "false"@)
            &&& line.skip(line.len() - e.note@.len()) == e.note@
        }),
{
    reveal_strlit("  ");
    reveal_strlit(" status=");
    reveal_strlit(" ok=");
    let status = status_or_dash(e.status);
    law_padded(e.name@, 14);
    law_padded(status, 6);
    let name = padded(e.name@, 14);
    let shown = padded(status, 6);
    let head = "  "@ + name + " status="@ + shown;
    let mid = head + " ok="@ + truth(e.ok);
    let line = endpoint_shown(e);
    assert(line == mid + "  "@ + e.note@);
    assert(line.subrange(2, 2 + e.name@.len() as int) =~= e.name@);
    assert(line.subrange(2 + name.len() as int, 10 + name.len() as int + status.len() as int)
        =~= " status="@ + status);
    lemma_says_more(head, " ok="@, truth(e.ok));
    lemma_says_more(mid, "  "@, e.note@);
    assert(line.skip(line.len() - e.note@.len()) =~= e.note@);
}

/// What the lines on a `/flights/all` probe say behind each of their labels.
pub proof fn law_flights_all_probe_says(r: OpenskyFlightsAllProbeReport)
    ensures
        ({
            let lines = flights_all_probe_shown(r);
            &&& lines.len() == 4
            &&& says(lines[0], "opensky flights/all probe date="@, r.date@)
            &&& says(lines[0], " window="@, r.flights_window@)
            &&& r.abort ==> says(lines[0], " abort="@, "true"@)
            &&& !r.abort ==> says(lines[0], " abort="@, "false"@)
            &&& says(lines[0], " note="@, r.note@)
            &&& r.flights_status matches Some(s) ==> says(
                lines[1],
                "  status="@,
                text::decimal(s as nat),
            )
            &&& r.flights_status is None ==> says(lines[1], "  status="@, "—"@)
            &&& says(lines[1], " bytes="@, text::decimal(r.body_bytes as nat))
            &&& says(lines[1], " elapsed_ms="@, text::decimal(r.elapsed_ms as nat))
            &&& says(lines[1], " raw_count="@, text::decimal(r.raw_count as nat))
            &&& says(
                lines[2],
                "  remaining_before="@,
                opensky::shown_count(r.flights_remaining_before),
            )
            &&& says(lines[2], " remaining_after="@, opensky::shown_count(r.flights_remaining))
            &&& says(lines[2], " spent="@, opensky::shown_count(r.flights_credits_spent))
            &&& says(lines[3], "  fleet_flights="@, text::decimal(r.fleet_count as nat))
            &&& says(lines[3], " fleet_hexes="@, text::decimal(r.fleet_hexes as nat))
            &&& says(
                lines[3],
                " journal_in_window="@,
                text::decimal(r.journal_trips_in_window as nat),
            )
            &&& says(lines[3], " matched="@, text::decimal(r.matched_keys as nat))
            &&& says(lines[3], " extra="@, text::decimal(r.extra_vs_journal as nat))
            &&& says(lines[3], " missing="@, text::decimal(r.missing_from_journal as nat))
        }),
{
    reveal_strlit(" window=");
    reveal_strlit(" abort=");
    reveal_strlit(" note=");
    let a = "opensky flights/all probe date="@ + r.date@;
    let b = a + " window="@ + r.flights_window@;
    let c = b + " abort="@ + truth(r.abort);
    lemma_says_first("opensky flights/all probe date="@, r.date@);
    lemma_says_more(a, " window="@, r.flights_window@);
    lemma_says_more(b, " abort="@, truth(r.abort));
    lemma_says_more(c, " note="@, r.note@);
    reveal_strlit(" bytes=");
    reveal_strlit(" elapsed_ms=");
    reveal_strlit(" raw_count=");
    let d = "  status="@ + status_or_dash(r.flights_status);
    let e = d + " bytes="@ + text::decimal(r.body_bytes as nat);
    let f = e + " elapsed_ms="@ + text::decimal(r.elapsed_ms as nat);
    lemma_says_first("  status="@, status_or_dash(r.flights_status));
    lemma_says_more(d, " bytes="@, text::decimal(r.body_bytes as nat));
    lemma_says_more(e, " elapsed_ms="@, text::decimal(r.elapsed_ms as nat));
    lemma_says_more(f, " raw_count="@, text::decimal(r.raw_count as nat));
    reveal_strlit(" remaining_after=");
    reveal_strlit(" spent=");
    let g = "  remaining_before="@ + opensky::shown_count(r.flights_remaining_before);
    let h = g + " remaining_after="@ + opensky::shown_count(r.flights_remaining);
    lemma_says_first("  remaining_before="@, opensky::shown_count(r.flights_remaining_before));
    lemma_says_more(g, " remaining_after="@, opensky::shown_count(r.flights_remaining));
    lemma_says_more(h, " spent="@, opensky::shown_count(r.flights_credits_spent));
    reveal_strlit(" fleet_hexes=");
    reveal_strlit(" journal_in_window=");
    reveal_strlit(" matched=");
    reveal_strlit(" extra=");
    reveal_strlit(" missing=");
    let i = "  fleet_flights="@ + text::decimal(r.fleet_count as nat);
    let j = i + " fleet_hexes="@ + text::decimal(r.fleet_hexes as nat);
    let k = j + " journal_in_window="@ + text::decimal(r.journal_trips_in_window as nat);
    let l = k + " matched="@ + text::decimal(r.matched_keys as nat);
    let m = l + " extra="@ + text::decimal(r.extra_vs_journal as nat);
    lemma_says_first("  fleet_flights="@, text::decimal(r.fleet_count as nat));
    lemma_says_more(i, " fleet_hexes="@, text::decimal(r.fleet_hexes as nat));
    lemma_says_more(j, " journal_in_window="@, text::decimal(r.journal_trips_in_window as nat));
    lemma_says_more(k, " matched="@, text::decimal(r.matched_keys as nat));
    lemma_says_more(l, " extra="@, text::decimal(r.extra_vs_journal as nat));
    lemma_says_more(m, " missing="@, text::decimal(r.missing_from_journal as nat));
}

/// The lines on the journal, one by one: the path; the fleet with its two times, a question mark for
/// one that is missing; the aircraft without an address where the map was read; the last complete
/// day or a dash; each day in progress with its count out of twelve; each day with its error; and the
/// trips.
pub proof fn law_status_lines_by_place(status: JournalStatus, skipped: Option<u64>)
    ensures
        ({
            let lines = status_shown(status, skipped);
            let at = if skipped is Some {
                3int
            } else {
                2
            };
            let days = status.flights_all_incomplete@;
            let errors = status.flights_all_errors@;
            &&& lines.len() == at + 1 + days.len() + errors.len() + 1
            &&& lines[0] == "journal: "@ + status.path@
            &&& lines[1] == "fleet_snapshot: "@ + text::decimal(status.fleet_hexes as nat)
                + " hexes (as of "@ + (match status.snapshot_as_of {
                Some(t) => t@,
                None => "?"@,
            }) + ", recorded_at "@ + (match status.recorded_at {
                Some(t) => t@,
                None => "?"@,
            }) + ")"@
            &&& skipped matches Some(n) ==> lines[2] == "skipped_empty_icao24 (current map slice): "@
                + text::decimal(n as nat)
            &&& status.flights_all_complete_max matches Some(d) ==> lines[at]
                == "flights_all last complete UTC day: "@ + d@ + " (12/12)"@
            &&& status.flights_all_complete_max is None ==> lines[at]
                == "flights_all last complete UTC day: —"@
            &&& forall|i: int|
                0 <= i < days.len() ==> lines[at + 1 + i] == "  flights_all in progress "@ + (
                #[trigger] days[i]).0@ + ": "@ + text::decimal(days[i].1 as nat) + "/12 slices"@
            &&& forall|i: int|
                0 <= i < errors.len() ==> lines[at + 1 + days.len() + i] == "  flights_all error "@ + (
                #[trigger] errors[i]).0@ + ": "@ + errors[i].1@
            &&& lines.last() == "trips: "@ + text::decimal(status.trips as nat)
        }),
{
}

/// The lines on a probe of ADS-B Exchange, one by one: what was probed; the live address, the recent
/// ones in order, the past one and the bucket; and what is available, with a last line where past
/// traces are not.
pub proof fn law_probe_lines_by_place(r: ProbeReport)
    ensures
        ({
            let lines = probe_shown(r);
            let n = r.recent@.len() as int;
            &&& lines.len() == n + 5 + (if r.hist_available {
                0int
            } else {
                1
            })
            &&& says(lines[0], "probe hex="@, r.hex@)
            &&& says(lines[0], " date="@, r.date@)
            &&& r.credentials_present ==> says(lines[0], " credentials="@, "true"@)
            &&& !r.credentials_present ==> says(lines[0], " credentials="@, "false"@)
            &&& lines[1] == endpoint_shown(r.live)
            &&& forall|i: int|
                0 <= i < n ==> lines[2 + i] == endpoint_shown(#[trigger] r.recent@[i])
            &&& lines[2 + n] == endpoint_shown(r.hist)
            &&& lines[3 + n] == endpoint_shown(r.s3)
            &&& r.live_available ==> says(lines[4 + n], "summary live="@, "true"@)
            &&& !r.live_available ==> says(lines[4 + n], "summary live="@, "false"@)
            &&& r.recent_available ==> says(lines[4 + n], " recent="@, "true"@)
            &&& !r.recent_available ==> says(lines[4 + n], " recent="@, "false"@)
            &&& r.hist_available ==> says(lines[4 + n], " hist="@, "true"@)
            &&& !r.hist_available ==> says(lines[4 + n], " hist="@, "false"@)
        }),
{
    reveal_strlit(" date=");
    reveal_strlit(" credentials=");
    reveal_strlit(" recent=");
    reveal_strlit(" hist=");
    let lines = probe_shown(r);
    let n = r.recent@.len() as int;
    let a = "probe hex="@ + r.hex@;
    let b = a + " date="@ + r.date@;
    lemma_says_first("probe hex="@, r.hex@);
    lemma_says_more(a, " date="@, r.date@);
    lemma_says_more(b, " credentials="@, truth(r.credentials_present));
    assert(lines[0] == b + " credentials="@ + truth(r.credentials_present));
    let c = "summary live="@ + truth(r.live_available);
    let d = c + " recent="@ + truth(r.recent_available);
    lemma_says_first("summary live="@, truth(r.live_available));
    lemma_says_more(c, " recent="@, truth(r.recent_available));
    lemma_says_more(d, " hist="@, truth(r.hist_available));
    assert(lines[4 + n] == d + " hist="@ + truth(r.hist_available));
    assert forall|i: int| 0 <= i < n implies lines[2 + i] == endpoint_shown(
        #[trigger] r.recent@[i],
    ) by {
        assert(endpoints_shown(r.recent@)[i] == endpoint_shown(r.recent@[i]));
    }
}

/// The lines that are printed are those on the journal, on a run and on the two probes.
pub proof fn law_printed_lines(
    status: JournalStatus,
    skipped: Option<u64>,
    on_status: Vec<String>,
    run: CollectReport,
    on_run: Vec<String>,
    probe: ProbeReport,
    on_probe: Vec<String>,
    flights: OpenskyFlightsAllProbeReport,
    on_flights: Vec<String>,
)
    requires
        call_ensures(status_lines, (&status, skipped), on_status),
        call_ensures(report_lines, (&run,), on_run),
        call_ensures(probe_lines, (&probe,), on_probe),
        call_ensures(flights_all_probe_lines, (&flights,), on_flights),
    ensures
        order::views(on_status@) == status_shown(status, skipped),
        on_run@.len() == (if tells_spending(run) {
            2int
        } else {
            1
        }),
        on_run@[0]@ == run_line(run),
        tells_spending(run) ==> on_run@[1]@ == spending_line(run),
        order::views(on_probe@) == probe_shown(probe),
        order::views(on_flights@) == flights_all_probe_shown(flights),
{
    let lines = order::views(on_run@);
    assert(lines.len() == on_run@.len());
    assert(lines == if tells_spending(run) {
        seq![run_line(run), spending_line(run)]
    } else {
        seq![run_line(run)]
    });
    assert(lines[0] == on_run@[0]@);
    if tells_spending(run) {
        assert(lines[1] == on_run@[1]@);
    }
}

} // verus!
