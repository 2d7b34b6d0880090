//! Watching which aircraft of the fleet are airborne.

use crate::calendar::UtcDay;
use crate::collect;
use crate::collect::CollectReport;
use crate::opensky;
use crate::opensky::OpenskyOutcome;
use crate::store::{JournalDb, JournalView};
use crate::table;
use crate::text;
use vstd::prelude::*;

verus! {

/// The journal with several aircraft seen airborne on a day.
pub open spec fn with_all_seen(
    journal: JournalView,
    hexes: Seq<String>,
    day: UtcDay,
    now: Seq<char>,
) -> JournalView
    decreases hexes.len(),
{
    if hexes.len() == 0 {
        journal
    } else {
        with_all_seen(journal, hexes.drop_last(), day, now).with_seen(
            text::lower(text::trim(hexes.last()@)),
            day,
            now,
        )
    }
}

/// What to do after a poll.
#[derive(Debug)]
pub enum WatchStep {
    /// The aircraft were recorded; the poll cost so many credits.
    Seen { spent: u32 },
    /// Wait so many seconds: the service said so.
    Wait { seconds: u64 },
    /// Nothing was found and nothing failed.
    Idle,
    /// The watch ends with an error.
    Fail { message: String },
}

/// What a poll cost: what remained before less what remains now, or the estimate where that cannot
/// be told.
pub open spec fn poll_cost(before: Option<u32>, after: Option<u32>, estimated: u32) -> u32 {
    match (before, after) {
        (Some(b), Some(a)) => if b >= a {
            (b - a) as u32
        } else {
            estimated
        },
        _ => estimated,
    }
}

/// The seconds to wait before another poll: as the service says, one minute where it does not, and
/// at least one second.
pub open spec fn wait_after(retry_after: Option<u64>) -> u64 {
    match retry_after {
        Some(s) => if s > 1 {
            s
        } else {
            1
        },
        None => 60,
    }
}

/// What is said of a poll that failed.
pub open spec fn failure_told(error: Seq<char>) -> Seq<char> {
    "opensky states failed (HTTP does not advance cursor): "@ + error
}

/// A watch: how many polls it made, and what remained after the last one that succeeded.
pub struct Watcher {
    polls: u32,
    max_polls: Option<u32>,
    remaining: Option<u32>,
    report: CollectReport,
}

#[verifier::ext_equal]
pub struct WatchView {
    pub polls: u32,
    pub max_polls: Option<u32>,
    pub remaining: Option<u32>,
    pub report: CollectReport,
}

impl WatchView {
    /// The watch with one more poll begun over a fleet.
    pub open spec fn polled(self, fleet_hexes: usize, skipped_empty_icao24: u64) -> WatchView {
        WatchView {
            polls: if self.polls < u32::MAX {
                (self.polls + 1) as u32
            } else {
                u32::MAX
            },
            report: CollectReport {
                live_polls: collect::counted(self.report.live_polls, 1),
                fleet_hexes,
                skipped_empty_icao24,
                ..self.report
            },
            ..self
        }
    }

    /// The watch after the outcome of a poll.
    pub open spec fn heard(self, outcome: OpenskyOutcome<Vec<String>>) -> WatchView {
        match outcome {
            OpenskyOutcome::Success { data: _, credit } => WatchView {
                remaining: credit.remaining,
                ..self
            },
            _ => self,
        }
    }

    /// Another poll is to follow.
    pub open spec fn goes_on(self) -> bool {
        !(self.max_polls matches Some(m) && self.polls >= m)
    }
}

impl View for Watcher {
    type V = WatchView;

    closed spec fn view(&self) -> WatchView {
        WatchView {
            polls: self.polls,
            max_polls: self.max_polls,
            remaining: self.remaining,
            report: self.report,
        }
    }
}

impl Watcher {
    pub fn start(max_polls: Option<u32>) -> (r: Watcher)
        ensures
            r@ == (WatchView {
                polls: 0,
                max_polls,
                remaining: None,
                report: CollectReport::fresh(0, 0),
            }),
    {
        Watcher { polls: 0, max_polls, remaining: None, report: CollectReport::on_fleet(0, 0) }
    }

    /// The numbers of the watch so far.
    pub fn report(&self) -> (r: CollectReport)
        ensures
            r == self@.report,
    {
        self.report
    }

    /// A poll over a fleet begins. The count of polls stays at its largest value.
    pub fn begin_poll(&mut self, fleet_hexes: usize, skipped_empty_icao24: u64)
        ensures
            final(self)@ == (WatchView {
                polls: if old(self)@.polls < u32::MAX {
                    (old(self)@.polls + 1) as u32
                } else {
                    u32::MAX
                },
                report: CollectReport {
                    live_polls: collect::counted(old(self)@.report.live_polls, 1),
                    fleet_hexes,
                    skipped_empty_icao24,
                    ..old(self)@.report
                },
                ..old(self)@
            }),
            final(self)@ == old(self)@.polled(fleet_hexes, skipped_empty_icao24),
    {
        if self.polls < u32::MAX {
            self.polls = self.polls + 1;
        }
        self.report.live_polls = collect::count(self.report.live_polls, 1);
        self.report.fleet_hexes = fleet_hexes;
        self.report.skipped_empty_icao24 = skipped_empty_icao24;
    }

    /// Takes the outcome of a poll and records the aircraft that it found. An outcome that does not
    /// advance a cursor and is no rate limit ends the watch.
    pub fn answered(
        &mut self,
        outcome: &OpenskyOutcome<Vec<String>>,
        db: &mut JournalDb,
        date: UtcDay,
        now: &str,
    ) -> (r: WatchStep)
        requires
            old(db)@.wf(),
        ensures
            final(db)@.wf(),
            match *outcome {
                OpenskyOutcome::Success { data, credit } => {
                    &&& final(db)@ == with_all_seen(old(db)@, data@, date, now@)
                    &&& final(self)@ == (WatchView { remaining: credit.remaining, ..old(self)@ })
                    &&& r == (WatchStep::Seen {
                        spent: poll_cost(
                            old(self)@.remaining,
                            credit.remaining,
                            opensky::states_credits(old(self)@.report.fleet_hexes as int),
                        ),
                    })
                },
                OpenskyOutcome::RateLimited { credit } => {
                    &&& final(db)@ == old(db)@ && final(self)@ == old(self)@
                    &&& r == (WatchStep::Wait { seconds: wait_after(credit.retry_after) })
                },
                OpenskyOutcome::NotFound { .. } => {
                    &&& final(db)@ == old(db)@ && final(self)@ == old(self)@
                    &&& r == WatchStep::Idle
                },
                _ => {
                    &&& final(db)@ == old(db)@ && final(self)@ == old(self)@
                    &&& r matches WatchStep::Fail { message } && message@
                        == "opensky states failed (HTTP does not advance cursor): "@
                        + outcome.error()->0
                },
            },
            final(self)@ == old(self)@.heard(*outcome),
            r matches WatchStep::Fail { message } ==> outcome.error() matches Some(e) && message@
                == failure_told(e),
    {
        match outcome {
            OpenskyOutcome::Success { data, credit } => {
                let estimated = opensky::estimated_states_credits(self.report.fleet_hexes);
                let spent: u32 = match (self.remaining, credit.remaining) {
                    (Some(before), Some(after)) => if before >= after {
                        before - after
                    } else {
                        estimated
                    },
                    _ => estimated,
                };
                self.remaining = credit.remaining;
                let mut i: usize = 0;
                proof {
                    assert(data@.take(0) =~= Seq::<String>::empty());
                }
                while i < data.len()
                    invariant
                        0 <= i <= data@.len(),
                        db@.wf(),
                        db@ == with_all_seen(old(db)@, data@.take(i as int), date, now@),
                    decreases data@.len() - i,
                {
                    db.mark_seen_airborne(data[i].as_str(), date, now);
                    proof {
                        assert(data@.take(i + 1).drop_last() =~= data@.take(i as int));
                    }
                    i += 1;
                }
                proof {
                    assert(data@.take(i as int) =~= data@);
                }
                WatchStep::Seen { spent }
            },
            OpenskyOutcome::RateLimited { credit } => {
                let seconds: u64 = match credit.retry_after {
                    Some(s) => if s > 1 {
                        s
                    } else {
                        1
                    },
                    None => 60,
                };
                WatchStep::Wait { seconds }
            },
            OpenskyOutcome::NotFound { .. } => WatchStep::Idle,
            OpenskyOutcome::Denied { .. } => WatchStep::Fail { message: failure(outcome) },
            OpenskyOutcome::Other { .. } => WatchStep::Fail { message: failure(outcome) },
        }
    }

    /// Whether another poll is to follow: until as many were made as were asked for.
    pub fn goes_on(&self) -> (r: bool)
        ensures
            r == !(self@.max_polls matches Some(m) && self@.polls >= m),
            r == self@.goes_on(),
    {
        match self.max_polls {
            Some(m) => self.polls < m,
            None => true,
        }
    }
}

fn failure(outcome: &OpenskyOutcome<Vec<String>>) -> (r: String)
    requires
        outcome.error() is Some,
    ensures
        r@ == "opensky states failed (HTTP does not advance cursor): "@ + outcome.error()->0,
{
    let said = match outcome.error_message() {
        Some(m) => m,
        None => String::new(),
    };
    text::join2("opensky states failed (HTTP does not advance cursor): ", said.as_str())
}

/// Watching records aircraft and nothing else: what is collected does not rest on it.
pub proof fn law_watch_touches_only_the_seen(
    journal: JournalView,
    hexes: Seq<String>,
    day: UtcDay,
    now: Seq<char>,
)
    ensures
        with_all_seen(journal, hexes, day, now) == (JournalView {
            seen: with_all_seen(journal, hexes, day, now).seen,
            ..journal
        }),
    decreases hexes.len(),
{
    if hexes.len() > 0 {
        law_watch_touches_only_the_seen(journal, hexes.drop_last(), day, now);
    }
}

/// The watch after a number of polls over a fleet.
pub open spec fn after_polls(
    watch: WatchView,
    n: nat,
    fleet_hexes: usize,
    skipped_empty_icao24: u64,
) -> WatchView
    decreases n,
{
    if n == 0 {
        watch
    } else {
        after_polls(watch, (n - 1) as nat, fleet_hexes, skipped_empty_icao24).polled(
            fleet_hexes,
            skipped_empty_icao24,
        )
    }
}

/// A watch that was asked for a number of polls makes as many and no more: after each poll it goes on
/// exactly where fewer were made. One that was asked for none in particular always goes on. It counts
/// its polls in the report, with the size of the fleet that the last one was over.
pub proof fn law_watch_makes_its_polls(
    watch: WatchView,
    n: nat,
    fleet_hexes: usize,
    skipped_empty_icao24: u64,
)
    requires
        watch.polls == 0,
        watch.report.live_polls == 0,
        n <= u32::MAX,
    ensures
        ({
            let after = after_polls(watch, n, fleet_hexes, skipped_empty_icao24);
            &&& watch.max_polls matches Some(m) ==> (after.goes_on() <==> n < m)
            &&& watch.max_polls is None ==> after.goes_on()
            &&& after.polls == n && after.report.live_polls == n
            &&& after.max_polls == watch.max_polls && after.remaining == watch.remaining
            &&& n > 0 ==> after.report.fleet_hexes == fleet_hexes
                && after.report.skipped_empty_icao24 == skipped_empty_icao24
        }),
    decreases n,
{
    if n > 0 {
        law_watch_makes_its_polls(watch, (n - 1) as nat, fleet_hexes, skipped_empty_icao24);
    }
}

/// What a poll cost: the credits that went, where both counts are known and none came back; the
/// estimate in every other case.
pub proof fn law_poll_cost(before: Option<u32>, after: Option<u32>, estimated: u32)
    ensures
        match (before, after) {
            (Some(b), Some(a)) => (a <= b ==> a + poll_cost(before, after, estimated) == b) && (a > b
                ==> poll_cost(before, after, estimated) == estimated),
            _ => poll_cost(before, after, estimated) == estimated,
        },
{
}

/// A watch waits as long as the service says, and never less than a second; a minute where the
/// service does not say.
pub proof fn law_wait(retry_after: Option<u64>)
    ensures
        wait_after(retry_after) >= 1,
        retry_after matches Some(s) ==> wait_after(retry_after) >= s && (s >= 1 ==> wait_after(
            retry_after,
        ) == s),
        retry_after is None ==> wait_after(retry_after) == 60,
{
}

/// After a poll every aircraft that it found is seen on its day, under its address without white
/// space around it and in lower case; one that was seen before on that day keeps its time; and no
/// other aircraft and no other day is touched.
pub proof fn law_all_found_are_seen(
    journal: JournalView,
    hexes: Seq<String>,
    day: UtcDay,
    now: Seq<char>,
    hex: Seq<char>,
    other: UtcDay,
)
    requires
        table::keys_unique(journal.seen),
    ensures
        ({
            let after = with_all_seen(journal, hexes, day, now);
            let found = exists|i: int|
                0 <= i < hexes.len() && text::lower(text::trim((#[trigger] hexes[i])@)) == hex;
            &&& table::keys_unique(after.seen)
            &&& table::row_of(after.seen, (hex, day)) == match table::row_of(
                journal.seen,
                (hex, day),
            ) {
                Some(t) => Some(t),
                None => if found {
                    Some(now)
                } else {
                    None
                },
            }
            &&& other != day ==> table::row_of(after.seen, (hex, other)) == table::row_of(
                journal.seen,
                (hex, other),
            )
        }),
    decreases hexes.len(),
{
    if hexes.len() > 0 {
        let front = hexes.drop_last();
        law_all_found_are_seen(journal, front, day, now, hex, other);
        let mid = with_all_seen(journal, front, day, now);
        let h = text::lower(text::trim(hexes.last()@));
        let after = with_all_seen(journal, hexes, day, now);
        assert(hexes[hexes.len() - 1] == hexes.last());
        if !table::has_key(mid.seen, (h, day)) {
            table::law_with_row(mid.seen, (h, day), now);
            assert(after.seen == table::with_row(mid.seen, (h, day), now));
        }
        let found = exists|i: int|
            0 <= i < hexes.len() && text::lower(text::trim((#[trigger] hexes[i])@)) == hex;
        let found_before = exists|i: int|
            0 <= i < front.len() && text::lower(text::trim((#[trigger] front[i])@)) == hex;
        assert(found <==> found_before || h == hex) by {
            if found_before {
                let i = choose|i: int|
                    0 <= i < front.len() && text::lower(text::trim((#[trigger] front[i])@)) == hex;
                assert(hexes[i] == front[i]);
            }
            if found {
                let i = choose|i: int|
                    0 <= i < hexes.len() && text::lower(text::trim((#[trigger] hexes[i])@)) == hex;
                if i < front.len() {
                    assert(front[i] == hexes[i]);
                }
            }
        }
    }
}

/// A watch remembers the credits that a poll left, where the poll succeeded, and nothing else of what
/// it hears; and what it says of a failure ends with the error.
pub proof fn law_watch_remembers_credits(
    watch: WatchView,
    outcome: OpenskyOutcome<Vec<String>>,
    error: Seq<char>,
)
    ensures
        watch.heard(outcome).remaining == match outcome {
            OpenskyOutcome::Success { credit, .. } => credit.remaining,
            _ => watch.remaining,
        },
        watch.heard(outcome).polls == watch.polls,
        watch.heard(outcome).max_polls == watch.max_polls,
        watch.heard(outcome).report == watch.report,
        failure_told(error) == "opensky states failed (HTTP does not advance cursor): "@ + error,
{
}

} // verus!
