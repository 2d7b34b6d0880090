//! The fleet slice of the tail-to-ticker map: small fleets of issuers outside aviation.

use crate::text;
use vstd::prelude::*;

verus! {

/// The largest published fleet in the slice.
pub const MAX_FLEET_SIZE: i64 = 6;

/// One row of `mappings_current` as it is stored: any column may be null.
#[derive(Debug)]
pub struct MappingRow {
    pub n_number: Option<String>,
    pub icao24: Option<String>,
    pub ticker: Option<String>,
    pub cik: Option<String>,
    pub company_name: Option<String>,
    pub make: Option<String>,
    pub model: Option<String>,
    pub registrant_name: Option<String>,
    pub match_method: Option<String>,
    pub aviation_issuer: Option<i64>,
    pub fleet_size: Option<i64>,
    pub as_of_date: Option<String>,
}

/// One published mapping row of the fleet slice; a row with an empty `icao24` is counted and
/// dropped.
#[derive(Debug)]
pub struct FleetRow {
    pub n_number: String,
    pub icao24: String,
    pub ticker: String,
    pub cik: Option<String>,
    pub company_name: Option<String>,
    pub make: Option<String>,
    pub model: Option<String>,
    pub registrant_name: Option<String>,
    pub match_method: Option<String>,
    pub aviation_issuer: i64,
    pub fleet_size: i64,
    pub as_of_date: Option<String>,
}

#[derive(Debug)]
pub struct FleetQuery {
    pub rows: Vec<FleetRow>,
    /// Slice rows whose `icao24` was null or empty after trim.
    pub skipped_empty_icao24: u64,
    /// The latest `as_of_date` of the slice.
    pub snapshot_as_of: String,
}

/// A slice row lacks a column that every fleet row has.
#[derive(Debug, Clone, Copy, PartialEq, Eq, Structural)]
pub enum FleetError {
    NoNNumber,
    NoTicker,
}

impl Clone for FleetRow {
    fn clone(&self) -> (r: Self)
        ensures
            r == *self,
    {
        FleetRow {
            n_number: self.n_number.clone(),
            icao24: self.icao24.clone(),
            ticker: self.ticker.clone(),
            cik: text::clone_text(&self.cik),
            company_name: text::clone_text(&self.company_name),
            make: text::clone_text(&self.make),
            model: text::clone_text(&self.model),
            registrant_name: text::clone_text(&self.registrant_name),
            match_method: text::clone_text(&self.match_method),
            aviation_issuer: self.aviation_issuer,
            fleet_size: self.fleet_size,
            as_of_date: text::clone_text(&self.as_of_date),
        }
    }
}

impl MappingRow {
    /// Not an aviation issuer, and a published fleet of one to six tails.
    pub open spec fn in_slice(self) -> bool {
        &&& self.aviation_issuer == Some(0i64)
        &&& self.fleet_size matches Some(n) && 1 <= n <= MAX_FLEET_SIZE
    }

    /// The hex of the row, trimmed and in lower case; none where that leaves nothing.
    pub open spec fn hex(self) -> Option<Seq<char>> {
        match self.icao24 {
            Some(s) if text::trim(s@).len() > 0 => Some(text::lower(text::trim(s@))),
            _ => None,
        }
    }

    /// A row of the slice that becomes a fleet row.
    pub open spec fn kept(self) -> bool {
        self.in_slice() && self.hex() is Some
    }

    /// A row of the slice that is counted and dropped.
    pub open spec fn dropped(self) -> bool {
        self.in_slice() && self.hex() is None
    }

    /// A row of the slice that cannot be read.
    pub open spec fn broken(self) -> bool {
        self.in_slice() && (self.n_number is None || self.ticker is None)
    }

    fn is_in_slice(&self) -> (r: bool)
        ensures
            r == self.in_slice(),
    {
        match (self.aviation_issuer, self.fleet_size) {
            (Some(a), Some(n)) => a == 0 && 1 <= n && n <= MAX_FLEET_SIZE,
            _ => false,
        }
    }

    fn clean_hex(&self) -> (r: Option<String>)
        ensures
            r is Some <==> self.hex() is Some,
            r matches Some(h) ==> Some(h@) == self.hex(),
    {
        match &self.icao24 {
            Some(s) => {
                let t = text::trimmed(s.as_str());
                if t.as_str().is_empty() {
                    None
                } else {
                    Some(text::to_lower(t.as_str()))
                }
            },
            None => None,
        }
    }
}

impl FleetRow {
    /// The fleet row that a slice row becomes: its hex cleaned, every other column as it is.
    pub open spec fn reads(self, raw: MappingRow) -> bool {
        &&& raw.n_number == Some(self.n_number)
        &&& raw.hex() == Some(self.icao24@)
        &&& raw.ticker == Some(self.ticker)
        &&& self.cik == raw.cik
        &&& self.company_name == raw.company_name
        &&& self.make == raw.make
        &&& self.model == raw.model
        &&& self.registrant_name == raw.registrant_name
        &&& self.match_method == raw.match_method
        &&& raw.aviation_issuer == Some(self.aviation_issuer)
        &&& raw.fleet_size == Some(self.fleet_size)
        &&& self.as_of_date == raw.as_of_date
    }
}

/// `t` is a date of the slice and no date of the slice comes after it.
pub open spec fn latest_as_of(raws: Seq<MappingRow>, t: Seq<char>) -> bool {
    &&& exists|i: int|
        0 <= i < raws.len() && #[trigger] raws[i].in_slice() && raws[i].as_of_date is Some
            && raws[i].as_of_date->0@ == t
    &&& forall|i: int|
        0 <= i < raws.len() && #[trigger] raws[i].in_slice() && raws[i].as_of_date is Some
            ==> !text::text_lt(t, raws[i].as_of_date->0@)
}

/// Whether some row of the slice carries a date.
pub open spec fn any_as_of(raws: Seq<MappingRow>) -> bool {
    exists|i: int|
        0 <= i < raws.len() && #[trigger] raws[i].in_slice() && raws[i].as_of_date is Some
}

/// The rows of `raws` that become fleet rows, in order.
pub open spec fn kept_rows(raws: Seq<MappingRow>) -> Seq<MappingRow> {
    raws.filter(|r: MappingRow| r.kept())
}

/// The rows of `raws` that are counted and dropped, in order.
pub open spec fn dropped_rows(raws: Seq<MappingRow>) -> Seq<MappingRow> {
    raws.filter(|r: MappingRow| r.dropped())
}

fn fleet_row(raw: &MappingRow, hex: String) -> (r: Result<FleetRow, FleetError>)
    requires
        raw.in_slice(),
        raw.hex() == Some(hex@),
    ensures
        r is Err <==> raw.broken(),
        r matches Ok(row) ==> row.reads(*raw),
        r matches Err(e) ==> e == missing_column(*raw),
{
    match (&raw.n_number, &raw.ticker) {
        (Some(n), Some(t)) => Ok(
            FleetRow {
                n_number: n.clone(),
                icao24: hex,
                ticker: t.clone(),
                cik: text::clone_text(&raw.cik),
                company_name: text::clone_text(&raw.company_name),
                make: text::clone_text(&raw.make),
                model: text::clone_text(&raw.model),
                registrant_name: text::clone_text(&raw.registrant_name),
                match_method: text::clone_text(&raw.match_method),
                aviation_issuer: match raw.aviation_issuer {
                    Some(a) => a,
                    None => 0,
                },
                fleet_size: match raw.fleet_size {
                    Some(n) => n,
                    None => 0,
                },
                as_of_date: text::clone_text(&raw.as_of_date),
            },
        ),
        (None, _) => Err(FleetError::NoNNumber),
        (_, None) => Err(FleetError::NoTicker),
    }
}

/// The column that a broken row lacks; the N-number is read first.
pub open spec fn missing_column(raw: MappingRow) -> FleetError {
    if raw.n_number is None {
        FleetError::NoNNumber
    } else {
        FleetError::NoTicker
    }
}

/// The position of the first broken row.
pub open spec fn first_broken(raws: Seq<MappingRow>, i: int) -> bool {
    &&& 0 <= i < raws.len()
    &&& raws[i].broken()
    &&& forall|j: int| 0 <= j < i ==> !(#[trigger] raws[j]).broken()
}

/// Some row of the slice cannot be read.
pub open spec fn any_broken(raws: Seq<MappingRow>) -> bool {
    exists|i: int| 0 <= i < raws.len() && (#[trigger] raws[i]).broken()
}

/// Every fleet row is what its row of the map becomes.
pub open spec fn all_read(rows: Seq<FleetRow>, raws: Seq<MappingRow>) -> bool {
    rows.len() == raws.len() && forall|i: int|
        0 <= i < rows.len() ==> (#[trigger] rows[i]).reads(raws[i])
}

proof fn lemma_filter_step<A>(s: Seq<A>, p: spec_fn(A) -> bool, i: int)
    requires
        0 <= i < s.len(),
    ensures
        p(s[i]) ==> s.take(i + 1).filter(p) == s.take(i).filter(p).push(s[i]),
        !p(s[i]) ==> s.take(i + 1).filter(p) == s.take(i).filter(p),
{
    reveal(Seq::filter);
    assert(s.take(i + 1).drop_last() == s.take(i));
    assert(s.take(i + 1).last() == s[i]);
}

/// The later of the latest date so far and the date of one more row.
fn later_as_of(best: Option<String>, date: &Option<String>) -> (r: Option<String>)
    ensures
        r == (match (best, *date) {
            (Some(b), Some(d)) => if text::text_lt(b@, d@) {
                Some(d)
            } else {
                Some(b)
            },
            (Some(b), None) => Some(b),
            (None, d) => d,
        }),
{
    match date {
        None => best,
        Some(d) => match best {
            None => Some(d.clone()),
            Some(b) => if text::comes_before(b.as_str(), d.as_str()) {
                Some(d.clone())
            } else {
                Some(b)
            },
        },
    }
}

/// The fleet slice of the mapping rows, in their order. `today` stands for the snapshot date where
/// no row of the slice carries one. A slice row without an N-number or a ticker is an error.
pub fn query_fleet(raws: &Vec<MappingRow>, today: &str) -> (r: Result<FleetQuery, FleetError>)
    ensures
        r is Err <==> exists|i: int| first_broken(raws@, i),
        r matches Err(e) ==> exists|i: int|
            #[trigger] first_broken(raws@, i) && e == missing_column(raws@[i]),
        r matches Ok(q) ==> {
            &&& q.rows@.len() == kept_rows(raws@).len()
            &&& forall|i: int|
                0 <= i < q.rows@.len() ==> (#[trigger] q.rows@[i]).reads(kept_rows(raws@)[i])
            &&& q.skipped_empty_icao24 == dropped_rows(raws@).len()
            &&& any_as_of(raws@) ==> latest_as_of(raws@, q.snapshot_as_of@)
            &&& !any_as_of(raws@) ==> q.snapshot_as_of@ == today@
        },
        r is Err <==> any_broken(raws@),
        r matches Ok(q) ==> all_read(q.rows@, kept_rows(raws@)),
{
    let mut rows: Vec<FleetRow> = Vec::new();
    let mut skipped: u64 = 0;
    let mut best: Option<String> = None;
    let mut i: usize = 0;
    let ghost kept = |r: MappingRow| r.kept();
    let ghost dropped = |r: MappingRow| r.dropped();
    proof {
        reveal(Seq::filter);
        assert(raws@.take(0).filter(kept).len() == 0);
        assert(raws@.take(0).filter(dropped).len() == 0);
    }
    while i < raws.len()
        invariant
            0 <= i <= raws@.len(),
            kept == (|r: MappingRow| r.kept()),
            dropped == (|r: MappingRow| r.dropped()),
            forall|j: int| 0 <= j < i ==> !(#[trigger] raws@[j]).broken(),
            rows@.len() == raws@.take(i as int).filter(kept).len(),
            forall|j: int|
                0 <= j < rows@.len() ==> (#[trigger] rows@[j]).reads(
                    raws@.take(i as int).filter(kept)[j],
                ),
            skipped == raws@.take(i as int).filter(dropped).len(),
            skipped <= i,
            match best {
                Some(b) => latest_as_of(raws@.take(i as int), b@),
                None => !any_as_of(raws@.take(i as int)),
            },
        decreases raws@.len() - i,
    {
        let raw = &raws[i];
        proof {
            lemma_filter_step(raws@, kept, i as int);
            lemma_filter_step(raws@, dropped, i as int);
        }
        let ghost before = raws@.take(i as int);
        let ghost after = raws@.take(i + 1);
        proof {
            assert(after == before.push(*raw));
        }
        if raw.is_in_slice() {
            if raw.n_number.is_none() {
                proof {
                    assert(first_broken(raws@, i as int));
                }
                return Err(FleetError::NoNNumber);
            }
            if raw.ticker.is_none() {
                proof {
                    assert(first_broken(raws@, i as int));
                }
                return Err(FleetError::NoTicker);
            }
            let ghost old_best = best;
            best = later_as_of(best, &raw.as_of_date);
            proof {
                lemma_latest_step(before, *raw, old_best, best);
            }
            match raw.clean_hex() {
                None => {
                    skipped += 1;
                },
                Some(hex) => {
                    match fleet_row(raw, hex) {
                        Ok(row) => rows.push(row),
                        Err(e) => {
                            return Err(e);
                        },
                    }
                },
            }
        } else {
            proof {
                lemma_latest_skip(before, *raw, best);
            }
        }
        i += 1;
    }
    proof {
        assert(raws@.take(i as int) == raws@);
    }
    let snapshot_as_of = match best {
        Some(b) => b,
        None => today.to_owned(),
    };
    Ok(FleetQuery { rows, skipped_empty_icao24: skipped, snapshot_as_of })
}

proof fn lemma_latest_step(
    before: Seq<MappingRow>,
    raw: MappingRow,
    old_best: Option<String>,
    best: Option<String>,
)
    requires
        raw.in_slice(),
        match old_best {
            Some(b) => latest_as_of(before, b@),
            None => !any_as_of(before),
        },
        best == (match (old_best, raw.as_of_date) {
            (Some(b), Some(d)) => if text::text_lt(b@, d@) {
                Some(d)
            } else {
                Some(b)
            },
            (Some(b), None) => Some(b),
            (None, d) => d,
        }),
    ensures
        match best {
            Some(b) => latest_as_of(before.push(raw), b@),
            None => !any_as_of(before.push(raw)),
        },
{
    let after = before.push(raw);
    assert(after[before.len() as int] == raw);
    assert(forall|j: int| 0 <= j < before.len() ==> after[j] == before[j]);
    if let Some(b) = best {
        if let Some(d) = raw.as_of_date {
            text::lemma_text_lt_irreflexive(d@);
        }
        if old_best is Some && old_best->0 == b {
            let k = choose|k: int|
                0 <= k < before.len() && #[trigger] before[k].in_slice() && before[k].as_of_date
                    is Some && before[k].as_of_date->0@ == b@;
            assert(after[k].in_slice());
        } else {
            assert(after[before.len() as int].in_slice());
        }
        assert forall|j: int|
            0 <= j < after.len() && #[trigger] after[j].in_slice() && after[j].as_of_date
                is Some implies !text::text_lt(b@, after[j].as_of_date->0@) by {
            if j < before.len() {
                assert(before[j].in_slice());
                let x = before[j].as_of_date->0@;
                if text::text_lt(b@, x) {
                    if old_best->0 != b {
                        text::lemma_text_lt_transitive(old_best->0@, b@, x);
                    }
                }
            }
        }
    } else {
        assert forall|j: int| 0 <= j < after.len() && #[trigger] after[j].in_slice() implies !(
        after[j].as_of_date is Some) by {
            if j < before.len() {
                assert(before[j].in_slice());
            }
        }
    }
}

proof fn lemma_latest_skip(before: Seq<MappingRow>, raw: MappingRow, best: Option<String>)
    requires
        !raw.in_slice(),
        match best {
            Some(b) => latest_as_of(before, b@),
            None => !any_as_of(before),
        },
    ensures
        match best {
            Some(b) => latest_as_of(before.push(raw), b@),
            None => !any_as_of(before.push(raw)),
        },
{
    let after = before.push(raw);
    assert(forall|j: int| 0 <= j < before.len() ==> after[j] == before[j]);
    if let Some(b) = best {
        let k = choose|k: int|
            0 <= k < before.len() && #[trigger] before[k].in_slice() && before[k].as_of_date is Some
                && before[k].as_of_date->0@ == b@;
        assert(after[k].in_slice());
        assert forall|j: int|
            0 <= j < after.len() && #[trigger] after[j].in_slice() && after[j].as_of_date
                is Some implies !text::text_lt(b@, after[j].as_of_date->0@) by {
            assert(before[j].in_slice());
        }
    } else {
        assert forall|j: int| 0 <= j < after.len() && #[trigger] after[j].in_slice() implies !(
        after[j].as_of_date is Some) by {
            assert(before[j].in_slice());
        }
    }
}

/// The first row whose ticker is WMT, in whatever case.
pub open spec fn first_wmt(rows: Seq<FleetRow>, from: int) -> Option<int>
    decreases rows.len() - from,
{
    if from >= rows.len() || from < 0 {
        None
    } else if text::lower(rows[from].ticker@) == text::lower("WMT"@) {
        Some(from)
    } else {
        first_wmt(rows, from + 1)
    }
}

/// The aircraft to probe where none is named: the first of ticker WMT, else the first of the fleet,
/// else one that is known to fly.
pub open spec fn probe_hex(rows: Seq<FleetRow>) -> Seq<char> {
    match first_wmt(rows, 0) {
        Some(i) => rows[i].icao24@,
        None => if rows.len() > 0 {
            rows[0].icao24@
        } else {
            "a004b4"@
        },
    }
}

/// The aircraft to probe where none is named.
pub fn pick_probe_hex(rows: &Vec<FleetRow>) -> (r: String)
    ensures
        r@ == probe_hex(rows@),
{
    let mut i: usize = 0;
    while i < rows.len()
        invariant
            0 <= i <= rows@.len(),
            first_wmt(rows@, 0) == first_wmt(rows@, i as int),
        decreases rows@.len() - i,
    {
        if text::same_ignoring_case(rows[i].ticker.as_str(), "WMT") {
            return rows[i].icao24.clone();
        }
        i += 1;
    }
    if rows.len() > 0 {
        rows[0].icao24.clone()
    } else {
        "a004b4".to_owned()
    }
}

/// What the fleet slice takes of the map: a row whose issuer is known not to be of aviation and whose
/// fleet is known to hold 1 to 6 tails; of these it keeps those with an address, and counts and drops
/// those whose address is missing or white space alone.
pub proof fn law_slice_by_columns(raw: MappingRow)
    ensures
        raw.in_slice() <==> (raw.aviation_issuer matches Some(a) && a == 0) && (
        raw.fleet_size matches Some(n) && 1 <= n <= 6),
        raw.kept() <==> raw.in_slice() && (raw.icao24 matches Some(s) && exists|i: int|
            0 <= i < s@.len() && !text::is_white(#[trigger] s@[i])),
        raw.dropped() <==> raw.in_slice() && (raw.icao24 matches Some(s) ==> forall|i: int|
            0 <= i < s@.len() ==> text::is_white(#[trigger] s@[i])),
        raw.broken() <==> raw.in_slice() && (raw.n_number is None || raw.ticker is None),
        raw.n_number is None ==> missing_column(raw) is NoNNumber,
        raw.n_number is Some ==> missing_column(raw) is NoTicker,
{
    if let Some(s) = raw.icao24 {
        text::law_blank_counts_as_missing(s@);
    }
}

/// The columns of a fleet row are those of its row in the map, each under its own name; the address
/// stands without the white space around it and in lower case.
pub proof fn law_fleet_row_columns(row: FleetRow, raw: MappingRow)
    requires
        row.reads(raw),
    ensures
        raw.icao24 matches Some(s) && row.icao24@ == text::lower(text::trim(s@)),
        row.icao24@.len() > 0,
        raw.n_number == Some(row.n_number),
        raw.ticker == Some(row.ticker),
        raw.cik == row.cik,
        raw.company_name == row.company_name,
        raw.make == row.make,
        raw.model == row.model,
        raw.registrant_name == row.registrant_name,
        raw.match_method == row.match_method,
        raw.aviation_issuer == Some(row.aviation_issuer),
        raw.fleet_size == Some(row.fleet_size),
        raw.as_of_date == row.as_of_date,
{
}

/// One more row of the map: it is kept behind the others, counted as dropped, or passed over, and it
/// is never both kept and dropped.
pub proof fn law_one_more_mapping_row(raws: Seq<MappingRow>, raw: MappingRow)
    ensures
        kept_rows(Seq::empty()).len() == 0 && dropped_rows(Seq::empty()).len() == 0,
        !(raw.kept() && raw.dropped()),
        raw.in_slice() <==> raw.kept() || raw.dropped(),
        kept_rows(raws.push(raw)) == (if raw.kept() {
            kept_rows(raws).push(raw)
        } else {
            kept_rows(raws)
        }),
        dropped_rows(raws.push(raw)).len() == dropped_rows(raws).len() + (if raw.dropped() {
            1int
        } else {
            0
        }),
{
    reveal(Seq::filter);
    assert(raws.push(raw).drop_last() =~= raws);
}

/// The aircraft that is probed: that of the first row whose ticker is WMT in whatever case; without
/// one that of the first row; and without rows a fixed one.
pub proof fn law_probed_aircraft(rows: Seq<FleetRow>, k: int)
    ensures
        0 <= k < rows.len() && text::upper(rows[k].ticker@) == "WMT"@ && (forall|i: int|
            0 <= i < k ==> text::upper((#[trigger] rows[i]).ticker@) != "WMT"@) ==> probe_hex(rows)
            == rows[k].icao24@,
        rows.len() > 0 && (forall|i: int|
            0 <= i < rows.len() ==> text::upper((#[trigger] rows[i]).ticker@) != "WMT"@)
            ==> probe_hex(rows) == rows[0].icao24@,
        rows.len() == 0 ==> probe_hex(rows) == "a004b4"@,
{
    lemma_first_wmt(rows, 0);
}

proof fn lemma_first_wmt(rows: Seq<FleetRow>, from: int)
    requires
        0 <= from <= rows.len(),
    ensures
        first_wmt(rows, from) matches Some(k) ==> from <= k < rows.len() && text::upper(
            rows[k].ticker@,
        ) == "WMT"@ && forall|i: int|
            from <= i < k ==> text::upper((#[trigger] rows[i]).ticker@) != "WMT"@,
        first_wmt(rows, from) is None ==> forall|i: int|
            from <= i < rows.len() ==> text::upper((#[trigger] rows[i]).ticker@) != "WMT"@,
    decreases rows.len() - from,
{
    if from < rows.len() {
        lemma_first_wmt(rows, from + 1);
        let t = rows[from].ticker@;
        reveal_strlit("WMT");
        text::law_case_of_letters(t);
        text::law_case_of_letters("WMT"@);
        assert(text::upper("WMT"@) =~= "WMT"@);
        if text::upper(t) == "WMT"@ {
            assert(text::lower(text::upper(t)) == text::lower(t));
        }
        if text::lower(t) == text::lower("WMT"@) {
            assert(text::upper(text::lower(t)) == text::upper(text::lower("WMT"@)));
        }
    }
}

/// The fleet of a map: the rows that are kept of it, in order, as many skipped as are dropped, and
/// today for a date where no row of the slice carries one. It is an error exactly where some row of
/// the slice lacks its registration or its ticker.
pub proof fn law_query_fleet(
    raws: Vec<MappingRow>,
    today: &str,
    r: Result<FleetQuery, FleetError>,
)
    requires
        call_ensures(query_fleet, (&raws, today), r),
    ensures
        r is Err <==> exists|i: int|
            0 <= i < raws@.len() && (#[trigger] raws@[i]).in_slice() && (raws@[i].n_number is None
                || raws@[i].ticker is None),
        r matches Ok(q) ==> {
            &&& q.rows@.len() == kept_rows(raws@).len()
            &&& forall|i: int|
                0 <= i < q.rows@.len() ==> (#[trigger] q.rows@[i]).reads(kept_rows(raws@)[i])
            &&& q.skipped_empty_icao24 == dropped_rows(raws@).len()
            &&& any_as_of(raws@) ==> latest_as_of(raws@, q.snapshot_as_of@)
            &&& !any_as_of(raws@) ==> q.snapshot_as_of@ == today@
        },
{
    if any_broken(raws@) {
        let i = choose|i: int| 0 <= i < raws@.len() && (#[trigger] raws@[i]).broken();
        assert(raws@[i].in_slice());
    }
    if exists|i: int|
        0 <= i < raws@.len() && (#[trigger] raws@[i]).in_slice() && (raws@[i].n_number is None
            || raws@[i].ticker is None) {
        let i = choose|i: int|
            0 <= i < raws@.len() && (#[trigger] raws@[i]).in_slice() && (raws@[i].n_number is None
                || raws@[i].ticker is None);
        assert(raws@[i].broken());
    }
}

/// The date of the slice: one that a row of it carries, and than which none that a row of it carries
/// is later.
pub proof fn law_latest_date(raws: Seq<MappingRow>, t: Seq<char>, i: int)
    requires
        latest_as_of(raws, t),
        0 <= i < raws.len(),
        raws[i].in_slice(),
    ensures
        raws[i].as_of_date matches Some(d) ==> !text::text_lt(t, d@),
        exists|k: int|
            0 <= k < raws.len() && (#[trigger] raws[k]).in_slice() && (
            raws[k].as_of_date matches Some(d) && d@ == t),
{
    assert(raws[i].in_slice());
    let k = choose|k: int|
        0 <= k < raws.len() && #[trigger] raws[k].in_slice() && raws[k].as_of_date is Some
            && raws[k].as_of_date->0@ == t;
    assert(raws[k].in_slice());
}

/// The aircraft that is probed is that of the first row of WMT, in whatever case; else of the first.
pub proof fn law_pick_probe_hex(rows: Vec<FleetRow>, r: String, k: int)
    requires
        call_ensures(pick_probe_hex, (&rows,), r),
        0 <= k < rows@.len(),
        text::upper(rows@[k].ticker@) == "WMT"@,
        forall|i: int| 0 <= i < k ==> text::upper((#[trigger] rows@[i]).ticker@) != "WMT"@,
    ensures
        r@ == rows@[k].icao24@,
{
    law_probed_aircraft(rows@, k);
}

} // verus!
