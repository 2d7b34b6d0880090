//! UTC days and instants as plain numbers.
//!
//! A day is its number counted from 1970-01-01, an instant the seconds since that day began.
//! Text forms come from the `chrono` crate.

use crate::text;
use chrono::TimeZone;
use vstd::prelude::*;

verus! {

/// -262143-01-01, the first day that `chrono` can hold.
pub const FIRST_DAY: i32 = -96_465_292;

/// 262142-12-31, the last day that `chrono` can hold.
pub const LAST_DAY: i32 = 95_026_236;

pub const DAY_SECS: i64 = 86_400;

/// 0000-01-01T00:00:00Z.
pub const YEAR_ZERO: i64 = -62_167_219_200;

/// 9999-12-31T23:59:59Z.
pub const YEAR_9999_END: i64 = 253_402_300_799;

/// A UTC calendar day by its number, 1970-01-01 being day 0.
#[derive(Debug, Clone, Copy, PartialEq, Eq, Structural)]
pub struct UtcDay {
    pub number: i32,
}

/// A UTC instant: whole seconds since 1970-01-01T00:00:00Z, and nanoseconds beyond them.
#[derive(Debug, Clone, Copy, PartialEq, Eq, Structural)]
pub struct UtcInstant {
    pub seconds: i64,
    pub nanos: u32,
}

/// Whether an instant lies on a day that `chrono` can hold.
pub open spec fn instant_in_range(seconds: i64) -> bool {
    FIRST_DAY * DAY_SECS <= seconds < (LAST_DAY + 1) * DAY_SECS
}

/// Whether an instant lies in a year of four digits.
pub open spec fn four_digit_year(seconds: int) -> bool {
    YEAR_ZERO <= seconds <= YEAR_9999_END
}

/// The number of the day that an instant lies on.
pub open spec fn day_number(seconds: i64) -> i32 {
    (seconds as int / DAY_SECS as int) as i32
}

/// What `NaiveDate`'s `Display` prints for the day of this number.
pub uninterp spec fn date_text(number: i32) -> Seq<char>;

/// What `NaiveDate::format` prints for the day of this number with a format.
pub uninterp spec fn date_format(number: i32, format: Seq<char>) -> Seq<char>;

/// The number of the day that `NaiveDate::parse_from_str` reads with a format.
pub uninterp spec fn date_parse(text: Seq<char>, format: Seq<char>) -> Option<i32>;

/// What `DateTime::<Utc>::format` prints for an instant with a format.
pub uninterp spec fn instant_format(seconds: i64, format: Seq<char>) -> Seq<char>;

/// The whole seconds of the instant that `DateTime::parse_from_rfc3339` reads.
pub uninterp spec fn rfc3339_parse(text: Seq<char>) -> Option<i64>;

/// The whole seconds of the UTC instant that `NaiveDateTime::parse_from_str` reads with a format.
pub uninterp spec fn instant_parse(text: Seq<char>, format: Seq<char>) -> Option<i64>;

/// `Display` of `chrono::NaiveDate` on the day of this number: a day within the bounds of the
/// crate always has a text, and `parse_from_str` with `%Y-%m-%d` reads it back as the same day.
/// With years of four digits the text is zero-padded, so that texts stand in the order of time: the
/// text with `T00:00:00Z` behind it comes after the texts of the instants before the day and of no
/// others.
#[verifier::external_body]
fn chrono_date_text(number: i32) -> (r: String)
    requires
        FIRST_DAY <= number <= LAST_DAY,
    ensures
        r@ == date_text(number),
        date_parse(r@, "%Y-%m-%d"@) == Some(number),
        four_digit_year(number * DAY_SECS) ==> forall|t: i64|
            four_digit_year(t as int) ==> (text::text_lt(
                #[trigger] instant_format(t, "%Y-%m-%dT%H:%M:%SZ"@),
                r@ + "T00:00:00Z"@,
            ) <==> t < number * DAY_SECS),
{
    chrono::NaiveDate::from_epoch_days(number).unwrap().to_string()
}

/// `chrono::NaiveDate::format` on the day of this number, with a format of one field: the year,
/// the month or the day of the month.
#[verifier::external_body]
fn chrono_date_format(number: i32, format: &str) -> (r: String)
    requires
        FIRST_DAY <= number <= LAST_DAY,
        format@ == "%Y"@ || format@ == "%m"@ || format@ == "%d"@,
    ensures
        r@ == date_format(number, format@),
{
    chrono::NaiveDate::from_epoch_days(number).unwrap().format(format).to_string()
}

/// `chrono::NaiveDate::parse_from_str`: the day it reads, by its number, which is one that the
/// crate can hold; none where it returns an error.
#[verifier::external_body]
fn chrono_date_parse(text: &str, format: &str) -> (r: Option<i32>)
    ensures
        r == date_parse(text@, format@),
        r matches Some(n) ==> FIRST_DAY <= n <= LAST_DAY,
{
    chrono::NaiveDate::parse_from_str(text, format).ok().map(|d| d.to_epoch_days())
}

/// `chrono::Utc.timestamp_opt` at a whole second, and the `format` of what it gives: there is an
/// instant exactly within the days that the crate can hold. With years of four digits, the text
/// in the format with a `T` and a `Z` is one that `parse_from_rfc3339` reads back as the same
/// second; it has twenty characters, begins with the text of its day, and stands to the texts of
/// other instants as the instants stand in time.
#[verifier::external_body]
fn chrono_instant_format(seconds: i64, format: &str) -> (r: Option<String>)
    requires
        format@ == "%Y-%m-%dT%H:%M:%SZ"@,
    ensures
        r is Some <==> instant_in_range(seconds),
        r matches Some(t) ==> t@ == instant_format(seconds, format@),
        r matches Some(t) ==> (four_digit_year(seconds as int) ==> {
            &&& rfc3339_parse(t@) == Some(seconds)
            &&& t@.len() == 20
            &&& t@.take(10) == date_text(day_number(seconds))
            &&& forall|other: i64|
                four_digit_year(other as int) ==> {
                    let text = #[trigger] instant_format(other, format@);
                    &&& text::text_lt(t@, text) <==> seconds < other
                    &&& text::text_lt(text, t@) <==> other < seconds
                }
        }),
{
    chrono::Utc.timestamp_opt(seconds, 0).single().map(|d| d.format(format).to_string())
}

/// `chrono::DateTime::parse_from_rfc3339`: the whole seconds of the instant it reads; none where
/// it returns an error. It reads what `format` prints of an instant with a year of four digits, in
/// the format with a `T` and a `Z`, as that instant.
#[verifier::external_body]
fn chrono_rfc3339(text: &str) -> (r: Option<i64>)
    ensures
        r == rfc3339_parse(text@),
        forall|t: i64|
            four_digit_year(t as int) && text@ == #[trigger] instant_format(
                t,
                "%Y-%m-%dT%H:%M:%SZ"@,
            ) ==> r == Some(t),
{
    chrono::DateTime::parse_from_rfc3339(text).ok().map(|d| d.timestamp())
}

/// `chrono::NaiveDateTime::parse_from_str`: the seconds of what it reads, taken as UTC; none
/// where it returns an error.
#[verifier::external_body]
fn chrono_instant_parse(text: &str, format: &str) -> (r: Option<i64>)
    ensures
        r == instant_parse(text@, format@),
{
    chrono::NaiveDateTime::parse_from_str(text, format).ok().map(|d| d.and_utc().timestamp())
}

impl UtcDay {
    /// Whether `chrono` can hold the day.
    pub open spec fn valid(self) -> bool {
        FIRST_DAY <= self.number <= LAST_DAY
    }

    /// The seconds at which the day begins.
    pub open spec fn start(self) -> int {
        self.number * DAY_SECS
    }

    /// `YYYY-MM-DD`.
    pub open spec fn text(self) -> Seq<char> {
        date_text(self.number)
    }

    /// `YYYY-MM-DD`.
    pub fn to_text(self) -> (r: String)
        requires
            self.valid(),
        ensures
            r@ == self.text(),
            date_parse(self.text(), "%Y-%m-%d"@) == Some(self.number),
            four_digit_year(self.start()) ==> forall|t: i64|
                four_digit_year(t as int) ==> (text::text_lt(
                    #[trigger] iso_text(t),
                    self.text() + "T00:00:00Z"@,
                ) <==> t < self.start()),
    {
        chrono_date_text(self.number)
    }

    /// The year, the month and the day of the month as `chrono` prints them.
    pub fn fields(self) -> (r: (String, String, String))
        requires
            self.valid(),
        ensures
            r.0@ == date_format(self.number, "%Y"@),
            r.1@ == date_format(self.number, "%m"@),
            r.2@ == date_format(self.number, "%d"@),
    {
        (
            chrono_date_format(self.number, "%Y"),
            chrono_date_format(self.number, "%m"),
            chrono_date_format(self.number, "%d"),
        )
    }

    /// The day written as `YYYY-MM-DD`; none where `chrono` cannot read it.
    pub fn parse(text: &str) -> (r: Option<UtcDay>)
        ensures
            r is Some <==> date_parse(text@, "%Y-%m-%d"@) is Some,
            r matches Some(d) ==> Some(d.number) == date_parse(text@, "%Y-%m-%d"@) && d.valid(),
    {
        match chrono_date_parse(text, "%Y-%m-%d") {
            Some(number) => Some(UtcDay { number }),
            None => None,
        }
    }

    /// The day before; none before the first day of the calendar.
    pub fn pred_opt(self) -> (r: Option<UtcDay>)
        requires
            self.valid(),
        ensures
            r is Some <==> self.number > FIRST_DAY,
            r matches Some(d) ==> d.number == self.number - 1 && d.valid(),
    {
        if self.number > FIRST_DAY {
            Some(UtcDay { number: self.number - 1 })
        } else {
            None
        }
    }

    /// The day after; none after the last day of the calendar.
    pub fn succ_opt(self) -> (r: Option<UtcDay>)
        requires
            self.valid(),
        ensures
            r is Some <==> self.number < LAST_DAY,
            r matches Some(d) ==> d.number == self.number + 1 && d.valid(),
    {
        if self.number < LAST_DAY {
            Some(UtcDay { number: self.number + 1 })
        } else {
            None
        }
    }

    /// The day `days` days earlier; none before the first day of the calendar.
    pub fn checked_sub_days(self, days: u64) -> (r: Option<UtcDay>)
        requires
            self.valid(),
        ensures
            r is Some <==> self.number - days >= FIRST_DAY,
            r matches Some(d) ==> d.number == self.number - days && d.valid(),
    {
        let room: i64 = self.number as i64 - FIRST_DAY as i64;
        if days <= room as u64 {
            Some(UtcDay { number: (self.number as i64 - days as i64) as i32 })
        } else {
            None
        }
    }
}

/// The instant as `YYYY-MM-DDTHH:MM:SSZ`.
pub open spec fn iso_text(seconds: i64) -> Seq<char> {
    instant_format(seconds, "%Y-%m-%dT%H:%M:%SZ"@)
}

/// The instant of a text: as RFC 3339 reads it, else as UTC in the form `YYYY-MM-DDTHH:MM:SSZ`.
pub open spec fn iso_seconds(text: Seq<char>) -> Option<i64> {
    match rfc3339_parse(text) {
        Some(t) => Some(t),
        None => instant_parse(text, "%Y-%m-%dT%H:%M:%SZ"@),
    }
}

/// The instant as `YYYY-MM-DDTHH:MM:SSZ`; none where `chrono` cannot hold it. A text with a year
/// of four digits is read back by [`iso_to_unix`] as the same instant, begins with the text of its
/// day, and stands to other such texts as the instants stand in time.
pub fn unix_to_iso(seconds: i64) -> (r: Option<String>)
    ensures
        r is Some <==> instant_in_range(seconds),
        r matches Some(t) ==> t@ == iso_text(seconds),
        four_digit_year(seconds as int) ==> {
            &&& iso_seconds(iso_text(seconds)) == Some(seconds)
            &&& iso_text(seconds).len() == 20
            &&& iso_text(seconds).take(10) == date_text(day_number(seconds))
            &&& forall|other: i64|
                four_digit_year(other as int) ==> {
                    let text = #[trigger] iso_text(other);
                    &&& text::text_lt(iso_text(seconds), text) <==> seconds < other
                    &&& text::text_lt(text, iso_text(seconds)) <==> other < seconds
                }
        },
{
    chrono_instant_format(seconds, "%Y-%m-%dT%H:%M:%SZ")
}

/// The instant as `YYYY-MM-DDTHH:MM:SSZ`, to the second and with no offset.
pub fn utc_iso(seconds: i64) -> (r: String)
    requires
        instant_in_range(seconds),
    ensures
        r@ == iso_text(seconds),
{
    match unix_to_iso(seconds) {
        Some(t) => t,
        None => String::new(),
    }
}

/// The instant that a text names, in whole seconds.
pub fn iso_to_unix(text: &str) -> (r: Option<i64>)
    ensures
        r == iso_seconds(text@),
        forall|t: i64|
            four_digit_year(t as int) && text@ == #[trigger] iso_text(t) ==> r == Some(t),
{
    match chrono_rfc3339(text) {
        Some(t) => Some(t),
        None => chrono_instant_parse(text, "%Y-%m-%dT%H:%M:%SZ"),
    }
}

/// The instants that the calendar can hold: from the first second of its first day to the last of its
/// last; every day that it holds begins and ends with one.
pub proof fn law_instants_in_range(seconds: i64, day: UtcDay)
    ensures
        instant_in_range(seconds) <==> -96_465_292 * 86_400 <= seconds <= 95_026_236 * 86_400 + 86_399,
        day.valid() <==> -96_465_292 <= day.number <= 95_026_236,
        day.valid() && day.number * 86_400 <= seconds <= day.number * 86_400 + 86_399
            ==> instant_in_range(seconds) && day_number(seconds) == day.number,
        day.start() == day.number * 86_400,
{
}

/// The neighbours of a day: the one before it, the one behind it, and the one a number of days back,
/// where the calendar reaches that far.
pub proof fn law_neighbouring_days(
    day: UtcDay,
    days: u64,
    before: Option<UtcDay>,
    behind: Option<UtcDay>,
    back: Option<UtcDay>,
)
    requires
        call_ensures(UtcDay::pred_opt, (day,), before),
        call_ensures(UtcDay::succ_opt, (day,), behind),
        call_ensures(UtcDay::checked_sub_days, (day, days), back),
    ensures
        before matches Some(d) ==> d.number + 1 == day.number,
        behind matches Some(d) ==> d.number - 1 == day.number,
        back matches Some(d) ==> d.number + days == day.number,
        before is None <==> day.number <= -96_465_292,
        behind is None <==> day.number >= 95_026_236,
        back is None <==> day.number - days < -96_465_292,
{
}

/// The text of an instant is read back as it, where its year has four digits; it begins with the text
/// of its day; and later instants have later texts.
pub proof fn law_instants_as_texts(
    seconds: i64,
    other: i64,
    text: Option<String>,
    other_text: Option<String>,
    s: &str,
    read: Option<i64>,
)
    requires
        -62_167_219_200 <= seconds <= 253_402_300_799,
        -62_167_219_200 <= other <= 253_402_300_799,
        call_ensures(unix_to_iso, (seconds,), text),
        call_ensures(unix_to_iso, (other,), other_text),
        text matches Some(t) ==> t@ == s@,
        call_ensures(iso_to_unix, (s,), read),
    ensures
        text is Some && other_text is Some,
        read == Some(seconds),
        (text->0)@.len() == 20,
        (text->0)@.take(10) == date_text((seconds as int / 86_400) as i32),
        text::text_lt((text->0)@, (other_text->0)@) <==> seconds < other,
{
    assert(iso_text(other) == (other_text->0)@);
}

/// A day is written as year, month and day of the month, and read back from that as the same day; its
/// parts are these, each in its place.
pub proof fn law_days_as_texts(
    day: UtcDay,
    text: String,
    s: &str,
    read: Option<UtcDay>,
    parts: (String, String, String),
)
    requires
        call_ensures(UtcDay::to_text, (day,), text),
        call_ensures(UtcDay::parse, (s,), read),
        call_ensures(UtcDay::fields, (day,), parts),
    ensures
        text@ == date_text(day.number),
        s@ == text@ ==> read == Some(day),
        read matches Some(d) ==> date_parse(s@, "%Y-%m-%d"@) == Some(d.number),
        read is None ==> date_parse(s@, "%Y-%m-%d"@) is None,
        parts.0@ == date_format(day.number, "%Y"@),
        parts.1@ == date_format(day.number, "%m"@),
        parts.2@ == date_format(day.number, "%d"@),
{
}

/// A text is read as RFC 3339 where it is that, and else in the form of a UTC instant.
pub proof fn law_instants_are_read(text: &str, r: Option<i64>)
    requires
        call_ensures(iso_to_unix, (text,), r),
    ensures
        rfc3339_parse(text@) is Some ==> r == rfc3339_parse(text@),
        rfc3339_parse(text@) is None ==> r == instant_parse(text@, "%Y-%m-%dT%H:%M:%SZ"@),
{
}

} // verus!
