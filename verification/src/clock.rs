//! The calendar model: a date-time is the number of seconds since 1970-01-01 00:00:00 on the
//! proleptic Gregorian calendar, with no time zone; an instant is the same count in
//! milliseconds.
use chrono::{DateTime, Datelike, NaiveDateTime};
use std::fmt::Write;
use vstd::prelude::*;

verus! {

/// First second that a calendar date-time can hold (January 1 of year -262143, 00:00:00).
pub const MIN_TIMESTAMP: i64 = -8334601228800;

/// Last second that a calendar date-time can hold (December 31 of year 262142, 23:59:59).
pub const MAX_TIMESTAMP: i64 = 8210266876799;

/// First instant, in milliseconds, that a calendar date-time can hold.
pub const MIN_INSTANT: i64 = -8334601228800000;

/// Last instant, in milliseconds, that a calendar date-time can hold (23:59:59.999 on the last
/// day).
pub const MAX_INSTANT: i64 = 8210266876799999;

/// Milliseconds in a calendar day.
pub const MS_PER_DAY: i64 = 86400000;

/// Milliseconds in a half hour.
pub const MS_PER_SLOT: i64 = 1800000;

/// Seconds in a calendar day.
pub const SECONDS_PER_DAY: i64 = 86400;

/// A date-time that the calendar can hold.
pub open spec fn in_calendar(t: int) -> bool {
    MIN_TIMESTAMP <= t <= MAX_TIMESTAMP
}

/// An instant, in milliseconds, that the calendar can hold.
pub open spec fn instant_in_calendar(t: int) -> bool {
    MIN_INSTANT <= t <= MAX_INSTANT
}

/// Midnight that starts the day of the instant `t`, in milliseconds.
pub open spec fn day_start(t: int) -> int {
    t - t % (MS_PER_DAY as int)
}

/// What chrono's `NaiveDateTime::parse_from_str(text, format)` reads, as seconds since
/// 1970-01-01 00:00:00, or `None` when it rejects the text.
pub uninterp spec fn parsed_timestamp(text: Seq<char>, format: Seq<char>) -> Option<i64>;

/// What chrono writes for the date-time `t` with the `strftime`-style `format`, or `None`
/// when the format holds an item that it cannot write.
pub uninterp spec fn formatted_timestamp(t: int, format: Seq<char>) -> Option<Seq<char>>;

/// The day `days` after 1970-01-01 as a day of a year that starts on March 1 (0 to 365), on
/// the proleptic Gregorian calendar: its leap day, when it has one, comes last, and its 400-year
/// cycles, of 146097 days each, line up with day -719468 (March 1 of year 0).
pub open spec fn march_day_of_year(days: int) -> int {
    let day_of_cycle = (days + 719468) % 146097;
    let year_of_cycle = (day_of_cycle - day_of_cycle / 1460 + day_of_cycle / 36524 - day_of_cycle
        / 146096) / 365;
    day_of_cycle - (365 * year_of_cycle + year_of_cycle / 4 - year_of_cycle / 100)
}

/// The month (0 for March to 11 for February) of a day of a year that starts on March 1.
pub open spec fn march_month(day_of_year: int) -> int {
    (5 * day_of_year + 2) / 153
}

/// The month (1 to 12) of the date-time `t` on the proleptic Gregorian calendar.
#[verifier::opaque]
pub open spec fn month_of(t: int) -> u32 {
    let mp = march_month(march_day_of_year(t / (SECONDS_PER_DAY as int)));
    (if mp < 10 { mp + 3 } else { mp - 9 }) as u32
}

/// The day of the month (1 to 31) of the date-time `t` on the proleptic Gregorian calendar.
#[verifier::opaque]
pub open spec fn day_of_month(t: int) -> u32 {
    let doy = march_day_of_year(t / (SECONDS_PER_DAY as int));
    (doy - (153 * march_month(doy) + 2) / 5 + 1) as u32
}


/// The day of the week of the date-time `t`, Monday being 0: days follow one another in a
/// cycle of seven, and 1970-01-01 was a Thursday.
pub open spec fn weekday_from_monday(t: int) -> u32 {
    ((t / (SECONDS_PER_DAY as int) + 3) % 7) as u32
}

/// The view of an optional string.
pub open spec fn opt_text(s: Option<String>) -> Option<Seq<char>> {
    match s {
        Some(s) => Some(s@),
        None => None,
    }
}

/// Calls chrono's `NaiveDateTime::parse_from_str` and turns the date-time read into seconds
/// since 1970-01-01 00:00:00 (`and_utc().timestamp()`). Claimed: the result is the named
/// `parsed_timestamp` of the arguments, and a date-time read lies within the calendar's range,
/// as chrono's `NaiveDateTime` cannot hold others. Not claimed: which texts chrono accepts.
#[verifier::external_body]
pub(crate) fn parse_timestamp(text: &str, format: &str) -> (t: Option<i64>)
    ensures
        t == parsed_timestamp(text@, format@),
        t matches Some(v) ==> in_calendar(v as int),
{
    NaiveDateTime::parse_from_str(text, format).ok().map(|dt| dt.and_utc().timestamp())
}

/// Builds the date-time `t` with chrono's `DateTime::from_timestamp` (which, as documented,
/// succeeds for every second within the calendar's range) and writes it with chrono's
/// `NaiveDateTime::format`. Claimed: the result is the named `formatted_timestamp` of the
/// arguments; `None` comes back when chrono reports a formatting error.
#[verifier::external_body]
pub(crate) fn format_timestamp(t: i64, format: &str) -> (text: Option<String>)
    requires
        in_calendar(t as int),
    ensures
        opt_text(text) == formatted_timestamp(t as int, format@),
{
    let dt = DateTime::from_timestamp(t, 0).unwrap().naive_utc();
    let mut out = String::new();
    match write!(out, "{}", dt.format(format)) {
        Ok(()) => Some(out),
        Err(_) => None,
    }
}

/// Text that chrono wrote, or nothing when it could not write it.
pub open spec fn or_empty(t: Option<Seq<char>>) -> Seq<char> {
    match t {
        Some(s) => s,
        None => seq![],
    }
}

/// The date-time `t` in `format`, nothing when the format cannot be written.
#[verifier::opaque]
pub open spec fn date_text(t: int, format: Seq<char>) -> Seq<char> {
    or_empty(formatted_timestamp(t, format))
}

/// Appends the date-time `t` in `format`, nothing when the format cannot be written.
pub fn push_date(out: &mut String, t: i64, format: &str)
    requires
        in_calendar(t as int),
    ensures
        final(out)@ == old(out)@ + date_text(t as int, format@),
{
    reveal(date_text);
    match format_timestamp(t, format) {
        Some(s) => {
            out.append(s.as_str());
        },
        None => {},
    }
    assert(final(out)@ =~= old(out)@ + date_text(t as int, format@));
}

/// Calls chrono's `Datelike::month` on the date-time `t`. Claimed: the month on the proleptic
/// Gregorian calendar that chrono documents (`month_of`), from 1 to 12.
#[verifier::external_body]
pub(crate) fn calendar_month(t: i64) -> (m: u32)
    requires
        in_calendar(t as int),
    ensures
        m == month_of(t as int),
        1 <= m <= 12,
{
    DateTime::from_timestamp(t, 0).unwrap().naive_utc().month()
}

/// Calls chrono's `Datelike::day` on the date-time `t`. Claimed: the day of the month on the
/// proleptic Gregorian calendar that chrono documents (`day_of_month`), from 1 to 31.
#[verifier::external_body]
pub(crate) fn calendar_day(t: i64) -> (d: u32)
    requires
        in_calendar(t as int),
    ensures
        d == day_of_month(t as int),
        1 <= d <= 31,
{
    DateTime::from_timestamp(t, 0).unwrap().naive_utc().day()
}

/// Calls chrono's `Datelike::weekday` on the date-time `t` and numbers the result with
/// `Weekday::num_days_from_monday`. Claimed: the day of the week on the proleptic Gregorian
/// calendar that chrono documents, Monday being 0, counted from 1970-01-01, a Thursday.
#[verifier::external_body]
pub(crate) fn calendar_weekday(t: i64) -> (w: u32)
    requires
        in_calendar(t as int),
    ensures
        w == weekday_from_monday(t as int),
{
    DateTime::from_timestamp(t, 0).unwrap().naive_utc().weekday().num_days_from_monday()
}

} // verus!
