use chrono::{DateTime, NaiveDateTime, NaiveTime, TimeDelta};
use std::ops::Range;
use vstd::prelude::*;

verus! {

/// The instant, in milliseconds since the Unix epoch read as UTC, that
/// `chrono::NaiveDateTime::parse_from_str(text, "%y:%m:%d:%H:%M:%S%.3f")` gives for
/// `text`, or `None` where that call fails.
pub uninterp spec fn log_time_millis(text: Seq<char>) -> Option<i64>;

/// Calls `chrono::NaiveDateTime::parse_from_str` with the combat log's time format
/// (two-digit year, month, day, hour, minute and second separated by colons, then
/// `%.3f`: a dot with three fraction digits, which chrono also lets be left out) and
/// converts the result with `and_utc().timestamp_millis()`. Claimed: the result is
/// `log_time_millis(text@)`, a name for what chrono computes, and chrono can represent
/// the instant again: a two-digit year lies between 1969 and 2068, and chrono documents
/// that `from_timestamp_millis` takes back what `timestamp_millis` gives.
#[verifier::external_body]
pub(crate) fn parse_log_time(text: &str) -> (res: Option<i64>)
    ensures
        res == log_time_millis(text@),
        res matches Some(m) ==> timestamp_in_range(m),
{
    match NaiveDateTime::parse_from_str(text, "%y:%m:%d:%H:%M:%S%.3f") {
        Ok(time) => Some(time.and_utc().timestamp_millis()),
        Err(_) => None,
    }
}

/// Whether chrono's `DateTime::from_timestamp_millis` can represent the UTC instant
/// `millis` milliseconds after the Unix epoch (its dates span about 262,000 years on
/// each side of the common era).
pub uninterp spec fn timestamp_in_range(millis: i64) -> bool;

/// The text of the date (as chrono's `NaiveDate` shows it, "2023-01-05") of the UTC
/// instant `millis` milliseconds after the Unix epoch, where chrono can represent it.
pub uninterp spec fn date_text(millis: i64) -> Seq<char>;

/// The decimal digit `d`, from 0 to 9, as a character.
pub open spec fn digit_char(d: int) -> char {
    (d + 48) as char
}

/// `n`, from 0 to 99, with two digits.
pub open spec fn two_digits(n: int) -> Seq<char> {
    seq![digit_char(n / 10), digit_char(n % 10)]
}

/// `n`, from 0 to 999, with three digits.
pub open spec fn three_digits(n: int) -> Seq<char> {
    seq![digit_char(n / 100), digit_char((n / 10) % 10), digit_char(n % 10)]
}

/// The milliseconds since midnight of the time `millis` milliseconds after a midnight,
/// wrapping around days (also for negative `millis`).
pub open spec fn millis_of_day(millis: int) -> int {
    millis % 86_400_000
}

/// Hours, minutes and seconds of the time of day `millis` milliseconds after a
/// midnight, each with two digits, separated by `separator`: "18:01:02".
pub open spec fn hms_text(millis: int, separator: char) -> Seq<char> {
    let t = millis_of_day(millis);
    two_digits(t / 3_600_000) + seq![separator] + two_digits((t / 60_000) % 60) + seq![separator] + two_digits(
        (t / 1000) % 60,
    )
}

/// The separator of the time of day that chrono's pattern `pattern` shows: ':' for "%T",
/// '-' for "%H-%M-%S".
pub open spec fn time_separator(pattern: Seq<char>) -> char {
    if pattern == "%T"@ {
        ':'
    } else {
        '-'
    }
}

/// The text of the clock time `millis` milliseconds after midnight, wrapping around
/// days: "01:02:03.004" with the hours, "02:03.004" without.
pub open spec fn clock_text(millis: i64, with_hours: bool) -> Seq<char> {
    let t = millis_of_day(millis as int);
    let fraction = seq!['.'] + three_digits(t % 1000);
    if with_hours {
        hms_text(millis as int, ':') + fraction
    } else {
        two_digits((t / 60_000) % 60) + seq![':'] + two_digits((t / 1000) % 60) + fraction
    }
}

/// Calls chrono's `DateTime::from_timestamp_millis` and shows the date of the result
/// with `to_string`. Claimed: there is a result exactly where chrono can represent the
/// instant (`timestamp_in_range`), and it is `date_text(millis)`, a name for the text
/// of the date that chrono computes.
#[verifier::external_body]
pub(crate) fn format_date(millis: i64) -> (res: Option<String>)
    ensures
        res is Some == timestamp_in_range(millis),
        res matches Some(s) ==> s@ == date_text(millis),
{
    match DateTime::from_timestamp_millis(millis) {
        Some(t) => Some(t.naive_utc().date().to_string()),
        None => None,
    }
}

/// Calls chrono's `DateTime::from_timestamp_millis` and formats the time of day of the
/// result by `pattern` ("%T" or "%H-%M-%S", both valid for chrono) with `to_string`.
/// Claimed: there is a result exactly where chrono can represent the instant, and it
/// shows the hours, minutes and seconds of the UTC time of day with two digits each,
/// separated by ':' or '-' as the pattern says. The instant has no leap second, as
/// `from_timestamp_millis` makes none.
#[verifier::external_body]
pub(crate) fn format_time_of_day(millis: i64, pattern: &str) -> (res: Option<String>)
    requires
        pattern@ == "%T"@ || pattern@ == "%H-%M-%S"@,
    ensures
        res is Some == timestamp_in_range(millis),
        res matches Some(s) ==> s@ == hms_text(millis as int, time_separator(pattern@)),
{
    match DateTime::from_timestamp_millis(millis) {
        Some(t) => Some(t.naive_utc().time().format(pattern).to_string()),
        None => None,
    }
}

/// Calls chrono: midnight (`NaiveTime::MIN`, 00:00:00) plus
/// `TimeDelta::milliseconds(millis)`, formatted by `pattern` ("%T%.3f" or "%M:%S%.3f")
/// with `to_string`. `TimeDelta::milliseconds` panics on `i64::MIN`, which `requires`
/// leaves out. Claimed: `NaiveTime`'s addition wraps around days, so the result shows
/// the clock time `millis` milliseconds after midnight modulo a day, with the hours for
/// "%T%.3f" and without them for "%M:%S%.3f", and three digits of milliseconds.
#[verifier::external_body]
fn format_clock(millis: i64, pattern: &str) -> (res: String)
    requires
        millis > i64::MIN,
        pattern@ == "%T%.3f"@ || pattern@ == "%M:%S%.3f"@,
    ensures
        res@ == clock_text(millis, pattern@ == "%T%.3f"@),
{
    (NaiveTime::MIN + TimeDelta::milliseconds(millis)).format(pattern).to_string()
}

/// The length of a time range in milliseconds.
pub fn time_range_to_duration(time_range: &Range<i64>) -> (res: i64)
    requires
        i64::MIN <= time_range.end - time_range.start <= i64::MAX,
    ensures
        res == time_range.end - time_range.start,
{
    time_range.end - time_range.start
}

/// The length of a time range in milliseconds, or 0 where there is none.
pub fn time_range_to_duration_or_zero(time_range: &Option<Range<i64>>) -> (res: i64)
    requires
        time_range matches Some(r) ==> i64::MIN <= r.end - r.start <= i64::MAX,
    ensures
        res == match time_range {
            Some(r) => r.end - r.start,
            None => 0,
        },
{
    match time_range {
        Some(r) => time_range_to_duration(r),
        None => 0,
    }
}

/// A duration of `millis` milliseconds as a clock time: "01:02:03.004" from an hour on,
/// else "02:03.004".
pub fn format_duration(millis: i64) -> (res: String)
    requires
        millis > i64::MIN,
    ensures
        res@ == clock_text(millis, millis >= 3_600_000),
{
    proof {
        reveal_strlit("%T%.3f");
        reveal_strlit("%M:%S%.3f");
    }
    if millis >= 3_600_000 {
        return format_clock(millis, "%T%.3f");
    }
    let res = format_clock(millis, "%M:%S%.3f");
    assert("%M:%S%.3f"@ != "%T%.3f"@) by {
        assert("%M:%S%.3f"@[1] != "%T%.3f"@[1]);
    }
    res
}

} // verus!
