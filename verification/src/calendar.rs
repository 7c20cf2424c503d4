//! What the library takes from the `chrono` crate: the reading of a
//! timestamp from text, the calendar month that an instant falls in, and the
//! second at which a calendar date and time of day begins.
//!
//! Each function here is trusted: its contract gives a name to what `chrono`
//! returns, and nothing is proved of that name. One fact is taken from
//! `chrono` beside the names: the second at which a date begins lies in the
//! month of that date. The functions that work on the results test whatever
//! else they build on.

use crate::time::{Instant, MonthKey};
use chrono::{DateTime, Datelike, TimeZone, Utc};
use vstd::prelude::*;

verus! {

/// What `chrono` reads from `text` under the strftime pattern `format`, in
/// UTC: the seconds and nanoseconds of the instant, or nothing where the text
/// does not match the pattern or names no instant.
pub uninterp spec fn utc_from_format(text: Seq<char>, format: Seq<char>) -> Option<(i64, u32)>;

/// What `chrono` reads from `text` as a date and time in the relaxed form of
/// RFC 3339 that it accepts, brought to UTC.
pub uninterp spec fn utc_from_iso(text: Seq<char>) -> Option<(i64, u32)>;

/// The year and the month of the UTC calendar date that `chrono` gives to the
/// instant `seconds` and `nanos` after the start of 1970, or nothing where it
/// has no date for it.
pub uninterp spec fn civil_month(seconds: int, nanos: int) -> Option<(i32, u32)>;

/// The seconds from the start of 1970 to the given UTC date and time of day,
/// as `chrono` counts them, or nothing where it knows no such date or time.
pub uninterp spec fn utc_seconds(
    year: int,
    month: int,
    day: int,
    hour: int,
    minute: int,
    second: int,
) -> Option<i64>;

/// The instant that a pair of seconds and nanoseconds stands for.
pub open spec fn instant_of(pair: Option<(i64, u32)>) -> Option<Instant> {
    match pair {
        Some((seconds, nanos)) => Some(Instant { seconds, nanos }),
        None => None,
    }
}

/// The month key that a pair of year and month stands for.
pub open spec fn month_key_of(pair: Option<(i32, u32)>) -> Option<MonthKey> {
    match pair {
        Some((year, month)) => Some(MonthKey { year, month }),
        None => None,
    }
}

/// Calls `chrono::TimeZone::datetime_from_str` on `Utc` and hands back the
/// result's `timestamp()` and `timestamp_subsec_nanos()`, or `None` for an
/// error. Trusted: the contract names the result `utc_from_format` of the two
/// texts and claims nothing else of it. It is to be called with the one
/// pattern that the library reads by, a day, month and year with dots and an
/// hour and minute with a colon, so nothing is taken on trust of how `chrono`
/// deals with any other pattern.
#[allow(deprecated)]
#[verifier::external_body]
pub(crate) fn read_with_format(text: &str, format: &str) -> (read: Option<Instant>)
    requires
        format@ == "%d.%m.%Y %H:%M"@,
    ensures
        read == instant_of(utc_from_format(text@, format@)),
{
    match Utc.datetime_from_str(text, format) {
        Ok(moment) => Some(
            Instant { seconds: moment.timestamp(), nanos: moment.timestamp_subsec_nanos() },
        ),
        Err(_) => None,
    }
}

/// Calls `str::parse::<chrono::DateTime<Utc>>` and hands back the result's
/// `timestamp()` and `timestamp_subsec_nanos()`, or `None` for an error.
/// Trusted: the contract names the result `utc_from_iso` of the text and
/// claims nothing else of it.
#[verifier::external_body]
pub(crate) fn read_iso(text: &str) -> (read: Option<Instant>)
    ensures
        read == instant_of(utc_from_iso(text@)),
{
    match text.parse::<DateTime<Utc>>() {
        Ok(moment) => Some(
            Instant { seconds: moment.timestamp(), nanos: moment.timestamp_subsec_nanos() },
        ),
        Err(_) => None,
    }
}

/// Calls `chrono::DateTime::from_timestamp` and hands back the result's
/// `year()` and `month()`, or `None` where `chrono` has no date for the
/// instant. Trusted: the contract names the result `civil_month` of the
/// instant's two parts and claims nothing else of it.
#[verifier::external_body]
pub(crate) fn month_containing(instant: Instant) -> (found: Option<MonthKey>)
    ensures
        found == month_key_of(civil_month(instant.seconds as int, instant.nanos as int)),
{
    match DateTime::from_timestamp(instant.seconds, instant.nanos) {
        Some(moment) => Some(MonthKey { year: moment.year(), month: moment.month() }),
        None => None,
    }
}

/// Calls `chrono::TimeZone::with_ymd_and_hms` on `Utc` and hands back the
/// `timestamp()` of its single result, or `None` where it has none. Trusted:
/// the contract names the result `utc_seconds` of the six numbers, and
/// claims one thing of it: the second that `chrono` gives for a date lies in
/// the year and month of that date. `chrono` documents that
/// `DateTime::from_timestamp` leads back from a `timestamp()` to the date and
/// time it was taken from, and `year()` and `month()` of a date made from a
/// year and a month are those two.
#[verifier::external_body]
pub(crate) fn seconds_at(
    year: i32,
    month: u32,
    day: u32,
    hour: u32,
    minute: u32,
    second: u32,
) -> (found: Option<i64>)
    ensures
        found == utc_seconds(
            year as int,
            month as int,
            day as int,
            hour as int,
            minute as int,
            second as int,
        ),
        found is Some ==> civil_month(found->Some_0 as int, 0) == Some((year, month)),
{
    match Utc.with_ymd_and_hms(year, month, day, hour, minute, second).single() {
        Some(moment) => Some(moment.timestamp()),
        None => None,
    }
}

} // verus!
