//! The rows that the three datasets are made of, and the intervals that are
//! read from them.
//!
//! A row holds text as it stood in its dataset. A row whose dates cannot be
//! read gives a `RowParseError` in place of an interval, and is passed over
//! by whoever asked for one.

use crate::calendar::{instant_of, read_iso, read_with_format, utc_from_format, utc_from_iso};
use crate::time::Instant;
use vstd::prelude::*;
use vstd::string::StringExecFns;

verus! {

/// Why a row gives no interval: the text of its start, or else of its end,
/// cannot be read as an instant.
#[derive(Clone, Copy, Debug, PartialEq, Eq, Structural)]
pub enum RowParseError {
    Start,
    End,
}

/// One row of the time-tracking dataset.
#[derive(Clone, Debug)]
pub struct Clockify {
    pub start_date: String,
    pub start_time: String,
    pub end_date: String,
    pub end_time: String,
    pub description: String,
}

/// One worked shift.
#[derive(Clone, Copy, Debug, PartialEq, Eq, Structural)]
pub struct TimeEntry {
    pub start: Instant,
    pub end: Instant,
}

/// One row of the contest dataset.
#[derive(Clone, Debug)]
pub struct ContestRaw {
    pub id: String,
    pub start_time: String,
    pub end_time: String,
}

/// The time for which one contest runs.
#[derive(Clone, Copy, Debug, PartialEq, Eq, Structural)]
pub struct ContestDuration {
    pub start: Instant,
    pub end: Instant,
}

/// One row of the findings dataset. The award is a whole number of the
/// smallest unit of money that the caller counts in.
#[derive(Clone, Debug)]
pub struct Finding {
    pub contest: String,
    pub handle: String,
    pub award: u64,
}

/// What the aggregation is configured with: the participant whose awards are
/// added up, and the two activity labels under which worked time is counted.
#[derive(Clone, Debug)]
pub struct Settings {
    pub identity: String,
    pub first_label: String,
    pub second_label: String,
}

/// The pattern in which the time-tracking dataset writes a date and a time
/// of day, once the two are joined by a space.
pub open spec fn clock_format() -> Seq<char> {
    "%d.%m.%Y %H:%M"@
}

/// The instant that the time-tracking dataset means by a date and a time of
/// day.
pub open spec fn clock_instant(date: Seq<char>, time: Seq<char>) -> Option<Instant> {
    instant_of(utc_from_format(date + " "@ + time, clock_format()))
}

/// The instant that the contest dataset means by a timestamp.
pub open spec fn iso_instant(text: Seq<char>) -> Option<Instant> {
    instant_of(utc_from_iso(text))
}

/// The interval between two readings, or which of them failed: the start
/// where it did, and else the end.
pub open spec fn ends_of(start: Option<Instant>, end: Option<Instant>) -> Result<
    (Instant, Instant),
    RowParseError,
> {
    match (start, end) {
        (Some(start), Some(end)) => Ok((start, end)),
        (None, _) => Err(RowParseError::Start),
        (Some(_), None) => Err(RowParseError::End),
    }
}

/// The shift that a row of the time-tracking dataset records, where both of
/// its ends can be read.
pub open spec fn time_entry_of(row: Clockify) -> Result<TimeEntry, RowParseError> {
    match ends_of(
        clock_instant(row.start_date@, row.start_time@),
        clock_instant(row.end_date@, row.end_time@),
    ) {
        Ok((start, end)) => Ok(TimeEntry { start, end }),
        Err(error) => Err(error),
    }
}

/// The time for which the contest of a row runs, where both of its ends can
/// be read.
pub open spec fn contest_duration_of(row: ContestRaw) -> Result<ContestDuration, RowParseError> {
    match ends_of(iso_instant(row.start_time@), iso_instant(row.end_time@)) {
        Ok((start, end)) => Ok(ContestDuration { start, end }),
        Err(error) => Err(error),
    }
}

impl Instant {
    /// Reads a date such as `31.01.2021` and a time of day such as `20:15`.
    pub fn from_clock(date: &str, time: &str) -> (read: Option<Instant>)
        ensures
            read == clock_instant(date@, time@),
    {
        let mut text = String::from_str(date);
        text.append(" ");
        text.append(time);
        read_with_format(text.as_str(), "%d.%m.%Y %H:%M")
    }

    /// Reads a timestamp such as `2021-02-17T00:00:00.000Z`.
    pub fn from_iso(text: &str) -> (read: Option<Instant>)
        ensures
            read == iso_instant(text@),
    {
        read_iso(text)
    }
}

impl Settings {
    /// Settings with the given participant and activity labels.
    pub fn new(identity: &str, first_label: &str, second_label: &str) -> (settings: Settings)
        ensures
            settings.identity@ == identity@,
            settings.first_label@ == first_label@,
            settings.second_label@ == second_label@,
    {
        Settings {
            identity: String::from_str(identity),
            first_label: String::from_str(first_label),
            second_label: String::from_str(second_label),
        }
    }

    /// The usual settings: the participant `cmichel`, and the labels `C4` and
    /// `Code423n4`.
    pub fn standard() -> (settings: Settings)
        ensures
            settings.identity@ == "cmichel"@,
            settings.first_label@ == "C4"@,
            settings.second_label@ == "Code423n4"@,
    {
        Settings::new("cmichel", "C4", "Code423n4")
    }

    /// Whether worked time with this description is counted.
    pub open spec fn counts_label(&self, description: Seq<char>) -> bool {
        description == self.first_label@ || description == self.second_label@
    }

    /// Whether worked time with this description is counted.
    pub fn recognizes(&self, description: &String) -> (counted: bool)
        ensures
            counted == self.counts_label(description@),
    {
        *description == self.first_label || *description == self.second_label
    }

    /// Whether the awards of this participant are added up.
    pub fn is_identity(&self, handle: &String) -> (same: bool)
        ensures
            same == (handle@ == self.identity@),
    {
        *handle == self.identity
    }
}

impl TimeEntry {
    /// The shift that `row` records, or which of its ends cannot be read.
    pub fn from(row: &Clockify) -> (entry: Result<TimeEntry, RowParseError>)
        ensures
            entry == time_entry_of(*row),
    {
        let start = Instant::from_clock(row.start_date.as_str(), row.start_time.as_str());
        let end = Instant::from_clock(row.end_date.as_str(), row.end_time.as_str());
        match (start, end) {
            (Some(start), Some(end)) => Ok(TimeEntry { start, end }),
            (None, _) => Err(RowParseError::Start),
            (Some(_), None) => Err(RowParseError::End),
        }
    }
}

impl ContestDuration {
    /// The time for which the contest of `row` runs, or which of its ends
    /// cannot be read.
    pub fn from(row: &ContestRaw) -> (duration: Result<ContestDuration, RowParseError>)
        ensures
            duration == contest_duration_of(*row),
    {
        let start = Instant::from_iso(row.start_time.as_str());
        let end = Instant::from_iso(row.end_time.as_str());
        match (start, end) {
            (Some(start), Some(end)) => Ok(ContestDuration { start, end }),
            (None, _) => Err(RowParseError::Start),
            (Some(_), None) => Err(RowParseError::End),
        }
    }
}

} // verus!
