//! Monthly statistics over time-tracking entries, contest schedules and
//! contest findings.
//!
//! The library turns rows of text into half-open intervals of seconds,
//! assigns each interval's value to the one or two calendar months that the
//! interval touches, adds the assigned values up per month, and counts the
//! distinct participants of each contest. Every function is verified against
//! the contract that stands above its body, but for the four calls into
//! `chrono` in [`calendar`], whose contracts are taken on trust.
//!
//! Time is counted in whole seconds and money in whole units of the caller's
//! choice, so every sum here is exact.

pub mod allocation;
pub mod calendar;
pub mod chart;
pub mod contests;
pub mod monthly;
pub mod participation;
pub mod records;
pub mod table;
pub mod time;

pub use allocation::{allocate, settle, share_of, span_seconds, Allocation, PreconditionViolation};
pub use chart::{participation_frame, peak_amount, rate_points, ParticipationFrame, RatePoint};
pub use contests::ContestIndex;
pub use monthly::{get_monthly_awards, get_monthly_hours, MonthlySeries};
pub use participation::{
    all_contests_known, count_wardens, get_wardens_per_contest, ContestParticipation,
};
pub use records::{
    Clockify, ContestDuration, ContestRaw, Finding, RowParseError, Settings, TimeEntry,
};
pub use table::Table;
pub use time::{Instant, Key, MonthKey};
