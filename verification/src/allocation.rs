//! The monthly allocator: which calendar months an interval touches, and how
//! much of the interval's value each of them receives.
//!
//! An interval is half open, from its start up to but not including its end,
//! and is measured in whole seconds. It must run forward and last less than
//! twenty-eight days, so that it crosses at most one boundary between months.
//! A value is a whole number of the smallest unit that the caller counts in.

use crate::calendar::{civil_month, month_containing, month_key_of, seconds_at, utc_seconds};
use crate::time::{Instant, MonthKey};
use vstd::prelude::*;

verus! {

/// The length in seconds that an interval must stay below: twenty-eight days.
pub const SPAN_LIMIT: i64 = 2_419_200;

/// Why a set of records cannot be aggregated.
#[derive(Clone, Copy, Debug, PartialEq, Eq, Structural)]
pub enum PreconditionViolation {
    /// An interval's end is not after its start.
    NotForward,
    /// An interval lasts twenty-eight days or more.
    TooLong,
    /// The calendar has no month for an end of an interval, or does not put
    /// the start of the month in which the interval ends inside the interval.
    OffCalendar,
    /// A finding names a contest that the contest table does not hold.
    UnknownContest,
}

/// What the allocator assigns: the whole value to one month, or two parts of
/// it to the month in which the interval starts and the month in which it
/// ends.
#[derive(Clone, Copy, Debug, PartialEq, Eq, Structural)]
pub enum Allocation {
    Whole { month: MonthKey, amount: u64 },
    Split { first: MonthKey, before: u64, last: MonthKey, after: u64 },
}

impl Allocation {
    /// The sum of what the allocation assigns.
    pub open spec fn total(self) -> int {
        match self {
            Allocation::Whole { amount, .. } => amount as int,
            Allocation::Split { before, after, .. } => before + after,
        }
    }

    /// The months that the allocation assigns to, each with its amount, the
    /// earlier month first.
    pub open spec fn spec_pairs(self) -> Seq<(MonthKey, u64)> {
        match self {
            Allocation::Whole { month, amount } => seq![(month, amount)],
            Allocation::Split { first, before, last, after } => seq![(first, before), (last, after)],
        }
    }

    /// The one or two pairs of a month and an amount that the allocation is
    /// made of.
    pub fn pairs(&self) -> (pairs: Vec<(MonthKey, u64)>)
        ensures
            pairs@ == self.spec_pairs(),
    {
        let mut pairs: Vec<(MonthKey, u64)> = Vec::new();
        match *self {
            Allocation::Whole { month, amount } => {
                pairs.push((month, amount));
            },
            Allocation::Split { first, before, last, after } => {
                pairs.push((first, before));
                pairs.push((last, after));
            },
        }
        assert(pairs@ =~= self.spec_pairs());
        pairs
    }
}

/// What is wrong with the interval from `start` to `end`, if anything.
pub open spec fn span_violation(start: int, end: int) -> Option<PreconditionViolation> {
    if end <= start {
        Some(PreconditionViolation::NotForward)
    } else if end - start >= SPAN_LIMIT {
        Some(PreconditionViolation::TooLong)
    } else {
        None
    }
}

/// The part of `value` that belongs to `part` seconds out of `whole`,
/// rounded down to a whole unit.
pub open spec fn share(value: int, part: int, whole: int) -> int {
    (value * part) / whole
}

/// The month in which `instant` falls, as the calendar gives it.
pub open spec fn month_at(instant: Instant) -> Option<MonthKey> {
    month_key_of(civil_month(instant.seconds as int, instant.nanos as int))
}

/// The second at which `month` begins: midnight on its first day.
pub open spec fn month_start(month: MonthKey) -> Option<i64> {
    utc_seconds(month.year as int, month.month as int, 1, 0, 0, 0)
}

/// The second at which the month of `end` begins is known, and lies in that
/// month: an interval that is divided is divided inside the month in which
/// it ends.
pub open spec fn divides_in_last_month(end: Instant) -> bool {
    &&& month_at(end) is Some
    &&& month_start(month_at(end)->Some_0) is Some
    &&& month_at(Instant { seconds: month_start(month_at(end)->Some_0)->Some_0, nanos: 0 })
        == month_at(end)
}

/// The allocation of `value` over the interval from `start` to `end`, given
/// the months `first` and `last` in which the interval starts and ends and
/// the second `boundary` at which `last` begins.
///
/// An interval within one month gives that month the whole value. Otherwise
/// the value is divided at the boundary in proportion to the seconds on each
/// side: the first month receives its share rounded down, the last month the
/// rest.
pub open spec fn settled(
    start: int,
    end: int,
    value: u64,
    first: MonthKey,
    last: MonthKey,
    boundary: Option<i64>,
) -> Result<Allocation, PreconditionViolation> {
    if first == last {
        Ok(Allocation::Whole { month: first, amount: value })
    } else if boundary is Some && start <= boundary.unwrap() <= end {
        let before = share(value as int, boundary.unwrap() - start, end - start);
        Ok(
            Allocation::Split {
                first,
                before: before as u64,
                last,
                after: (value - before) as u64,
            },
        )
    } else {
        Err(PreconditionViolation::OffCalendar)
    }
}

/// The allocation of `value` over the interval from `start` to `end`.
pub open spec fn allocation_of(start: Instant, end: Instant, value: u64) -> Result<
    Allocation,
    PreconditionViolation,
> {
    match span_violation(start.seconds as int, end.seconds as int) {
        Some(violation) => Err(violation),
        None => match (month_at(start), month_at(end)) {
            (Some(first), Some(last)) => settled(
                start.seconds as int,
                end.seconds as int,
                value,
                first,
                last,
                month_start(last),
            ),
            _ => Err(PreconditionViolation::OffCalendar),
        },
    }
}

/// A share is not negative and not more than the value it is taken from.
pub proof fn lemma_share_is_bounded(value: int, part: int, whole: int)
    requires
        0 <= value,
        0 <= part <= whole,
        0 < whole,
    ensures
        0 <= share(value, part, whole) <= value,
        0 <= value * part <= value * whole,
{
    assert(0 <= value * part <= value * whole) by (nonlinear_arith)
        requires
            0 <= value,
            0 <= part <= whole,
    ;
    assert((value * part) / whole <= value) by (nonlinear_arith)
        requires
            0 <= value * part <= value * whole,
            0 < whole,
    ;
    assert(0 <= (value * part) / whole) by (nonlinear_arith)
        requires
            0 <= value * part,
            0 < whole,
    ;
}

/// Where the value is the interval's own length, the share of a part of the
/// interval is the length of that part: seconds are divided without rounding.
pub proof fn lemma_share_of_length(part: int, whole: int)
    requires
        0 <= part <= whole,
        0 < whole,
    ensures
        share(whole, part, whole) == part,
{
    assert((whole * part) / whole == part) by (nonlinear_arith)
        requires
            0 < whole,
    ;
}

/// The two shares of a value, each rounded down, add up to the value or to
/// one unit less: the part that the last month receives is its own share,
/// rounded up where the division leaves a remainder.
pub proof fn lemma_rest_is_rounded_share(value: int, part: int, whole: int)
    requires
        0 <= value,
        0 <= part <= whole,
        0 < whole,
    ensures
        share(value, whole - part, whole) <= value - share(value, part, whole) <= share(
            value,
            whole - part,
            whole,
        ) + 1,
{
    let a = value * part;
    let b = value * (whole - part);
    assert(a + b == value * whole) by (nonlinear_arith)
        requires
            a == value * part,
            b == value * (whole - part),
    ;
    assert(0 <= a && 0 <= b) by (nonlinear_arith)
        requires
            a == value * part,
            b == value * (whole - part),
            0 <= value,
            0 <= part <= whole,
    ;
    assert(a / whole + b / whole <= value <= a / whole + b / whole + 1) by (nonlinear_arith)
        requires
            a + b == value * whole,
            0 <= a,
            0 <= b,
            0 < whole,
    ;
}

/// An interval that lies within one month gives that month its whole value,
/// unchanged.
pub proof fn lemma_one_month_keeps_value(start: Instant, end: Instant, value: u64)
    requires
        span_violation(start.seconds as int, end.seconds as int) is None,
        month_at(start) is Some,
        month_at(start) == month_at(end),
    ensures
        allocation_of(start, end, value) == Ok::<Allocation, PreconditionViolation>(
            Allocation::Whole { month: month_at(start).unwrap(), amount: value },
        ),
{
}

/// Whatever the allocator assigns adds up to the value it was given: where
/// an interval is divided between two months, the two parts sum to the
/// value, and nothing of it is lost.
pub proof fn lemma_allocation_conserves(start: Instant, end: Instant, value: u64)
    requires
        allocation_of(start, end, value) is Ok,
    ensures
        allocation_of(start, end, value).unwrap().total() == value,
        allocation_of(start, end, value).unwrap() is Split ==> month_at(start) != month_at(end),
{
    let first = month_at(start).unwrap();
    let last = month_at(end).unwrap();
    if first != last {
        let boundary = month_start(last).unwrap();
        lemma_share_is_bounded(
            value as int,
            boundary - start.seconds,
            end.seconds - start.seconds,
        );
    }
}

/// The length of the interval from `start` to `end` in seconds, or what is
/// wrong with the interval.
pub fn span_seconds(start: Instant, end: Instant) -> (length: Result<u64, PreconditionViolation>)
    ensures
        length == (match span_violation(start.seconds as int, end.seconds as int) {
            Some(violation) => Err::<u64, PreconditionViolation>(violation),
            None => Ok((end.seconds - start.seconds) as u64),
        }),
{
    if end.seconds <= start.seconds {
        Err(PreconditionViolation::NotForward)
    } else {
        let length: i128 = end.seconds as i128 - start.seconds as i128;
        if length >= SPAN_LIMIT as i128 {
            Err(PreconditionViolation::TooLong)
        } else {
            Ok(length as u64)
        }
    }
}

/// The share of `value` that belongs to `part` seconds out of `whole`.
pub fn share_of(value: u64, part: u64, whole: u64) -> (portion: u64)
    requires
        part <= whole,
        0 < whole,
    ensures
        portion == share(value as int, part as int, whole as int),
        portion <= value,
{
    proof {
        lemma_share_is_bounded(value as int, part as int, whole as int);
        assert(value * whole <= u64::MAX * u64::MAX) by (nonlinear_arith)
            requires
                0 <= value <= u64::MAX,
                0 < whole <= u64::MAX,
        ;
    }
    let product: u128 = value as u128 * part as u128;
    (product / whole as u128) as u64
}

/// Divides `value` over the interval from `start` to `end`, given the months
/// in which the interval starts and ends and the second at which the month of
/// its end begins.
pub fn settle(
    start: i64,
    end: i64,
    value: u64,
    first: MonthKey,
    last: MonthKey,
    boundary: Option<i64>,
) -> (allocation: Result<Allocation, PreconditionViolation>)
    requires
        span_violation(start as int, end as int) is None,
    ensures
        allocation == settled(start as int, end as int, value, first, last, boundary),
        allocation is Ok ==> allocation.unwrap().total() == value,
{
    if first == last {
        return Ok(Allocation::Whole { month: first, amount: value });
    }
    match boundary {
        Some(at) => {
            if start <= at && at <= end {
                let whole: u64 = (end as i128 - start as i128) as u64;
                let part: u64 = (at as i128 - start as i128) as u64;
                let before = share_of(value, part, whole);
                Ok(Allocation::Split { first, before, last, after: value - before })
            } else {
                Err(PreconditionViolation::OffCalendar)
            }
        },
        None => Err(PreconditionViolation::OffCalendar),
    }
}

/// The calendar month in which `instant` falls.
pub fn month_of(instant: Instant) -> (month: Option<MonthKey>)
    ensures
        month == month_at(instant),
{
    month_containing(instant)
}

/// The second at which `month` begins. It lies in `month`.
pub fn first_second(month: MonthKey) -> (second: Option<i64>)
    ensures
        second == month_start(month),
        second is Some ==> month_at(Instant { seconds: second->Some_0, nanos: 0 }) == Some(month),
{
    seconds_at(month.year, month.month, 1, 0, 0, 0)
}

/// Assigns `value` to the month or the two months that the interval from
/// `start` to `end` touches.
pub fn allocate(start: Instant, end: Instant, value: u64) -> (allocation: Result<
    Allocation,
    PreconditionViolation,
>)
    ensures
        allocation == allocation_of(start, end, value),
        allocation is Ok ==> allocation.unwrap().total() == value,
        allocation is Ok && allocation->Ok_0 is Split ==> divides_in_last_month(end),
{
    match span_seconds(start, end) {
        Err(violation) => Err(violation),
        Ok(_) => {
            match (month_of(start), month_of(end)) {
                (Some(first), Some(last)) => {
                    let boundary = if first == last {
                        None
                    } else {
                        first_second(last)
                    };
                    settle(start.seconds, end.seconds, value, first, last, boundary)
                },
                _ => Err(PreconditionViolation::OffCalendar),
            }
        },
    }
}

} // verus!
