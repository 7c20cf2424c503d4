//! Instants, calendar months, and the order that both are kept in.

use vstd::prelude::*;

verus! {

/// What a sorted table is keyed by: a value with a rank among the integers.
///
/// Two keys are the same key exactly when their ranks are equal, and one key
/// comes before another exactly when its rank is smaller.
pub trait Key: Copy {
    /// The integer that orders this key.
    spec fn rank(&self) -> int;

    /// Keys of equal rank are equal.
    proof fn rank_is_faithful(a: Self, b: Self)
        requires
            a.rank() == b.rank(),
        ensures
            a == b,
    ;

    /// Whether this key comes strictly before `other`.
    fn precedes(&self, other: &Self) -> (before: bool)
        ensures
            before == (self.rank() < other.rank()),
    ;
}

/// A point in time in the reference zone (UTC): whole seconds since the
/// start of 1970, and the nanoseconds since that second began.
#[derive(Clone, Copy, Debug, PartialEq, Eq, Structural, PartialOrd, Ord, Hash)]
pub struct Instant {
    pub seconds: i64,
    pub nanos: u32,
}

/// A calendar month: a year and the number of a month in it, without a day.
#[derive(Clone, Copy, Debug, PartialEq, Eq, Structural, PartialOrd, Ord, Hash)]
pub struct MonthKey {
    pub year: i32,
    pub month: u32,
}

/// The rank of a pair whose second part is below 2^32: pairs are ranked by
/// their first part, and by the second where the first parts are equal.
pub open spec fn pair_rank(major: int, minor: int) -> int {
    major * 0x1_0000_0000 + minor
}

impl Instant {
    /// The instant at which the given second begins.
    pub fn at_second(seconds: i64) -> (instant: Instant)
        ensures
            instant.seconds == seconds,
            instant.nanos == 0,
    {
        Instant { seconds, nanos: 0 }
    }
}

impl Key for Instant {
    open spec fn rank(&self) -> int {
        pair_rank(self.seconds as int, self.nanos as int)
    }

    proof fn rank_is_faithful(a: Self, b: Self) {
    }

    fn precedes(&self, other: &Self) -> (before: bool) {
        self.seconds < other.seconds || (self.seconds == other.seconds && self.nanos < other.nanos)
    }
}

impl Key for MonthKey {
    open spec fn rank(&self) -> int {
        pair_rank(self.year as int, self.month as int)
    }

    proof fn rank_is_faithful(a: Self, b: Self) {
    }

    fn precedes(&self, other: &Self) -> (before: bool) {
        self.year < other.year || (self.year == other.year && self.month < other.month)
    }
}

/// The order of months is the order of (year, month) pairs.
pub proof fn lemma_month_order(a: MonthKey, b: MonthKey)
    ensures
        a.rank() < b.rank() <==> (a.year < b.year || (a.year == b.year && a.month < b.month)),
        a.rank() == b.rank() <==> a == b,
{
}

/// The order of instants is the order of (seconds, nanoseconds) pairs.
pub proof fn lemma_instant_order(a: Instant, b: Instant)
    ensures
        a.rank() < b.rank() <==> (a.seconds < b.seconds || (a.seconds == b.seconds && a.nanos
            < b.nanos)),
        a.rank() == b.rank() <==> a == b,
{
}

} // verus!
