//! The monthly series: seconds worked per month and awards earned per month.
//!
//! Each counted record is allocated to its month or months, and what is
//! allocated is added up per month. A series lists the months that received
//! anything, in ascending order, each once, with its sum.

use crate::allocation::{
    allocate,
    allocation_of,
    lemma_share_of_length,
    month_at,
    month_start,
    span_seconds,
    Allocation,
    PreconditionViolation,
};
use crate::contests::{contest_book, ContestIndex};
use crate::records::{
    time_entry_of,
    Clockify,
    ContestDuration,
    ContestRaw,
    Finding,
    Settings,
    TimeEntry,
};
use crate::table::{ascending, book_of, credited, sum_of, Table};
use crate::time::MonthKey;
use vstd::prelude::*;

verus! {

/// Amounts per month, in ascending order of the months, each month once.
pub type MonthlySeries = Vec<(MonthKey, u128)>;

/// `book` after an allocation was added to it.
pub open spec fn posted(book: Map<MonthKey, nat>, allocation: Allocation) -> Map<MonthKey, nat> {
    match allocation {
        Allocation::Whole { month, amount } => credited(book, month, amount as nat),
        Allocation::Split { first, before, last, after } => credited(
            credited(book, first, before as nat),
            last,
            after as nat,
        ),
    }
}

/// The shift of a row, where the row's label is one that counts and both
/// ends of the shift can be read.
pub open spec fn counted_entry(row: Clockify, settings: Settings) -> Option<TimeEntry> {
    if settings.counts_label(row.description@) {
        match time_entry_of(row) {
            Ok(entry) => Some(entry),
            Err(_) => None,
        }
    } else {
        None
    }
}

/// The seconds that a shift lasts, and zero for one that does not run
/// forward.
pub open spec fn seconds_of(entry: TimeEntry) -> nat {
    if entry.end.seconds > entry.start.seconds {
        (entry.end.seconds - entry.start.seconds) as nat
    } else {
        0
    }
}

/// The seconds of a shift allocated to the months that the shift touches.
pub open spec fn entry_allocation(entry: TimeEntry) -> Result<Allocation, PreconditionViolation> {
    allocation_of(entry.start, entry.end, seconds_of(entry) as u64)
}

/// The seconds worked per month that `rows` add up to, or the violation of
/// the first counted row that has one.
pub open spec fn hours_book(rows: Seq<Clockify>, settings: Settings) -> Result<
    Map<MonthKey, nat>,
    PreconditionViolation,
>
    decreases rows.len(),
{
    if rows.len() == 0 {
        Ok(Map::empty())
    } else {
        match hours_book(rows.drop_last(), settings) {
            Err(violation) => Err(violation),
            Ok(book) => match counted_entry(rows.last(), settings) {
                None => Ok(book),
                Some(entry) => match entry_allocation(entry) {
                    Err(violation) => Err(violation),
                    Ok(allocation) => Ok(posted(book, allocation)),
                },
            },
        }
    }
}

/// The seconds of all counted shifts in `rows` together.
pub open spec fn hours_claimed(rows: Seq<Clockify>, settings: Settings) -> nat
    decreases rows.len(),
{
    if rows.len() == 0 {
        0
    } else {
        hours_claimed(rows.drop_last(), settings) + (match counted_entry(rows.last(), settings) {
            None => 0,
            Some(entry) => seconds_of(entry),
        })
    }
}

/// Whether the award of a finding is added up: it is where the finding is the
/// configured participant's.
pub open spec fn counted_finding(finding: Finding, settings: Settings) -> bool {
    finding.handle@ == settings.identity@
}

/// The award of a finding allocated to the months that its contest touches,
/// or `UnknownContest` where `contests` does not hold the contest.
pub open spec fn finding_allocation(
    contests: Map<Seq<char>, ContestDuration>,
    finding: Finding,
) -> Result<Allocation, PreconditionViolation> {
    if contests.dom().contains(finding.contest@) {
        allocation_of(
            contests[finding.contest@].start,
            contests[finding.contest@].end,
            finding.award,
        )
    } else {
        Err(PreconditionViolation::UnknownContest)
    }
}

/// The awards per month that `findings` add up to, or the violation of the
/// first counted finding that has one.
pub open spec fn awards_book(
    contests: Map<Seq<char>, ContestDuration>,
    findings: Seq<Finding>,
    settings: Settings,
) -> Result<Map<MonthKey, nat>, PreconditionViolation>
    decreases findings.len(),
{
    if findings.len() == 0 {
        Ok(Map::empty())
    } else {
        match awards_book(contests, findings.drop_last(), settings) {
            Err(violation) => Err(violation),
            Ok(book) => if counted_finding(findings.last(), settings) {
                match finding_allocation(contests, findings.last()) {
                    Err(violation) => Err(violation),
                    Ok(allocation) => Ok(posted(book, allocation)),
                }
            } else {
                Ok(book)
            },
        }
    }
}

/// The awards of all counted findings together.
pub open spec fn awards_claimed(findings: Seq<Finding>, settings: Settings) -> nat
    decreases findings.len(),
{
    if findings.len() == 0 {
        0
    } else {
        awards_claimed(findings.drop_last(), settings) + (if counted_finding(
            findings.last(),
            settings,
        ) {
            findings.last().award as nat
        } else {
            0
        })
    }
}

/// A shift that starts in one month and ends in another is divided where the
/// later month begins: the first month receives the seconds before that
/// midnight and the last month the seconds from it on, none of them rounded.
pub proof fn lemma_shift_is_divided_at_midnight(entry: TimeEntry)
    requires
        entry_allocation(entry) is Ok,
        entry_allocation(entry)->Ok_0 is Split,
    ensures
        month_at(entry.end) is Some,
        month_start(month_at(entry.end)->Some_0) is Some,
        entry_allocation(entry)->Ok_0->before == month_start(month_at(entry.end)->Some_0)->Some_0
            - entry.start.seconds,
        entry_allocation(entry)->Ok_0->after == entry.end.seconds - month_start(
            month_at(entry.end)->Some_0,
        )->Some_0,
{
    let boundary = month_start(month_at(entry.end)->Some_0)->Some_0;
    lemma_share_of_length(
        boundary - entry.start.seconds,
        entry.end.seconds - entry.start.seconds,
    );
}

/// Once some rows have run into a violation, more rows do not change it.
pub proof fn lemma_hours_violation_stays(rows: Seq<Clockify>, settings: Settings, n: int)
    requires
        0 <= n <= rows.len(),
        hours_book(rows.take(n), settings) is Err,
    ensures
        hours_book(rows, settings) == hours_book(rows.take(n), settings),
    decreases rows.len(),
{
    if n == rows.len() {
        assert(rows.take(n) =~= rows);
    } else {
        assert(rows.drop_last().take(n) =~= rows.take(n));
        lemma_hours_violation_stays(rows.drop_last(), settings, n);
    }
}

/// Once some findings have run into a violation, more findings do not change
/// it.
pub proof fn lemma_awards_violation_stays(
    contests: Map<Seq<char>, ContestDuration>,
    findings: Seq<Finding>,
    settings: Settings,
    n: int,
)
    requires
        0 <= n <= findings.len(),
        awards_book(contests, findings.take(n), settings) is Err,
    ensures
        awards_book(contests, findings, settings) == awards_book(
            contests,
            findings.take(n),
            settings,
        ),
    decreases findings.len(),
{
    if n == findings.len() {
        assert(findings.take(n) =~= findings);
    } else {
        assert(findings.drop_last().take(n) =~= findings.take(n));
        lemma_awards_violation_stays(contests, findings.drop_last(), settings, n);
    }
}

/// Adds what `allocation` assigns to the sums in `table`.
pub fn post(table: &mut Table<MonthKey>, allocation: Allocation)
    requires
        old(table).wf(),
        old(table).total() + allocation.total() <= u128::MAX,
    ensures
        final(table).wf(),
        final(table)@ == posted(old(table)@, allocation),
        final(table).total() == old(table).total() + allocation.total(),
{
    match allocation {
        Allocation::Whole { month, amount } => {
            table.credit(month, amount);
        },
        Allocation::Split { first, before, last, after } => {
            table.credit(first, before);
            table.credit(last, after);
        },
    }
}

/// The seconds worked per month, in ascending order of the months.
///
/// A row is counted where its description is one of the two configured
/// labels and its dates and times can be read; other rows are passed over.
/// The seconds of a counted shift go to the month of the shift, and are
/// divided at midnight of the first day of the month in which it ends where
/// it starts in another. The first counted shift that is not a forward
/// interval of less than twenty-eight days ends the run with its violation.
pub fn get_monthly_hours(rows: &Vec<Clockify>, settings: &Settings) -> (series: Result<
    MonthlySeries,
    PreconditionViolation,
>)
    ensures
        series is Ok <==> hours_book(rows@, *settings) is Ok,
        series is Err ==> hours_book(rows@, *settings) == Err::<Map<MonthKey, nat>, PreconditionViolation>(
            series->Err_0,
        ),
        series is Ok ==> ascending(series->Ok_0@),
        series is Ok ==> hours_book(rows@, *settings) == Ok::<Map<MonthKey, nat>, PreconditionViolation>(
            book_of(series->Ok_0@),
        ),
        series is Ok ==> sum_of(series->Ok_0@) == hours_claimed(rows@, *settings),
{
    let mut table: Table<MonthKey> = Table::new();
    let mut i: usize = 0;
    while i < rows.len()
        invariant
            i <= rows.len(),
            table.wf(),
            hours_book(rows@.take(i as int), *settings) == Ok::<Map<MonthKey, nat>, PreconditionViolation>(
                table@,
            ),
            table.total() == hours_claimed(rows@.take(i as int), *settings),
            table.total() <= i * u64::MAX,
        decreases rows.len() - i,
    {
        proof {
            assert(rows@.take(i + 1).drop_last() =~= rows@.take(i as int));
            assert(i * u64::MAX + u64::MAX <= u128::MAX) by (nonlinear_arith)
                requires
                    i <= u64::MAX,
            ;
        }
        let row = &rows[i];
        if settings.recognizes(&row.description) {
            match TimeEntry::from(row) {
                Ok(entry) => {
                    match span_seconds(entry.start, entry.end) {
                        Err(violation) => {
                            proof {
                                lemma_hours_violation_stays(rows@, *settings, i + 1);
                            }
                            return Err(violation);
                        },
                        Ok(length) => {
                            match allocate(entry.start, entry.end, length) {
                                Err(violation) => {
                                    proof {
                                        lemma_hours_violation_stays(rows@, *settings, i + 1);
                                    }
                                    return Err(violation);
                                },
                                Ok(allocation) => {
                                    post(&mut table, allocation);
                                },
                            }
                        },
                    }
                },
                Err(_) => {},
            }
        }
        i += 1;
    }
    proof {
        assert(rows@.take(rows@.len() as int) =~= rows@);
    }
    Ok(table.into_series())
}

/// The awards earned per month, in ascending order of the months.
///
/// The contests are indexed by their identifier first. Then each finding of
/// the configured participant has its award allocated over the time for which
/// its contest runs: to the month of the contest, or in proportion to the
/// seconds on each side of midnight of the first day of the month in which
/// the contest ends. The first such finding whose contest is unknown, or is
/// not a forward interval of less than twenty-eight days, ends the run with
/// its violation.
pub fn get_monthly_awards(
    contests: &Vec<ContestRaw>,
    findings: &Vec<Finding>,
    settings: &Settings,
) -> (series: Result<MonthlySeries, PreconditionViolation>)
    ensures
        series is Ok <==> awards_book(contest_book(contests@), findings@, *settings) is Ok,
        series is Err ==> awards_book(contest_book(contests@), findings@, *settings) == Err::<
            Map<MonthKey, nat>,
            PreconditionViolation,
        >(series->Err_0),
        series is Ok ==> ascending(series->Ok_0@),
        series is Ok ==> awards_book(contest_book(contests@), findings@, *settings) == Ok::<
            Map<MonthKey, nat>,
            PreconditionViolation,
        >(book_of(series->Ok_0@)),
        series is Ok ==> sum_of(series->Ok_0@) == awards_claimed(findings@, *settings),
{
    let index = ContestIndex::build(contests);
    let mut table: Table<MonthKey> = Table::new();
    let mut i: usize = 0;
    while i < findings.len()
        invariant
            i <= findings.len(),
            table.wf(),
            index@ == contest_book(contests@),
            awards_book(index@, findings@.take(i as int), *settings) == Ok::<
                Map<MonthKey, nat>,
                PreconditionViolation,
            >(table@),
            table.total() == awards_claimed(findings@.take(i as int), *settings),
            table.total() <= i * u64::MAX,
        decreases findings.len() - i,
    {
        proof {
            assert(findings@.take(i + 1).drop_last() =~= findings@.take(i as int));
            assert(i * u64::MAX + u64::MAX <= u128::MAX) by (nonlinear_arith)
                requires
                    i <= u64::MAX,
            ;
        }
        let finding = &findings[i];
        if settings.is_identity(&finding.handle) {
            match index.get(&finding.contest) {
                None => {
                    proof {
                        lemma_awards_violation_stays(index@, findings@, *settings, i + 1);
                    }
                    return Err(PreconditionViolation::UnknownContest);
                },
                Some(duration) => {
                    match allocate(duration.start, duration.end, finding.award) {
                        Err(violation) => {
                            proof {
                                lemma_awards_violation_stays(index@, findings@, *settings, i + 1);
                            }
                            return Err(violation);
                        },
                        Ok(allocation) => {
                            post(&mut table, allocation);
                        },
                    }
                },
            }
        }
        i += 1;
    }
    proof {
        assert(findings@.take(findings@.len() as int) =~= findings@);
    }
    Ok(table.into_series())
}

} // verus!
