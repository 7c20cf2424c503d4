//! The participation series: how many distinct participants the contests
//! that start at an instant had.
//!
//! A contest's participants are the handles under which findings were filed
//! for it, each counted once. Each contest is counted once, at the start that
//! the contest table keeps for its identifier: of the rows that carry one
//! identifier, the last that can be read stands for the contest, and the
//! others add nothing. A contest without findings adds nothing. Where
//! several contests start at the same instant, their counts are added up. A
//! finding for a contest that the contest table does not hold ends the run.

use crate::allocation::PreconditionViolation;
use crate::contests::{contest_book, ContestIndex};
use crate::records::{contest_duration_of, ContestDuration, ContestRaw, Finding};
use crate::table::{amount_at, ascending, book_of, credited, lemma_place_is_unique, Table};
use crate::time::Instant;
use vstd::prelude::*;

verus! {

/// Distinct participants per contest start, in ascending order of the
/// starts, each start once.
pub type ContestParticipation = Vec<(Instant, u128)>;

/// The handles under which `findings` were filed for the contest `id`.
pub open spec fn handles_in(findings: Seq<Finding>, id: Seq<char>) -> Set<Seq<char>> {
    Set::new(
        |handle: Seq<char>|
            exists|i: int|
                0 <= i < findings.len() && (#[trigger] findings[i]).contest@ == id
                    && findings[i].handle@ == handle,
    )
}

/// Some finding names a contest that `known` does not hold.
pub open spec fn names_unknown_contest(
    known: Map<Seq<char>, ContestDuration>,
    findings: Seq<Finding>,
) -> bool {
    exists|i: int|
        0 <= i < findings.len() && !known.dom().contains((#[trigger] findings[i]).contest@)
}

/// Row `i` can be read and no later row that can be read carries its
/// identifier: it is the row that stands for its contest.
pub open spec fn stands(contests: Seq<ContestRaw>, i: int) -> bool {
    &&& 0 <= i < contests.len()
    &&& contest_duration_of(contests[i]) is Ok
    &&& forall|j: int|
        i < j < contests.len() && contest_duration_of(#[trigger] contests[j]) is Ok
            ==> contests[j].id@ != contests[i].id@
}

/// What row `i` adds to the count of its start: the number of distinct
/// participants of its contest where the row stands for the contest, and
/// nothing where it does not.
pub open spec fn row_count(contests: Seq<ContestRaw>, findings: Seq<Finding>, i: int) -> nat {
    if stands(contests, i) {
        handles_in(findings, contests[i].id@).len()
    } else {
        0
    }
}

/// The number of distinct participants per contest start that the first
/// `upto` rows of `contests` give with `findings`: what each row adds is
/// added, in turn, to what its start has so far. A row that adds nothing
/// makes no entry.
pub open spec fn participation_book(
    contests: Seq<ContestRaw>,
    findings: Seq<Finding>,
    upto: int,
) -> Map<Instant, nat>
    decreases upto,
{
    if upto <= 0 {
        Map::empty()
    } else {
        let earlier = participation_book(contests, findings, upto - 1);
        let wardens = row_count(contests, findings, upto - 1);
        if wardens > 0 {
            credited(earlier, contest_duration_of(contests[upto - 1])->Ok_0.start, wardens)
        } else {
            earlier
        }
    }
}

/// What a row of the contest dataset gives when it is read.
pub open spec fn read_row(row: ContestRaw) -> Option<ContestDuration> {
    match contest_duration_of(row) {
        Ok(duration) => Some(duration),
        Err(_) => None,
    }
}

/// The handles of one more finding: the same set where the finding is for
/// another contest, and the set with the finding's handle where it is for
/// this one.
pub proof fn lemma_handles_step(findings: Seq<Finding>, id: Seq<char>)
    requires
        findings.len() > 0,
    ensures
        handles_in(findings, id) == (if findings.last().contest@ == id {
            handles_in(findings.drop_last(), id).insert(findings.last().handle@)
        } else {
            handles_in(findings.drop_last(), id)
        }),
{
    let earlier = findings.drop_last();
    let last = findings.len() - 1;
    let stepped = if findings.last().contest@ == id {
        handles_in(earlier, id).insert(findings.last().handle@)
    } else {
        handles_in(earlier, id)
    };
    assert forall|handle: Seq<char>| handles_in(findings, id).contains(handle) implies stepped.contains(
        handle,
    ) by {
        let i = choose|i: int|
            0 <= i < findings.len() && (#[trigger] findings[i]).contest@ == id
                && findings[i].handle@ == handle;
        if i < last {
            assert(earlier[i].contest@ == id && earlier[i].handle@ == handle);
        }
    }
    assert forall|handle: Seq<char>| stepped.contains(handle) implies handles_in(
        findings,
        id,
    ).contains(handle) by {
        if handles_in(earlier, id).contains(handle) {
            let i = choose|i: int|
                0 <= i < earlier.len() && (#[trigger] earlier[i]).contest@ == id
                    && earlier[i].handle@ == handle;
            assert(findings[i].contest@ == id && findings[i].handle@ == handle);
        } else {
            assert(findings[last].contest@ == id && findings[last].handle@ == handle);
        }
    }
    assert(handles_in(findings, id) =~= stepped);
}

/// The handles of a contest are finitely many, and there is one exactly if
/// some finding was filed for the contest.
pub proof fn lemma_handles_are_counted(findings: Seq<Finding>, id: Seq<char>)
    ensures
        handles_in(findings, id).finite(),
        handles_in(findings, id).len() <= findings.len(),
        handles_in(findings, id).len() > 0 <==> exists|i: int|
            0 <= i < findings.len() && (#[trigger] findings[i]).contest@ == id,
    decreases findings.len(),
{
    broadcast use vstd::set::group_set_axioms;

    if findings.len() == 0 {
        assert(handles_in(findings, id) =~= Set::<Seq<char>>::empty());
    } else {
        let earlier = findings.drop_last();
        let last = findings.len() - 1;
        lemma_handles_are_counted(earlier, id);
        lemma_handles_step(findings, id);
        if exists|i: int| 0 <= i < earlier.len() && (#[trigger] earlier[i]).contest@ == id {
            let i = choose|i: int| 0 <= i < earlier.len() && (#[trigger] earlier[i]).contest@ == id;
            assert(findings[i].contest@ == id);
        }
        if findings[last].contest@ != id {
            if exists|i: int| 0 <= i < findings.len() && (#[trigger] findings[i]).contest@ == id {
                let i = choose|i: int|
                    0 <= i < findings.len() && (#[trigger] findings[i]).contest@ == id;
                assert(earlier[i].contest@ == id);
            }
        }
    }
}

/// Two datasets whose rows add the same, row by row and at the same starts,
/// give the same book.
pub proof fn lemma_books_agree(
    contests: Seq<ContestRaw>,
    findings: Seq<Finding>,
    others: Seq<ContestRaw>,
    filed: Seq<Finding>,
    upto: int,
)
    requires
        forall|k: int|
            0 <= k < upto ==> #[trigger] row_count(contests, findings, k) == row_count(
                others,
                filed,
                k,
            ),
        forall|k: int|
            0 <= k < upto && #[trigger] row_count(contests, findings, k) > 0
                ==> contest_duration_of(contests[k]) == contest_duration_of(others[k]),
    ensures
        participation_book(contests, findings, upto) == participation_book(others, filed, upto),
    decreases upto,
{
    if upto > 0 {
        lemma_books_agree(contests, findings, others, filed, upto - 1);
        assert(row_count(contests, findings, upto - 1) == row_count(others, filed, upto - 1));
    }
}

/// A participant who appears again in the findings of a contest is counted
/// once: a finding whose contest and handle another finding already has
/// changes no contest's handles, no count, and not whether some contest is
/// unknown.
pub proof fn lemma_repeated_handle_counts_once(
    contests: Seq<ContestRaw>,
    findings: Seq<Finding>,
    again: Finding,
    upto: int,
)
    requires
        exists|i: int|
            0 <= i < findings.len() && (#[trigger] findings[i]).contest@ == again.contest@
                && findings[i].handle@ == again.handle@,
    ensures
        forall|id: Seq<char>| #[trigger]
            handles_in(findings.push(again), id) == handles_in(findings, id),
        participation_book(contests, findings.push(again), upto) == participation_book(
            contests,
            findings,
            upto,
        ),
        forall|known: Map<Seq<char>, ContestDuration>| #[trigger]
            names_unknown_contest(known, findings.push(again)) == names_unknown_contest(
                known,
                findings,
            ),
{
    let more = findings.push(again);
    assert(more.drop_last() =~= findings);
    assert forall|known: Map<Seq<char>, ContestDuration>| #[trigger]
        names_unknown_contest(known, more) == names_unknown_contest(known, findings) by {
        let twin = choose|i: int|
            0 <= i < findings.len() && (#[trigger] findings[i]).contest@ == again.contest@
                && findings[i].handle@ == again.handle@;
        if names_unknown_contest(known, more) {
            let i = choose|i: int|
                0 <= i < more.len() && !known.dom().contains((#[trigger] more[i]).contest@);
            if i < findings.len() {
                assert(findings[i] == more[i]);
            } else {
                assert(!known.dom().contains(findings[twin].contest@));
            }
        }
        if names_unknown_contest(known, findings) {
            let i = choose|i: int|
                0 <= i < findings.len() && !known.dom().contains(
                    (#[trigger] findings[i]).contest@,
                );
            assert(more[i] == findings[i]);
        }
    }
    assert forall|id: Seq<char>| #[trigger] handles_in(more, id) == handles_in(findings, id) by {
        lemma_handles_step(more, id);
        if again.contest@ == id {
            assert(handles_in(findings, id).contains(again.handle@));
            assert(handles_in(findings, id).insert(again.handle@) =~= handles_in(findings, id));
        }
    }
    assert forall|k: int| 0 <= k < upto implies #[trigger] row_count(contests, more, k)
        == row_count(contests, findings, k) by {
        if stands(contests, k) {
            assert(handles_in(more, contests[k].id@) == handles_in(findings, contests[k].id@));
        }
    }
    lemma_books_agree(contests, more, contests, findings, upto);
}

/// Of the rows that carry one identifier only the last that can be read is
/// counted: a row that a later readable row shares its identifier with adds
/// nothing.
pub proof fn lemma_only_the_last_row_of_a_contest_counts(
    contests: Seq<ContestRaw>,
    findings: Seq<Finding>,
    i: int,
    j: int,
)
    requires
        0 <= i < j < contests.len(),
        contest_duration_of(contests[j]) is Ok,
        contests[j].id@ == contests[i].id@,
    ensures
        !stands(contests, i),
        row_count(contests, findings, i) == 0,
{
}

/// The row that stands for a contest is the row that the contest table
/// keeps: the table holds the row's identifier, with the row's duration.
pub proof fn lemma_standing_row_is_in_the_table(contests: Seq<ContestRaw>, i: int)
    requires
        stands(contests, i),
    ensures
        contest_book(contests).dom().contains(contests[i].id@),
        contest_book(contests)[contests[i].id@] == contest_duration_of(contests[i])->Ok_0,
    decreases contests.len(),
{
    let last = contests.len() - 1;
    if i < last {
        let earlier = contests.drop_last();
        assert(earlier[i] == contests[i]);
        assert forall|j: int|
            i < j < earlier.len() && contest_duration_of(
                #[trigger] earlier[j],
            ) is Ok implies earlier[j].id@ != earlier[i].id@ by {
            assert(contests[j] == earlier[j]);
        }
        lemma_standing_row_is_in_the_table(earlier, i);
        if contest_duration_of(contests[last]) is Ok {
            assert(contests[last].id@ != contests[i].id@);
        }
    }
}

/// One more row leaves what a row before it adds as it was, unless it takes
/// the place of that row for a contest that has findings.
proof fn lemma_row_counts_are_kept(
    contests: Seq<ContestRaw>,
    findings: Seq<Finding>,
    next: ContestRaw,
    k: int,
)
    requires
        0 <= k < contests.len(),
        contest_duration_of(contests[k]) is Ok && contest_duration_of(next) is Ok
            && contests[k].id@ == next.id@ ==> handles_in(findings, next.id@).len() == 0,
    ensures
        row_count(contests.push(next), findings, k) == row_count(contests, findings, k),
{
    let more = contests.push(next);
    assert(more[k] == contests[k]);
    if stands(contests, k) && !stands(more, k) {
        let j = choose|j: int|
            k < j < more.len() && contest_duration_of(#[trigger] more[j]) is Ok && more[j].id@
                == more[k].id@;
        if j < contests.len() {
            assert(contests[j] == more[j]);
        }
    }
    if stands(more, k) && !stands(contests, k) {
        let j = choose|j: int|
            k < j < contests.len() && contest_duration_of(#[trigger] contests[j]) is Ok
                && contests[j].id@ == contests[k].id@;
        assert(more[j] == contests[j]);
    }
}

/// A contest for which no finding was filed adds nothing to the counts and
/// makes no entry.
pub proof fn lemma_contest_without_findings_adds_nothing(
    contests: Seq<ContestRaw>,
    findings: Seq<Finding>,
    idle: ContestRaw,
)
    requires
        forall|j: int| 0 <= j < findings.len() ==> (#[trigger] findings[j]).contest@ != idle.id@,
    ensures
        participation_book(contests.push(idle), findings, contests.len() as int + 1)
            == participation_book(contests, findings, contests.len() as int),
{
    let more = contests.push(idle);
    let n = contests.len() as int;
    lemma_handles_are_counted(findings, idle.id@);
    assert forall|k: int| 0 <= k < n implies #[trigger] row_count(more, findings, k) == row_count(
        contests,
        findings,
        k,
    ) by {
        lemma_row_counts_are_kept(contests, findings, idle, k);
    }
    assert forall|k: int| 0 <= k < n implies more[k] == contests[k] by {}
    lemma_books_agree(more, findings, contests, findings, n);
    assert(more[n] == idle);
}

/// Every entry of the participation book holds a count above zero, and
/// stands for a contest whose standing row starts at the entry's instant and
/// which has at least one finding.
pub proof fn lemma_entries_have_findings(
    contests: Seq<ContestRaw>,
    findings: Seq<Finding>,
    upto: int,
    start: Instant,
)
    requires
        participation_book(contests, findings, upto).dom().contains(start),
    ensures
        participation_book(contests, findings, upto)[start] > 0,
        exists|i: int, j: int|
            0 <= i < upto && 0 <= j < findings.len() && #[trigger] stands(contests, i)
                && contest_duration_of(contests[i])->Ok_0.start == start && (
            #[trigger] findings[j]).contest@ == contests[i].id@,
    decreases upto,
{
    if upto > 0 {
        let last = upto - 1;
        let wardens = row_count(contests, findings, last);
        if wardens > 0 && contest_duration_of(contests[last])->Ok_0.start == start {
            lemma_handles_are_counted(findings, contests[last].id@);
            let j = choose|j: int|
                0 <= j < findings.len() && (#[trigger] findings[j]).contest@ == contests[last].id@;
            assert(stands(contests, last) && findings[j].contest@ == contests[last].id@);
        } else {
            assert(participation_book(contests, findings, last).dom().contains(start));
            lemma_entries_have_findings(contests, findings, last, start);
            let (i, j) = choose|i: int, j: int|
                0 <= i < last && 0 <= j < findings.len() && #[trigger] stands(contests, i)
                    && contest_duration_of(contests[i])->Ok_0.start == start && (
                #[trigger] findings[j]).contest@ == contests[i].id@;
            assert(stands(contests, i) && findings[j].contest@ == contests[i].id@);
        }
    }
}

/// The counts of contests that start at the same instant are added up: one
/// more contest, under an identifier that no row before it carries, adds the
/// number of its distinct participants to what its start had.
pub proof fn lemma_same_start_adds_up(
    contests: Seq<ContestRaw>,
    findings: Seq<Finding>,
    next: ContestRaw,
)
    requires
        contest_duration_of(next) is Ok,
        handles_in(findings, next.id@).len() > 0,
        forall|k: int|
            0 <= k < contests.len() && contest_duration_of(#[trigger] contests[k]) is Ok
                ==> contests[k].id@ != next.id@,
    ensures
        participation_book(contests.push(next), findings, contests.len() as int + 1)[contest_duration_of(
            next,
        )->Ok_0.start] == amount_at(
            participation_book(contests, findings, contests.len() as int),
            contest_duration_of(next)->Ok_0.start,
        ) + handles_in(findings, next.id@).len(),
{
    let more = contests.push(next);
    let n = contests.len() as int;
    assert forall|k: int| 0 <= k < n implies #[trigger] row_count(more, findings, k) == row_count(
        contests,
        findings,
        k,
    ) by {
        lemma_row_counts_are_kept(contests, findings, next, k);
    }
    assert forall|k: int| 0 <= k < n implies more[k] == contests[k] by {}
    lemma_books_agree(more, findings, contests, findings, n);
    assert(more[n] == next);
    assert(stands(more, n));
}

/// Whether `handle` is among `seen`.
fn is_among(seen: &Vec<String>, handle: &String) -> (found: bool)
    ensures
        found == (exists|k: int| 0 <= k < seen@.len() && (#[trigger] seen@[k])@ == handle@),
{
    let mut k: usize = 0;
    while k < seen.len()
        invariant
            k <= seen@.len(),
            forall|m: int| 0 <= m < k ==> (#[trigger] seen@[m])@ != handle@,
        decreases seen.len() - k,
    {
        if seen[k] == *handle {
            return true;
        }
        k += 1;
    }
    false
}

/// The number of distinct handles under which `findings` were filed for the
/// contest `id`.
pub fn count_wardens(findings: &Vec<Finding>, id: &String) -> (wardens: usize)
    ensures
        wardens == handles_in(findings@, id@).len(),
        wardens > 0 <==> exists|i: int|
            0 <= i < findings@.len() && (#[trigger] findings@[i]).contest@ == id@,
{
    let mut seen: Vec<String> = Vec::new();
    let mut i: usize = 0;
    proof {
        lemma_handles_are_counted(findings@.take(0), id@);
    }
    while i < findings.len()
        invariant
            i <= findings.len(),
            seen@.len() <= i,
            handles_in(findings@.take(i as int), id@).finite(),
            handles_in(findings@.take(i as int), id@).len() == seen@.len(),
            forall|handle: Seq<char>|
                handles_in(findings@.take(i as int), id@).contains(handle) <==> exists|k: int|
                    0 <= k < seen@.len() && (#[trigger] seen@[k])@ == handle,
        decreases findings.len() - i,
    {
        broadcast use vstd::set::group_set_axioms;

        let finding = &findings[i];
        let ghost before = handles_in(findings@.take(i as int), id@);
        let ghost listed = seen@;
        proof {
            assert(findings@.take(i + 1).drop_last() =~= findings@.take(i as int));
            lemma_handles_step(findings@.take(i + 1), id@);
        }
        if finding.contest == *id {
            if !is_among(&seen, &finding.handle) {
                seen.push(finding.handle.clone());
                proof {
                    let after = handles_in(findings@.take(i + 1), id@);
                    assert(!before.contains(finding.handle@));
                    assert forall|handle: Seq<char>| after.contains(handle) implies exists|k: int|
                        0 <= k < seen@.len() && (#[trigger] seen@[k])@ == handle by {
                        if handle == finding.handle@ {
                            assert(seen@[listed.len() as int]@ == handle);
                        } else {
                            assert(before.contains(handle));
                            let k = choose|k: int|
                                0 <= k < listed.len() && (#[trigger] listed[k])@ == handle;
                            assert(seen@[k]@ == handle);
                        }
                    }
                    assert forall|handle: Seq<char>|
                        (exists|k: int|
                            0 <= k < seen@.len() && (#[trigger] seen@[k])@
                                == handle) implies after.contains(handle) by {
                        let k = choose|k: int|
                            0 <= k < seen@.len() && (#[trigger] seen@[k])@ == handle;
                        if k < listed.len() {
                            assert(listed[k]@ == handle);
                            assert(before.contains(handle));
                        }
                    }
                }
            } else {
                proof {
                    assert(before.contains(finding.handle@));
                    assert(before.insert(finding.handle@) =~= before);
                }
            }
        }
        i += 1;
    }
    proof {
        assert(findings@.take(findings@.len() as int) =~= findings@);
        lemma_handles_are_counted(findings@, id@);
    }
    seen.len()
}

/// Whether every finding names a contest that `index` holds.
pub fn all_contests_known(index: &ContestIndex, findings: &Vec<Finding>) -> (known: bool)
    ensures
        known == !names_unknown_contest(index@, findings@),
{
    let mut i: usize = 0;
    while i < findings.len()
        invariant
            i <= findings.len(),
            forall|k: int| 0 <= k < i ==> index@.dom().contains((#[trigger] findings@[k]).contest@),
        decreases findings.len() - i,
    {
        match index.get(&findings[i].contest) {
            Some(_) => {},
            None => {
                assert(!index@.dom().contains(findings@[i as int].contest@));
                return false;
            },
        }
        i += 1;
    }
    true
}

/// What each row of `contests` gives when it is read, row by row.
fn read_contests(contests: &Vec<ContestRaw>) -> (read: Vec<Option<ContestDuration>>)
    ensures
        read@.len() == contests@.len(),
        forall|k: int| 0 <= k < contests@.len() ==> #[trigger] read@[k] == read_row(contests@[k]),
{
    let mut read: Vec<Option<ContestDuration>> = Vec::new();
    let mut i: usize = 0;
    while i < contests.len()
        invariant
            i <= contests.len(),
            read@.len() == i,
            forall|k: int| 0 <= k < i ==> #[trigger] read@[k] == read_row(contests@[k]),
        decreases contests.len() - i,
    {
        match ContestDuration::from(&contests[i]) {
            Ok(duration) => read.push(Some(duration)),
            Err(_) => read.push(None),
        }
        i += 1;
    }
    read
}

/// Whether row `i` stands for its contest, given what each row gave when it
/// was read.
fn stands_at(
    contests: &Vec<ContestRaw>,
    read: &Vec<Option<ContestDuration>>,
    i: usize,
) -> (standing: bool)
    requires
        i < contests@.len(),
        read@.len() == contests@.len(),
        forall|k: int| 0 <= k < contests@.len() ==> #[trigger] read@[k] == read_row(contests@[k]),
    ensures
        standing == stands(contests@, i as int),
{
    assert(read@[i as int] == read_row(contests@[i as int]));
    match read[i] {
        None => {
            return false;
        },
        Some(_) => {},
    }
    let rows: usize = contests.len();
    let mut j: usize = i + 1;
    while j < rows
        invariant
            i < j <= rows,
            rows == contests@.len(),
            read@.len() == contests@.len(),
            forall|k: int|
                0 <= k < contests@.len() ==> #[trigger] read@[k] == read_row(contests@[k]),
            forall|m: int|
                i < m < j && contest_duration_of(#[trigger] contests@[m]) is Ok
                    ==> contests@[m].id@ != contests@[i as int].id@,
        decreases rows - j,
    {
        assert(read@[j as int] == read_row(contests@[j as int]));
        match read[j] {
            Some(_) => {
                if contests[j].id == contests[i].id {
                    assert(contest_duration_of(contests@[j as int]) is Ok);
                    return false;
                }
            },
            None => {},
        }
        j += 1;
    }
    true
}

/// The number of distinct participants per instant at which a contest
/// starts, in ascending order of those instants.
///
/// All findings are counted, whoever filed them. A finding for a contest
/// that the contest table does not hold ends the run with `UnknownContest`.
/// Otherwise each contest adds the number of its distinct participants to
/// the count of its start, once: of the rows that carry its identifier, the
/// last that can be read stands for it. Rows that cannot be read, rows that
/// a later row replaces, and contests without findings add nothing.
pub fn get_wardens_per_contest(
    contests: &Vec<ContestRaw>,
    findings: &Vec<Finding>,
) -> (series: Result<ContestParticipation, PreconditionViolation>)
    ensures
        series is Err <==> names_unknown_contest(contest_book(contests@), findings@),
        series is Err ==> series->Err_0 == PreconditionViolation::UnknownContest,
        series is Ok ==> ascending(series->Ok_0@),
        series is Ok ==> book_of(series->Ok_0@) == participation_book(
            contests@,
            findings@,
            contests@.len() as int,
        ),
        series is Ok ==> forall|i: int|
            0 <= i < series->Ok_0@.len() ==> (#[trigger] series->Ok_0@[i]).1 > 0,
{
    let index = ContestIndex::build(contests);
    if !all_contests_known(&index, findings) {
        return Err(PreconditionViolation::UnknownContest);
    }
    let read = read_contests(contests);
    let mut table: Table<Instant> = Table::new();
    let mut i: usize = 0;
    while i < contests.len()
        invariant
            i <= contests.len(),
            read@.len() == contests@.len(),
            forall|k: int|
                0 <= k < contests@.len() ==> #[trigger] read@[k] == read_row(contests@[k]),
            table.wf(),
            table@ == participation_book(contests@, findings@, i as int),
            table.total() <= i * u64::MAX,
            forall|start: Instant| table@.dom().contains(start) ==> 0 < #[trigger] table@[start],
        decreases contests.len() - i,
    {
        proof {
            assert(i * u64::MAX + u64::MAX <= u128::MAX) by (nonlinear_arith)
                requires
                    i <= u64::MAX,
            ;
            assert(read@[i as int] == read_row(contests@[i as int]));
        }
        match read[i] {
            Some(duration) => {
                if stands_at(contests, &read, i) {
                    let wardens = count_wardens(findings, &contests[i].id);
                    if wardens > 0 {
                        table.credit(duration.start, wardens as u64);
                    }
                }
            },
            None => {},
        }
        i += 1;
    }
    let series = table.into_series();
    proof {
        assert forall|k: int| 0 <= k < series@.len() implies (#[trigger] series@[k]).1 > 0 by {
            lemma_place_is_unique(series@, k);
        }
    }
    Ok(series)
}

} // verus!
