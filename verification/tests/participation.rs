use contest_stats::{
    all_contests_known, count_wardens, get_wardens_per_contest, ContestIndex, ContestRaw, Finding,
    Instant, PreconditionViolation,
};

fn contest(id: &str, start_time: &str, end_time: &str) -> ContestRaw {
    ContestRaw {
        id: id.to_string(),
        start_time: start_time.to_string(),
        end_time: end_time.to_string(),
    }
}

fn finding(contest: &str, handle: &str) -> Finding {
    Finding { contest: contest.to_string(), handle: handle.to_string(), award: 1 }
}

const FEB_17: i64 = 1_613_520_000;
const FEB_26: i64 = 1_614_297_600;
const MAR_4: i64 = 1_614_816_000;
const MAR_10: i64 = 1_615_334_400;

#[test]
fn wardens_are_counted_once_each() {
    let findings = vec![
        finding("1", "ada"),
        finding("1", "bob"),
        finding("1", "ada"),
        finding("2", "cy"),
        finding("1", "ada"),
        finding("1", "bob"),
    ];
    assert_eq!(count_wardens(&findings, &"1".to_string()), 2);
    assert_eq!(count_wardens(&findings, &"2".to_string()), 1);
    assert_eq!(count_wardens(&findings, &"3".to_string()), 0);
    assert_eq!(count_wardens(&vec![], &"1".to_string()), 0);
}

#[test]
fn wardens_with_different_spelling_are_different() {
    let findings = vec![finding("1", "ada"), finding("1", "Ada"), finding("1", "ada ")];
    assert_eq!(count_wardens(&findings, &"1".to_string()), 3);
}

#[test]
fn participation_counts_distinct_handles_per_contest() {
    let contests = vec![
        contest("1", "2021-02-17T00:00:00Z", "2021-02-22T00:00:00Z"),
        contest("2", "2021-02-26T00:00:00Z", "2021-03-03T00:00:00Z"),
    ];
    let findings = vec![
        finding("1", "ada"),
        finding("2", "ada"),
        finding("1", "bob"),
        finding("1", "ada"),
        finding("1", "cmichel"),
    ];
    assert_eq!(
        get_wardens_per_contest(&contests, &findings),
        Ok(vec![(Instant::at_second(FEB_17), 3), (Instant::at_second(FEB_26), 1)])
    );
}

#[test]
fn participation_leaves_out_contests_without_findings() {
    let contests = vec![
        contest("1", "2021-02-17T00:00:00Z", "2021-02-22T00:00:00Z"),
        contest("2", "2021-02-26T00:00:00Z", "2021-03-03T00:00:00Z"),
        contest("3", "2021-03-04T00:00:00Z", "2021-03-09T00:00:00Z"),
    ];
    let findings = vec![finding("2", "ada")];
    assert_eq!(
        get_wardens_per_contest(&contests, &findings),
        Ok(vec![(Instant::at_second(FEB_26), 1)])
    );
    assert_eq!(get_wardens_per_contest(&contests, &vec![]), Ok(vec![]));
    assert_eq!(get_wardens_per_contest(&vec![], &vec![]), Ok(vec![]));
}

#[test]
fn participation_with_a_finding_for_an_unknown_contest_ends_the_run() {
    let findings = vec![finding("99", "alice")];
    assert_eq!(
        get_wardens_per_contest(&vec![], &findings),
        Err(PreconditionViolation::UnknownContest)
    );
    let contests = vec![
        contest("1", "2021-02-17T00:00:00Z", "2021-02-22T00:00:00Z"),
        contest("2", "2021-02-26T00:00:00Z", "2021-03-03T00:00:00Z"),
    ];
    let findings = vec![finding("2", "ada"), finding("4", "bob"), finding("1", "cy")];
    assert_eq!(
        get_wardens_per_contest(&contests, &findings),
        Err(PreconditionViolation::UnknownContest)
    );
}

#[test]
fn participation_does_not_know_a_contest_whose_row_cannot_be_read() {
    let contests = vec![
        contest("1", "17.02.2021", "2021-02-22T00:00:00Z"),
        contest("3", "2021-03-04T00:00:00Z", "2021-03-09T00:00:00Z"),
    ];
    let findings = vec![finding("1", "ada"), finding("3", "bob")];
    assert_eq!(
        get_wardens_per_contest(&contests, &findings),
        Err(PreconditionViolation::UnknownContest)
    );
}

#[test]
fn every_finding_is_asked_for_its_contest() {
    let contests = vec![
        contest("1", "2021-02-17T00:00:00Z", "2021-02-22T00:00:00Z"),
        contest("2", "2021-02-26T00:00:00Z", "never"),
    ];
    let index = ContestIndex::build(&contests);
    assert!(all_contests_known(&index, &vec![]));
    assert!(all_contests_known(&index, &vec![finding("1", "ada"), finding("1", "bob")]));
    assert!(!all_contests_known(&index, &vec![finding("1", "ada"), finding("2", "bob")]));
    assert!(!all_contests_known(&index, &vec![finding("", "ada")]));
    assert!(!all_contests_known(&ContestIndex::build(&vec![]), &vec![finding("1", "ada")]));
}

#[test]
fn participation_comes_out_in_ascending_order_of_starts() {
    let contests = vec![
        contest("3", "2021-03-04T00:00:00Z", "2021-03-09T00:00:00Z"),
        contest("1", "2021-02-17T00:00:00Z", "2021-02-22T00:00:00Z"),
        contest("2", "2021-02-26T00:00:00Z", "2021-03-03T00:00:00Z"),
        contest("1b", "2021-02-17T00:00:00.5Z", "2021-02-22T00:00:00Z"),
    ];
    let findings = vec![
        finding("3", "ada"),
        finding("2", "ada"),
        finding("2", "bob"),
        finding("1", "ada"),
        finding("1b", "x"),
        finding("1b", "y"),
        finding("1b", "z"),
    ];
    assert_eq!(
        get_wardens_per_contest(&contests, &findings),
        Ok(vec![
            (Instant::at_second(FEB_17), 1),
            (Instant { seconds: FEB_17, nanos: 500_000_000 }, 3),
            (Instant::at_second(FEB_26), 2),
            (Instant::at_second(MAR_4), 1),
        ])
    );
}

#[test]
fn participation_of_contests_with_the_same_start_is_added_up() {
    let contests = vec![
        contest("1", "2021-03-10T00:00:00Z", "2021-03-15T00:00:00Z"),
        contest("2", "2021-03-10T00:00:00Z", "2021-03-17T00:00:00Z"),
    ];
    let findings = vec![finding("1", "alice"), finding("1", "bob"), finding("2", "carol")];
    assert_eq!(
        get_wardens_per_contest(&contests, &findings),
        Ok(vec![(Instant::at_second(MAR_10), 3)])
    );
}

#[test]
fn participation_counts_a_participant_once_for_each_contest() {
    let contests = vec![
        contest("1", "2021-02-17T00:00:00Z", "2021-02-22T00:00:00Z"),
        contest("2", "2021-02-17T00:00:00Z", "2021-02-20T00:00:00Z"),
        contest("3", "2021-02-17T00:00:00Z", "2021-02-21T00:00:00Z"),
    ];
    let findings = vec![
        finding("1", "ada"),
        finding("2", "ada"),
        finding("2", "bob"),
        finding("2", "ada"),
    ];
    // Contest 3 has no findings and adds nothing; ada took part in two contests.
    assert_eq!(
        get_wardens_per_contest(&contests, &findings),
        Ok(vec![(Instant::at_second(FEB_17), 3)])
    );
}

#[test]
fn participation_counts_a_contest_once_at_its_last_row() {
    let contests = vec![
        contest("1", "2021-02-17T00:00:00Z", "2021-02-22T00:00:00Z"),
        contest("1", "2021-02-17T00:00:00Z", "2021-02-22T00:00:00Z"),
        contest("1", "2021-03-04T00:00:00Z", "2021-03-09T00:00:00Z"),
    ];
    let findings = vec![finding("1", "ada"), finding("1", "bob")];
    assert_eq!(
        get_wardens_per_contest(&contests, &findings),
        Ok(vec![(Instant::at_second(MAR_4), 2)])
    );
}

#[test]
fn participation_of_a_contest_with_two_rows_goes_by_the_later() {
    let contests = vec![
        contest("1", "2021-01-10T00:00:00Z", "2021-01-15T00:00:00Z"),
        contest("1", "2021-03-10T00:00:00Z", "2021-03-15T00:00:00Z"),
    ];
    let findings = vec![finding("1", "alice")];
    assert_eq!(
        get_wardens_per_contest(&contests, &findings),
        Ok(vec![(Instant::at_second(MAR_10), 1)])
    );
}

#[test]
fn participation_of_a_row_given_twice_is_counted_once() {
    let contests = vec![
        contest("1", "2021-02-17T00:00:00Z", "2021-02-22T00:00:00Z"),
        contest("1", "2021-02-17T00:00:00Z", "2021-02-22T00:00:00Z"),
    ];
    let findings = vec![finding("1", "ada"), finding("1", "bob")];
    assert_eq!(
        get_wardens_per_contest(&contests, &findings),
        Ok(vec![(Instant::at_second(FEB_17), 2)])
    );
}

#[test]
fn participation_is_not_moved_by_a_later_row_that_cannot_be_read() {
    let contests = vec![
        contest("1", "2021-02-17T00:00:00Z", "2021-02-22T00:00:00Z"),
        contest("2", "2021-02-26T00:00:00Z", "2021-03-03T00:00:00Z"),
        contest("1", "2021-03-04T00:00:00Z", "whenever"),
    ];
    let findings = vec![finding("1", "ada"), finding("2", "bob"), finding("2", "cy")];
    assert_eq!(
        get_wardens_per_contest(&contests, &findings),
        Ok(vec![(Instant::at_second(FEB_17), 1), (Instant::at_second(FEB_26), 2)])
    );
}

#[test]
fn participation_adds_up_contests_that_a_replaced_row_started_with() {
    let contests = vec![
        contest("1", "2021-02-17T00:00:00Z", "2021-02-22T00:00:00Z"),
        contest("2", "2021-02-17T00:00:00Z", "2021-02-22T00:00:00Z"),
        contest("3", "2021-03-04T00:00:00Z", "2021-03-09T00:00:00Z"),
        contest("1", "2021-03-04T00:00:00Z", "2021-03-09T00:00:00Z"),
    ];
    let findings = vec![
        finding("1", "ada"),
        finding("1", "bob"),
        finding("2", "cy"),
        finding("3", "ada"),
    ];
    assert_eq!(
        get_wardens_per_contest(&contests, &findings),
        Ok(vec![(Instant::at_second(FEB_17), 1), (Instant::at_second(MAR_4), 3)])
    );
}

#[test]
fn participation_passes_over_malformed_contests() {
    let contests = vec![
        contest("1", "17.02.2021", "2021-02-22T00:00:00Z"),
        contest("2", "2021-02-26T00:00:00Z", "never"),
        contest("3", "2021-03-04T00:00:00Z", "2021-03-09T00:00:00Z"),
        contest("3", "2021-03-05T00:00:00Z", ""),
    ];
    let findings = vec![finding("3", "bob")];
    assert_eq!(
        get_wardens_per_contest(&contests, &findings),
        Ok(vec![(Instant::at_second(MAR_4), 1)])
    );
}

#[test]
fn participation_does_not_ask_that_a_contest_runs_forward() {
    let contests = vec![contest("1", "2021-02-22T00:00:00Z", "2021-02-17T00:00:00Z")];
    let findings = vec![finding("1", "ada")];
    assert_eq!(
        get_wardens_per_contest(&contests, &findings),
        Ok(vec![(Instant::at_second(1_613_952_000), 1)])
    );
}
