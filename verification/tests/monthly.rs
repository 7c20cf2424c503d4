use contest_stats::{
    get_monthly_awards, get_monthly_hours, Clockify, ContestRaw, Finding, MonthKey, Settings,
    PreconditionViolation,
};

fn month(year: i32, month: u32) -> MonthKey {
    MonthKey { year, month }
}

fn shift(label: &str, start_date: &str, start_time: &str, end_date: &str, end_time: &str) -> Clockify {
    Clockify {
        start_date: start_date.to_string(),
        start_time: start_time.to_string(),
        end_date: end_date.to_string(),
        end_time: end_time.to_string(),
        description: label.to_string(),
    }
}

fn contest(id: &str, start_time: &str, end_time: &str) -> ContestRaw {
    ContestRaw {
        id: id.to_string(),
        start_time: start_time.to_string(),
        end_time: end_time.to_string(),
    }
}

fn finding(contest: &str, handle: &str, award: u64) -> Finding {
    Finding { contest: contest.to_string(), handle: handle.to_string(), award }
}

fn total(series: &Vec<(MonthKey, u128)>) -> u128 {
    series.iter().map(|entry| entry.1).sum()
}

#[test]
fn hours_of_no_rows_are_an_empty_series() {
    assert_eq!(get_monthly_hours(&vec![], &Settings::standard()), Ok(vec![]));
}

#[test]
fn hours_within_one_month_are_added_up() {
    let rows = vec![
        shift("C4", "05.01.2021", "09:00", "05.01.2021", "17:30"),
        shift("Code423n4", "06.01.2021", "10:00", "06.01.2021", "11:00"),
    ];
    assert_eq!(
        get_monthly_hours(&rows, &Settings::standard()),
        Ok(vec![(month(2021, 1), 30_600 + 3_600)])
    );
}

#[test]
fn hours_across_the_end_of_january_are_split_at_midnight() {
    let rows = vec![shift("C4", "30.01.2021", "20:00", "01.02.2021", "04:00")];
    assert_eq!(
        get_monthly_hours(&rows, &Settings::standard()),
        Ok(vec![(month(2021, 1), 28 * 3600), (month(2021, 2), 4 * 3600)])
    );
}

#[test]
fn hours_of_four_before_and_four_after_midnight() {
    let rows = vec![shift("C4", "31.01.2021", "20:00", "01.02.2021", "04:00")];
    assert_eq!(
        get_monthly_hours(&rows, &Settings::standard()),
        Ok(vec![(month(2021, 1), 4 * 3600), (month(2021, 2), 4 * 3600)])
    );
}

#[test]
fn hours_with_other_labels_are_not_counted() {
    let rows = vec![
        shift("lunch", "05.01.2021", "12:00", "05.01.2021", "13:00"),
        shift("C4", "05.01.2021", "13:00", "05.01.2021", "14:00"),
        shift("c4", "05.01.2021", "14:00", "05.01.2021", "15:00"),
        shift("", "05.01.2021", "15:00", "05.01.2021", "16:00"),
    ];
    assert_eq!(get_monthly_hours(&rows, &Settings::standard()), Ok(vec![(month(2021, 1), 3_600)]));
}

#[test]
fn hours_of_malformed_rows_are_passed_over() {
    let rows = vec![
        shift("C4", "05.01.2021", "9 o'clock", "05.01.2021", "17:30"),
        shift("C4", "05.01.2021", "13:00", "05.01.2021", "14:00"),
        shift("C4", "2021-01-05", "13:00", "2021-01-05", "14:00"),
    ];
    assert_eq!(get_monthly_hours(&rows, &Settings::standard()), Ok(vec![(month(2021, 1), 3_600)]));
}

#[test]
fn hours_come_out_in_ascending_order_of_months() {
    let rows = vec![
        shift("C4", "28.03.2021", "08:00", "28.03.2021", "09:00"),
        shift("C4", "31.12.2020", "22:00", "01.01.2021", "02:00"),
        shift("C4", "17.02.2021", "08:00", "17.02.2021", "10:00"),
        shift("C4", "05.01.2021", "09:00", "05.01.2021", "10:00"),
        shift("C4", "29.03.2021", "08:00", "29.03.2021", "08:30"),
    ];
    let series = get_monthly_hours(&rows, &Settings::standard()).unwrap();
    assert_eq!(
        series,
        vec![
            (month(2020, 12), 7_200),
            (month(2021, 1), 7_200 + 3_600),
            (month(2021, 2), 7_200),
            (month(2021, 3), 3_600 + 1_800),
        ]
    );
    for pair in series.windows(2) {
        assert!(pair[0].0 < pair[1].0);
    }
    assert_eq!(total(&series), 3_600 + 14_400 + 7_200 + 3_600 + 1_800);
}

#[test]
fn hours_of_a_backward_shift_end_the_run() {
    let rows = vec![
        shift("C4", "05.01.2021", "09:00", "05.01.2021", "10:00"),
        shift("C4", "05.01.2021", "10:00", "05.01.2021", "09:00"),
    ];
    assert_eq!(get_monthly_hours(&rows, &Settings::standard()), Err(PreconditionViolation::NotForward));
    let rows = vec![shift("C4", "05.01.2021", "09:00", "05.01.2021", "09:00")];
    assert_eq!(get_monthly_hours(&rows, &Settings::standard()), Err(PreconditionViolation::NotForward));
}

#[test]
fn hours_of_a_shift_of_four_weeks_end_the_run() {
    let rows = vec![shift("C4", "01.01.2021", "00:00", "29.01.2021", "00:00")];
    assert_eq!(get_monthly_hours(&rows, &Settings::standard()), Err(PreconditionViolation::TooLong));
    let rows = vec![shift("C4", "01.01.2021", "00:01", "29.01.2021", "00:00")];
    assert_eq!(
        get_monthly_hours(&rows, &Settings::standard()),
        Ok(vec![(month(2021, 1), 2_419_200 - 60)])
    );
}

#[test]
fn hours_report_the_first_violation() {
    let rows = vec![
        shift("C4", "01.01.2021", "00:00", "29.01.2021", "00:00"),
        shift("C4", "05.01.2021", "10:00", "05.01.2021", "09:00"),
    ];
    assert_eq!(get_monthly_hours(&rows, &Settings::standard()), Err(PreconditionViolation::TooLong));
}

#[test]
fn hours_of_an_uncounted_bad_shift_do_no_harm() {
    let rows = vec![
        shift("other", "05.01.2021", "10:00", "05.01.2021", "09:00"),
        shift("C4", "05.01.2021", "09:00", "05.01.2021", "10:00"),
    ];
    assert_eq!(get_monthly_hours(&rows, &Settings::standard()), Ok(vec![(month(2021, 1), 3_600)]));
}

#[test]
fn hours_under_other_labels() {
    let settings = Settings::new("ada", "audit", "triage");
    let rows = vec![
        shift("audit", "05.01.2021", "09:00", "05.01.2021", "10:00"),
        shift("C4", "05.01.2021", "10:00", "05.01.2021", "11:00"),
        shift("triage", "05.02.2021", "10:00", "05.02.2021", "10:30"),
    ];
    assert_eq!(
        get_monthly_hours(&rows, &settings),
        Ok(vec![(month(2021, 1), 3_600), (month(2021, 2), 1_800)])
    );
}

#[test]
fn award_of_a_contest_from_february_into_march() {
    // February 2021 has twenty-eight days: two days of the contest lie before
    // the first of March and two after it.
    let contests = vec![contest("9", "2021-02-27T00:00:00Z", "2021-03-03T00:00:00Z")];
    let findings = vec![finding("9", "cmichel", 1000)];
    assert_eq!(
        get_monthly_awards(&contests, &findings, &Settings::standard()),
        Ok(vec![(month(2021, 2), 500), (month(2021, 3), 500)])
    );
}

#[test]
fn award_with_one_day_before_the_boundary_and_three_after() {
    let contests = vec![contest("9", "2021-02-28T00:00:00Z", "2021-03-04T00:00:00Z")];
    let findings = vec![finding("9", "cmichel", 1000)];
    assert_eq!(
        get_monthly_awards(&contests, &findings, &Settings::standard()),
        Ok(vec![(month(2021, 2), 250), (month(2021, 3), 750)])
    );
}

#[test]
fn award_for_an_unknown_contest_ends_the_run() {
    let contests = vec![contest("9", "2021-02-27T00:00:00Z", "2021-03-03T00:00:00Z")];
    let findings = vec![finding("9", "cmichel", 1000), finding("10", "cmichel", 5)];
    assert_eq!(
        get_monthly_awards(&contests, &findings, &Settings::standard()),
        Err(PreconditionViolation::UnknownContest)
    );
    assert_eq!(
        get_monthly_awards(&vec![], &findings, &Settings::standard()),
        Err(PreconditionViolation::UnknownContest)
    );
}

#[test]
fn award_of_a_contest_whose_row_is_malformed_is_unknown() {
    let contests = vec![contest("9", "2021-02-27T00:00:00Z", "not a time")];
    let findings = vec![finding("9", "cmichel", 1000)];
    assert_eq!(
        get_monthly_awards(&contests, &findings, &Settings::standard()),
        Err(PreconditionViolation::UnknownContest)
    );
}

#[test]
fn award_of_others_is_not_counted() {
    let contests = vec![contest("9", "2021-02-17T00:00:00Z", "2021-02-22T00:00:00Z")];
    let findings = vec![
        finding("9", "someone", 40),
        finding("9", "cmichel", 2),
        finding("unknown", "someone", 40),
    ];
    assert_eq!(
        get_monthly_awards(&contests, &findings, &Settings::standard()),
        Ok(vec![(month(2021, 2), 2)])
    );
}

#[test]
fn awards_are_added_up_per_month() {
    let contests = vec![
        contest("3", "2021-03-04T00:00:00Z", "2021-03-09T00:00:00Z"),
        contest("1", "2021-02-17T00:00:00Z", "2021-02-22T00:00:00Z"),
        contest("2", "2021-02-26T00:00:00Z", "2021-03-03T00:00:00Z"),
    ];
    let findings = vec![
        finding("3", "cmichel", 100),
        finding("1", "cmichel", 10),
        finding("2", "cmichel", 50),
        finding("1", "cmichel", 1),
        finding("2", "cmichel", 7),
    ];
    // Contest 2 runs five days, three of them in February.
    let series = get_monthly_awards(&contests, &findings, &Settings::standard()).unwrap();
    assert_eq!(series, vec![(month(2021, 2), 10 + 30 + 1 + 4), (month(2021, 3), 100 + 20 + 3)]);
    assert_eq!(total(&series), 100 + 10 + 50 + 1 + 7);
}

#[test]
fn award_of_nothing_still_gives_its_months_an_entry() {
    let contests = vec![contest("2", "2021-02-26T00:00:00Z", "2021-03-03T00:00:00Z")];
    let findings = vec![finding("2", "cmichel", 0)];
    assert_eq!(
        get_monthly_awards(&contests, &findings, &Settings::standard()),
        Ok(vec![(month(2021, 2), 0), (month(2021, 3), 0)])
    );
}

#[test]
fn award_goes_by_the_last_row_of_a_contest() {
    let contests = vec![
        contest("1", "2021-02-17T00:00:00Z", "2021-02-22T00:00:00Z"),
        contest("1", "2021-03-04T00:00:00Z", "2021-03-09T00:00:00Z"),
        contest("1", "2021-01-04T00:00:00Z", "oops"),
    ];
    let findings = vec![finding("1", "cmichel", 10)];
    assert_eq!(
        get_monthly_awards(&contests, &findings, &Settings::standard()),
        Ok(vec![(month(2021, 3), 10)])
    );
}

#[test]
fn award_of_a_contest_that_does_not_run_forward_ends_the_run() {
    let contests = vec![
        contest("1", "2021-02-22T00:00:00Z", "2021-02-17T00:00:00Z"),
        contest("2", "2021-02-01T00:00:00Z", "2021-03-01T00:00:00Z"),
    ];
    let standard = Settings::standard();
    assert_eq!(
        get_monthly_awards(&contests, &vec![finding("1", "cmichel", 10)], &standard),
        Err(PreconditionViolation::NotForward)
    );
    assert_eq!(
        get_monthly_awards(&contests, &vec![finding("2", "cmichel", 10)], &standard),
        Err(PreconditionViolation::TooLong)
    );
    // A bad contest that no counted finding names does no harm.
    assert_eq!(get_monthly_awards(&contests, &vec![finding("1", "x", 1)], &standard), Ok(vec![]));
}

#[test]
fn awards_of_the_largest_size_do_not_overflow() {
    let contests = vec![contest("2", "2021-02-26T00:00:00Z", "2021-03-03T00:00:00Z")];
    let findings = vec![
        finding("2", "cmichel", u64::MAX),
        finding("2", "cmichel", u64::MAX),
        finding("2", "cmichel", u64::MAX),
    ];
    let series = get_monthly_awards(&contests, &findings, &Settings::standard()).unwrap();
    assert_eq!(series.len(), 2);
    assert_eq!(total(&series), 3 * (u64::MAX as u128));
    assert_eq!(series[0].1, 3 * ((u64::MAX as u128) * 3 / 5));
}
