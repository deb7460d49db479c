use extra_time::aggregate::{aggregate, SummaryError, TimeEntry, BASELINE_SECONDS};
use extra_time::day::{day_of_timestamp, Day};
use extra_time::duration::split_seconds;

fn day(year: i32, month: u32, d: u32) -> Day {
    Day { year, month, day: d }
}

fn entry(year: i32, month: u32, d: u32, duration_seconds: i64) -> TimeEntry {
    TimeEntry { day: day(year, month, d), duration_seconds }
}

#[test]
fn two_days_scenario() {
    let entries = vec![
        entry(2024, 1, 1, 3600),
        entry(2024, 1, 1, 21600),
        entry(2024, 1, 2, 28800),
    ];
    let s = aggregate(&entries, 25200);
    assert_eq!(s.days, vec![day(2024, 1, 1), day(2024, 1, 2)]);
    assert_eq!(s.buckets, vec![vec![3600, 21600], vec![28800]]);
    assert_eq!(s.totals, vec![25200, 28800]);
    assert_eq!(s.extras, vec![0, 3600]);
    assert_eq!(s.cumulative, vec![0, 3600]);
    assert_eq!(s.total_extra, 3600);
    assert_eq!(split_seconds(s.total_extra), (1, 0, 0));
}

#[test]
fn single_short_day_is_negative() {
    let entries = vec![entry(2024, 3, 5, 18000)];
    let s = aggregate(&entries, BASELINE_SECONDS);
    assert_eq!(s.extras, vec![-7200]);
    assert_eq!(s.cumulative, vec![-7200]);
    assert_eq!(s.total_extra, -7200);
}

#[test]
fn empty_input_gives_nothing() {
    let entries: Vec<TimeEntry> = Vec::new();
    let s = aggregate(&entries, BASELINE_SECONDS);
    assert!(s.days.is_empty());
    assert!(s.buckets.is_empty());
    assert!(s.totals.is_empty());
    assert!(s.extras.is_empty());
    assert!(s.cumulative.is_empty());
    assert_eq!(s.total_extra, 0);
}

#[test]
fn last_cumulative_equals_sum_of_extras() {
    let entries = vec![
        entry(2024, 2, 3, 30000),
        entry(2024, 2, 1, 10000),
        entry(2024, 2, 2, 25200),
        entry(2024, 2, 1, 5000),
    ];
    let s = aggregate(&entries, BASELINE_SECONDS);
    let sum: i64 = s.extras.iter().sum();
    assert_eq!(*s.cumulative.last().unwrap(), sum);
    assert_eq!(s.total_extra, sum);
    assert_eq!(s.cumulative, vec![-10200, -10200, -5400]);
}

#[test]
fn extra_is_total_minus_baseline() {
    let entries = vec![
        entry(2023, 12, 31, 100),
        entry(2024, 1, 1, 40000),
    ];
    let s = aggregate(&entries, 1000);
    for k in 0..s.days.len() {
        assert_eq!(s.extras[k], s.totals[k] - 1000);
    }
    assert_eq!(s.extras, vec![-900, 39000]);
}

#[test]
fn days_come_out_ascending_whatever_the_input_order() {
    let entries = vec![
        entry(2024, 5, 2, 1),
        entry(2023, 7, 9, 2),
        entry(2024, 1, 30, 3),
        entry(2024, 5, 1, 4),
        entry(2023, 7, 9, 5),
    ];
    let s = aggregate(&entries, BASELINE_SECONDS);
    assert_eq!(
        s.days,
        vec![day(2023, 7, 9), day(2024, 1, 30), day(2024, 5, 1), day(2024, 5, 2)]
    );
    assert_eq!(s.buckets[0], vec![2, 5]);
    assert_eq!(s.totals, vec![7, 3, 4, 1]);
}

#[test]
fn baseline_is_a_parameter() {
    let entries = vec![entry(2024, 1, 1, 3600)];
    assert_eq!(aggregate(&entries, 0).total_extra, 3600);
    assert_eq!(aggregate(&entries, 3600).total_extra, 0);
    assert_eq!(BASELINE_SECONDS, 25200);
}

#[test]
fn lookups_by_day() {
    let entries = vec![entry(2024, 1, 1, 30000), entry(2024, 1, 2, 20000)];
    let s = aggregate(&entries, BASELINE_SECONDS);
    assert_eq!(s.total_of(&day(2024, 1, 2)), Ok(20000));
    assert_eq!(s.extra_of(&day(2024, 1, 1)), Ok(4800));
    assert_eq!(s.cumulative_of(&day(2024, 1, 2)), Ok(-400));
    assert_eq!(s.position_of(&day(2024, 1, 2)), Some(1));
}

#[test]
fn lookup_of_absent_day_fails() {
    let entries = vec![entry(2024, 1, 1, 30000)];
    let s = aggregate(&entries, BASELINE_SECONDS);
    assert_eq!(s.total_of(&day(2024, 1, 3)), Err(SummaryError::MissingDayTotal));
    assert_eq!(s.extra_of(&day(2024, 1, 3)), Err(SummaryError::MissingDayTotal));
    assert_eq!(s.cumulative_of(&day(2024, 1, 3)), Err(SummaryError::MissingDayTotal));
    assert_eq!(s.position_of(&day(2024, 1, 3)), None);
}

#[test]
fn day_order() {
    assert!(day(2023, 12, 31).is_before(&day(2024, 1, 1)));
    assert!(day(2024, 1, 31).is_before(&day(2024, 2, 1)));
    assert!(day(2024, 2, 1).is_before(&day(2024, 2, 2)));
    assert!(!day(2024, 2, 2).is_before(&day(2024, 2, 2)));
    assert!(!day(2024, 3, 1).is_before(&day(2024, 2, 29)));
}

#[test]
fn timestamps_give_their_local_day() {
    assert_eq!(day_of_timestamp("2024-01-01T10:00:00+02:00"), Some(day(2024, 1, 1)));
    assert_eq!(day_of_timestamp("2024-02-29T23:30:00-05:00"), Some(day(2024, 2, 29)));
    assert_eq!(day_of_timestamp("2023-06-15T00:15:00Z"), Some(day(2023, 6, 15)));
}

#[test]
fn malformed_timestamps_give_no_day() {
    assert_eq!(day_of_timestamp("not a date"), None);
    assert_eq!(day_of_timestamp("2024-13-01T10:00:00Z"), None);
    assert_eq!(day_of_timestamp(""), None);
}

#[test]
fn split_positive_seconds() {
    assert_eq!(split_seconds(0), (0, 0, 0));
    assert_eq!(split_seconds(3661), (1, 1, 1));
    assert_eq!(split_seconds(7199), (1, 59, 59));
    assert_eq!(split_seconds(59), (0, 0, 59));
}

#[test]
fn split_negative_seconds_keeps_one_sign() {
    assert_eq!(split_seconds(-3700), (-1, -1, -40));
    assert_eq!(split_seconds(-7200), (-2, 0, 0));
    assert_eq!(split_seconds(-59), (0, 0, -59));
    assert_eq!(split_seconds(i64::MIN), (-2562047788015215, -30, -8));
}
