use chrono::NaiveDate;
use zinzen_scheduler::interval::{add_intervals, normalize, reduce, subtract_intervals, Interval};
use zinzen_scheduler::slot::Slot;
use zinzen_scheduler::time::{day_number, day_start, hour, hours_from_to, seconds_of_day, weekday, with_hour};
use zinzen_scheduler::timeline::Timeline;
use zinzen_scheduler::timeline_filter::apply_filter;
use zinzen_scheduler::timing::{Day, TimeFilter};

fn at(year: i32, month: u32, day: u32, hour: u32, minute: u32) -> i64 {
    NaiveDate::from_ymd_opt(year, month, day).unwrap().and_hms_opt(hour, minute, 0).unwrap().and_utc().timestamp()
}

fn iv(start: usize, end: usize) -> Interval {
    Interval { start, end }
}

#[test]
fn time_of_day_arithmetic() {
    let t = at(2023, 5, 1, 13, 45);
    assert_eq!(hour(t), 13);
    assert_eq!(seconds_of_day(t), 13 * 3600 + 45 * 60);
    assert_eq!(day_start(t), at(2023, 5, 1, 0, 0));
    assert_eq!(day_number(t), at(2023, 5, 1, 0, 0) / 86400);
    assert_eq!(with_hour(t, 9), at(2023, 5, 1, 9, 45));
    assert_eq!(weekday(t), 0);
    assert_eq!(weekday(at(2023, 5, 7, 0, 0)), 6);
    assert_eq!(hours_from_to(at(2023, 5, 1, 1, 0), at(2023, 5, 1, 4, 30)), 3);
    assert_eq!(hours_from_to(at(2023, 5, 1, 4, 30), at(2023, 5, 1, 1, 0)), -3);
    let before_1970 = -1;
    assert_eq!(hour(before_1970), 23);
    assert_eq!(day_start(before_1970), -86400);
}

#[test]
fn reduce_gives_runs_of_compatible_hours() {
    assert_eq!(reduce(&[false, true, true, false, true]), vec![iv(1, 3), iv(4, 5)]);
    assert_eq!(reduce(&[true, true]), vec![iv(0, 2)]);
    assert!(reduce(&[false, false]).is_empty());
    assert!(reduce(&[]).is_empty());
}

#[test]
fn subtract_cuts_and_splits() {
    assert_eq!(subtract_intervals(vec![iv(0, 10)], &vec![iv(3, 5)]), vec![iv(0, 3), iv(5, 10)]);
    assert_eq!(subtract_intervals(vec![iv(0, 10)], &vec![iv(0, 10)]), vec![]);
    assert_eq!(subtract_intervals(vec![iv(0, 4), iv(6, 9)], &vec![]), vec![iv(0, 4), iv(6, 9)]);
}

#[test]
fn normalize_sorts_and_merges() {
    let mut v = vec![iv(6, 8), iv(0, 2), iv(2, 3), iv(7, 10)];
    normalize(&mut v);
    assert_eq!(v, vec![iv(0, 3), iv(6, 10)]);
    assert_eq!(add_intervals(vec![iv(4, 5)], vec![iv(0, 1), iv(1, 4)]), vec![iv(0, 5)]);
}

#[test]
fn apply_filter_bounds_days_and_leaves_out() {
    let timeline = Timeline { slots: vec![Slot { start: at(2023, 5, 1, 0, 0), end: at(2023, 5, 4, 0, 0) }] };
    let filter = TimeFilter {
        after_time: Some(9),
        before_time: Some(17),
        on_days: Some(vec![Day::Mon, Day::Wed]),
        not_on: Some(vec![Slot { start: at(2023, 5, 3, 10, 0), end: at(2023, 5, 3, 12, 0) }]),
    };
    let result = apply_filter(&timeline, &filter);
    assert_eq!(
        result.slots,
        vec![
            Slot { start: at(2023, 5, 1, 9, 0), end: at(2023, 5, 1, 17, 0) },
            Slot { start: at(2023, 5, 3, 9, 0), end: at(2023, 5, 3, 10, 0) },
            Slot { start: at(2023, 5, 3, 12, 0), end: at(2023, 5, 3, 17, 0) },
        ]
    );
}

#[test]
fn apply_filter_without_bounds_keeps_the_timeline() {
    let timeline = Timeline { slots: vec![Slot { start: at(2023, 5, 1, 0, 0), end: at(2023, 5, 2, 0, 0) }] };
    let filter = TimeFilter { after_time: None, before_time: None, on_days: None, not_on: None };
    assert_eq!(apply_filter(&timeline, &filter), timeline);
}
