use chrono::NaiveDate;
use zinzen_scheduler::filter::{filter_not_on, filter_on_days, filter_timing};
use zinzen_scheduler::slot::Slot;
use zinzen_scheduler::timeline::Timeline;
use zinzen_scheduler::timing::Day;

fn at(year: i32, month: u32, day: u32, hour: u32) -> i64 {
    NaiveDate::from_ymd_opt(year, month, day)
        .unwrap()
        .and_hms_opt(hour, 0, 0)
        .unwrap()
        .and_utc()
        .timestamp()
}

fn mock_slot(hours: i64, year: i32, month: u32, day: u32, hour: u32) -> Slot {
    let start = at(year, month, day, hour);
    Slot { start, end: start + hours * 3600 }
}

fn timeline_of(slots: Vec<Slot>) -> Timeline {
    Timeline { slots }
}

/// One slot of `days` days from midnight of the given date.
fn mock_timeline(days: i64, year: i32, month: u32, day: u32) -> Timeline {
    timeline_of(vec![mock_slot(days * 24, year, month, day, 0)])
}

/// `days` slots of one day each from midnight of the given date.
fn mock_as_days(days: i64, year: i32, month: u32, day: u32) -> Timeline {
    let first = at(year, month, day, 0);
    timeline_of((0..days).map(|i| Slot { start: first + i * 86400, end: first + (i + 1) * 86400 }).collect())
}

#[test]
fn filter_not_on_test_when_timeline_is_empty() {
    let timeline = Timeline::new();
    let slots_to_filter: Vec<Slot> = vec![mock_slot(24, 2023, 5, 1, 0)];
    let result = filter_not_on(timeline.clone(), &slots_to_filter);
    assert_eq!(timeline, result);
}

#[test]
fn filter_not_on_test_when_empty_days() {
    let timeline = mock_timeline(5, 2023, 5, 1);
    let slots_to_filter: Vec<Slot> = vec![];
    let result = filter_not_on(timeline.clone(), &slots_to_filter);
    assert_eq!(timeline, result);
}

#[test]
fn filter_not_on_test_when_timeline_have_many_slots() {
    let slots_to_filter: Vec<Slot> = vec![mock_slot(5, 2023, 5, 2, 0)];
    let timeline = mock_as_days(5, 2023, 5, 1);
    let expected_result = timeline_of(vec![
        mock_slot(24, 2023, 5, 1, 0),
        mock_slot(19, 2023, 5, 2, 5),
        mock_slot(24, 2023, 5, 3, 0),
        mock_slot(24, 2023, 5, 4, 0),
        mock_slot(24, 2023, 5, 5, 0),
    ]);
    let result = filter_not_on(timeline, &slots_to_filter);
    assert_eq!(expected_result, result);
}

#[test]
fn test_timeline_have_many_slots_many_to_filter() {
    let slots_to_filter: Vec<Slot> = vec![mock_slot(5, 2023, 5, 2, 0), mock_slot(4, 2023, 5, 4, 13)];
    let timeline = mock_as_days(5, 2023, 5, 1);
    let expected_result = timeline_of(vec![
        mock_slot(24, 2023, 5, 1, 0),
        mock_slot(19, 2023, 5, 2, 5),
        mock_slot(24, 2023, 5, 3, 0),
        mock_slot(13, 2023, 5, 4, 0),
        mock_slot(7, 2023, 5, 4, 17),
        mock_slot(24, 2023, 5, 5, 0),
    ]);
    let result = filter_not_on(timeline, &slots_to_filter);
    assert_eq!(expected_result, result);
}

#[test]
fn test_i293_postpone_2() {
    let slots_to_filter: Vec<Slot> = vec![mock_slot(3, 2023, 4, 1, 0), mock_slot(1, 2023, 4, 1, 5)];
    let timeline = mock_as_days(6, 2023, 4, 1);
    let expected_result = timeline_of(vec![
        mock_slot(2, 2023, 4, 1, 3),
        mock_slot(18, 2023, 4, 1, 6),
        mock_slot(24, 2023, 4, 2, 0),
        mock_slot(24, 2023, 4, 3, 0),
        mock_slot(24, 2023, 4, 4, 0),
        mock_slot(24, 2023, 4, 5, 0),
        mock_slot(24, 2023, 4, 6, 0),
    ]);
    let result = filter_not_on(timeline, &slots_to_filter);
    assert_eq!(expected_result, result);
}

#[test]
fn filter_on_days_test_when_empty_days() {
    let timeline = mock_timeline(5, 2023, 5, 1);
    let days_to_filter: Vec<Day> = vec![];
    let result = filter_on_days(timeline.clone(), &days_to_filter);
    assert_eq!(timeline, result);
}

#[test]
fn filter_on_days_test_when_timeline_is_empty() {
    let timeline = Timeline::new();
    let days_to_filter: Vec<Day> = vec![Day::Mon];
    let result = filter_on_days(timeline.clone(), &days_to_filter);
    assert_eq!(timeline, result);
}

#[test]
fn filter_on_days_test_when_timeline_have_many_slots() {
    let days_to_filter: Vec<Day> = vec![Day::Mon, Day::Fri];
    let timeline = mock_as_days(15, 2023, 5, 1);
    let expected_result = timeline_of(vec![
        mock_slot(24, 2023, 5, 1, 0),
        mock_slot(24, 2023, 5, 5, 0),
        mock_slot(24, 2023, 5, 8, 0),
        mock_slot(24, 2023, 5, 12, 0),
        mock_slot(24, 2023, 5, 15, 0),
    ]);
    let result = filter_on_days(timeline, &days_to_filter);
    assert_eq!(expected_result, result);
}

#[test]
fn test_when_timeline_have_single_slot() {
    let days_to_filter: Vec<Day> = vec![Day::Sun, Day::Thu];
    let timeline = mock_timeline(15, 2023, 5, 1);
    let expected_result = timeline_of(vec![
        mock_slot(24, 2023, 5, 4, 0),
        mock_slot(24, 2023, 5, 7, 0),
        mock_slot(24, 2023, 5, 11, 0),
        mock_slot(24, 2023, 5, 14, 0),
    ]);
    let result = filter_on_days(timeline, &days_to_filter);
    assert_eq!(expected_result, result);
}

#[test]
fn test_normal_workday_issue() {
    let days_to_filter: Vec<Day> = vec![Day::Sun, Day::Mon, Day::Tue, Day::Wed, Day::Thu];
    let timeline = timeline_of((1..=15).map(|d| mock_slot(10, 2023, 5, d, 5)).collect());
    let expected_result =
        timeline_of([1, 2, 3, 4, 7, 8, 9, 10, 11, 14, 15].iter().map(|d| mock_slot(10, 2023, 5, *d, 5)).collect());
    let result = filter_on_days(timeline, &days_to_filter);
    assert_eq!(expected_result, result);
}

#[test]
fn test_timeline_is_empty() {
    let timeline = Timeline::new();
    let result = filter_timing(timeline.clone(), None, None);
    assert_eq!(timeline, result);
}

#[test]
fn test_timeline_is_empty_with_unbounded_timing() {
    let timeline = Timeline::new();
    let result = filter_timing(timeline.clone(), Some(5), Some(20));
    assert_eq!(timeline, result);
}

#[test]
fn filter_timing_timeline_test_unbounded() {
    let timeline = mock_timeline(5, 2023, 5, 1);
    let result = filter_timing(timeline.clone(), None, None);
    assert_eq!(timeline, result);
}

#[test]
fn filter_timing_test_aftertime_only() {
    let timeline = mock_timeline(5, 2023, 5, 1);
    let expected_result = timeline_of((1..=5).map(|d| mock_slot(24 - 5, 2023, 5, d, 5)).collect());
    let result = filter_timing(timeline, Some(5), None);
    assert_eq!(expected_result, result);
}

#[test]
fn test_beforetime_only() {
    let timeline = mock_timeline(5, 2023, 5, 1);
    let expected_result = timeline_of((1..=5).map(|d| mock_slot(20, 2023, 5, d, 0)).collect());
    let result = filter_timing(timeline, None, Some(20));
    assert_eq!(expected_result, result);
}

#[test]
fn filter_timing_timeline_test_bounded() {
    let timeline = mock_timeline(5, 2023, 5, 1);
    let expected_result = timeline_of((1..=5).map(|d| mock_slot(15, 2023, 5, d, 5)).collect());
    let result = filter_timing(timeline, Some(5), Some(20));
    assert_eq!(expected_result, result);
}

#[test]
fn filter_timing_timeline_test_overflow() {
    let after: u32 = 20;
    let before: u32 = 5;
    let mut timeline_slot = mock_slot(6 * 24, 2023, 4, 30, after);
    timeline_slot.end -= ((after - before) as i64) * 3600;
    let timeline = timeline_of(vec![timeline_slot]);
    let expected_result = timeline_of(vec![
        mock_slot(9, 2023, 4, 30, after),
        mock_slot(9, 2023, 5, 1, after),
        mock_slot(9, 2023, 5, 2, after),
        mock_slot(9, 2023, 5, 3, after),
        mock_slot(9, 2023, 5, 4, after),
        mock_slot(24, 2023, 5, 5, after),
    ]);
    let result = filter_timing(timeline, Some(after as usize), Some(before as usize));
    assert_eq!(expected_result, result);
}

#[test]
fn test_after_time_within_timeline_boundaries() {
    let timeline = timeline_of(vec![mock_slot(1, 2022, 4, 30, 10)]);
    let expected_result = timeline_of(vec![mock_slot(1, 2022, 4, 30, 10)]);
    let result = filter_timing(timeline, Some(1), None);
    assert_eq!(expected_result, result);
}

#[test]
fn test_unsplitted_timeline() {
    let days_to_filter: Vec<Day> = vec![Day::Mon, Day::Fri];
    let timeline = mock_timeline(15, 2023, 5, 1);
    let expected_result = timeline_of(
        [2, 3, 4, 6, 7, 9, 10, 11, 13, 14].iter().map(|d| mock_slot(24, 2023, 5, *d, 0)).collect(),
    );
    let result = zinzen_scheduler::new_filter::filter_on_days(timeline, &days_to_filter);
    assert_eq!(expected_result, result);
}
