use chrono::NaiveDateTime;
use std::str::FromStr;
use zinzen_scheduler::date::{DateTime, DateTimeRange};
use zinzen_scheduler::date::DateTimeRangeContainerResult::{FitAtEnd, FitAtStart, FitInBetween, NoFit, PerfectFit};

fn parse(date: &str) -> DateTime {
    DateTime::from_naive_date_time(&NaiveDateTime::from_str(date).unwrap())
}

fn create_range(date: &str, span: usize) -> (DateTimeRange, DateTime, DateTime) {
    let date_start = parse(date);
    let date_end = date_start.inc_by(span);
    assert!(date_start < date_end);
    assert!(!(date_start >= date_end));
    (date_start.make_range(span), date_start, date_end)
}

#[test]
fn test_date_time_range() {
    let (range, date_start, date_end) = create_range("2022-01-01T00:00:00", 3);
    assert_eq!(range.start(), &date_start);
    assert_eq!(range.end(), &date_end);

    let range = range.shift(2);
    assert_eq!(range.start(), &date_start.inc_by(2));
    assert_eq!(range.end(), &date_end.inc_by(2));

    let date_between = parse("2022-01-01T04:00:00");
    assert!(range.contains_date_time(&date_between));
    let date_between = parse("2022-01-01T03:00:00");
    assert!(range.contains_date_time(&date_between));
    let date_between = parse("2022-01-01T01:00:00");
    assert!(!range.contains_date_time(&date_between));
    let date_between = parse("2022-01-01T05:00:00");
    assert!(!range.contains_date_time(&date_between));
}

#[test]
fn test_date_time_range_contains() {
    let date_start = parse("2022-01-01T03:00:00");
    let range = date_start.make_range(3);

    let range1 = parse("2022-01-01T04:00:00").make_range(1);
    assert!(range.contains(&range1));

    let range1 = parse("2022-01-01T02:00:00").make_range(6);
    assert!(!range.contains(&range1));

    let range1 = parse("2022-01-01T02:00:00").make_range(4);
    assert!(!range.contains(&range1));

    let range1 = parse("2022-01-01T03:00:00").make_range(4);
    assert!(!range.contains(&range1));
}

#[test]
fn test_is_fitting() {
    let (ref_range, _, _) = create_range("2022-01-01T00:00:00", 3);

    let (range, _, _) = create_range("2022-01-01T00:00:00", 3);
    assert_eq!(ref_range.is_fitting(&range), PerfectFit);

    let (range, _, _) = create_range("2022-01-01T00:00:00", 2);
    let (start, _, _) = create_range("2022-01-01T00:00:00", 2);
    let (end, _, _) = create_range("2022-01-01T02:00:00", 1);
    assert_eq!(ref_range.is_fitting(&range), FitAtStart(start, end));

    let (range, _, _) = create_range("2022-01-01T01:00:00", 2);
    let (start, _, _) = create_range("2022-01-01T00:00:00", 1);
    let (end, _, _) = create_range("2022-01-01T01:00:00", 2);
    assert_eq!(ref_range.is_fitting(&range), FitAtEnd(start, end));

    let (range, _, _) = create_range("2022-01-01T01:00:00", 1);
    let (start, _, _) = create_range("2022-01-01T00:00:00", 1);
    let (mid, _, _) = create_range("2022-01-01T01:00:00", 1);
    let (end, _, _) = create_range("2022-01-01T02:00:00", 1);
    assert_eq!(ref_range.is_fitting(&range), FitInBetween(start, mid, end));

    let (range, _, _) = create_range("2022-01-01T00:00:00", 5);
    assert_eq!(ref_range.is_fitting(&range), NoFit);
}

#[test]
fn date_time_floors_to_the_hour() {
    let d = parse("2022-01-01T03:45:10");
    assert_eq!(d, parse("2022-01-01T03:00:00"));
    assert_eq!(d.timestamp() % 3600, 0);
}

#[test]
fn date_time_day_bounds() {
    let d = parse("2022-01-01T03:00:00");
    assert_eq!(d.start_of_day(), parse("2022-01-01T00:00:00"));
    assert_eq!(d.end_of_day(), parse("2022-01-02T00:00:00"));
    assert_eq!(d.span_of_day(), 24);
    assert_eq!(d.span_by(&parse("2022-01-01T07:00:00")), 4);
    assert_eq!(parse("2022-01-01T07:00:00").span_by(&d), 0);
}

#[test]
fn date_time_range_new_keeps_its_ends() {
    let a = parse("2022-01-01T05:00:00");
    let b = parse("2022-01-01T02:00:00");
    let r = DateTimeRange::new(a, b);
    assert_eq!(r.start(), &a);
    assert_eq!(r.end(), &b);
    assert_eq!(r.span(), 0);
    let forward = DateTimeRange::new(b, a);
    assert_eq!(forward.span(), 3);
    assert_eq!(b.make_range(5).span(), 5);
}
