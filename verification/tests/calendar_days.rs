use chrono::NaiveDateTime;
use std::str::FromStr;
use zinzen_scheduler::calendar::{Calendar, Goal};
use zinzen_scheduler::date::{DateTime, DateTimeRange};
use zinzen_scheduler::day::Day;
use zinzen_scheduler::day_filter::DayFilter;

fn parse(date: &str) -> DateTime {
    DateTime::from_naive_date_time(&NaiveDateTime::from_str(date).unwrap())
}

fn range(start: &str, end: &str) -> DateTimeRange {
    DateTimeRange::new(parse(start), parse(end))
}

#[test]
fn new_day_has_no_taken_hours() {
    let day = Day::new(parse("2022-01-01T13:00:00"));
    assert_eq!(day.flexibility(1), 0);
    assert!(day.slots(1).is_empty());
    assert_eq!(day.differences(&Day::new(parse("2022-01-01T02:00:00"))), 0);
}

#[test]
fn occupied_hours_are_the_slots() {
    let mut day = Day::new(parse("2022-01-01T00:00:00"));
    day.occupy(&range("2022-01-01T03:00:00", "2022-01-01T05:00:00"));
    assert_eq!(day.flexibility(1), 2);
    assert_eq!(
        day.slots(1),
        vec![range("2022-01-01T03:00:00", "2022-01-01T04:00:00"), range("2022-01-01T04:00:00", "2022-01-01T05:00:00")]
    );
    assert_eq!(day.first_fit(1), range("2022-01-01T03:00:00", "2022-01-01T04:00:00"));
    assert_eq!(day.differences(&Day::new(parse("2022-01-01T00:00:00"))), 2);
    let window = range("2022-01-01T00:00:00", "2022-01-01T06:00:00");
    assert_eq!(day.overlap(&vec![window]), vec![(4, window)]);
}

#[test]
fn occupying_twice_is_occupying_once() {
    let r = range("2022-01-01T03:00:00", "2022-01-01T05:00:00");
    let mut once = Day::new(parse("2022-01-01T00:00:00"));
    once.occupy(&r);
    let mut twice = Day::new(parse("2022-01-01T00:00:00"));
    twice.occupy(&r);
    twice.occupy(&r);
    assert_eq!(once.differences(&twice), 0);
    assert_eq!(once, twice);
}

#[test]
fn occupying_outside_the_day_changes_nothing() {
    let mut day = Day::new(parse("2022-01-01T00:00:00"));
    day.occupy(&range("2022-01-02T03:00:00", "2022-01-02T05:00:00"));
    assert_eq!(day.flexibility(1), 0);
}

#[test]
fn occupy_inverse_range_takes_the_rest_of_the_day() {
    let mut day = Day::new(parse("2022-01-01T00:00:00"));
    day.occupy_inverse_range(&range("2022-01-01T08:00:00", "2022-01-01T20:00:00"));
    assert_eq!(day.flexibility(1), 12);
    assert_eq!(day.first_fit(1), range("2022-01-01T00:00:00", "2022-01-01T01:00:00"));
}

#[test]
fn day_filter_bounds_a_day() {
    let filter = DayFilter::from_str(Some("08:30"), Some("18:00"));
    let date = parse("2022-01-01T15:00:00");
    assert_eq!(filter.after(&date), parse("2022-01-01T08:00:00"));
    assert_eq!(filter.before(&date), parse("2022-01-01T18:00:00"));
}

#[test]
fn day_filter_without_a_valid_time_is_the_whole_day() {
    let filter = DayFilter::from_str(Some("25:00"), Some("xx:yy"));
    let date = parse("2022-01-01T15:00:00");
    assert_eq!(filter.after(&date), parse("2022-01-01T00:00:00"));
    assert_eq!(filter.before(&date), parse("2022-01-02T00:00:00"));
}

#[test]
fn day_filter_from_hours() {
    let filter = DayFilter::from_hours(6, 22);
    let date = parse("2022-03-04T00:00:00");
    assert_eq!(filter.after(&date), parse("2022-03-04T06:00:00"));
    assert_eq!(filter.before(&date), parse("2022-03-04T22:00:00"));
}

#[test]
fn goal_day_filter_defaults_to_the_day() {
    let goal = Goal::new("a", "read");
    assert_eq!(goal.id(), "a");
    assert_eq!(goal.title(), "read");
    assert_eq!(goal.min_span(), 1);
    let date = parse("2022-01-01T10:00:00");
    assert_eq!(goal.day_filter(&date), range("2022-01-01T00:00:00", "2022-01-02T00:00:00"));
}

#[test]
fn calendar_places_and_reports_a_day() {
    let start = parse("2022-01-01T00:00:00");
    let end = parse("2022-01-02T00:00:00");
    let goals = vec![Goal::new("b", "walk"), Goal::new("a", "read")];
    let mut calendar = Calendar::new(start, end, &goals);

    assert_eq!(calendar.flexibility_at(0).unwrap().goal.id(), "a");
    assert_eq!(calendar.flexibility_at(1).unwrap().goal.id(), "b");
    assert!(calendar.flexibility_at(2).is_none());
    assert_eq!(calendar.unprocessed(), vec![0, 1]);
    assert!(calendar.has_finished_scheduling());

    let (flex, rest) = calendar.take(0).unwrap();
    assert_eq!(flex.goal.id(), "a");
    assert_eq!(rest, vec![1]);

    let slot = range("2022-01-01T09:00:00", "2022-01-01T10:00:00");
    calendar.push_scheduled(0, slot);
    let (pos, flex_b, _) = calendar.flexibility(1).unwrap();
    assert_eq!((pos, flex_b), (1, 1));

    let result = calendar.result();
    assert_eq!(result.scheduled.len(), 1);
    assert_eq!(result.scheduled[0].day, start.timestamp() / 86400);
    let tasks = &result.scheduled[0].tasks;
    let summary: Vec<(usize, &str, usize, i64, i64)> =
        tasks.iter().map(|t| (t.taskid, t.goalid.as_str(), t.duration, t.start, t.deadline)).collect();
    let h = |x: &str| parse(x).timestamp();
    assert_eq!(
        summary,
        vec![
            (0, "free", 9, h("2022-01-01T00:00:00"), h("2022-01-01T09:00:00")),
            (1, "a", 1, h("2022-01-01T09:00:00"), h("2022-01-01T10:00:00")),
            (2, "free", 14, h("2022-01-01T10:00:00"), h("2022-01-02T00:00:00")),
        ]
    );
    assert!(result.impossible[0].tasks.is_empty());
}

#[test]
fn calendar_reports_impossible_placements() {
    let start = parse("2022-01-01T00:00:00");
    let end = parse("2022-01-02T00:00:00");
    let mut calendar = Calendar::new(start, end, &vec![Goal::new("a", "read")]);
    calendar.take(0);
    calendar.push_impossible(0, range("2022-01-01T05:00:00", "2022-01-01T06:00:00"));
    let result = calendar.result();
    let impossible = &result.impossible[0].tasks;
    assert_eq!(impossible.len(), 1);
    assert_eq!(impossible[0].goalid, "a");
    assert!(impossible[0].impossible);
    assert_eq!(result.scheduled[0].tasks.len(), 1);
    assert_eq!(result.scheduled[0].tasks[0].duration, 24);
}

#[test]
fn a_day_shows_its_taken_hours() {
    let mut day = Day::new(parse("2022-01-01T00:00:00"));
    assert_eq!(day.to_text(), ".".repeat(24));
    day.occupy(&range("2022-01-01T03:00:00", "2022-01-01T05:00:00"));
    assert_eq!(day.to_text(), format!("...##{}", ".".repeat(19)));
}

#[test]
fn a_calendar_shows_one_day_per_goal() {
    let start = parse("2022-01-01T00:00:00");
    let end = parse("2022-01-02T00:00:00");
    let calendar = Calendar::new(start, end, &vec![Goal::new("b", "walk"), Goal::new("a", "read")]);
    assert_eq!(calendar.to_text(), format!("{}\n{}", ".".repeat(24), ".".repeat(24)));
}

#[test]
fn chrono_values_of_a_point_exist_within_chrono_calendar() {
    let point = parse("2022-01-01T13:00:00");
    assert_eq!(point.naive_date_time(), Some(NaiveDateTime::from_str("2022-01-01T13:00:00").unwrap()));
    assert_eq!(point.naive_date(), Some(chrono::NaiveDate::from_ymd_opt(2022, 1, 1).unwrap()));
    let far = DateTime::from_timestamp(-8_796_093_004_800);
    assert_eq!(far.naive_date_time(), None);
    assert_eq!(far.naive_date(), None);
    let first = DateTime::from_timestamp(-96_465_292 * 86_400);
    assert_eq!(first.naive_date(), Some(chrono::NaiveDate::MIN));
    let before_first = DateTime::from_timestamp(-96_465_292 * 86_400 - 3600);
    assert_eq!(before_first.naive_date_time(), None);
    let last = DateTime::from_timestamp(95_026_236 * 86_400 + 23 * 3600);
    assert_eq!(last.naive_date(), Some(chrono::NaiveDate::MAX));
    assert_eq!(DateTime::from_timestamp(95_026_237 * 86_400).naive_date(), None);
}
