use chrono::NaiveDate;
use zinzen_scheduler::goal::Tag;
use zinzen_scheduler::options_generator::options_generator;
use zinzen_scheduler::output_formatter::output_formatter;
use zinzen_scheduler::slot::Slot;
use zinzen_scheduler::slot_assignment::{slot_assigner, slot_generator};
use zinzen_scheduler::step::Error;
use zinzen_scheduler::task::{ScheduleOption, StartDeadlineIterator, Task, TaskStatus};

fn at(day: u32, hour: u32) -> i64 {
    NaiveDate::from_ymd_opt(2022, 1, day).unwrap().and_hms_opt(hour, 0, 0).unwrap().and_utc().timestamp()
}

fn slot(day: u32, from: u32, to: u32) -> Slot {
    Slot { start: at(day, from), end: at(day, to) }
}

fn task(id: usize, title: &str, duration: usize, slots: Vec<Slot>, confirmed: Option<(i64, i64)>) -> Task {
    Task {
        id,
        goal_id: id.to_string(),
        title: title.to_string(),
        duration,
        status: TaskStatus::Scheduled,
        flexibility: 0,
        start: at(1, 0),
        deadline: at(2, 0),
        after_time: 0,
        before_time: 24,
        slots,
        confirmed_start: confirmed.map(|c| c.0),
        confirmed_deadline: confirmed.map(|c| c.1),
        conflicts: vec![],
        tags: vec![],
        options: None,
        after_goals: None,
        calender_start: at(1, 0),
        calender_end: at(2, 0),
    }
}

fn option(from: u32, to: u32) -> ScheduleOption {
    ScheduleOption { start: at(1, from), deadline: at(1, to) }
}

#[test]
fn start_deadline_iterator_walks_hour_by_hour() {
    let mut it = StartDeadlineIterator::new(vec![slot(1, 9, 12), slot(1, 14, 16)], 2).unwrap();
    let mut got = vec![];
    while let Some(s) = it.next() {
        got.push(s);
    }
    assert_eq!(got, vec![slot(1, 9, 11), slot(1, 10, 12), slot(1, 14, 16)]);
    assert!(StartDeadlineIterator::new(vec![], 2).is_none());
}

#[test]
fn options_avoid_other_confirmed_times() {
    let reading = task(1, "read", 1, vec![slot(1, 9, 13)], Some((at(1, 9), at(1, 10))));
    let walking = task(2, "walk", 1, vec![slot(1, 10, 11)], Some((at(1, 10), at(1, 11))));
    let tasks = options_generator(vec![reading, walking]);
    assert_eq!(tasks[0].options, Some(vec![option(9, 10), option(11, 12), option(12, 13)]));
    assert_eq!(tasks[1].options, Some(vec![option(10, 11)]));
}

#[test]
fn options_are_at_most_three() {
    let reading = task(1, "read", 1, vec![slot(1, 9, 15)], Some((at(1, 9), at(1, 10))));
    let tasks = options_generator(vec![reading]);
    assert_eq!(tasks[0].options, Some(vec![option(9, 10), option(10, 11), option(11, 12)]));
}

#[test]
fn formatter_refuses_a_task_without_confirmed_start() {
    let reading = task(4, "read", 1, vec![slot(1, 9, 12)], None);
    match output_formatter(vec![reading], vec![]) {
        Err(Error::NoConfirmedDate(title, id)) => {
            assert_eq!(title, "read");
            assert_eq!(id, 4);
        },
        _ => panic!("expected an error"),
    }
}

#[test]
fn formatter_on_a_calendar_filled_by_one_task() {
    let mut reading = task(1, "read", 1, vec![slot(1, 9, 10)], Some((at(1, 9), at(1, 10))));
    reading.calender_start = at(1, 9);
    reading.calender_end = at(1, 10);
    let mut optional = task(7, "maybe", 1, vec![], None);
    optional.status = TaskStatus::Impossible;
    optional.tags = vec![Tag::Optional];
    optional.conflicts = vec![(slot(1, 11, 12), "read".to_string())];
    let mut blocked = task(8, "nap", 2, vec![], None);
    blocked.status = TaskStatus::Impossible;
    blocked.conflicts = vec![(slot(1, 13, 15), "read".to_string())];

    let out = output_formatter(vec![reading], vec![optional, blocked]).unwrap();
    let scheduled: Vec<(usize, &str, usize, i64, i64)> = out
        .scheduled
        .iter()
        .map(|o| (o.taskid, o.goalid.as_str(), o.duration, o.start, o.deadline))
        .collect();
    assert_eq!(scheduled, vec![(0, "1", 1, at(1, 9), at(1, 10))]);
    assert_eq!(out.scheduled[0].options, Some(vec![option(9, 10)]));

    assert_eq!(out.impossible.len(), 1);
    let nap = &out.impossible[0];
    assert_eq!((nap.taskid, nap.goalid.as_str(), nap.start, nap.deadline), (1, "8", at(1, 13), at(1, 15)));
    assert_eq!(nap.first_conflict_with, Some("read".to_string()));
    assert!(nap.impossible);
}

fn at3(day: u32, hour: u32) -> i64 {
    NaiveDate::from_ymd_opt(2023, 1, day).unwrap().and_hms_opt(hour, 0, 0).unwrap().and_utc().timestamp()
}

fn bounded_task(after_time: usize, before_time: usize, duration: usize) -> Task {
    let mut t = task(1, "bounded", duration, vec![], None);
    t.status = TaskStatus::Uninitialized;
    t.after_time = after_time;
    t.before_time = before_time;
    t.start = at3(1, 0);
    t.deadline = at3(3, 0);
    t
}

#[test]
fn slot_generator_makes_a_slot_a_day_within_the_bounds() {
    let period = Slot { start: at3(1, 0), end: at3(3, 0) };
    let t = slot_generator(bounded_task(10, 14, 1), &period, None);
    assert_eq!(
        t.slots,
        vec![Slot { start: at3(1, 10), end: at3(1, 14) }, Slot { start: at3(2, 10), end: at3(2, 14) }]
    );
    let t = slot_generator(bounded_task(10, 14, 1), &period, Some(at3(2, 12)));
    assert_eq!(
        t.slots,
        vec![Slot { start: at3(1, 10), end: at3(1, 14) }, Slot { start: at3(2, 10), end: at3(2, 12) }]
    );
}

#[test]
fn slot_generator_wraps_past_midnight() {
    let period = Slot { start: at3(1, 0), end: at3(2, 0) };
    let t = slot_generator(bounded_task(22, 6, 1), &period, None);
    assert_eq!(t.slots, vec![Slot { start: at3(1, 0), end: at3(1, 6) }, Slot { start: at3(1, 22), end: at3(2, 6) }]);
}

#[test]
fn slot_generator_without_bounds_takes_the_period() {
    let period = Slot { start: at3(1, 0), end: at3(2, 0) };
    let t = slot_generator(bounded_task(0, 24, 1), &period, None);
    assert_eq!(t.slots, vec![period]);
}

#[test]
fn slot_assigner_gives_a_slot_a_day_and_cuts_the_duration() {
    let tasks = slot_assigner(vec![bounded_task(10, 14, 2), bounded_task(10, 14, 10)], at3(1, 0), at3(3, 0));
    let expected = vec![Slot { start: at3(1, 10), end: at3(1, 14) }, Slot { start: at3(2, 10), end: at3(2, 14) }];
    assert_eq!(tasks[0].slots, expected);
    assert_eq!(tasks[0].duration, 2);
    assert_eq!(tasks[0].flexibility, 6);
    assert_eq!(tasks[1].slots, expected);
    assert_eq!(tasks[1].duration, 8);
    assert_eq!(tasks[1].flexibility, 8);
}

#[test]
fn formatter_splits_a_night_at_midnight() {
    let night = Slot { start: at(1, 22), end: at(2, 6) };
    let mut sleep = task(3, "sleep", 8, vec![night], Some((at(1, 22), at(2, 6))));
    sleep.calender_start = at(1, 22);
    sleep.calender_end = at(2, 6);
    let out = output_formatter(vec![sleep], vec![]).unwrap();
    let scheduled: Vec<(usize, &str, usize, i64, i64)> = out
        .scheduled
        .iter()
        .map(|o| (o.taskid, o.goalid.as_str(), o.duration, o.start, o.deadline))
        .collect();
    assert_eq!(scheduled, vec![(0, "3", 2, at(1, 22), at(2, 0)), (1, "3", 6, at(2, 0), at(2, 6))]);
    assert!(out.impossible.is_empty());
}
