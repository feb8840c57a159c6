use chrono::NaiveDate;
use zinzen_scheduler::budget::StepBudgets;
use zinzen_scheduler::output::{
    combine, generate_free_tasks, get_calendar_days, is_cross_day, output_formatter, split_cross_day_tasks, try_output_formatter, Task,
};
use zinzen_scheduler::placer::{step_placer, PlacedSteps};
use zinzen_scheduler::slot::Slot;
use zinzen_scheduler::step::{Step, StepStatus, StepsToPlace};

fn at(day: u32, hour: u32) -> i64 {
    NaiveDate::from_ymd_opt(2023, 5, day).unwrap().and_hms_opt(hour, 0, 0).unwrap().and_utc().timestamp()
}

fn slot(day: u32, from: u32, to: u32) -> Slot {
    Slot { start: at(day, from), end: at(day, to) }
}

fn step(id: usize, goal: &str, duration: usize, slots: Vec<Slot>) -> Step {
    Step {
        id,
        goal_id: goal.to_string(),
        title: goal.to_string(),
        duration,
        status: StepStatus::ReadyToSchedule,
        flexibility: 0,
        start: None,
        deadline: None,
        slots,
        tags: vec![],
        after_goals: None,
    }
}

fn placed_two_steps() -> PlacedSteps {
    let start = at(1, 0);
    let end = at(2, 0);
    step_placer(StepsToPlace {
        calendar_start: start,
        calendar_end: end,
        steps: vec![step(0, "read", 1, vec![slot(1, 9, 12)]), step(1, "walk", 1, vec![slot(1, 10, 11)])],
        step_budgets: StepBudgets::new(&start, &end),
    })
}

#[test]
fn step_placer_places_the_least_flexible_first() {
    let placed = placed_two_steps();
    assert_eq!(placed.calendar_start, at(1, 0));
    assert_eq!(placed.steps.len(), 2);
    assert!(placed.steps.iter().all(|s| s.status == StepStatus::Scheduled));
    let mut times: Vec<(&str, Option<i64>, Option<i64>)> =
        placed.steps.iter().map(|s| (s.goal_id.as_str(), s.start, s.deadline)).collect();
    times.sort();
    assert_eq!(times, vec![("read", Some(at(1, 9)), Some(at(1, 10))), ("walk", Some(at(1, 10)), Some(at(1, 11)))]);
}

#[test]
fn step_placer_marks_an_unplaceable_step_impossible() {
    let start = at(1, 0);
    let end = at(2, 0);
    let placed = step_placer(StepsToPlace {
        calendar_start: start,
        calendar_end: end,
        steps: vec![step(0, "long", 3, vec![slot(1, 9, 11)])],
        step_budgets: StepBudgets::new(&start, &end),
    });
    assert_eq!(placed.steps.len(), 1);
    assert_eq!(placed.steps[0].status, StepStatus::Impossible);
}

#[test]
fn output_formatter_fills_the_day_with_free_time() {
    let placed = placed_two_steps();
    let out = output_formatter(placed).unwrap();
    assert_eq!(out.scheduled.len(), 1);
    assert_eq!(out.scheduled[0].day, at(1, 0) / 86400);
    let tasks: Vec<(usize, &str, usize, i64, i64)> = out.scheduled[0]
        .tasks
        .iter()
        .map(|t| (t.taskid, t.goalid.as_str(), t.duration, t.start, t.deadline))
        .collect();
    assert_eq!(
        tasks,
        vec![
            (0, "free", 9, at(1, 0), at(1, 9)),
            (1, "read", 1, at(1, 9), at(1, 10)),
            (2, "walk", 1, at(1, 10), at(1, 11)),
            (3, "free", 13, at(1, 11), at(2, 0)),
        ]
    );
    assert!(out.impossible[0].tasks.is_empty());
}

#[test]
fn output_formatter_reports_impossible_steps() {
    let start = at(1, 0);
    let end = at(2, 0);
    let mut hard = step(5, "hard", 2, vec![]);
    hard.status = StepStatus::Impossible;
    let mut done = step(6, "done", 1, vec![]);
    done.status = StepStatus::Scheduled;
    done.start = Some(at(1, 8));
    done.deadline = Some(at(1, 9));
    let out = output_formatter(PlacedSteps { calendar_start: start, calendar_end: end, steps: vec![done, hard] }).unwrap();
    let impossible = &out.impossible[0].tasks;
    assert_eq!(impossible.len(), 1);
    assert_eq!(impossible[0].goalid, "hard");
    assert_eq!((impossible[0].start, impossible[0].deadline), (start, end));
    assert!(impossible[0].impossible);
    assert_eq!(impossible[0].taskid, out.scheduled[0].tasks.len());
}

#[test]
fn output_formatter_refuses_a_scheduled_step_without_time() {
    let start = at(1, 0);
    let end = at(2, 0);
    let mut lost = step(3, "lost", 1, vec![]);
    lost.status = StepStatus::Scheduled;
    let r = output_formatter(PlacedSteps { calendar_start: start, calendar_end: end, steps: vec![lost] });
    assert!(r.is_err());
}

#[test]
fn calendar_days_and_cross_day() {
    assert_eq!(get_calendar_days(at(1, 0), at(4, 0)), vec![at(1, 0) / 86400, at(2, 0) / 86400, at(3, 0) / 86400]);
    let night = Task {
        taskid: 0,
        goalid: "sleep".to_string(),
        title: "sleep".to_string(),
        duration: 8,
        start: at(1, 22),
        deadline: at(2, 6),
        tags: vec![],
        impossible: false,
    };
    assert!(is_cross_day(&night));
    let mut day = night.clone();
    day.start = at(1, 8);
    day.deadline = at(1, 16);
    assert!(!is_cross_day(&day));
}

#[test]
fn try_output_formatter_refuses_steps_still_to_place() {
    let start = at(1, 0);
    let end = at(2, 0);
    let waiting = step(3, "waiting", 1, vec![slot(1, 9, 10)]);
    assert!(try_output_formatter(PlacedSteps { calendar_start: start, calendar_end: end, steps: vec![waiting] }).is_none());
    let formatted = try_output_formatter(placed_two_steps());
    assert!(matches!(formatted, Some(Ok(_))));
}

fn task(goal: &str, duration: usize, start: i64, deadline: i64) -> Task {
    Task {
        taskid: 0,
        goalid: goal.to_string(),
        title: goal.to_string(),
        duration,
        start,
        deadline,
        tags: vec![],
        impossible: false,
    }
}

#[test]
fn combine_joins_contiguous_tasks_of_a_goal() {
    let mut tasks = vec![
        task("work", 1, at(1, 1), at(1, 2)),
        task("work", 1, at(1, 2), at(1, 3)),
        task("work", 1, at(1, 3), at(1, 4)),
        task("gym", 1, at(1, 4), at(1, 5)),
        task("work", 2, at(1, 6), at(1, 8)),
    ];
    combine(&mut tasks);
    let got: Vec<(&str, usize, i64, i64)> =
        tasks.iter().map(|t| (t.goalid.as_str(), t.duration, t.start, t.deadline)).collect();
    assert_eq!(
        got,
        vec![("work", 3, at(1, 1), at(1, 4)), ("gym", 1, at(1, 4), at(1, 5)), ("work", 2, at(1, 6), at(1, 8))]
    );
}

#[test]
fn a_night_is_split_at_midnight_keeping_its_hours() {
    let mut tasks = vec![task("sleep", 8, at(1, 22), at(2, 6)), task("walk", 1, at(2, 8), at(2, 9))];
    split_cross_day_tasks(&mut tasks);
    let got: Vec<(&str, usize, i64, i64)> =
        tasks.iter().map(|t| (t.goalid.as_str(), t.duration, t.start, t.deadline)).collect();
    assert_eq!(
        got,
        vec![("sleep", 2, at(1, 22), at(2, 0)), ("sleep", 6, at(2, 0), at(2, 6)), ("walk", 1, at(2, 8), at(2, 9))]
    );
}

#[test]
fn free_time_leaves_no_hour_of_the_calendar_unheld() {
    let mut tasks = vec![task("work", 2, at(1, 10), at(1, 12)), task("gym", 1, at(2, 7), at(2, 8))];
    generate_free_tasks(&mut tasks, at(1, 0), at(3, 0));
    for day in 1..3 {
        for hour in 0..24 {
            let (from, to) = (at(day, hour), at(day, hour) + 3600);
            assert!(tasks.iter().any(|t| t.start <= from && to <= t.deadline), "day {} hour {}", day, hour);
        }
    }
    let got: Vec<(&str, usize, i64, i64)> =
        tasks.iter().map(|t| (t.goalid.as_str(), t.duration, t.start, t.deadline)).collect();
    assert_eq!(
        got,
        vec![
            ("free", 10, at(1, 0), at(1, 10)),
            ("work", 2, at(1, 10), at(1, 12)),
            ("free", 12, at(1, 12), at(2, 0)),
            ("free", 7, at(2, 0), at(2, 7)),
            ("gym", 1, at(2, 7), at(2, 8)),
            ("free", 16, at(2, 8), at(3, 0)),
        ]
    );
}

#[test]
fn a_night_across_a_month_end_is_split_at_midnight() {
    let ts = |m: u32, d: u32, h: u32| {
        NaiveDate::from_ymd_opt(2023, m, d).unwrap().and_hms_opt(h, 0, 0).unwrap().and_utc().timestamp()
    };
    let night = task("sleep", 8, ts(1, 31, 22), ts(2, 1, 6));
    assert!(is_cross_day(&night));
    let mut tasks = vec![night];
    split_cross_day_tasks(&mut tasks);
    let got: Vec<(&str, usize, i64, i64)> =
        tasks.iter().map(|t| (t.goalid.as_str(), t.duration, t.start, t.deadline)).collect();
    assert_eq!(got, vec![("sleep", 2, ts(1, 31, 22), ts(2, 1, 0)), ("sleep", 6, ts(2, 1, 0), ts(2, 1, 6))]);
}
