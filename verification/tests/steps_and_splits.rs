use chrono::NaiveDate;
use zinzen_scheduler::goal::{Goal, Tag};
use zinzen_scheduler::slot::Slot;
use zinzen_scheduler::step::{NewStep, Step, StepStatus};
use zinzen_scheduler::timeline::Timeline;

fn at(year: i32, month: u32, day: u32, hour: u32) -> i64 {
    NaiveDate::from_ymd_opt(year, month, day)
        .unwrap()
        .and_hms_opt(hour, 0, 0)
        .unwrap()
        .and_utc()
        .timestamp()
}

fn mock_slot(hours: i64, year: i32, month: u32, day: u32, hour: u32) -> Slot {
    let start = at(year, month, day, hour);
    Slot { start, end: start + hours * 3600 }
}

fn mock_step(title: &str, duration: usize, flexibility: usize, status: StepStatus, slots: Vec<Slot>) -> Step {
    Step {
        id: 1,
        goal_id: "1".to_string(),
        title: title.to_string(),
        duration,
        status,
        flexibility,
        start: None,
        deadline: None,
        slots,
        tags: vec![],
        after_goals: None,
    }
}

fn mock_goal(id: &str, title: &str, timeframe: Slot) -> Goal {
    Goal {
        id: id.to_string(),
        title: title.to_string(),
        min_duration: None,
        start: Some(timeframe.start),
        deadline: Some(timeframe.end),
        repeat: None,
        filters: None,
        children: None,
        budgets: None,
        tags: vec![],
        after_goals: None,
    }
}

fn sleep_slots() -> Vec<Slot> {
    let mut slots = vec![mock_slot(8, 2023, 1, 3, 0)];
    for day in 3..=9 {
        slots.push(mock_slot(10, 2023, 1, day, 22));
    }
    slots
}

#[test]
fn flexibility_test_sleep() {
    let mut step = mock_step("test", 8, 0, StepStatus::ReadyToSchedule, sleep_slots());
    step.calculate_flexibility();
    assert_eq!(22, step.flexibility);
}

#[test]
fn test_anytime_1hr() {
    let mut step = mock_step("test", 1, 0, StepStatus::ReadyToSchedule, vec![mock_slot(7 * 24, 2023, 1, 3, 0)]);
    step.calculate_flexibility();
    assert_eq!(168, step.flexibility);
}

#[test]
fn test_dinner_time() {
    let slots = (3..=9).map(|day| mock_slot(3, 2023, 1, day, 18)).collect();
    let mut step = mock_step("test", 1, 0, StepStatus::ReadyToSchedule, slots);
    step.calculate_flexibility();
    assert_eq!(21, step.flexibility);
}

#[test]
fn test_avail_slots_less_than_dur() {
    let sleep_step = mock_step("test", 8, 0, StepStatus::ReadyToSchedule, sleep_slots());
    let thinking_step =
        mock_step("thinking", 1, 0, StepStatus::ReadyToSchedule, vec![mock_slot(7 * 24, 2023, 1, 3, 0)]);
    let steps = vec![sleep_step, thinking_step];
    for mut step in steps {
        step.calculate_flexibility();
        if step.duration == 8 {
            assert_eq!(22, step.flexibility);
        } else if step.duration == 1 {
            assert_eq!(168, step.flexibility);
        } else {
            panic!();
        }
    }
}

#[test]
fn flexibility_zero_makes_a_step_impossible() {
    let mut step = mock_step("test", 4, 7, StepStatus::ReadyToSchedule, vec![mock_slot(3, 2023, 1, 3, 0)]);
    step.calculate_flexibility();
    assert_eq!(step.flexibility, 0);
    assert_eq!(step.status, StepStatus::Impossible);
}

#[test]
fn flexibility_of_a_scheduled_step_stays() {
    let mut step = mock_step("test", 1, 7, StepStatus::Scheduled, vec![mock_slot(3, 2023, 1, 3, 0)]);
    step.calculate_flexibility();
    assert_eq!(step.flexibility, 7);
    assert_eq!(step.status, StepStatus::Scheduled);
}

#[test]
fn test_split_into_custom_hours() {
    let slot = mock_slot(5, 2023, 6, 1, 0);

    let result = slot.split_into_custom_hours(10);
    let expected = slot.clone();
    assert_eq!(result.len(), 1);
    assert_eq!(result[0], expected);

    let result = slot.split_into_custom_hours(0);
    assert_eq!(result.len(), 1);
    assert_eq!(result[0], expected);

    let result = slot.split_into_custom_hours(2);
    let expected = vec![mock_slot(2, 2023, 6, 1, 0), mock_slot(2, 2023, 6, 1, 2), mock_slot(1, 2023, 6, 1, 4)];
    assert_eq!(result.len(), 3);
    assert_eq!(result, expected);
}

#[test]
fn test_split() {
    let duration: usize = 3;
    let mut counter: usize = 1;
    let goal_timeframe = mock_slot(5 * 24, 2023, 6, 1, 0);
    let mut step = mock_step("test", duration, 0, StepStatus::ReadyToSchedule, vec![goal_timeframe]);
    let steps = step.split(&mut counter).unwrap();

    let mut expected_steps = vec![
        mock_step("test", 1, 0, StepStatus::ReadyToSchedule, vec![goal_timeframe]),
        mock_step("test", 1, 0, StepStatus::ReadyToSchedule, vec![goal_timeframe]),
        mock_step("test", 1, 0, StepStatus::ReadyToSchedule, vec![goal_timeframe]),
    ];
    expected_steps[1].id = 2;
    expected_steps[2].id = 3;

    assert_eq!(steps, expected_steps);
    assert_eq!(counter, 4);

    assert_eq!(steps[0].id, expected_steps[0].id);
    assert_eq!(steps[1].id, expected_steps[1].id);
    assert_eq!(steps[2].id, expected_steps[2].id);

    assert_eq!(steps[0].duration, expected_steps[0].duration);
    assert_eq!(steps[1].duration, expected_steps[1].duration);
    assert_eq!(steps[2].duration, expected_steps[2].duration);

    assert_eq!(steps[0].status, expected_steps[0].status);
    assert_eq!(steps[1].status, expected_steps[1].status);
    assert_eq!(steps[2].status, expected_steps[2].status);
}

#[test]
fn split_of_a_one_hour_step_is_refused() {
    let mut counter: usize = 5;
    let mut step = mock_step("test", 1, 0, StepStatus::ReadyToSchedule, vec![mock_slot(2, 2023, 6, 1, 0)]);
    assert!(step.split(&mut counter).is_err());
    assert_eq!(counter, 5);
}

#[test]
fn splitters_test_duration_less_8_hrs() {
    let duration: usize = 7;
    let timeframe = mock_slot(5 * 24, 2023, 6, 1, 0);
    let new_step = NewStep {
        step_id: 1,
        title: "test".to_string(),
        duration,
        goal: mock_goal("1", "test", timeframe),
        timeline: Timeline::new(),
        status: StepStatus::ReadyToSchedule,
        timeframe: Some(timeframe),
    };
    let new_step = Step::new(new_step);
    let generated_steps = new_step.apply_duration_threshold();
    let expected_step = mock_step("test", 7, 0, StepStatus::ReadyToSchedule, vec![timeframe]);

    assert_eq!(generated_steps, vec![expected_step.clone()]);
    assert_eq!(generated_steps[0].id, expected_step.id);
    assert_eq!(generated_steps[0].duration, expected_step.duration);
    assert_eq!(generated_steps[0].status, expected_step.status);
}

#[test]
fn splitters_test_duration_more_8_hrs() {
    let duration: usize = 10;
    let timeframe = mock_slot(5 * 24, 2023, 6, 1, 0);
    let timeline = Timeline { slots: vec![timeframe] };
    let new_step = NewStep {
        step_id: 1,
        title: "test".to_string(),
        duration,
        goal: mock_goal("1", "test", timeframe),
        timeline,
        status: StepStatus::ReadyToSchedule,
        timeframe: None,
    };
    let new_step = Step::new(new_step);
    let generated_steps = new_step.apply_duration_threshold();

    let mut expected_steps = vec![
        mock_step("test", 8, 0, StepStatus::ReadyToSchedule, vec![timeframe]),
        mock_step("test", 1, 0, StepStatus::ReadyToSchedule, vec![timeframe]),
        mock_step("test", 1, 0, StepStatus::ReadyToSchedule, vec![timeframe]),
    ];
    expected_steps[1].id = 2;
    expected_steps[2].id = 3;

    assert_eq!(generated_steps, expected_steps);
    assert_eq!(generated_steps.len(), 3);

    assert_eq!(generated_steps[0].id, expected_steps[0].id);
    assert_eq!(generated_steps[1].id, expected_steps[1].id);
    assert_eq!(generated_steps[2].id, expected_steps[2].id);

    assert_eq!(generated_steps[0].duration, expected_steps[0].duration);
    assert_eq!(generated_steps[1].duration, expected_steps[1].duration);
    assert_eq!(generated_steps[2].duration, expected_steps[2].duration);

    assert_eq!(generated_steps[0].status, expected_steps[0].status);
    assert_eq!(generated_steps[1].status, expected_steps[1].status);
    assert_eq!(generated_steps[2].status, expected_steps[2].status);
}

#[test]
fn test_split_into_days() {
    let timeline = Timeline { slots: vec![mock_slot(5 * 24, 2022, 1, 1, 0)] };
    let expected_result = Timeline { slots: (1..=5).map(|d| mock_slot(24, 2022, 1, d, 0)).collect() };
    let splitted_timeline = timeline.split_into_days();
    assert_eq!(expected_result, splitted_timeline);
}

#[test]
fn divide_a_day_in_days() {
    let slot_of_exactly_a_day = mock_slot(24, 2022, 9, 26, 0);
    let result = slot_of_exactly_a_day.split_into_days();
    assert_eq!(vec![mock_slot(24, 2022, 9, 26, 0)], result);
}

#[test]
fn divide_two_days_in_days() {
    let slot_of_exactly_two_day = mock_slot(48, 2022, 9, 26, 0);
    let result = slot_of_exactly_two_day.split_into_days();
    assert_eq!(vec![mock_slot(24, 2022, 9, 26, 0), mock_slot(24, 2022, 9, 27, 0)], result);
}

#[test]
fn divide_half_a_day_in_days() {
    let slot_of_half_a_day = mock_slot(6, 2022, 10, 1, 0);
    let result = slot_of_half_a_day.split_into_days();
    assert_eq!(vec![mock_slot(6, 2022, 10, 1, 0)], result);
}

#[test]
fn split_into_one_hour_slots() {
    let slot = mock_slot(3, 2023, 6, 1, 22);
    let expected = vec![mock_slot(1, 2023, 6, 1, 22), mock_slot(1, 2023, 6, 1, 23), mock_slot(1, 2023, 6, 2, 0)];
    assert_eq!(slot.split_into_1h_slots(), expected);
}

fn goal_of(duration: usize, timeframe: Slot) -> Goal {
    let mut goal = mock_goal("1", "test", timeframe);
    goal.min_duration = Some(duration);
    goal
}

fn generated(goal: Goal, timeframe: Slot, counter: &mut usize) -> Vec<Step> {
    goal.generate_steps(vec![Timeline { slots: vec![timeframe] }], counter)
}

#[test]
fn step_generator_test_duration_1_hr() {
    let mut counter: usize = 1;
    let goal_timeframe = mock_slot(5 * 24, 2023, 6, 1, 0);
    let steps = generated(goal_of(1, goal_timeframe), goal_timeframe, &mut counter);
    let expected_steps = vec![mock_step("test", 1, 0, StepStatus::ReadyToSchedule, vec![goal_timeframe])];
    assert_eq!(steps, expected_steps);
    assert_eq!(counter, 2);
    assert_eq!(steps[0].id, expected_steps[0].id);
    assert_eq!(steps[0].duration, expected_steps[0].duration);
    assert_eq!(steps[0].status, expected_steps[0].status);
}

#[test]
fn step_generator_test_duration_less_8_hrs() {
    let mut counter: usize = 1;
    let goal_timeframe = mock_slot(5 * 24, 2023, 6, 1, 0);
    let steps = generated(goal_of(6, goal_timeframe), goal_timeframe, &mut counter);
    let expected_steps = vec![mock_step("test", 6, 0, StepStatus::ReadyToSchedule, vec![goal_timeframe])];
    assert_eq!(steps, expected_steps);
    assert_eq!(counter, 2);
    assert_eq!(steps[0].id, expected_steps[0].id);
    assert_eq!(steps[0].duration, expected_steps[0].duration);
    assert_eq!(steps[0].status, expected_steps[0].status);
}

#[test]
fn step_generator_test_goal_is_not_leaf_duration_more_8_hrs() {
    let mut counter: usize = 1;
    let goal_timeframe = mock_slot(5 * 24, 2023, 6, 1, 0);
    let mut goal = goal_of(10, goal_timeframe);
    goal.children = Some(vec!["2".to_string()]);
    let steps = generated(goal, goal_timeframe, &mut counter);
    let expected_steps = vec![mock_step("test", 10, 0, StepStatus::ReadyToSchedule, vec![goal_timeframe])];
    assert_eq!(steps, expected_steps);
    assert_eq!(counter, 2);
    assert_eq!(steps[0].id, expected_steps[0].id);
    assert_eq!(steps[0].duration, expected_steps[0].duration);
    assert_eq!(steps[0].status, expected_steps[0].status);
}

#[test]
fn step_generator_splits_a_long_leaf_goal() {
    let mut counter: usize = 1;
    let goal_timeframe = mock_slot(5 * 24, 2023, 6, 1, 0);
    let steps = generated(goal_of(10, goal_timeframe), goal_timeframe, &mut counter);
    let durations: Vec<usize> = steps.iter().map(|s| s.duration).collect();
    let ids: Vec<usize> = steps.iter().map(|s| s.id).collect();
    assert_eq!(durations, vec![8, 1, 1]);
    assert_eq!(ids, vec![1, 2, 3]);
    assert_eq!(counter, 2);
}

#[test]
fn step_generator_skips_empty_timelines_and_ignored_goals() {
    let mut counter: usize = 4;
    let goal_timeframe = mock_slot(24, 2023, 6, 1, 0);
    let steps = goal_of(2, goal_timeframe)
        .generate_steps(vec![Timeline::new(), Timeline { slots: vec![goal_timeframe] }], &mut counter);
    assert_eq!(steps.len(), 1);
    assert_eq!(steps[0].id, 5);
    assert_eq!(counter, 6);

    let mut ignored = goal_of(2, goal_timeframe);
    ignored.tags.push(zinzen_scheduler::goal::Tag::Budget);
    let steps = ignored.generate_steps(vec![Timeline { slots: vec![goal_timeframe] }], &mut counter);
    assert!(steps.is_empty());
    assert_eq!(counter, 6);
}

#[test]
fn step_window_widens_for_a_filter_past_midnight() {
    let timeframe = mock_slot(24, 2023, 6, 1, 0);
    let mut goal = goal_of(2, timeframe);
    assert_eq!(goal.step_window(0, 0), (timeframe.start, timeframe.end));
    goal.filters = Some(zinzen_scheduler::timing::TimeFilter {
        after_time: Some(22),
        before_time: Some(6),
        on_days: None,
        not_on: None,
    });
    assert_eq!(goal.step_window(0, 0), (timeframe.start - 2 * 3600, timeframe.end + 6 * 3600));
    goal.start = None;
    goal.deadline = None;
    assert_eq!(goal.step_window(100 * 3600, 200 * 3600), (98 * 3600, 206 * 3600));
}

fn generated_tasks(goal: Goal, timeframe: Slot, counter: &mut usize) -> Vec<Step> {
    goal.generate_tasks(vec![Timeline { slots: vec![timeframe] }], counter)
}

#[test]
fn task_generator_test_duration_less_8_hrs() {
    let timeframe = mock_slot(5 * 24, 2023, 6, 1, 0);
    let new_step = NewStep {
        step_id: 1,
        title: "test".to_string(),
        duration: 7,
        goal: mock_goal("1", "test", timeframe),
        timeline: Timeline::new(),
        status: StepStatus::ReadyToSchedule,
        timeframe: Some(timeframe),
    };
    let generated = Step::new(new_step).apply_duration_threshold();
    let expected = mock_step("test", 7, 0, StepStatus::ReadyToSchedule, vec![timeframe]);
    assert_eq!(generated, vec![expected.clone()]);
    assert_eq!(generated[0].id, expected.id);
    assert_eq!(generated[0].duration, expected.duration);
    assert_eq!(generated[0].status, expected.status);
}

#[test]
fn task_generator_test_duration_more_8_hrs() {
    let timeframe = mock_slot(5 * 24, 2023, 6, 1, 0);
    let new_step = NewStep {
        step_id: 1,
        title: "test".to_string(),
        duration: 10,
        goal: mock_goal("1", "test", timeframe),
        timeline: Timeline { slots: vec![timeframe] },
        status: StepStatus::ReadyToSchedule,
        timeframe: None,
    };
    let generated = Step::new(new_step).apply_duration_threshold();
    let ids: Vec<(usize, usize, StepStatus)> = generated.iter().map(|s| (s.id, s.duration, s.status)).collect();
    assert_eq!(
        ids,
        vec![(1, 8, StepStatus::ReadyToSchedule), (2, 1, StepStatus::ReadyToSchedule), (3, 1, StepStatus::ReadyToSchedule)]
    );
}

#[test]
fn task_generator_test_duration_1_hr() {
    let mut counter: usize = 1;
    let goal_timeframe = mock_slot(5 * 24, 2023, 6, 1, 0);
    let tasks = generated_tasks(goal_of(1, goal_timeframe), goal_timeframe, &mut counter);
    let expected = vec![mock_step("test", 1, 0, StepStatus::ReadyToSchedule, vec![goal_timeframe])];
    assert_eq!(tasks, expected);
    assert_eq!(counter, 2);
    assert_eq!(tasks[0].id, expected[0].id);
    assert_eq!(tasks[0].duration, expected[0].duration);
    assert_eq!(tasks[0].status, expected[0].status);
}

#[test]
fn task_generator_tasks_test_duration_less_8_hrs() {
    let mut counter: usize = 1;
    let goal_timeframe = mock_slot(5 * 24, 2023, 6, 1, 0);
    let tasks = generated_tasks(goal_of(6, goal_timeframe), goal_timeframe, &mut counter);
    let expected = vec![mock_step("test", 6, 0, StepStatus::ReadyToSchedule, vec![goal_timeframe])];
    assert_eq!(tasks, expected);
    assert_eq!(counter, 2);
    assert_eq!(tasks[0].id, expected[0].id);
    assert_eq!(tasks[0].duration, expected[0].duration);
    assert_eq!(tasks[0].status, expected[0].status);
}

#[test]
fn task_generator_tasks_test_duration_more_8_hrs() {
    let mut counter: usize = 1;
    let goal_timeframe = mock_slot(5 * 24, 2023, 6, 1, 0);
    let tasks = generated_tasks(goal_of(10, goal_timeframe), goal_timeframe, &mut counter);
    let got: Vec<(usize, usize, StepStatus)> = tasks.iter().map(|s| (s.id, s.duration, s.status)).collect();
    assert_eq!(
        got,
        vec![(1, 8, StepStatus::ReadyToSchedule), (2, 1, StepStatus::ReadyToSchedule), (3, 1, StepStatus::ReadyToSchedule)]
    );
    assert_eq!(counter, 2);
}

#[test]
fn task_generator_test_goal_is_not_leaf_duration_more_8_hrs() {
    let mut counter: usize = 1;
    let goal_timeframe = mock_slot(5 * 24, 2023, 6, 1, 0);
    let mut goal = goal_of(10, goal_timeframe);
    goal.children = Some(vec!["2".to_string()]);
    let tasks = generated_tasks(goal, goal_timeframe, &mut counter);
    let expected = vec![mock_step("test", 10, 0, StepStatus::ReadyToSchedule, vec![goal_timeframe])];
    assert_eq!(tasks, expected);
    assert_eq!(counter, 2);
    assert_eq!(tasks[0].id, expected[0].id);
    assert_eq!(tasks[0].duration, expected[0].duration);
}

#[test]
fn a_filler_goal_is_split_as_a_step_but_not_as_a_task() {
    let goal_timeframe = mock_slot(5 * 24, 2023, 6, 1, 0);
    let mut goal = goal_of(10, goal_timeframe);
    goal.children = Some(vec!["2".to_string()]);
    goal.tags = vec![Tag::Filler];
    let mut counter: usize = 1;
    assert_eq!(generated_tasks(goal.clone(), goal_timeframe, &mut counter).len(), 1);
    let mut counter: usize = 1;
    assert_eq!(generated(goal, goal_timeframe, &mut counter).len(), 3);
}
