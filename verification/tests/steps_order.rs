use std::cmp::Ordering;
use zinzen_scheduler::goal::{Goal, Tag};
use zinzen_scheduler::step::{compare_steps, sort_steps, Step, StepStatus};

fn mock_goal(id: &str, title: &str) -> Goal {
    Goal {
        id: id.to_string(),
        title: title.to_string(),
        min_duration: None,
        start: Some(1_682_899_200),
        deadline: Some(1_682_985_600),
        repeat: None,
        filters: None,
        children: None,
        budgets: None,
        tags: vec![],
        after_goals: None,
    }
}

fn mock_step(title: &str, duration: usize, flexibility: usize, status: StepStatus) -> Step {
    Step {
        id: 1,
        goal_id: "1".to_string(),
        title: title.to_string(),
        duration,
        status,
        flexibility,
        start: None,
        deadline: None,
        slots: vec![],
        tags: vec![],
        after_goals: None,
    }
}

fn family() -> (Vec<Goal>, Step, Step) {
    let mut parent_goal = mock_goal("1", "parent goal");
    let child_goal = mock_goal("2", "child goal");
    parent_goal.children = Some(vec![child_goal.id.to_string()]);
    let goals = vec![parent_goal.clone(), child_goal.clone()];

    let mut parent_step = mock_step("parent step", 1, 1, StepStatus::ReadyToSchedule);
    parent_step.id = 1;
    parent_step.goal_id = "1".to_string();

    let mut child_step = mock_step("child step", 1, 1, StepStatus::ReadyToSchedule);
    child_step.id = 2;
    child_step.goal_id = "2".to_string();
    (goals, parent_step, child_step)
}

#[test]
fn test_step_have_parent() {
    let (goals, parent_step, child_step) = family();
    assert!(parent_step.is_parent_of_other(&child_step, &goals));
    assert!(!child_step.is_parent_of_other(&child_step, &goals));
}

#[test]
fn test_step_have_child() {
    let (goals, parent_step, child_step) = family();
    assert!(child_step.is_child_of_other(&parent_step, &goals));
    assert!(!parent_step.is_child_of_other(&child_step, &goals));
}

#[test]
fn custom_compare_follows_status_tags_and_flexibility() {
    let (goals, parent_step, child_step) = family();
    assert_eq!(parent_step.custom_compare(&child_step, &goals), Ordering::Equal);

    let blocked = mock_step("blocked", 1, 1, StepStatus::Blocked);
    assert_eq!(parent_step.custom_compare(&blocked, &goals), Ordering::Less);
    assert_eq!(blocked.custom_compare(&parent_step, &goals), Ordering::Greater);

    let mut optional = mock_step("optional", 1, 1, StepStatus::ReadyToSchedule);
    optional.tags.push(Tag::Optional);
    assert_eq!(optional.custom_compare(&parent_step, &goals), Ordering::Greater);

    let wide = mock_step("wide", 1, 30, StepStatus::ReadyToSchedule);
    let narrow = mock_step("narrow", 1, 3, StepStatus::ReadyToSchedule);
    assert_eq!(wide.custom_compare(&narrow, &goals), Ordering::Less);
    assert_eq!(parent_step.custom_compare(&wide, &goals), Ordering::Less);
    assert_eq!(compare_steps(&wide, &narrow), -1);
}

#[test]
fn sort_steps_puts_ready_then_one_then_widest_first() {
    let mut steps = vec![
        mock_step("a", 1, 3, StepStatus::ReadyToSchedule),
        mock_step("b", 1, 5, StepStatus::Blocked),
        mock_step("c", 1, 1, StepStatus::ReadyToSchedule),
        mock_step("d", 1, 9, StepStatus::ReadyToSchedule),
    ];
    sort_steps(&mut steps);
    let titles: Vec<&str> = steps.iter().map(|s| s.title.as_str()).collect();
    assert_eq!(titles, vec!["c", "d", "a", "b"]);
}

#[test]
fn steps_are_equal_by_flexibility() {
    let a = mock_step("a", 1, 3, StepStatus::ReadyToSchedule);
    let b = mock_step("b", 4, 3, StepStatus::Blocked);
    let c = mock_step("c", 1, 4, StepStatus::ReadyToSchedule);
    assert!(a == b);
    assert!(a != c);
}
