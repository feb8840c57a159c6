use chrono::NaiveDate;
use zinzen_scheduler::budget::{configure_goals_repeatance, SlotBudget, StepBudget, StepBudgets};
use zinzen_scheduler::goal::{tag_budgeted_goals, Budget, BudgetType, Goal, Repetition, Tag};
use zinzen_scheduler::slot::Slot;

fn at(year: i32, month: u32, day: u32, hour: u32) -> i64 {
    NaiveDate::from_ymd_opt(year, month, day)
        .unwrap()
        .and_hms_opt(hour, 0, 0)
        .unwrap()
        .and_utc()
        .timestamp()
}

fn mock_slot(hours: i64, year: i32, month: u32, day: u32, hour: u32) -> Slot {
    let start = at(year, month, day, hour);
    Slot { start, end: start + hours * 3600 }
}

fn sample_slot() -> Slot {
    mock_slot(24, 2023, 5, 1, 0)
}

fn mock_goal(id: &str, title: &str, timeframe: Slot) -> Goal {
    Goal {
        id: id.to_string(),
        title: title.to_string(),
        min_duration: None,
        start: Some(timeframe.start),
        deadline: Some(timeframe.end),
        repeat: None,
        filters: None,
        children: None,
        budgets: None,
        tags: vec![],
        after_goals: None,
    }
}

fn find<'a>(goals: &'a [Goal], id: &str) -> Option<&'a Goal> {
    goals.iter().find(|g| g.id == id)
}

#[test]
fn test_tag_budgeted_goals() {
    let mut goals: Vec<Goal> = Vec::new();

    let mut budgeted_goal = mock_goal("1", "test goal", sample_slot());
    let budget = Budget { budget_type: BudgetType::Daily, min: Some(5), max: Some(10) };
    budgeted_goal.budgets = Some(vec![budget]);
    goals.push(budgeted_goal.clone());

    let goal = mock_goal("2", "test goal 2", sample_slot());
    goals.push(goal.clone());

    tag_budgeted_goals(&mut goals);
    let result_budgeted_goal = find(&goals, &budgeted_goal.id).unwrap();
    assert!(result_budgeted_goal.tags.contains(&Tag::Budget));

    let result_normal_goal = find(&goals, &goal.id).unwrap();
    assert!(!result_normal_goal.tags.contains(&Tag::Budget));
}

#[test]
fn test_no_goal_repeat_no_budget() {
    let mut goal = mock_goal("1", "sample goal", sample_slot());
    goal.configure_repeatance(None);
    assert_eq!(goal.repeat, None);
}

#[test]
fn test_have_budget_and_repeat() {
    let mut goal = mock_goal("1", "sample goal", sample_slot());
    let budget = Budget { budget_type: BudgetType::Daily, min: Some(5), max: Some(10) };
    let budgets = Some(vec![budget]);
    goal.budgets = budgets.clone();
    let repeat = Some(Repetition::Weekly(1));
    goal.repeat = repeat;

    goal.configure_repeatance(None);

    assert_eq!(goal.repeat, repeat);
    assert_eq!(goal.budgets, budgets);
}

#[test]
fn test_have_weekly_budget_but_no_repeat() {
    let mut goal = mock_goal("1", "sample goal", sample_slot());
    let budget = Budget { budget_type: BudgetType::Weekly, min: Some(30), max: Some(40) };
    let budgets = Some(vec![budget]);
    goal.budgets = budgets.clone();
    goal.repeat = None;

    goal.configure_repeatance(None);

    assert_eq!(goal.repeat, Some(Repetition::Weekly(1)));
    assert_eq!(goal.budgets, budgets);
}

#[test]
fn test_have_daily_budget_but_no_repeat() {
    let mut goal = mock_goal("1", "sample goal", sample_slot());
    let budget = Budget { budget_type: BudgetType::Daily, min: Some(5), max: Some(10) };
    let budgets = Some(vec![budget]);
    goal.budgets = budgets.clone();
    goal.repeat = None;

    goal.configure_repeatance(None);

    assert_eq!(goal.repeat, Some(Repetition::DAILY(1)));
    assert_eq!(goal.budgets, budgets);
}

#[test]
fn test_have_daily_and_weekly_budget_but_no_repeat() {
    let mut goal = mock_goal("1", "sample goal", sample_slot());
    let daily_budget = Budget { budget_type: BudgetType::Daily, min: Some(5), max: Some(10) };
    let weekly_budget = Budget { budget_type: BudgetType::Weekly, min: Some(30), max: Some(40) };
    let budgets = Some(vec![daily_budget, weekly_budget]);
    goal.budgets = budgets.clone();
    goal.repeat = None;

    goal.configure_repeatance(None);

    assert_eq!(goal.repeat, Some(Repetition::DAILY(1)));
    assert_eq!(goal.budgets, budgets);
}

fn daily_budget(days: u32, max: usize) -> StepBudget {
    StepBudget {
        step_budget_type: BudgetType::Daily,
        slot_budgets: (1..=days)
            .map(|d| SlotBudget { slot: mock_slot(24, 2023, 5, d, 0), min: Some(1), max: Some(max), used: 0 })
            .collect(),
        min: Some(1),
        max: Some(max),
    }
}

#[test]
fn repeatance_follows_the_step_budget() {
    let mut goal = mock_goal("1", "sample goal", sample_slot());
    goal.budgets = Some(vec![Budget { budget_type: BudgetType::Weekly, min: Some(1), max: Some(3) }]);
    goal.configure_repeatance(Some(&daily_budget(4, 3)));
    assert_eq!(goal.repeat, Some(Repetition::DAILY(4)));
}

#[test]
fn configure_goals_repeatance_without_budgets() {
    let mut weekly = mock_goal("1", "weekly", sample_slot());
    weekly.budgets = Some(vec![Budget { budget_type: BudgetType::Weekly, min: Some(1), max: Some(3) }]);
    let plain = mock_goal("2", "plain", sample_slot());
    let mut goals = vec![weekly, plain];
    configure_goals_repeatance(&mut goals, None);
    assert_eq!(goals[0].repeat, Some(Repetition::Weekly(1)));
    assert_eq!(goals[1].repeat, None);
}

#[test]
fn step_budget_decrement_counts_hours_within_the_day() {
    let mut budget = daily_budget(2, 3);
    let two_hours = mock_slot(2, 2023, 5, 1, 8);
    assert!(budget.test_decrement(&two_hours));
    budget.decrement(&two_hours);
    assert_eq!(budget.slot_budgets[0].used, 2);
    assert_eq!(budget.slot_budgets[1].used, 0);
    assert!(!budget.test_decrement(&two_hours));
    assert!(budget.test_decrement(&mock_slot(1, 2023, 5, 1, 12)));
}

#[test]
fn budgets_allow_a_goal_without_budgets() {
    let mut budgets = StepBudgets::new(&at(2023, 5, 1, 0), &at(2023, 5, 3, 0));
    assert!(budgets.is_allowed_by_budget(&mock_slot(1, 2023, 5, 1, 8), &"free".to_string()));
}

#[test]
fn budgets_refuse_past_the_maximum() {
    let mut budgets = StepBudgets::new(&at(2023, 5, 1, 0), &at(2023, 5, 3, 0));
    budgets.budget_ids_map.push(("g".to_string(), vec!["g".to_string()]));
    budgets.budget_map.push(("g".to_string(), vec![daily_budget(2, 2)]));
    let goal = "g".to_string();
    assert!(budgets.is_allowed_by_budget(&mock_slot(1, 2023, 5, 1, 8), &goal));
    assert!(budgets.is_allowed_by_budget(&mock_slot(1, 2023, 5, 1, 9), &goal));
    assert!(!budgets.is_allowed_by_budget(&mock_slot(1, 2023, 5, 1, 10), &goal));
    assert!(budgets.is_allowed_by_budget(&mock_slot(1, 2023, 5, 2, 10), &goal));
}
