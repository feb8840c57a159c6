use chrono::NaiveDate;
use zinzen_scheduler::goal::{Goal, Repetition, Tag};
use zinzen_scheduler::preprocess::{
    add_filler_goals, generate_flex_weekly_goals, get_1_hr_goals, goals_fillable, manipulate_input_goals,
    populate_goal_dates, push_decimal,
};

fn at(year: i32, month: u32, day: u32) -> i64 {
    NaiveDate::from_ymd_opt(year, month, day).unwrap().and_hms_opt(0, 0, 0).unwrap().and_utc().timestamp()
}

fn mock_goal(id: &str, title: &str, start: i64, deadline: i64) -> Goal {
    Goal {
        id: id.to_string(),
        title: title.to_string(),
        min_duration: None,
        start: Some(start),
        deadline: Some(deadline),
        repeat: None,
        filters: None,
        children: None,
        budgets: None,
        tags: vec![],
        after_goals: None,
    }
}

fn find<'a>(goals: &'a [Goal], id: &str) -> &'a Goal {
    goals.iter().find(|g| g.id == id).unwrap()
}

#[test]
fn test_single_goal() {
    let (start, deadline) = (at(2022, 10, 1), at(2022, 11, 1));
    let mut input_goal = mock_goal("1", "side project", start, deadline);
    input_goal.min_duration = Some(8);
    input_goal.repeat = Some(Repetition::FlexWeekly(1, 3));
    let mut input_goals = vec![input_goal];

    generate_flex_weekly_goals(&mut input_goals);

    let mut ids: Vec<&str> = input_goals.iter().map(|g| g.id.as_str()).collect();
    ids.sort();
    assert_eq!(ids, vec!["1", "1-repeat-opt-1", "1-repeat-opt-2"]);
    for goal in &input_goals {
        assert_eq!(goal.title, "side project");
        assert_eq!(goal.min_duration, Some(8));
        assert_eq!(goal.repeat, Some(Repetition::Weekly(1)));
        assert_eq!(goal.start, Some(start));
        assert_eq!(goal.deadline, Some(deadline));
    }
    assert_eq!(find(&input_goals, "1").tags, vec![]);
    assert_eq!(find(&input_goals, "1-repeat-opt-1").tags, vec![Tag::Optional]);
    assert_eq!(find(&input_goals, "1-repeat-opt-2").tags, vec![Tag::Optional]);
}

#[test]
fn flex_weekly_below_the_minimum_are_repetitions() {
    let mut goal = mock_goal("g", "gym", at(2022, 10, 1), at(2022, 11, 1));
    goal.repeat = Some(Repetition::FlexWeekly(3, 4));
    let mut goals = vec![goal, mock_goal("other", "other", at(2022, 10, 1), at(2022, 11, 1))];
    generate_flex_weekly_goals(&mut goals);
    let mut ids: Vec<&str> = goals.iter().map(|g| g.id.as_str()).collect();
    ids.sort();
    assert_eq!(ids, vec!["g", "g-repeat-1", "g-repeat-2", "g-repeat-opt-3", "other"]);
    assert_eq!(find(&goals, "g-repeat-2").tags, vec![]);
    assert_eq!(find(&goals, "g-repeat-opt-3").tags, vec![Tag::Optional]);
    assert_eq!(find(&goals, "other").repeat, None);
}

#[test]
fn decimal_writing_of_numbers() {
    let mut s = "n".to_string();
    push_decimal(&mut s, 0);
    push_decimal(&mut s, 907);
    assert_eq!(s, "n0907");
}

#[test]
fn populate_goal_dates_fills_only_missing_dates() {
    let mut open = mock_goal("1", "open", 0, 0);
    open.start = None;
    open.deadline = None;
    let fixed = mock_goal("2", "fixed", 100, 200);
    let goals = populate_goal_dates(vec![open, fixed], 10, 20);
    assert_eq!((goals[0].start, goals[0].deadline), (Some(10), Some(20)));
    assert_eq!((goals[1].start, goals[1].deadline), (Some(100), Some(200)));
}

fn parent_and_children() -> Vec<Goal> {
    let mut parent = mock_goal("p", "project", 0, 100);
    parent.min_duration = Some(10);
    parent.children = Some(vec!["a".to_string(), "b".to_string()]);
    let mut a = mock_goal("a", "part a", 0, 100);
    a.min_duration = Some(3);
    let mut b = mock_goal("b", "part b", 0, 100);
    b.min_duration = Some(4);
    vec![parent, a, b]
}

#[test]
fn filler_takes_the_uncovered_hours() {
    let mut goals = parent_and_children();
    add_filler_goals(&mut goals);
    assert_eq!(goals.len(), 3);
    assert_eq!(goals[0].id, "p");
    assert_eq!(goals[0].title, "project filler");
    assert_eq!(goals[0].min_duration, Some(3));
    assert_eq!(goals[0].tags, vec![Tag::Filler]);
    assert_eq!(goals[1].title, "part a");
    assert_eq!(goals[2].min_duration, Some(4));
}

#[test]
fn no_filler_when_children_cover_the_goal() {
    let mut goals = parent_and_children();
    goals[0].min_duration = Some(7);
    add_filler_goals(&mut goals);
    assert_eq!(goals[0].title, "project");
    assert_eq!(goals[0].min_duration, Some(7));
    assert!(goals[0].tags.is_empty());
}

#[test]
fn one_hour_goals() {
    let mut goal = mock_goal("1", "read", 0, 100);
    goal.min_duration = Some(3);
    let goals = get_1_hr_goals(goal);
    assert_eq!(goals.len(), 3);
    assert!(goals.iter().all(|g| g.min_duration == Some(1) && g.id == "1" && g.title == "read"));
}

#[test]
fn manipulate_input_goals_dates_fills_and_repeats() {
    let mut goals = parent_and_children();
    goals[1].start = None;
    goals[2].repeat = Some(Repetition::FlexWeekly(1, 2));
    let goals = manipulate_input_goals(goals, 5, 50);
    assert_eq!(find(&goals, "a").start, Some(5));
    assert_eq!(find(&goals, "p").title, "project filler");
    assert_eq!(find(&goals, "b").repeat, Some(Repetition::Weekly(1)));
    assert_eq!(find(&goals, "b-repeat-opt-1").tags, vec![Tag::Optional]);
    assert_eq!(goals.len(), 4);
}

#[test]
fn fillable_goals_are_recognised() {
    let goals = parent_and_children();
    assert!(goals_fillable(&goals));
    let mut short = parent_and_children();
    short[0].min_duration = Some(6);
    assert!(!goals_fillable(&short));
    let mut orphan = parent_and_children();
    orphan[0].children = Some(vec!["missing".to_string()]);
    assert!(!goals_fillable(&orphan));
    let mut budgeted = orphan.clone();
    budgeted[0].budgets = Some(vec![]);
    assert!(goals_fillable(&budgeted));
}
