use zinzen_scheduler::step::{Step, StepStatus};
use zinzen_scheduler::step_ids::{assign_ids, distinct_ids, generate_step_id, next_id, unify_steps_ids};

fn blank_step(id: usize) -> Step {
    Step {
        id,
        goal_id: String::new(),
        title: String::new(),
        duration: 0,
        status: StepStatus::Scheduled,
        flexibility: 0,
        start: None,
        deadline: None,
        slots: vec![],
        tags: vec![],
        after_goals: None,
    }
}

#[test]
fn test_generate_step_id() {
    let mut id_set = std::collections::HashSet::new();
    for _ in 0..1000 {
        let step_id = generate_step_id();
        assert!(id_set.insert(step_id), "Duplicate ID generated");
    }
}

#[test]
fn test_unify_steps_ids() {
    let mut steps_list: Vec<Step> = [1, 1, 2, 3, 3, 4].iter().map(|id| blank_step(*id)).collect();
    unify_steps_ids(&mut steps_list);
    let mut id_set = std::collections::HashSet::new();
    for step in &steps_list {
        assert!(!id_set.contains(&step.id), "Duplicate ID found");
        id_set.insert(step.id);
    }
    assert_eq!(steps_list.len(), 6);
}

#[test]
fn distinct_ids_keep_first_occurrences() {
    assert_eq!(distinct_ids(&vec![4, 1, 4, 2, 1]), vec![4, 1, 2]);
    assert_eq!(distinct_ids(&vec![]), Vec::<usize>::new());
}

#[test]
fn assign_ids_gives_ids_in_order() {
    let mut steps: Vec<Step> = vec![blank_step(0), blank_step(0)];
    steps[1].title = "second".to_string();
    assign_ids(&mut steps, &vec![7, 9, 11]);
    assert_eq!(steps[0].id, 7);
    assert_eq!(steps[1].id, 9);
    assert_eq!(steps[1].title, "second");
}

#[test]
fn next_id_keeps_a_new_draw_and_replaces_a_taken_one() {
    assert_eq!(next_id(&vec![3, 0, 1], 7), 7);
    assert_eq!(next_id(&vec![3, 0, 1], 1), 2);
    assert_eq!(next_id(&vec![1, 2], 2), 0);
    assert_eq!(next_id(&vec![], 9), 9);
}
