use chrono::NaiveDate;
use zinzen_scheduler::placer::{find_best_slots_for_first_step, SlotConflict};
use zinzen_scheduler::slot::Slot;
use zinzen_scheduler::step::{Step, StepStatus};

fn at(year: i32, month: u32, day: u32, hour: u32) -> i64 {
    NaiveDate::from_ymd_opt(year, month, day)
        .unwrap()
        .and_hms_opt(hour, 0, 0)
        .unwrap()
        .and_utc()
        .timestamp()
}

fn mock_slot(hours: i64, year: i32, month: u32, day: u32, hour: u32) -> Slot {
    let start = at(year, month, day, hour);
    Slot { start, end: start + hours * 3600 }
}

fn mock_step(id: usize, title: &str, duration: usize, flexibility: usize, status: StepStatus, slots: Vec<Slot>) -> Step {
    Step {
        id,
        goal_id: id.to_string(),
        title: title.to_string(),
        duration,
        status,
        flexibility,
        start: None,
        deadline: None,
        slots,
        tags: vec![],
        after_goals: None,
    }
}

#[test]
fn conflicts_test_empty_steps() {
    let steps_to_place: Vec<Step> = Vec::new();
    assert_eq!(find_best_slots_for_first_step(&steps_to_place), None);
}

#[test]
fn conflicts_test_single_step() {
    let step = mock_step(1, "test", 1, 168, StepStatus::ReadyToSchedule, vec![mock_slot(6 * 24, 2023, 5, 1, 0)]);
    let expected = Some(mock_slot(1, 2023, 5, 1, 0));
    let result = find_best_slots_for_first_step(&vec![step]).and_then(|v| v.first().cloned());
    assert_eq!(result, expected);
}

#[test]
fn test_find_best_slot_amongst_multiple_steps_with_conflicts() {
    let first_step = mock_step(1, "test", 1, 5, StepStatus::ReadyToSchedule, vec![mock_slot(5, 2023, 5, 1, 12)]);
    let conflicting_step_1 =
        mock_step(2, "test-conflict", 1, 2, StepStatus::ReadyToSchedule, vec![mock_slot(2, 2023, 5, 1, 12)]);
    let conflicting_step_2 =
        mock_step(3, "test-conflict-2", 1, 2, StepStatus::ReadyToSchedule, vec![mock_slot(2, 2023, 5, 1, 15)]);
    let expected = Some(mock_slot(1, 2023, 5, 1, 14));
    let result = find_best_slots_for_first_step(&vec![first_step, conflicting_step_1, conflicting_step_2])
        .and_then(|v| v.first().cloned());
    assert_eq!(result, expected);
}

#[test]
fn test_find_best_slot_amongst_multiple_steps_with_conflicts_already_splitted() {
    let first_step = mock_step(
        1,
        "test",
        1,
        5,
        StepStatus::ReadyToSchedule,
        vec![
            mock_slot(1, 2023, 5, 1, 12),
            mock_slot(1, 2023, 5, 1, 13),
            mock_slot(1, 2023, 5, 1, 14),
            mock_slot(1, 2023, 5, 1, 15),
            mock_slot(1, 2023, 5, 1, 16),
        ],
    );
    let conflicting_step_1 = mock_step(
        2,
        "test-conflict",
        1,
        2,
        StepStatus::ReadyToSchedule,
        vec![mock_slot(1, 2023, 5, 1, 12), mock_slot(1, 2023, 5, 1, 13)],
    );
    let conflicting_step_2 = mock_step(
        3,
        "test-conflict-2",
        1,
        2,
        StepStatus::ReadyToSchedule,
        vec![mock_slot(1, 2023, 5, 1, 15), mock_slot(1, 2023, 5, 1, 16)],
    );
    let expected = Some(mock_slot(1, 2023, 5, 1, 14));
    let result = find_best_slots_for_first_step(&vec![first_step, conflicting_step_1, conflicting_step_2])
        .and_then(|v| v.first().cloned());
    assert_eq!(result, expected);
}

#[test]
fn conflicts_test_generate_schedulable_slots() {
    let slot = mock_slot(10, 2023, 6, 1, 22);
    let result = slot.generate_schedulable_slots(8);
    let expected = vec![mock_slot(8, 2023, 6, 1, 22), mock_slot(8, 2023, 6, 1, 23), mock_slot(8, 2023, 6, 2, 0)];
    assert_eq!(result, expected);
}

#[test]
fn schedulable_slots_of_a_short_slot_are_none() {
    let slot = mock_slot(3, 2023, 6, 1, 22);
    assert!(slot.generate_schedulable_slots(4).is_empty());
    assert_eq!(slot.generate_schedulable_slots(3), vec![slot]);
}

#[test]
fn conflicts_test_no_conflicts_in_slots() {
    let slots_list = vec![mock_slot(5, 2023, 6, 1, 0), mock_slot(10, 2023, 6, 1, 9)];
    let slot_to_search = mock_slot(2, 2023, 6, 1, 6);
    let conflicts = slot_to_search.get_conflicts_in_slots(&slots_list);
    assert_eq!(conflicts.slot, slot_to_search);
    assert_eq!(conflicts.num_conflicts, 0);
}

fn four_slots() -> Vec<Slot> {
    vec![
        mock_slot(5 * 24, 2023, 5, 30, 0),
        mock_slot(5, 2023, 6, 1, 0),
        mock_slot(8, 2023, 6, 2, 0),
        mock_slot(8, 2023, 6, 3, 0),
    ]
}

#[test]
fn conflicts_test_conflicts_in_slots() {
    let slots_list = four_slots();
    let slot_to_search = mock_slot(2, 2023, 6, 1, 1);
    let conflicts = slot_to_search.get_conflicts_in_slots(&slots_list);
    assert_eq!(conflicts.slot, slot_to_search);
    assert_eq!(conflicts.num_conflicts, 4);
}

#[test]
fn conflicts_test_no_conflicts_in_steps() {
    let steps_list = vec![
        mock_step(
            1,
            "step 1",
            10,
            0,
            StepStatus::ReadyToSchedule,
            vec![mock_slot(5, 2023, 6, 1, 0), mock_slot(10, 2023, 6, 1, 9)],
        ),
        mock_step(
            2,
            "step 2",
            2,
            0,
            StepStatus::ReadyToSchedule,
            vec![mock_slot(5, 2023, 6, 5, 0), mock_slot(10, 2023, 6, 6, 9)],
        ),
    ];
    let slot_to_search = mock_slot(2, 2023, 5, 1, 6);
    let conflicts = slot_to_search.get_conflicts_in_steps(&steps_list);
    assert_eq!(conflicts.slot, slot_to_search);
    assert_eq!(conflicts.num_conflicts, 0);
}

fn three_steps() -> Vec<Step> {
    let slots_list = four_slots();
    vec![
        mock_step(1, "step 1", 10, 0, StepStatus::ReadyToSchedule, slots_list.clone()),
        mock_step(2, "step 2", 2, 0, StepStatus::ReadyToSchedule, slots_list.clone()),
        mock_step(3, "step 2", 2, 0, StepStatus::Scheduled, slots_list),
    ]
}

#[test]
fn conflicts_test_conflicts_in_steps() {
    let steps_list = three_steps();
    let slot_to_search = mock_slot(2, 2023, 6, 1, 1);
    let conflicts = slot_to_search.get_conflicts_in_steps(&steps_list);
    assert_eq!(conflicts.slot, slot_to_search);
    assert_eq!(conflicts.num_conflicts, 8);
}

#[test]
fn test_no_conflicts_in_slots_for_work() {
    let steps_list =
        vec![mock_step(1, "dentist", 1, 2, StepStatus::ReadyToSchedule, vec![mock_slot(3, 2022, 9, 1, 12)])];
    let slot_to_search = mock_slot(3, 2022, 9, 1, 12);
    let conflicts = slot_to_search.get_conflicts_in_steps(&steps_list);
    assert_eq!(conflicts.slot, slot_to_search);
    assert_eq!(conflicts.num_conflicts, 3);
}

#[test]
fn conflicts_step_test_no_conflicts_in_steps() {
    let steps_list = vec![
        mock_step(
            1,
            "step 1",
            10,
            0,
            StepStatus::ReadyToSchedule,
            vec![mock_slot(5, 2023, 6, 1, 0), mock_slot(10, 2023, 6, 1, 9)],
        ),
        mock_step(
            2,
            "step 2",
            2,
            0,
            StepStatus::ReadyToSchedule,
            vec![mock_slot(5, 2023, 6, 5, 0), mock_slot(10, 2023, 6, 6, 9)],
        ),
    ];
    let step_to_search = mock_step(
        3,
        "test step",
        1,
        0,
        StepStatus::ReadyToSchedule,
        vec![mock_slot(2, 2023, 5, 1, 6), mock_slot(2, 2023, 6, 6, 0)],
    );
    let conflicts = step_to_search.get_conflicts_in_steps(&steps_list);
    let expected: Vec<SlotConflict> = vec![
        SlotConflict { slot: mock_slot(1, 2023, 6, 6, 1), num_conflicts: 0 },
        SlotConflict { slot: mock_slot(1, 2023, 6, 6, 0), num_conflicts: 0 },
        SlotConflict { slot: mock_slot(1, 2023, 5, 1, 7), num_conflicts: 0 },
        SlotConflict { slot: mock_slot(1, 2023, 5, 1, 6), num_conflicts: 0 },
    ];
    assert_eq!(conflicts, expected);
}

#[test]
fn conflicts_test_step_is_invalid() {
    let steps_list = three_steps();
    let step_to_search = mock_step(
        4,
        "test step 1",
        2,
        0,
        StepStatus::Scheduled,
        vec![mock_slot(2, 2023, 6, 1, 1), mock_slot(2, 2023, 6, 2, 8)],
    );
    let conflicts = step_to_search.get_conflicts_in_steps(&steps_list);
    assert_eq!(conflicts.len(), 0);
}

#[test]
fn test_conflicting_steps() {
    let steps_list = vec![
        mock_step(
            1,
            "test-conflict",
            1,
            2,
            StepStatus::ReadyToSchedule,
            vec![mock_slot(1, 2023, 5, 1, 12), mock_slot(1, 2023, 5, 1, 13)],
        ),
        mock_step(
            2,
            "test-conflict-2",
            1,
            2,
            StepStatus::ReadyToSchedule,
            vec![mock_slot(1, 2023, 5, 1, 15), mock_slot(1, 2023, 5, 1, 16)],
        ),
    ];
    let step_to_search = mock_step(
        3,
        "test",
        1,
        5,
        StepStatus::ReadyToSchedule,
        vec![
            mock_slot(1, 2023, 5, 1, 12),
            mock_slot(1, 2023, 5, 1, 13),
            mock_slot(1, 2023, 5, 1, 14),
            mock_slot(1, 2023, 5, 1, 15),
            mock_slot(1, 2023, 5, 1, 16),
        ],
    );
    let conflicts = step_to_search.get_conflicts_in_steps(&steps_list);
    let expected: Vec<SlotConflict> = vec![
        SlotConflict { slot: mock_slot(1, 2023, 5, 1, 16), num_conflicts: 1 },
        SlotConflict { slot: mock_slot(1, 2023, 5, 1, 15), num_conflicts: 1 },
        SlotConflict { slot: mock_slot(1, 2023, 5, 1, 13), num_conflicts: 1 },
        SlotConflict { slot: mock_slot(1, 2023, 5, 1, 12), num_conflicts: 1 },
        SlotConflict { slot: mock_slot(1, 2023, 5, 1, 14), num_conflicts: 0 },
    ];
    assert_eq!(conflicts, expected);
}
