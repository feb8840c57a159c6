use chrono::NaiveDate;
use zinzen_scheduler::slot::Slot;
use zinzen_scheduler::timeline::{Timeline, TimelineIterator};
use zinzen_scheduler::timeline_filter::filter_timing;

fn at(year: i32, month: u32, day: u32, hour: u32) -> i64 {
    NaiveDate::from_ymd_opt(year, month, day)
        .unwrap()
        .and_hms_opt(hour, 0, 0)
        .unwrap()
        .and_utc()
        .timestamp()
}

fn mock_slot(hours: i64, year: i32, month: u32, day: u32, hour: u32) -> Slot {
    let start = at(year, month, day, hour);
    Slot { start, end: start + hours * 3600 }
}

const DAY: i64 = 86400;

fn walk(mut it: TimelineIterator) -> Vec<Slot> {
    let mut result: Vec<Slot> = vec![];
    while let Some(walking_slots) = it.next() {
        result.extend(walking_slots);
    }
    result
}

#[test]
fn test_walk_through_single_slot() {
    let timeline = Timeline { slots: vec![mock_slot(5 * 24, 2023, 5, 1, 0)] };
    let expected_result: Vec<Slot> = (1..=5).map(|d| mock_slot(24, 2023, 5, d, 0)).collect();
    let result = walk(TimelineIterator::new(timeline.clone(), DAY));
    assert_eq!(expected_result, result);
}

#[test]
fn test_walk_through_mutliple_slots() {
    let timeline = Timeline { slots: vec![mock_slot(5 * 24, 2023, 5, 1, 0), mock_slot(3 * 24, 2023, 6, 1, 0)] };
    let mut expected_result: Vec<Slot> = (1..=5).map(|d| mock_slot(24, 2023, 5, d, 0)).collect();
    expected_result.extend((1..=3).map(|d| mock_slot(24, 2023, 6, d, 0)));
    let result = walk(TimelineIterator::new(timeline.clone(), DAY));
    assert_eq!(expected_result, result);
}

#[test]
fn test_edit_slot_from_iterator() {
    let timeline = Timeline { slots: vec![mock_slot(5 * 24, 2023, 5, 1, 0)] };
    let expected_result: Vec<Slot> = (1..=5).map(|d| mock_slot(10, 2023, 5, d, 0)).collect();
    let mut it = TimelineIterator::new(timeline.clone(), DAY);
    let mut result: Vec<Slot> = vec![];
    while let Some(mut walking_slots) = it.next() {
        walking_slots.iter_mut().for_each(|slot| {
            slot.end -= 14 * 3600;
        });
        result.extend(walking_slots);
    }
    assert_eq!(expected_result, result);
}

#[test]
fn test_iterate_when_interval_dur_more_than_slot_duration() {
    let timeline = Timeline { slots: (1..=5).map(|d| mock_slot(10, 2023, 5, d, 5)).collect() };
    let expected_result: Vec<Slot> = (1..=5).map(|d| mock_slot(10, 2023, 5, d, 5)).collect();
    let result = walk(TimelineIterator::new(timeline.clone(), DAY));
    assert_eq!(expected_result, result);
}

#[test]
fn test_hurdle_in_case_bug_215() {
    let timeline = Timeline { slots: vec![mock_slot(3 * 24, 2023, 1, 3, 1)] };
    let expected_result: Vec<Slot> = (3..=6).map(|d| mock_slot(24, 2023, 1, d, 0)).collect();
    let result = walk(TimelineIterator::new_calendar_day(timeline.clone()));
    assert_eq!(expected_result, result);
}

#[test]
fn walk_ends_with_a_whole_interval() {
    let timeline = Timeline { slots: vec![mock_slot(30, 2023, 1, 3, 0)] };
    let result = walk(TimelineIterator::initialize(timeline));
    assert_eq!(result, vec![mock_slot(24, 2023, 1, 3, 0), mock_slot(24, 2023, 1, 4, 0)]);
}

fn get_2_slots() -> (Slot, Slot) {
    (mock_slot(5, 2022, 10, 1, 5), mock_slot(5, 2022, 10, 1, 9))
}

fn get_slot() -> Slot {
    mock_slot(15, 2022, 10, 1, 5)
}

#[test]
fn test_subtract_2_slots() {
    let (slot1, slot2) = get_2_slots();
    let expected = vec![mock_slot(4, 2022, 10, 1, 5)];
    let result = slot1.sub(slot2);
    assert_eq!(expected, result);
}

#[test]
fn test_compare_2_slots() {
    let (slot1, slot2) = get_2_slots();
    assert!(slot1 < slot2);
    assert!(slot1 != slot2);
    assert_eq!(std::cmp::max(slot1, slot2), slot2);
    assert_eq!(std::cmp::min(slot1, slot2), slot1);
}

#[test]
fn test_initialize_timeline() {
    let sample_slot = get_slot();
    let expected_timeline = Timeline { slots: vec![Slot { start: sample_slot.start, end: sample_slot.end }] };
    if let Some(timeline) = Timeline::initialize(sample_slot.start, sample_slot.end) {
        assert_eq!(expected_timeline, timeline);
    } else {
        assert!(false);
    }
}

#[test]
fn test_remove_from_timeline() {
    let sample_slot = get_slot();
    if let Some(mut timeline) = Timeline::initialize(sample_slot.start, sample_slot.end) {
        let (slot_to_remove, _) = get_2_slots();
        timeline.remove_slots(vec![slot_to_remove]);
        let expected_result = vec![mock_slot(10, 2022, 10, 1, 10)];
        assert_eq!(expected_result, timeline.slots);
    } else {
        assert!(false);
    }
}

#[test]
fn timeline_test_aftertime_only() {
    let timeline = Timeline { slots: vec![mock_slot(24, 2022, 1, 1, 0)] };
    let expected_result = Timeline { slots: vec![mock_slot(19, 2022, 1, 1, 5)] };
    let result = filter_timing(&timeline, None, Some(5));
    assert_eq!(result, expected_result);
}

#[test]
fn slot_add_joins_and_counts_hours() {
    let (slot1, slot2) = get_2_slots();
    assert_eq!(slot1.add(slot2), slot1);
    let joined = slot1.add(mock_slot(4, 2022, 10, 1, 10));
    assert_eq!(joined, mock_slot(9, 2022, 10, 1, 5));
    assert_eq!(joined.num_hours(), 9);
    assert_eq!(slot1.intersection(&slot2), 1);
    assert!(slot1.conflicts_with(&slot2));
}

#[test]
fn merged_slots_join_touching_runs() {
    let timeline = Timeline {
        slots: vec![
            mock_slot(1, 2023, 5, 1, 8),
            mock_slot(2, 2023, 5, 1, 9),
            mock_slot(1, 2023, 5, 1, 11),
            mock_slot(1, 2023, 5, 1, 14),
        ],
    };
    let merged = timeline.get_merged_slots();
    assert_eq!(merged.slots, vec![mock_slot(4, 2023, 5, 1, 8), mock_slot(1, 2023, 5, 1, 14)]);
    assert_eq!(Timeline::new().get_merged_slots().slots, vec![]);
}
