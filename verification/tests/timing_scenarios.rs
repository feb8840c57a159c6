use zinzen_scheduler::timing::{determine_timing_scenario, TimeFilter, TimingScenario};

fn filter(after_time: Option<usize>, before_time: Option<usize>) -> TimeFilter {
    TimeFilter { after_time, before_time, on_days: None, not_on: None }
}

#[test]
fn utils_test_unbounded() {
    let filter = filter(None, None);
    assert_eq!(filter.determine_timing_scenario(), TimingScenario::Unbounded);
}

#[test]
fn utils_test_after_only() {
    let filter = filter(Some(10), None);
    assert_eq!(filter.determine_timing_scenario(), TimingScenario::AfterOnly);
}

#[test]
fn utils_test_before_only() {
    let filter = filter(None, Some(20));
    assert_eq!(filter.determine_timing_scenario(), TimingScenario::BeforeOnly);
}

#[test]
fn utils_test_bounded() {
    let filter = filter(Some(10), Some(20));
    assert_eq!(filter.determine_timing_scenario(), TimingScenario::Bounded);
}

#[test]
fn utils_test_bounded_and_both_are_equal() {
    let filter = filter(Some(10), Some(10));
    assert_eq!(filter.determine_timing_scenario(), TimingScenario::Bounded);
}

#[test]
fn utils_test_overflow() {
    let filter = filter(Some(20), Some(10));
    assert_eq!(filter.determine_timing_scenario(), TimingScenario::Overflow);
}

#[test]
fn filter_timing_test_unbounded() {
    assert_eq!(determine_timing_scenario(None, None), TimingScenario::Unbounded);
}

#[test]
fn filter_timing_test_after_only() {
    assert_eq!(determine_timing_scenario(Some(10), None), TimingScenario::AfterOnly);
}

#[test]
fn filter_timing_test_before_only() {
    assert_eq!(determine_timing_scenario(None, Some(20)), TimingScenario::BeforeOnly);
}

#[test]
fn filter_timing_test_bounded() {
    assert_eq!(determine_timing_scenario(Some(10), Some(20)), TimingScenario::Bounded);
}

#[test]
fn filter_timing_test_bounded_and_both_are_equal() {
    assert_eq!(determine_timing_scenario(Some(10), Some(10)), TimingScenario::Bounded);
}

#[test]
fn filter_timing_test_overflow() {
    assert_eq!(determine_timing_scenario(Some(20), Some(10)), TimingScenario::Overflow);
}
