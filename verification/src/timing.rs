use vstd::prelude::*;
use crate::slot::Slot;

verus! {

/// Timing scenario for a time range given by an optional `after_time`
/// and an optional `before_time` (hours of the day).
#[derive(PartialEq, Eq, Structural, Debug, Clone, Copy)]
pub enum TimingScenario {
    /// Neither `after_time` nor `before_time` is defined.
    Unbounded,
    /// Both are defined and `after_time <= before_time`.
    Bounded,
    /// Only `after_time` is defined.
    AfterOnly,
    /// Only `before_time` is defined.
    BeforeOnly,
    /// Both are defined and `after_time > before_time`: the range wraps around midnight.
    Overflow,
}

/// The scenario of a pair of optional bounds.
pub open spec fn scenario_of(after_time: Option<usize>, before_time: Option<usize>) -> TimingScenario {
    match (before_time, after_time) {
        (None, None) => TimingScenario::Unbounded,
        (None, Some(_)) => TimingScenario::AfterOnly,
        (Some(_), None) => TimingScenario::BeforeOnly,
        (Some(before), Some(after)) => if before >= after {
            TimingScenario::Bounded
        } else {
            TimingScenario::Overflow
        },
    }
}

/// A day of the week.
#[derive(PartialEq, Eq, Structural, Debug, Clone, Copy, PartialOrd, Ord, Hash)]
pub enum Day {
    Mon,
    Tue,
    Wed,
    Thu,
    Fri,
    Sat,
    Sun,
}

/// The day of the week with number `i` (0 is Monday).
pub open spec fn day_of_index(i: int) -> Day {
    if i == 0 {
        Day::Mon
    } else if i == 1 {
        Day::Tue
    } else if i == 2 {
        Day::Wed
    } else if i == 3 {
        Day::Thu
    } else if i == 4 {
        Day::Fri
    } else if i == 5 {
        Day::Sat
    } else {
        Day::Sun
    }
}

impl Day {
    /// The day of the week with number `i` (0 is Monday, 6 and above is Sunday).
    pub fn from_index(i: usize) -> (d: Day)
        ensures
            d == day_of_index(i as int),
    {
        if i == 0 {
            Day::Mon
        } else if i == 1 {
            Day::Tue
        } else if i == 2 {
            Day::Wed
        } else if i == 3 {
            Day::Thu
        } else if i == 4 {
            Day::Fri
        } else if i == 5 {
            Day::Sat
        } else {
            Day::Sun
        }
    }
}

/// A filter on the times a goal may take: hour-of-day bounds, days of the week,
/// and slots to leave out.
#[derive(Debug, Clone)]
pub struct TimeFilter {
    pub after_time: Option<usize>,
    pub before_time: Option<usize>,
    pub on_days: Option<Vec<Day>>,
    pub not_on: Option<Vec<Slot>>,
}

impl TimeFilter {
    /// Determines the timing scenario of `after_time` and `before_time`.
    pub fn determine_timing_scenario(&self) -> (r: TimingScenario)
        ensures
            r == scenario_of(self.after_time, self.before_time),
    {
        determine_timing_scenario(self.after_time, self.before_time)
    }
}

/// Determines the timing scenario of an optional `after_time` and an optional `before_time`.
pub fn determine_timing_scenario(after_time: Option<usize>, before_time: Option<usize>) -> (r:
    TimingScenario)
    ensures
        r == scenario_of(after_time, before_time),
{
    match (before_time, after_time) {
        (None, None) => TimingScenario::Unbounded,
        (None, Some(_)) => TimingScenario::AfterOnly,
        (Some(_), None) => TimingScenario::BeforeOnly,
        (Some(before), Some(after)) => {
            if before >= after {
                TimingScenario::Bounded
            } else {
                TimingScenario::Overflow
            }
        },
    }
}

/// A valid hour bound lies between 0 and 24.
pub open spec fn valid_time(time: Option<usize>) -> bool {
    time matches Some(t) ==> t <= 24
}

/// Checks that a given value is a valid hour number between 0 and 24;
/// a value above 24 is refused by the precondition.
pub fn validate_time(time: Option<usize>, time_name: &str)
    requires
        valid_time(time),
{
}

} // verus!
