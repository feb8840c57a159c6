use vstd::prelude::*;
use crate::goal::{has_tag, Goal, Tag};
use crate::step::{opt_seq, split_piece, NewStep, Step, StepModel, StepStatus};
use crate::time::{time_ok, SECS_PER_HOUR};
use crate::timeline::{strictly_sorted, Timeline};
use crate::timing::{scenario_of, TimingScenario};

verus! {

/// The window a goal's timelines are cut from: its start and deadline (the calendar's
/// where it has none), widened, for a filter whose hours wrap past midnight, back by
/// the hours from its after-time to midnight and forward by its before-time.
pub open spec fn window_spec(g: Goal, calendar_start: int, calendar_end: int) -> (int, int) {
    let start = match g.start {
        Some(t) => t as int,
        None => calendar_start,
    };
    let deadline = match g.deadline {
        Some(t) => t as int,
        None => calendar_end,
    };
    match g.filters {
        Some(f) => if scenario_of(f.after_time, f.before_time) == TimingScenario::Overflow {
            (
                start - (24 - f.after_time->0) * SECS_PER_HOUR,
                deadline + f.before_time->0 * SECS_PER_HOUR,
            )
        } else {
            (start, deadline)
        },
        None => (start, deadline),
    }
}

/// The step a goal makes of one of its timelines, numbered `id`.
pub open spec fn goal_step(g: Goal, timeline: Timeline, id: int) -> StepModel {
    StepModel {
        id: id as usize,
        goal_id: g.id,
        title: g.title,
        duration: g.min_duration->0,
        status: StepStatus::ReadyToSchedule,
        flexibility: 0,
        start: None,
        deadline: None,
        slots: timeline.slots@,
        tags: g.tags@,
        after_goals: opt_seq(g.after_goals),
    }
}

/// The steps of eight hours at most that a step is made into: itself when shorter than
/// eight hours; otherwise one of eight hours followed by one-hour steps for the rest,
/// numbered from the number of remaining hours on.
pub open spec fn thresholded(m: StepModel) -> Seq<StepModel> {
    if m.duration < 8 {
        seq![m]
    } else {
        let rest = StepModel { duration: (m.duration - 8) as usize, ..m };
        seq![StepModel { duration: 8, ..m }] + Seq::new(
            (m.duration - 8) as nat,
            |k: int| split_piece(rest, m.duration - 8 + k),
        )
    }
}

/// Does the eight-hour threshold split the goal's steps: when it is a leaf, or, where
/// fillers count too, when it is a filler?
pub open spec fn splits_steps(g: Goal, fillers_too: bool) -> bool {
    g.children is None || (fillers_too && g.tags@.contains(Tag::Filler))
}

/// The steps a goal makes of its timelines, numbered from `counter` on: every timeline
/// takes a number; a timeline with slots gives a step of the goal's minimum duration,
/// split by the eight-hour threshold where `splits_steps` says so.
pub open spec fn steps_of_by(g: Goal, timelines: Seq<Timeline>, counter: int, fillers_too: bool) -> Seq<
    StepModel,
>
    decreases timelines.len(),
{
    if timelines.len() == 0 {
        seq![]
    } else {
        let before = steps_of_by(g, timelines.drop_last(), counter, fillers_too);
        let t = timelines.last();
        let id = counter + timelines.len() - 1;
        if t.slots@.len() > 0 && g.min_duration is Some {
            let m = goal_step(g, t, id);
            if splits_steps(g, fillers_too) {
                before + thresholded(m)
            } else {
                before.push(m)
            }
        } else {
            before
        }
    }
}

/// The steps of a goal's timelines for step generation, where leaves and fillers are
/// split by the eight-hour threshold (see `steps_of_by`).
pub open spec fn steps_of(g: Goal, timelines: Seq<Timeline>, counter: int) -> Seq<StepModel> {
    steps_of_by(g, timelines, counter, true)
}

/// The goal's steps: none for a goal that is ignored for step generation or that has
/// budgets; otherwise those of its timelines (see `steps_of`).
pub open spec fn generated_steps(g: Goal, timelines: Seq<Timeline>, counter: int) -> Seq<StepModel> {
    if g.tags@.contains(Tag::IgnoreStepGeneration) || g.tags@.contains(Tag::Budget) {
        seq![]
    } else {
        steps_of(g, timelines, counter)
    }
}

/// The goal's tasks: none for a goal that is ignored for step generation or that has
/// budgets; otherwise those of its timelines, where only leaves are split by the
/// eight-hour threshold (see `steps_of_by`).
pub open spec fn generated_tasks(g: Goal, timelines: Seq<Timeline>, counter: int) -> Seq<StepModel> {
    if g.tags@.contains(Tag::IgnoreStepGeneration) || g.tags@.contains(Tag::Budget) {
        seq![]
    } else {
        steps_of_by(g, timelines, counter, false)
    }
}

/// Does the goal make steps that the eight-hour threshold applies to: it is neither
/// ignored nor budgeted, it is a leaf or a filler, and one of its timelines has slots?
pub open spec fn thresholds_steps(g: Goal, timelines: Seq<Timeline>) -> bool {
    thresholds_steps_by(g, timelines, true)
}

/// Does the goal make steps that the eight-hour threshold applies to, where
/// `splits_steps` decides which goals it splits?
pub open spec fn thresholds_steps_by(g: Goal, timelines: Seq<Timeline>, fillers_too: bool) -> bool {
    &&& !g.tags@.contains(Tag::IgnoreStepGeneration)
    &&& !g.tags@.contains(Tag::Budget)
    &&& splits_steps(g, fillers_too)
    &&& exists|k: int| 0 <= k < timelines.len() && (#[trigger] timelines[k]).slots@.len() > 0
}

/// What step generation needs of a goal: where the eight-hour threshold applies to its
/// steps, a minimum duration above zero whose one-hour numbers fit; where it numbers
/// timelines, numbers that fit; and timelines whose slots come in order, each once.
pub open spec fn generatable(g: Goal, timelines: Seq<Timeline>, counter: int) -> bool {
    generatable_by(g, timelines, counter, true)
}

/// What generation needs of a goal, where `splits_steps` decides which goals the
/// eight-hour threshold splits (see `generatable`).
pub open spec fn generatable_by(g: Goal, timelines: Seq<Timeline>, counter: int, fillers_too: bool) -> bool {
    &&& thresholds_steps_by(g, timelines, fillers_too) ==> (g.min_duration matches Some(d) ==> (d
        > 0 && 2 * (d - 8) <= usize::MAX))
    &&& (!g.tags@.contains(Tag::IgnoreStepGeneration) && !g.tags@.contains(Tag::Budget))
        ==> counter + timelines.len() <= usize::MAX
    &&& forall|k: int| 0 <= k < timelines.len() ==> strictly_sorted(#[trigger] timelines[k].slots@)
}

/// Moves the steps of `more` to the end of `steps`.
fn append_steps(steps: &mut Vec<Step>, more: Vec<Step>)
    ensures
        final(steps)@.map_values(|s: Step| s@) == old(steps)@.map_values(|s: Step| s@) + more@.map_values(
            |s: Step| s@,
        ),
{
    let mut more = more;
    let ghost m0 = more@;
    steps.append(&mut more);
    assert(steps@.map_values(|s: Step| s@) =~= old(steps)@.map_values(|s: Step| s@) + m0.map_values(
        |s: Step| s@,
    ));
}

impl Goal {
    /// The window the goal's timelines are cut from (see `window_spec`).
    pub fn step_window(&self, calendar_start: i64, calendar_end: i64) -> (r: (i64, i64))
        requires
            time_ok(calendar_start as int),
            time_ok(calendar_end as int),
            self.start matches Some(t) ==> time_ok(t as int),
            self.deadline matches Some(t) ==> time_ok(t as int),
            self.filters matches Some(f) ==> (f.after_time matches Some(a) ==> a <= 24) && (
            f.before_time matches Some(b) ==> b <= 24),
        ensures
            (r.0 as int, r.1 as int) == window_spec(*self, calendar_start as int, calendar_end as int),
    {
        let mut start = match self.start {
            Some(t) => t,
            None => calendar_start,
        };
        let mut deadline = match self.deadline {
            Some(t) => t,
            None => calendar_end,
        };
        match &self.filters {
            Some(filter) => {
                if filter.determine_timing_scenario() == TimingScenario::Overflow {
                    let after_time = match filter.after_time {
                        Some(a) => a,
                        None => 0,
                    };
                    let diff = 24 - after_time;
                    start = start - (diff as i64) * SECS_PER_HOUR;
                    let before_time = match filter.before_time {
                        Some(b) => b,
                        None => 0,
                    };
                    deadline = deadline + (before_time as i64) * SECS_PER_HOUR;
                }
            },
            None => {},
        }
        (start, deadline)
    }

    /// The goal's steps from the timelines that its repetition and filter cut its window
    /// into, numbered from `*counter` on (see `generated_steps`).
    pub fn generate_steps(self, timelines: Vec<Timeline>, counter: &mut usize) -> (r: Vec<Step>)
        requires
            generatable(self, timelines@, *old(counter) as int),
        ensures
            r@.map_values(|s: Step| s@) == generated_steps(self, timelines@, *old(counter) as int),
            *final(counter) == if self.tags@.contains(Tag::IgnoreStepGeneration) || self.tags@.contains(Tag::Budget) {
                *old(counter) as int
            } else {
                *old(counter) + timelines@.len()
            },
    {
        if has_tag(&self.tags, Tag::IgnoreStepGeneration) || has_tag(&self.tags, Tag::Budget) {
            return Vec::new();
        }
        self.steps_from(timelines, counter, true)
    }

    /// The goal's tasks from the timelines that its repetition and filter cut its window
    /// into, numbered from `*counter` on; only a leaf's are split by the eight-hour
    /// threshold (see `generated_tasks`).
    pub fn generate_tasks(self, timelines: Vec<Timeline>, counter: &mut usize) -> (r: Vec<Step>)
        requires
            generatable_by(self, timelines@, *old(counter) as int, false),
        ensures
            r@.map_values(|s: Step| s@) == generated_tasks(self, timelines@, *old(counter) as int),
            *final(counter) == if self.tags@.contains(Tag::IgnoreStepGeneration) || self.tags@.contains(Tag::Budget) {
                *old(counter) as int
            } else {
                *old(counter) + timelines@.len()
            },
    {
        if has_tag(&self.tags, Tag::IgnoreStepGeneration) || has_tag(&self.tags, Tag::Budget) {
            return Vec::new();
        }
        self.steps_from(timelines, counter, false)
    }

    /// The steps of the timelines, numbered from `*counter` on (see `steps_of_by`).
    fn steps_from(&self, timelines: Vec<Timeline>, counter: &mut usize, fillers_too: bool) -> (r: Vec<Step>)
        requires
            generatable_by(*self, timelines@, *old(counter) as int, fillers_too),
            !self.tags@.contains(Tag::IgnoreStepGeneration),
            !self.tags@.contains(Tag::Budget),
        ensures
            r@.map_values(|s: Step| s@) == steps_of_by(*self, timelines@, *old(counter) as int, fillers_too),
            *final(counter) == *old(counter) + timelines@.len(),
    {
        let mut steps: Vec<Step> = Vec::new();
        let ghost c0 = *counter as int;
        let ghost tl = timelines@;
        let split = self.children.is_none() || (fillers_too && has_tag(&self.tags, Tag::Filler));
        let mut timelines = timelines;
        let mut rest: Vec<Timeline> = Vec::new();
        while timelines.len() > 0
            invariant
                tl == timelines@ + rest@.reverse(),
            decreases timelines.len(),
        {
            let ghost t0 = timelines@;
            let ghost r0 = rest@;
            let t = timelines.pop().unwrap();
            rest.push(t);
            proof {
                assert(rest@.reverse() =~= seq![t] + r0.reverse());
                assert(t0 =~= timelines@.push(t));
                assert(timelines@ + rest@.reverse() =~= t0 + r0.reverse());
            }
        }
        let mut n: usize = 0;
        while rest.len() > 0
            invariant
                n <= tl.len(),
                rest@.len() == tl.len() - n,
                forall|k: int| 0 <= k < rest@.len() ==> rest@[k] == tl[tl.len() - 1 - k],
                generatable_by(*self, tl, c0, fillers_too),
                !self.tags@.contains(Tag::IgnoreStepGeneration),
                !self.tags@.contains(Tag::Budget),
                c0 >= 0,
                *counter == c0 + n,
                split == splits_steps(*self, fillers_too),
                steps@.map_values(|s: Step| s@) == steps_of_by(*self, tl.take(n as int), c0, fillers_too),
            decreases rest@.len(),
        {
            let timeline = rest.pop().unwrap();
            proof {
                assert(timeline == tl[n as int]);
                assert(tl.take(n + 1).drop_last() =~= tl.take(n as int));
                assert(tl.take(n + 1).last() == timeline);
            }
            let step_id = *counter;
            *counter = *counter + 1;
            let ghost before = steps@;
            if timeline.slots.len() > 0 && self.min_duration.is_some() {
                let duration = match self.min_duration {
                    Some(d) => d,
                    None => 0,
                };
                let goal = self.duplicate();
                let new_step = NewStep {
                    step_id,
                    title: self.title.clone(),
                    duration,
                    goal,
                    timeline,
                    status: StepStatus::ReadyToSchedule,
                    timeframe: None,
                };
                let step = Step::new(new_step);
                let ghost m = goal_step(*self, tl[n as int], c0 + n);
                assert(step@ == m);
                if split {
                    proof {
                        assert(tl[n as int].slots@.len() > 0);
                        assert(thresholds_steps_by(*self, tl, fillers_too));
                    }
                    let pieces = step.apply_duration_threshold();
                    proof {
                        assert(pieces@.map_values(|s: Step| s@) =~= thresholded(m));
                    }
                    append_steps(&mut steps, pieces);
                } else {
                    steps.push(step);
                    proof {
                        assert(steps@.map_values(|s: Step| s@) =~= before.map_values(|s: Step| s@).push(m));
                    }
                }
            } else {
                proof {
                    assert(steps@ == before);
                }
            }
            n = n + 1;
        }
        proof {
            assert(tl.take(tl.len() as int) =~= tl);
        }
        steps
    }
}

} // verus!
