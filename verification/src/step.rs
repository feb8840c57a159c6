use vstd::prelude::*;
use crate::budget::StepBudgets;
use crate::goal::{has_tag, Goal, Tag};
use crate::slot::{sub_spec, Slot};
use crate::time::{hours_between, time_ok};
use crate::timeline::{collect_slots, sorted_of_set, strictly_sorted, Timeline, lemma_is_sorted_of_set};

verus! {

/// Errors of step handling.
#[derive(Debug, Clone, PartialEq, Eq)]
pub enum Error {
    CannotSplit,
    NoConfirmedDate(String, usize),
}

/// Where a step stands in scheduling.
#[derive(PartialEq, Eq, Structural, Debug, Clone, Copy)]
pub enum StepStatus {
    Uninitialized,
    Blocked,
    ReadyToSchedule,
    Scheduled,
    Impossible,
}

/// A part of a goal to place: `duration` hours within its `slots`.
#[derive(Debug, Clone)]
pub struct Step {
    pub id: usize,
    pub goal_id: String,
    pub title: String,
    pub duration: usize,
    pub status: StepStatus,
    pub flexibility: usize,
    pub start: Option<i64>,
    pub deadline: Option<i64>,
    pub slots: Vec<Slot>,
    pub tags: Vec<Tag>,
    pub after_goals: Option<Vec<String>>,
}

/// The value of a step, its vectors taken as sequences.
pub struct StepModel {
    pub id: usize,
    pub goal_id: String,
    pub title: String,
    pub duration: usize,
    pub status: StepStatus,
    pub flexibility: usize,
    pub start: Option<i64>,
    pub deadline: Option<i64>,
    pub slots: Seq<Slot>,
    pub tags: Seq<Tag>,
    pub after_goals: Option<Seq<String>>,
}

/// The sequence of an optional vector.
pub open spec fn opt_seq(v: Option<Vec<String>>) -> Option<Seq<String>> {
    match v {
        Some(v) => Some(v@),
        None => None,
    }
}

impl View for Step {
    type V = StepModel;

    open spec fn view(&self) -> StepModel {
        StepModel {
            id: self.id,
            goal_id: self.goal_id,
            title: self.title,
            duration: self.duration,
            status: self.status,
            flexibility: self.flexibility,
            start: self.start,
            deadline: self.deadline,
            slots: self.slots@,
            tags: self.tags@,
            after_goals: opt_seq(self.after_goals),
        }
    }
}

/// What a new step is made from.
#[derive(Debug, Clone)]
pub struct NewStep {
    pub step_id: usize,
    pub title: String,
    pub duration: usize,
    pub goal: Goal,
    pub timeline: Timeline,
    pub status: StepStatus,
    pub timeframe: Option<Slot>,
}

/// A copy of a vector of strings.
pub fn clone_strings(v: &Vec<String>) -> (r: Vec<String>)
    ensures
        r@ == v@,
{
    let mut r: Vec<String> = Vec::new();
    let mut i: usize = 0;
    while i < v.len()
        invariant
            i <= v@.len(),
            r@ == v@.take(i as int),
        decreases v@.len() - i,
    {
        r.push(v[i].clone());
        proof {
            assert(v@.take(i + 1) =~= v@.take(i as int).push(v@[i as int]));
        }
        i += 1;
    }
    proof {
        assert(v@.take(v@.len() as int) =~= v@);
    }
    r
}

/// A copy of an optional vector of strings.
pub fn clone_opt_strings(v: &Option<Vec<String>>) -> (r: Option<Vec<String>>)
    ensures
        opt_seq(r) == opt_seq(*v),
{
    match v {
        Some(v) => Some(clone_strings(v)),
        None => None,
    }
}

/// A copy of a vector of slots.
pub fn clone_slots(v: &Vec<Slot>) -> (r: Vec<Slot>)
    ensures
        r@ == v@,
{
    let mut r: Vec<Slot> = Vec::new();
    let mut i: usize = 0;
    while i < v.len()
        invariant
            i <= v@.len(),
            r@ == v@.take(i as int),
        decreases v@.len() - i,
    {
        r.push(v[i]);
        proof {
            assert(v@.take(i + 1) =~= v@.take(i as int).push(v@[i as int]));
        }
        i += 1;
    }
    proof {
        assert(v@.take(v@.len() as int) =~= v@);
    }
    r
}

/// A copy of a vector of tags.
pub fn clone_tags(v: &Vec<Tag>) -> (r: Vec<Tag>)
    ensures
        r@ == v@,
{
    let mut r: Vec<Tag> = Vec::new();
    let mut i: usize = 0;
    while i < v.len()
        invariant
            i <= v@.len(),
            r@ == v@.take(i as int),
        decreases v@.len() - i,
    {
        r.push(v[i]);
        proof {
            assert(v@.take(i + 1) =~= v@.take(i as int).push(v@[i as int]));
        }
        i += 1;
    }
    proof {
        assert(v@.take(v@.len() as int) =~= v@);
    }
    r
}

/// The step after computing its flexibility: a scheduled or impossible step stays as it
/// is; any other gets the flexibility of its slots, and becomes impossible when that is 0.
pub open spec fn calculated(m: StepModel) -> StepModel {
    if m.status == StepStatus::Scheduled || m.status == StepStatus::Impossible {
        m
    } else {
        let f = flex_sum(m.slots, m.duration as int);
        StepModel {
            flexibility: f as usize,
            status: if f == 0 {
                StepStatus::Impossible
            } else {
                m.status
            },
            ..m
        }
    }
}

/// Flexibility contributed by a slot: how many start hours fit a step of `duration` hours.
pub open spec fn slot_flex(s: Slot, duration: int) -> int {
    let h = #[verifier::truncate] (hours_between(s.start as int, s.end as int) as usize) as int;
    if h >= duration {
        h - duration + 1
    } else {
        0
    }
}

/// Total flexibility of the slots for a step of `duration` hours.
pub open spec fn flex_sum(slots: Seq<Slot>, duration: int) -> int
    decreases slots.len(),
{
    if slots.len() == 0 {
        0
    } else {
        flex_sum(slots.drop_last(), duration) + slot_flex(slots.last(), duration)
    }
}

/// Two steps are equal when their flexibilities are: steps are compared for the order
/// in which they are placed, and that order goes by flexibility within a status.
impl PartialEq for Step {
    fn eq(&self, other: &Self) -> (r: bool) {
        self.flexibility == other.flexibility
    }
}

impl vstd::std_specs::cmp::PartialEqSpecImpl for Step {
    open spec fn obeys_eq_spec() -> bool {
        true
    }

    open spec fn eq_spec(&self, other: &Self) -> bool {
        self.flexibility == other.flexibility
    }
}

impl Step {
    /// A copy of the step.
    pub fn duplicate(&self) -> (r: Step)
        ensures
            r@ == self@,
    {
        Step {
            id: self.id,
            goal_id: self.goal_id.clone(),
            title: self.title.clone(),
            duration: self.duration,
            status: self.status,
            flexibility: self.flexibility,
            start: self.start,
            deadline: self.deadline,
            slots: clone_slots(&self.slots),
            tags: clone_tags(&self.tags),
            after_goals: clone_opt_strings(&self.after_goals),
        }
    }

    /// Creates a step from a new-step description: its slots are those of the timeline,
    /// its tags and after-goals those of the goal, and its start and deadline those of
    /// the timeframe, if any. The timeline's slots come in order, each once, as in any
    /// timeline, and the step keeps them so.
    pub fn new(new_step: NewStep) -> (step: Step)
        requires
            strictly_sorted(new_step.timeline.slots@),
        ensures
            strictly_sorted(step.slots@),
            step.id == new_step.step_id,
            step.goal_id == new_step.goal.id,
            step.title == new_step.title,
            step.duration == new_step.duration,
            step.status == new_step.status,
            step.flexibility == 0,
            step.start == (match new_step.timeframe {
                Some(t) => Some(t.start),
                None => None::<i64>,
            }),
            step.deadline == (match new_step.timeframe {
                Some(t) => Some(t.end),
                None => None::<i64>,
            }),
            step.slots@ == new_step.timeline.slots@,
            step.tags@ == new_step.goal.tags@,
            opt_seq(step.after_goals) == opt_seq(new_step.goal.after_goals),
    {
        let start = match new_step.timeframe {
            Some(t) => Some(t.start),
            None => None,
        };
        let deadline = match new_step.timeframe {
            Some(t) => Some(t.end),
            None => None,
        };
        Step {
            id: new_step.step_id,
            goal_id: new_step.goal.id,
            title: new_step.title,
            duration: new_step.duration,
            status: new_step.status,
            flexibility: 0,
            start,
            deadline,
            slots: new_step.timeline.slots,
            tags: new_step.goal.tags,
            after_goals: new_step.goal.after_goals,
        }
    }

    /// A copy of the step's slots.
    pub fn get_slots(&self) -> (r: Vec<Slot>)
        ensures
            r@ == self.slots@,
    {
        clone_slots(&self.slots)
    }

    /// Computes the flexibility of a step that is not yet scheduled or impossible: for each
    /// slot at least as long as the step, the number of whole-hour starts that fit; a step
    /// with no flexibility becomes impossible.
    pub fn calculate_flexibility(&mut self)
        requires
            !(old(self).status == StepStatus::Scheduled || old(self).status == StepStatus::Impossible)
                ==> (forall|i: int|
                0 <= i < old(self).slots@.len() ==> (#[trigger] old(self).slots@[i]).wf()),
            !(old(self).status == StepStatus::Scheduled || old(self).status == StepStatus::Impossible)
                ==> flex_sum(old(self).slots@, old(self).duration as int) <= usize::MAX,
        ensures
            final(self)@ == calculated(old(self)@),
    {
        if self.status == StepStatus::Scheduled || self.status == StepStatus::Impossible {
            return;
        }
        let step_duration = self.duration;
        let mut flexibility: usize = 0;
        let mut i: usize = 0;
        while i < self.slots.len()
            invariant
                i <= self.slots@.len(),
                self.slots@ == old(self).slots@,
                step_duration == old(self).duration,
                forall|k: int| 0 <= k < self.slots@.len() ==> (#[trigger] self.slots@[k]).wf(),
                flex_sum(self.slots@, step_duration as int) <= usize::MAX,
                flexibility == flex_sum(self.slots@.take(i as int), step_duration as int),
            decreases self.slots@.len() - i,
        {
            let slot = self.slots[i];
            proof {
                assert(self.slots@.take(i + 1).drop_last() =~= self.slots@.take(i as int));
                lemma_flex_sum_prefix(self.slots@, step_duration as int, i + 1);
            }
            let slot_duration = slot.num_hours();
            proof {
                assert(self.slots@.take(i + 1).last() == slot);
                assert(flex_sum(self.slots@.take(i + 1), step_duration as int) == flexibility
                    + slot_flex(slot, step_duration as int));
            }
            if slot_duration >= step_duration {
                flexibility = flexibility + (slot_duration - step_duration) + 1;
            }
            i += 1;
        }
        proof {
            assert(self.slots@.take(self.slots@.len() as int) =~= self.slots@);
        }
        if flexibility == 0 {
            self.status = StepStatus::Impossible;
        }
        self.flexibility = flexibility;
    }
}

/// Each slot adds a non-negative amount, so a prefix has at most the flexibility of the whole.
pub proof fn lemma_flex_sum_prefix(s: Seq<Slot>, d: int, n: int)
    requires
        0 <= n <= s.len(),
    ensures
        0 <= flex_sum(s.take(n), d) <= flex_sum(s, d),
    decreases s.len(),
{
    if s.len() > 0 {
        if n == s.len() {
            assert(s.take(n) =~= s);
            lemma_flex_sum_prefix(s.drop_last(), d, s.len() - 1);
            assert(s.drop_last().take(s.len() - 1) =~= s.drop_last());
        } else {
            lemma_flex_sum_prefix(s.drop_last(), d, n);
            assert(s.drop_last().take(n) =~= s.take(n));
        }
    }
}


/// The step made by splitting: one hour of the step, with the given id.
pub open spec fn split_piece(s: StepModel, id: int) -> StepModel {
    StepModel {
        id: id as usize,
        goal_id: s.goal_id,
        title: s.title,
        duration: 1,
        status: StepStatus::ReadyToSchedule,
        flexibility: 0,
        start: None,
        deadline: None,
        slots: sorted_of_set(s.slots.to_set()),
        tags: seq![],
        after_goals: s.after_goals,
    }
}

impl Step {
    /// Splits the step into one-hour steps, numbered from `counter` on; each gets the
    /// step's slots in order (each once), no tags, and is ready to schedule.
    /// A step of one hour cannot be split.
    pub fn split(&mut self, counter: &mut usize) -> (result: Result<Vec<Step>, Error>)
        requires
            old(self).duration != 1 ==> *old(counter) + old(self).duration <= usize::MAX,
        ensures
            final(self)@ == old(self)@,
            old(self).duration == 1 ==> result == Err::<Vec<Step>, Error>(Error::CannotSplit)
                && *final(counter) == *old(counter),
            old(self).duration != 1 ==> (result matches Ok(v) && v@.len() == old(self).duration
                && (forall|k: int|
                0 <= k < v@.len() ==> (#[trigger] v@[k])@ == split_piece(
                    old(self)@,
                    *old(counter) + k,
                ))) && *final(counter) == *old(counter) + old(self).duration,
    {
        if self.duration == 1 {
            return Err(Error::CannotSplit);
        }
        Ok(self.one_hour_pieces(counter))
    }

    /// One-hour steps for each hour of the step, numbered from `counter` on (see
    /// `split_piece`).
    fn one_hour_pieces(&self, counter: &mut usize) -> (v: Vec<Step>)
        requires
            *old(counter) + self.duration <= usize::MAX,
        ensures
            v@.len() == self.duration,
            forall|k: int| 0 <= k < v@.len() ==> (#[trigger] v@[k])@ == split_piece(self@, *old(counter) + k),
            *final(counter) == *old(counter) + self.duration,
    {
        let mut steps: Vec<Step> = Vec::new();
        let timeline = collect_slots(self.get_slots());
        proof {
            lemma_is_sorted_of_set(timeline.slots@);
            assert(timeline.slots@.to_set() =~= self.slots@.to_set());
        }
        let goal = Goal {
            id: self.goal_id.clone(),
            title: self.title.clone(),
            min_duration: None,
            start: None,
            deadline: None,
            repeat: None,
            filters: None,
            children: None,
            budgets: None,
            tags: clone_tags(&self.tags),
            after_goals: clone_opt_strings(&self.after_goals),
        };
        let new_step = NewStep {
            step_id: *counter,
            title: self.title.clone(),
            duration: 1,
            goal,
            timeline,
            status: StepStatus::Uninitialized,
            timeframe: None,
        };
        let template = Step::new(new_step);
        let ghost first = *counter;
        let mut n: usize = 0;
        while n < self.duration
            invariant
                n <= self.duration,
                *counter == first + n,
                first + self.duration <= usize::MAX,
                steps@.len() == n,
                template.goal_id == self.goal_id,
                template.title == self.title,
                template.duration == 1,
                template.flexibility == 0,
                template.start is None,
                template.deadline is None,
                template.slots@ == sorted_of_set(self.slots@.to_set()),
                opt_seq(template.after_goals) == opt_seq(self.after_goals),
                forall|k: int|
                    0 <= k < steps@.len() ==> (#[trigger] steps@[k])@ == split_piece(self@, first + k),
            decreases self.duration - n,
        {
            let mut step = template.duplicate();
            step.id = *counter;
            step.status = StepStatus::ReadyToSchedule;
            step.tags = Vec::new();
            proof {
                assert(step@ == split_piece(self@, first + n));
            }
            *counter += 1;
            steps.push(step);
            n += 1;
        }
        steps
    }

    /// Applies the eight-hour threshold: a step shorter than eight hours stays as it is;
    /// a longer one becomes a step of eight hours followed by one-hour steps for the rest,
    /// numbered from the number of remaining hours on.
    pub fn apply_duration_threshold(&self) -> (result: Vec<Step>)
        requires
            self.duration > 0,
            self.duration >= 8 ==> 2 * (self.duration - 8) <= usize::MAX,
        ensures
            self.duration < 8 ==> result@.len() == 1 && result@[0]@ == self@,
            self.duration >= 8 ==> {
                &&& result@.len() == self.duration - 7
                &&& result@[0]@ == (StepModel { duration: 8, ..self@ })
                &&& forall|k: int|
                    1 <= k < result@.len() ==> (#[trigger] result@[k])@ == split_piece(
                        StepModel { duration: (self.duration - 8) as usize, ..self@ },
                        self.duration - 8 + (k - 1),
                    )
            },
    {
        let threshold: usize = 8;
        let mut new_step = self.duplicate();
        if new_step.duration > 0 && new_step.duration < threshold {
            let mut v: Vec<Step> = Vec::new();
            v.push(new_step);
            v
        } else {
            let mut steps: Vec<Step> = Vec::new();
            let mut first_step = new_step.duplicate();
            first_step.duration = threshold;
            steps.push(first_step);
            let mut remaining_duration = new_step.duration - threshold;
            new_step.duration = remaining_duration;
            let new_steps_splitted = new_step.one_hour_pieces(&mut remaining_duration);
            let mut rest = new_steps_splitted;
            steps.append(&mut rest);
            proof {
                assert forall|k: int| 1 <= k < steps@.len() implies (#[trigger] steps@[k])@
                    == split_piece(
                    StepModel { duration: (self.duration - 8) as usize, ..self@ },
                    self.duration - 8 + (k - 1),
                ) by {
                    assert(steps@[k] == new_steps_splitted@[k - 1]);
                }
            }
            steps
        }
    }
}


/// How two steps compare for placing order: -1 when `a` goes first, 1 when `b` goes
/// first, 0 when neither. Steps ready to schedule go first, then steps without the
/// Optional tag, then steps without the Filler tag; then a step of flexibility 1, then
/// higher flexibility before lower.
pub open spec fn step_cmp(a: StepModel, b: StepModel) -> int {
    if a.status == StepStatus::ReadyToSchedule && b.status != StepStatus::ReadyToSchedule {
        -1
    } else if b.status == StepStatus::ReadyToSchedule && a.status != StepStatus::ReadyToSchedule {
        1
    } else if !a.tags.contains(Tag::Optional) && b.tags.contains(Tag::Optional) {
        -1
    } else if a.tags.contains(Tag::Optional) && !b.tags.contains(Tag::Optional) {
        1
    } else if !a.tags.contains(Tag::Filler) && b.tags.contains(Tag::Filler) {
        -1
    } else if a.tags.contains(Tag::Filler) && !b.tags.contains(Tag::Filler) {
        1
    } else if a.flexibility == b.flexibility {
        0
    } else if a.flexibility == 1 {
        -1
    } else if b.flexibility == 1 {
        1
    } else if a.flexibility > b.flexibility {
        -1
    } else {
        1
    }
}

/// Compares two steps for placing order (see `step_cmp`).
pub fn compare_steps(a: &Step, b: &Step) -> (r: i8)
    ensures
        r == step_cmp(a@, b@),
{
    let a_ready = a.status == StepStatus::ReadyToSchedule;
    let b_ready = b.status == StepStatus::ReadyToSchedule;
    let a_opt = has_tag(&a.tags, Tag::Optional);
    let b_opt = has_tag(&b.tags, Tag::Optional);
    let a_fill = has_tag(&a.tags, Tag::Filler);
    let b_fill = has_tag(&b.tags, Tag::Filler);
    if a_ready && !b_ready {
        -1
    } else if b_ready && !a_ready {
        1
    } else if !a_opt && b_opt {
        -1
    } else if a_opt && !b_opt {
        1
    } else if !a_fill && b_fill {
        -1
    } else if a_fill && !b_fill {
        1
    } else if a.flexibility == b.flexibility {
        0
    } else if a.flexibility == 1 {
        -1
    } else if b.flexibility == 1 {
        1
    } else if a.flexibility > b.flexibility {
        -1
    } else {
        1
    }
}

/// `x` placed into `s` after every step that does not come after it.
pub open spec fn insert_step(s: Seq<Step>, x: Step) -> Seq<Step>
    decreases s.len(),
{
    if s.len() == 0 {
        seq![x]
    } else if step_cmp(s.last()@, x@) != 1 {
        s.push(x)
    } else {
        insert_step(s.drop_last(), x).push(s.last())
    }
}

/// The steps of `s` in placing order, steps that compare equal keeping their order.
pub open spec fn sort_steps_spec(s: Seq<Step>) -> Seq<Step>
    decreases s.len(),
{
    if s.len() == 0 {
        seq![]
    } else {
        insert_step(sort_steps_spec(s.drop_last()), s.last())
    }
}

/// Steps compared the other way round compare the opposite way.
pub proof fn lemma_step_cmp_flip(a: StepModel, b: StepModel)
    ensures
        step_cmp(a, b) == -step_cmp(b, a),
{
}

/// Placing order is transitive: a step that goes no later than a second, which goes no
/// later than a third, goes no later than the third.
pub proof fn lemma_step_cmp_trans(a: StepModel, b: StepModel, c: StepModel)
    requires
        step_cmp(a, b) != 1,
        step_cmp(b, c) != 1,
    ensures
        step_cmp(a, c) != 1,
{
}

/// No step of the sequence goes after a later one.
pub open spec fn steps_ordered(s: Seq<Step>) -> bool {
    forall|i: int, j: int| 0 <= i < j < s.len() ==> step_cmp((#[trigger] s[i])@, (#[trigger] s[j])@) != 1
}

proof fn lemma_insert_step_keeps(s: Seq<Step>, x: Step, p: spec_fn(Step) -> bool)
    requires
        forall|k: int| 0 <= k < s.len() ==> p(#[trigger] s[k]),
        p(x),
    ensures
        forall|k: int| 0 <= k < insert_step(s, x).len() ==> p(#[trigger] insert_step(s, x)[k]),
        insert_step(s, x).len() == s.len() + 1,
    decreases s.len(),
{
    if s.len() > 0 && step_cmp(s.last()@, x@) == 1 {
        lemma_insert_step_keeps(s.drop_last(), x, p);
        let mid = insert_step(s.drop_last(), x);
        assert forall|k: int| 0 <= k < mid.push(s.last()).len() implies p(#[trigger] mid.push(s.last())[k]) by {
            if k < mid.len() {
                assert(mid.push(s.last())[k] == mid[k]);
            }
        }
    }
}

proof fn lemma_insert_step_ordered(s: Seq<Step>, x: Step)
    requires
        steps_ordered(s),
    ensures
        steps_ordered(insert_step(s, x)),
        insert_step(s, x).to_multiset() == s.to_multiset().insert(x),
    decreases s.len(),
{
    broadcast use {vstd::seq_lib::group_to_multiset_ensures, vstd::multiset::group_multiset_axioms};
    if s.len() == 0 {
        assert(seq![x] =~= s.push(x));
    } else if step_cmp(s.last()@, x@) != 1 {
        let r = s.push(x);
        assert forall|i: int, j: int| 0 <= i < j < r.len() implies step_cmp((#[trigger] r[i])@, (#[trigger] r[j])@) != 1 by {
            if j == s.len() && i < s.len() - 1 {
                lemma_step_cmp_trans(s[i]@, s.last()@, x@);
            }
        }
    } else {
        let last = s.last();
        let rest = s.drop_last();
        assert(steps_ordered(rest));
        lemma_insert_step_ordered(rest, x);
        lemma_step_cmp_flip(last@, x@);
        let p = |y: Step| step_cmp(y@, last@) != 1;
        assert forall|k: int| 0 <= k < rest.len() implies p(#[trigger] rest[k]) by {
            assert(rest[k] == s[k]);
        }
        lemma_insert_step_keeps(rest, x, p);
        let mid = insert_step(rest, x);
        let r = mid.push(last);
        assert forall|i: int, j: int| 0 <= i < j < r.len() implies step_cmp((#[trigger] r[i])@, (#[trigger] r[j])@) != 1 by {
            if j == mid.len() {
                assert(p(mid[i]));
            }
        }
        assert(s =~= rest.push(last));
    }
}

/// Sorting steps puts them in placing order and keeps every step, each as often as it
/// came.
pub proof fn lemma_sort_steps_ordered(s: Seq<Step>)
    ensures
        steps_ordered(sort_steps_spec(s)),
        sort_steps_spec(s).to_multiset() == s.to_multiset(),
    decreases s.len(),
{
    broadcast use {vstd::seq_lib::group_to_multiset_ensures, vstd::multiset::group_multiset_axioms};
    if s.len() > 0 {
        lemma_sort_steps_ordered(s.drop_last());
        lemma_insert_step_ordered(sort_steps_spec(s.drop_last()), s.last());
        assert(s =~= s.drop_last().push(s.last()));
    }
}

/// Sorts steps in placing order; steps that compare equal keep their order.
pub fn sort_steps(v: &mut Vec<Step>)
    ensures
        final(v)@ == sort_steps_spec(old(v)@),
{
    let mut src: Vec<Step> = Vec::new();
    std::mem::swap(&mut src, v);
    let ghost original = src@;
    let mut rev: Vec<Step> = Vec::new();
    while src.len() > 0
        invariant
            original == src@ + rev@.reverse(),
        decreases src@.len(),
    {
        let ghost s0 = src@;
        let ghost r0 = rev@;
        let x = src.pop().unwrap();
        rev.push(x);
        proof {
            assert(rev@.reverse() =~= seq![x] + r0.reverse());
            assert(s0 =~= src@.push(x));
            assert(src@ + rev@.reverse() =~= s0 + r0.reverse());
        }
    }
    let mut sorted: Vec<Step> = Vec::new();
    let ghost mut i: int = 0;
    proof {
        assert(original =~= rev@.reverse());
        assert(original.take(0) =~= Seq::<Step>::empty());
    }
    while rev.len() > 0
        invariant
            0 <= i <= original.len(),
            rev@.len() == original.len() - i,
            forall|k: int| 0 <= k < rev@.len() ==> rev@[k] == original[original.len() - 1 - k],
            sorted@ == sort_steps_spec(original.take(i)),
        decreases rev@.len(),
    {
        let x = rev.pop().unwrap();
        proof {
            assert(x == original[i]);
            assert(original.take(i + 1).drop_last() =~= original.take(i));
            assert(original.take(i + 1).last() == x);
        }
        let mut tail: Vec<Step> = Vec::new();
        let ghost target = insert_step(sorted@, x);
        while sorted.len() > 0 && compare_steps(&sorted[sorted.len() - 1], &x) == 1
            invariant
                target == insert_step(sorted@, x) + tail@.reverse(),
            decreases sorted@.len(),
        {
            let ghost s0 = sorted@;
            let last = sorted.pop().unwrap();
            proof {
                assert(s0.drop_last() == sorted@);
                assert(s0.last() == last);
                assert(insert_step(s0, x) == insert_step(sorted@, x).push(last));
            }
            let ghost t0 = tail@;
            tail.push(last);
            proof {
                assert(tail@.reverse() =~= seq![last] + t0.reverse());
                assert(insert_step(sorted@, x).push(last) + t0.reverse() =~= insert_step(
                    sorted@,
                    x,
                ) + (seq![last] + t0.reverse()));
            }
        }
        proof {
            assert(insert_step(sorted@, x) == sorted@.push(x));
        }
        sorted.push(x);
        while tail.len() > 0
            invariant
                target == sorted@ + tail@.reverse(),
            decreases tail@.len(),
        {
            let ghost t0 = tail@;
            let y = tail.pop().unwrap();
            proof {
                assert(t0.reverse() =~= seq![y] + tail@.reverse());
                assert(sorted@ + t0.reverse() =~= sorted@.push(y) + tail@.reverse());
            }
            sorted.push(y);
        }
        proof {
            assert(sorted@ + tail@.reverse() =~= sorted@);
            assert forall|k: int| 0 <= k < rev@.len() implies rev@[k] == original[original.len() - 1 - k] by {}
            i = i + 1;
        }
    }
    proof {
        assert(original.take(original.len() as int) =~= original);
    }
    *v = sorted;
}


/// The steps of `s` with their flexibility computed.
pub open spec fn all_calculated(s: Seq<Step>, t: Seq<Step>) -> bool {
    &&& s.len() == t.len()
    &&& forall|k: int| 0 <= k < s.len() ==> (#[trigger] t[k])@ == calculated(s[k]@)
}

/// Every slot of every step is in range and every step's flexibility fits in `usize`.
pub open spec fn steps_ok(s: Seq<Step>) -> bool {
    forall|k: int|
        0 <= k < s.len() ==> {
            &&& forall|i: int|
                0 <= i < (#[trigger] s[k]).slots@.len() ==> (#[trigger] s[k].slots@[i]).wf()
            &&& flex_sum(s[k].slots@, s[k].duration as int) <= usize::MAX
        }
}

/// Steps to place on the calendar, with the budgets they count against.
#[derive(Debug, Clone)]
pub struct StepsToPlace {
    pub calendar_start: i64,
    pub calendar_end: i64,
    pub steps: Vec<Step>,
    pub step_budgets: StepBudgets,
}

impl StepsToPlace {
    /// Computes the flexibility of each step, then sorts the steps in placing order.
    pub fn sort_on_flexibility(&mut self)
        requires
            steps_ok(old(self).steps@),
        ensures
            exists|t: Seq<Step>|
                all_calculated(old(self).steps@, t) && final(self).steps@ == sort_steps_spec(t),
            final(self).calendar_start == old(self).calendar_start,
            final(self).calendar_end == old(self).calendar_end,
            final(self).step_budgets == old(self).step_budgets,
    {
        self.calculate_flexibilities();
        sort_steps(&mut self.steps);
    }

    /// Computes the flexibility of each step.
    pub fn calculate_flexibilities(&mut self)
        requires
            steps_ok(old(self).steps@),
        ensures
            all_calculated(old(self).steps@, final(self).steps@),
            final(self).calendar_start == old(self).calendar_start,
            final(self).calendar_end == old(self).calendar_end,
            final(self).step_budgets == old(self).step_budgets,
    {
        let mut src: Vec<Step> = Vec::new();
        std::mem::swap(&mut src, &mut self.steps);
        let ghost original = src@;
        let _n = src.len();
        let mut out: Vec<Step> = Vec::new();
        let mut i: usize = 0;
        while src.len() > 0
            invariant
                i <= original.len(),
                original.len() <= usize::MAX,
                src@ == original.skip(i as int),
                steps_ok(original),
                out@.len() == i,
                forall|k: int| 0 <= k < i ==> (#[trigger] out@[k])@ == calculated(original[k]@),
            decreases src@.len(),
        {
            proof {
                assert(original.skip(i as int).len() == original.len() - i);
            }
            let mut step = src.remove(0);
            proof {
                assert(step == original[i as int]);
                assert(original.skip(i as int).drop_first() =~= original.skip(i + 1));
                assert(src@ =~= original.skip(i + 1));
            }
            step.calculate_flexibility();
            out.push(step);
            i += 1;
        }
        proof {
            assert(original.skip(i as int).len() == 0);
        }
        self.steps = out;
    }
}

/// What is left of each slot once `c` is taken out of it, in order.
pub open spec fn subtract_all(slots: Seq<Slot>, c: Slot) -> Seq<Slot>
    decreases slots.len(),
{
    if slots.len() == 0 {
        Seq::empty()
    } else {
        subtract_all(slots.drop_last(), c) + sub_spec(slots.last(), c)
    }
}

/// The step with the slot `c` taken out of its slots.
pub open spec fn removed_conflicts(m: StepModel, c: Slot) -> StepModel {
    StepModel { slots: subtract_all(m.slots, c), ..m }
}

impl Step {
    /// Takes the chosen slot out of the step's slots: the parts of each slot that the
    /// chosen slot does not cover remain.
    pub fn remove_conflicted_slots(&mut self, chosen_slot: Slot)
        ensures
            final(self)@ == removed_conflicts(old(self)@, chosen_slot),
    {
        let mut new_slots: Vec<Slot> = Vec::new();
        let mut i: usize = 0;
        while i < self.slots.len()
            invariant
                i <= self.slots.len(),
                new_slots@ == subtract_all(self.slots@.take(i as int), chosen_slot),
            decreases self.slots.len() - i,
        {
            let pieces = self.slots[i].sub(chosen_slot);
            let ghost before = new_slots@;
            let mut j: usize = 0;
            while j < pieces.len()
                invariant
                    j <= pieces.len(),
                    new_slots@ == before + pieces@.take(j as int),
                decreases pieces.len() - j,
            {
                new_slots.push(pieces[j]);
                j = j + 1;
                assert(new_slots@ =~= before + pieces@.take(j as int));
            }
            proof {
                assert(pieces@.take(pieces.len() as int) =~= pieces@);
                assert(self.slots@.take(i + 1).drop_last() =~= self.slots@.take(i as int));
                assert(self.slots@.take(i + 1).last() == self.slots@[i as int]);
            }
            i = i + 1;
        }
        proof {
            assert(self.slots@.take(self.slots.len() as int) =~= self.slots@);
        }
        self.slots = new_slots;
    }
}

} // verus!
