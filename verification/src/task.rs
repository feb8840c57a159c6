use vstd::prelude::*;
use std::cmp::Ordering;
use crate::goal::{has_tag, Tag};
use crate::output::copy_tags;
use crate::slot::{sub_spec, Slot};
use crate::step::{clone_opt_strings, clone_slots, opt_seq, subtract_all, Error};
use crate::time::{hours_between, time_ok, SECS_PER_HOUR, TIME_LIMIT};

verus! {

/// Where a task stands in scheduling.
#[derive(PartialEq, Eq, Structural, Debug, Clone, Copy)]
pub enum TaskStatus {
    Scheduled,
    Impossible,
    Uninitialized,
    Blocked,
    ReadyToSchedule,
}

/// A start and deadline a task could also take.
#[derive(PartialEq, Eq, Structural, Debug, Clone, Copy)]
pub struct ScheduleOption {
    pub start: i64,
    pub deadline: i64,
}

/// A concrete activity of a goal: `duration` hours to take within its slots, and,
/// once scheduled, its confirmed start and deadline. Times are timestamps.
#[derive(Debug, Clone)]
pub struct Task {
    pub id: usize,
    pub goal_id: String,
    pub title: String,
    pub duration: usize,
    pub status: TaskStatus,
    pub flexibility: usize,
    pub start: i64,
    pub deadline: i64,
    pub after_time: usize,
    pub before_time: usize,
    pub slots: Vec<Slot>,
    pub confirmed_start: Option<i64>,
    pub confirmed_deadline: Option<i64>,
    pub conflicts: Vec<(Slot, String)>,
    pub tags: Vec<Tag>,
    pub options: Option<Vec<ScheduleOption>>,
    pub after_goals: Option<Vec<String>>,
    pub calender_start: i64,
    pub calender_end: i64,
}

/// What a task says, its vectors as sequences.
pub struct TaskState {
    pub id: usize,
    pub goal_id: String,
    pub title: String,
    pub duration: usize,
    pub status: TaskStatus,
    pub flexibility: usize,
    pub start: i64,
    pub deadline: i64,
    pub after_time: usize,
    pub before_time: usize,
    pub slots: Seq<Slot>,
    pub confirmed_start: Option<i64>,
    pub confirmed_deadline: Option<i64>,
    pub conflicts: Seq<(Slot, String)>,
    pub tags: Seq<Tag>,
    pub options: Option<Seq<ScheduleOption>>,
    pub after_goals: Option<Seq<String>>,
    pub calender_start: i64,
    pub calender_end: i64,
}

/// The sequence of an optional vector of options.
pub open spec fn opt_options(v: Option<Vec<ScheduleOption>>) -> Option<Seq<ScheduleOption>> {
    match v {
        Some(v) => Some(v@),
        None => None,
    }
}

impl View for Task {
    type V = TaskState;

    open spec fn view(&self) -> TaskState {
        TaskState {
            id: self.id,
            goal_id: self.goal_id,
            title: self.title,
            duration: self.duration,
            status: self.status,
            flexibility: self.flexibility,
            start: self.start,
            deadline: self.deadline,
            after_time: self.after_time,
            before_time: self.before_time,
            slots: self.slots@,
            confirmed_start: self.confirmed_start,
            confirmed_deadline: self.confirmed_deadline,
            conflicts: self.conflicts@,
            tags: self.tags@,
            options: opt_options(self.options),
            after_goals: opt_seq(self.after_goals),
            calender_start: self.calender_start,
            calender_end: self.calender_end,
        }
    }
}

/// A copy of a list of conflicts.
pub fn copy_conflicts(v: &Vec<(Slot, String)>) -> (r: Vec<(Slot, String)>)
    ensures
        r@ == v@,
{
    let mut out: Vec<(Slot, String)> = Vec::new();
    let mut i: usize = 0;
    while i < v.len()
        invariant
            i <= v.len(),
            out@ == v@.take(i as int),
        decreases v.len() - i,
    {
        out.push((v[i].0, v[i].1.clone()));
        i = i + 1;
        assert(out@ =~= v@.take(i as int));
    }
    assert(v@.take(v.len() as int) =~= v@);
    out
}

/// A copy of an optional list of schedule options.
pub fn copy_options(v: &Option<Vec<ScheduleOption>>) -> (r: Option<Vec<ScheduleOption>>)
    ensures
        opt_options(r) == opt_options(*v),
{
    match v {
        Some(v) => {
            let mut out: Vec<ScheduleOption> = Vec::new();
            let mut i: usize = 0;
            while i < v.len()
                invariant
                    i <= v.len(),
                    out@ == v@.take(i as int),
                decreases v.len() - i,
            {
                out.push(v[i]);
                i = i + 1;
                assert(out@ =~= v@.take(i as int));
            }
            assert(v@.take(v.len() as int) =~= v@);
            Some(out)
        },
        None => None,
    }
}

/// Whole hours of a slot as a `usize`, wrapped when it ends before it starts.
pub open spec fn slot_num_hours(s: Slot) -> int {
    (#[verifier::truncate] (hours_between(s.start as int, s.end as int) as usize)) as int
}

/// Flexibility a slot gives a task of `duration` hours: its hours when it is shorter,
/// otherwise the number of whole-hour starts that fit.
pub open spec fn task_slot_flex(s: Slot, duration: int) -> int {
    let h = slot_num_hours(s);
    if h < duration {
        h
    } else {
        h - duration + 1
    }
}

/// Total flexibility of the slots for a task of `duration` hours.
pub open spec fn task_flex_sum(slots: Seq<Slot>, duration: int) -> int
    decreases slots.len(),
{
    if slots.len() == 0 {
        0
    } else {
        task_flex_sum(slots.drop_last(), duration) + task_slot_flex(slots.last(), duration)
    }
}

proof fn lemma_task_flex_prefix(s: Seq<Slot>, d: int, n: int)
    requires
        0 <= n <= s.len(),
    ensures
        0 <= task_flex_sum(s.take(n), d) <= task_flex_sum(s, d),
    decreases s.len(),
{
    if s.len() > 0 {
        if n == s.len() {
            assert(s.take(n) =~= s);
            lemma_task_flex_prefix(s.drop_last(), d, s.len() - 1);
            assert(s.drop_last().take(s.len() - 1) =~= s.drop_last());
        } else {
            lemma_task_flex_prefix(s.drop_last(), d, n);
            assert(s.drop_last().take(n) =~= s.take(n));
        }
    }
}

/// Every slot of the task lies in range and its flexibility fits in a `usize`.
pub open spec fn task_flex_ok(t: TaskState) -> bool {
    &&& forall|i: int| 0 <= i < t.slots.len() ==> (#[trigger] t.slots[i]).wf()
    &&& task_flex_sum(t.slots, t.duration as int) <= usize::MAX
}

/// The pieces of `x` that `remove_taken_slots` keeps for a taken slot `s`, one
/// check after the other (the second may move the start of `x` to that of `s`).
pub open spec fn taken_pieces(x: Slot, s: Slot) -> Seq<Slot> {
    let a: Seq<Slot> = if x.start >= s.end {
        seq![x]
    } else {
        Seq::empty()
    };
    let moved = x.end > s.end && x.start < s.start;
    let x1 = if moved {
        Slot { start: s.start, end: x.end }
    } else {
        x
    };
    let b: Seq<Slot> = if moved {
        seq![x1]
    } else {
        Seq::empty()
    };
    let c: Seq<Slot> = if x1.end > s.end && x1.start >= s.start {
        seq![x1]
    } else {
        Seq::empty()
    };
    let d: Seq<Slot> = if !(x1.end <= s.end && x1.start <= s.start) {
        seq![x1]
    } else {
        Seq::empty()
    };
    a + b + c + d
}

/// The pieces of each slot that `remove_taken_slots` keeps, in order.
pub open spec fn taken_all(slots: Seq<Slot>, s: Slot) -> Seq<Slot>
    decreases slots.len(),
{
    if slots.len() == 0 {
        Seq::empty()
    } else {
        taken_all(slots.drop_last(), s) + taken_pieces(slots.last(), s)
    }
}

/// How two tasks compare for scheduling order: -1 when `a` goes first, 1 when `b`
/// goes first, 0 when neither. Tasks without the Optional tag go first; then a task
/// of flexibility 1, then higher flexibility before lower.
pub open spec fn task_order(a: TaskState, b: TaskState) -> int {
    if b.tags.contains(Tag::Optional) && !a.tags.contains(Tag::Optional) {
        -1
    } else if !b.tags.contains(Tag::Optional) && a.tags.contains(Tag::Optional) {
        1
    } else if a.flexibility == b.flexibility {
        0
    } else if a.flexibility == 1 {
        -1
    } else if b.flexibility == 1 {
        1
    } else if b.flexibility < a.flexibility {
        -1
    } else {
        1
    }
}

/// The task made by splitting: one hour of the task, with the given id, its
/// flexibility computed and ready to schedule.
pub open spec fn task_piece(t: TaskState, id: int) -> TaskState {
    TaskState {
        id: id as usize,
        duration: 1,
        status: TaskStatus::ReadyToSchedule,
        flexibility: task_flex_sum(t.slots, 1) as usize,
        confirmed_start: None,
        confirmed_deadline: None,
        conflicts: Seq::empty(),
        options: None,
        ..t
    }
}

impl Task {
    /// A copy of the task.
    pub fn duplicate(&self) -> (r: Task)
        ensures
            r@ == self@,
    {
        Task {
            id: self.id,
            goal_id: self.goal_id.clone(),
            title: self.title.clone(),
            duration: self.duration,
            status: self.status,
            flexibility: self.flexibility,
            start: self.start,
            deadline: self.deadline,
            after_time: self.after_time,
            before_time: self.before_time,
            slots: clone_slots(&self.slots),
            confirmed_start: self.confirmed_start,
            confirmed_deadline: self.confirmed_deadline,
            conflicts: copy_conflicts(&self.conflicts),
            tags: copy_tags(&self.tags),
            options: copy_options(&self.options),
            after_goals: clone_opt_strings(&self.after_goals),
            calender_start: self.calender_start,
            calender_end: self.calender_end,
        }
    }

    /// Computes the task's flexibility: for each slot, its hours when it is shorter
    /// than the task, otherwise the number of whole-hour starts that fit.
    pub fn calculate_flexibility(&mut self)
        requires
            task_flex_ok(old(self)@),
        ensures
            final(self)@ == (TaskState { flexibility: task_flex_sum(old(self)@.slots, old(self).duration as int) as usize, ..old(self)@ }),
    {
        let mut flexibility: usize = 0;
        let mut i: usize = 0;
        while i < self.slots.len()
            invariant
                task_flex_ok(self@),
                i <= self.slots.len(),
                flexibility == task_flex_sum(self.slots@.take(i as int), self.duration as int),
            decreases self.slots.len() - i,
        {
            proof {
                assert(self.slots@.take(i + 1).drop_last() =~= self.slots@.take(i as int));
                lemma_task_flex_prefix(self.slots@, self.duration as int, i + 1);
                assert(self@.slots[i as int].wf());
            }
            let h = self.slots[i].num_hours();
            if h < self.duration {
                flexibility = flexibility + h;
            } else {
                flexibility = flexibility + (h - self.duration + 1);
            }
            i = i + 1;
        }
        proof {
            assert(self.slots@.take(self.slots.len() as int) =~= self.slots@);
        }
        self.flexibility = flexibility;
    }

    /// The task's flexibility.
    pub fn flexibility(&mut self) -> (r: usize)
        ensures
            r == old(self).flexibility,
            final(self)@ == old(self)@,
    {
        self.flexibility
    }

    /// Sets the confirmed start.
    pub fn set_confirmed_start(&mut self, start: i64)
        ensures
            final(self)@ == (TaskState { confirmed_start: Some(start), ..old(self)@ }),
    {
        self.confirmed_start = Some(start);
    }

    /// Sets the confirmed deadline.
    pub fn set_confirmed_deadline(&mut self, deadline: i64)
        ensures
            final(self)@ == (TaskState { confirmed_deadline: Some(deadline), ..old(self)@ }),
    {
        self.confirmed_deadline = Some(deadline);
    }

    /// A copy of the task's slots.
    pub fn get_slots(&self) -> (r: Vec<Slot>)
        ensures
            r@ == self.slots@,
    {
        clone_slots(&self.slots)
    }

    /// Splits a task of several hours into tasks of one hour each, numbered from
    /// `counter` on, each with its flexibility computed and ready to schedule. A task of
    /// one hour cannot be split.
    pub fn split(&mut self, counter: &mut usize) -> (result: Result<Vec<Task>, Error>)
        requires
            task_flex_ok(TaskState { duration: 1, ..old(self)@ }),
            old(self).duration != 1 ==> *old(counter) + old(self).duration <= usize::MAX,
        ensures
            final(self)@ == old(self)@,
            old(self).duration == 1 ==> result == Err::<Vec<Task>, Error>(Error::CannotSplit)
                && *final(counter) == *old(counter),
            old(self).duration != 1 ==> (result matches Ok(v) && v@.len() == old(self).duration
                && *final(counter) == *old(counter) + old(self).duration && forall|k: int|
                0 <= k < v@.len() ==> #[trigger] v@[k]@ == task_piece(old(self)@, *old(counter) + k)),
    {
        if self.duration == 1 {
            return Err(Error::CannotSplit);
        }
        let mut tasks: Vec<Task> = Vec::new();
        let ghost c0 = *counter;
        let mut n: usize = 0;
        while n < self.duration
            invariant
                task_flex_ok(TaskState { duration: 1, ..self@ }),
                self.duration != 1,
                c0 + self.duration <= usize::MAX,
                n <= self.duration,
                *counter == c0 + n,
                tasks@.len() == n,
                forall|k: int| 0 <= k < n ==> #[trigger] tasks@[k]@ == task_piece(self@, c0 + k),
            decreases self.duration - n,
        {
            let mut task = Task {
                id: *counter,
                goal_id: self.goal_id.clone(),
                title: self.title.clone(),
                duration: 1,
                status: TaskStatus::Uninitialized,
                flexibility: 0,
                start: self.start,
                deadline: self.deadline,
                after_time: self.after_time,
                before_time: self.before_time,
                slots: self.get_slots(),
                confirmed_start: None,
                confirmed_deadline: None,
                conflicts: Vec::new(),
                tags: copy_tags(&self.tags),
                options: None,
                after_goals: clone_opt_strings(&self.after_goals),
                calender_start: self.calender_start,
                calender_end: self.calender_end,
            };
            task.calculate_flexibility();
            task.status = TaskStatus::ReadyToSchedule;
            *counter = *counter + 1;
            assert(task@.conflicts =~= Seq::<(Slot, String)>::empty());
            tasks.push(task);
            n = n + 1;
        }
        Ok(tasks)
    }

    /// Schedules the task in `slot`.
    pub fn schedule(&mut self, slot: Slot)
        ensures
            final(self)@ == (TaskState {
                confirmed_start: Some(slot.start),
                confirmed_deadline: Some(slot.end),
                status: TaskStatus::Scheduled,
                ..old(self)@
            }),
    {
        self.set_confirmed_start(slot.start);
        self.set_confirmed_deadline(slot.end);
        self.status = TaskStatus::Scheduled;
    }

    /// The number of hours between the task's hour bounds, going past midnight when
    /// the bounds wrap.
    pub fn size_of_slots_to_be_assigned(&self) -> (r: usize)
        requires
            self.after_time <= 24,
            self.before_time <= self.after_time ==> self.before_time + 24 - self.after_time <= usize::MAX,
        ensures
            r == if self.before_time > self.after_time {
                self.before_time - self.after_time
            } else {
                self.before_time + (24 - self.after_time)
            },
    {
        if self.before_time > self.after_time {
            self.before_time - self.after_time
        } else {
            self.before_time + (24 - self.after_time)
        }
    }

    /// Two one-hour tasks of flexibility above 1 with equal slots may take each
    /// other's slots.
    pub fn can_coexist_with(&self, other_task: &Task) -> (r: bool)
        ensures
            r == (self.duration == 1 && other_task.duration == 1 && self.flexibility > 1
                && other_task.flexibility > 1 && self.slots@ == other_task.slots@),
    {
        if !(self.duration == 1 && other_task.duration == 1 && self.flexibility > 1
            && other_task.flexibility > 1) {
            return false;
        }
        if self.slots.len() != other_task.slots.len() {
            return false;
        }
        let mut i: usize = 0;
        while i < self.slots.len()
            invariant
                i <= self.slots.len(),
                self.slots.len() == other_task.slots.len(),
                forall|k: int| 0 <= k < i ==> self.slots@[k] == other_task.slots@[k],
            decreases self.slots.len() - i,
        {
            if self.slots[i] != other_task.slots[i] {
                return false;
            }
            i = i + 1;
        }
        assert(self.slots@ =~= other_task.slots@);
        true
    }

    /// Does the hour lie within the task's hour bounds (which may wrap past midnight)?
    pub fn bounds_contain(&self, hour: usize) -> (r: bool)
        ensures
            r == if self.before_time < self.after_time {
                hour < self.before_time || hour >= self.after_time
            } else {
                hour >= self.after_time && hour < self.before_time
            },
    {
        if self.before_time < self.after_time {
            hour < self.before_time || hour >= self.after_time
        } else {
            hour >= self.after_time && hour < self.before_time
        }
    }

    /// Keeps of each slot the pieces that the taken slot `s` leaves after it (see
    /// `taken_pieces`).
    pub fn remove_taken_slots(&mut self, s: Slot)
        ensures
            final(self)@ == (TaskState { slots: taken_all(old(self)@.slots, s), ..old(self)@ }),
    {
        let mut new_slots: Vec<Slot> = Vec::new();
        let mut i: usize = 0;
        while i < self.slots.len()
            invariant
                i <= self.slots.len(),
                new_slots@ == taken_all(self.slots@.take(i as int), s),
            decreases self.slots.len() - i,
        {
            let ghost before = new_slots@;
            let mut slot = self.slots[i];
            if slot.start >= s.end {
                new_slots.push(slot);
            }
            if slot.end > s.end && slot.start < s.start {
                slot.start = s.start;
                new_slots.push(slot);
            }
            if slot.end > s.end && slot.start >= s.start {
                new_slots.push(slot);
            }
            if !(slot.end <= s.end && slot.start <= s.start) {
                new_slots.push(slot);
            }
            proof {
                assert(self.slots@.take(i + 1).drop_last() =~= self.slots@.take(i as int));
                assert(self.slots@.take(i + 1).last() == self.slots@[i as int]);
                assert(new_slots@ =~= before + taken_pieces(self.slots@[i as int], s));
            }
            i = i + 1;
        }
        proof {
            assert(self.slots@.take(self.slots.len() as int) =~= self.slots@);
        }
        self.slots = new_slots;
    }

    /// Takes the slot `s` out of the task's slots; a blocked task also keeps only the
    /// pieces after it. A task left without slots becomes impossible unless it is
    /// scheduled; otherwise its flexibility is computed again.
    pub fn remove_slot(&mut self, s: Slot)
        requires
            forall|i: int| 0 <= i < remove_slot_slots(old(self)@, s).len() ==> (#[trigger] remove_slot_slots(old(self)@, s)[i]).wf(),
            task_flex_sum(remove_slot_slots(old(self)@, s), old(self).duration as int) <= usize::MAX,
        ensures
            final(self)@ == remove_slot_spec(old(self)@, s),
    {
        let mut new_slots: Vec<Slot> = Vec::new();
        let mut i: usize = 0;
        while i < self.slots.len()
            invariant
                i <= self.slots.len(),
                new_slots@ == subtract_all(self.slots@.take(i as int), s),
            decreases self.slots.len() - i,
        {
            let pieces = self.slots[i].sub(s);
            let ghost before = new_slots@;
            let mut j: usize = 0;
            while j < pieces.len()
                invariant
                    j <= pieces.len(),
                    new_slots@ == before + pieces@.take(j as int),
                decreases pieces.len() - j,
            {
                new_slots.push(pieces[j]);
                j = j + 1;
                assert(new_slots@ =~= before + pieces@.take(j as int));
            }
            proof {
                assert(pieces@.take(pieces.len() as int) =~= pieces@);
                assert(self.slots@.take(i + 1).drop_last() =~= self.slots@.take(i as int));
                assert(self.slots@.take(i + 1).last() == self.slots@[i as int]);
            }
            i = i + 1;
        }
        proof {
            assert(self.slots@.take(self.slots.len() as int) =~= self.slots@);
        }
        self.slots = new_slots;
        if self.status == TaskStatus::Blocked {
            self.remove_taken_slots(s);
        }
        if self.slots.len() == 0 && self.status != TaskStatus::Scheduled {
            self.status = TaskStatus::Impossible;
            return;
        }
        self.calculate_flexibility();
    }

    /// Which of two tasks goes first when scheduling (see `task_order`).
    pub fn cmp(&self, other: &Task) -> (r: Ordering)
        ensures
            r == (if task_order(self@, other@) < 0 {
                Ordering::Less
            } else if task_order(self@, other@) > 0 {
                Ordering::Greater
            } else {
                Ordering::Equal
            }),
    {
        let self_optional = has_tag(&self.tags, Tag::Optional);
        let other_optional = has_tag(&other.tags, Tag::Optional);
        if other_optional && !self_optional {
            Ordering::Less
        } else if !other_optional && self_optional {
            Ordering::Greater
        } else if self.flexibility == other.flexibility {
            Ordering::Equal
        } else if self.flexibility == 1 {
            Ordering::Less
        } else if other.flexibility == 1 {
            Ordering::Greater
        } else if other.flexibility < self.flexibility {
            Ordering::Less
        } else {
            Ordering::Greater
        }
    }
}

/// The slots a task keeps once `s` is removed: the pieces of each slot that `s` does
/// not cover, and, for a blocked task, of those only the pieces after `s`.
pub open spec fn remove_slot_slots(t: TaskState, s: Slot) -> Seq<Slot> {
    let pieces = subtract_all(t.slots, s);
    if t.status == TaskStatus::Blocked {
        taken_all(pieces, s)
    } else {
        pieces
    }
}

/// The task once `s` is removed: its remaining slots; impossible when none remain
/// and it is not scheduled; otherwise with its flexibility computed again.
pub open spec fn remove_slot_spec(t: TaskState, s: Slot) -> TaskState {
    let slots = remove_slot_slots(t, s);
    if slots.len() == 0 && t.status != TaskStatus::Scheduled {
        TaskState { slots, status: TaskStatus::Impossible, ..t }
    } else {
        TaskState { slots, flexibility: task_flex_sum(slots, t.duration as int) as usize, ..t }
    }
}

/// The start/deadline pairs of `d` hours within `s` that start at `m` or a whole
/// number of hours after it.
pub open spec fn windows_from(m: int, s: Slot, d: int) -> Seq<Slot> {
    let lim = s.end - d * SECS_PER_HOUR;
    let count = if m <= lim {
        (lim - m) / (SECS_PER_HOUR as int) + 1
    } else {
        0
    };
    Seq::new(
        count as nat,
        |k: int|
            Slot {
                start: (m + k * SECS_PER_HOUR) as i64,
                end: (m + k * SECS_PER_HOUR + d * SECS_PER_HOUR) as i64,
            },
    )
}

/// The start/deadline pairs of `d` hours within each slot from position `from` on,
/// slot after slot.
pub open spec fn windows_after(slots: Seq<Slot>, d: int, from: int) -> Seq<Slot>
    decreases slots.len() - from,
{
    if from >= slots.len() || from < 0 {
        Seq::empty()
    } else {
        windows_from(slots[from].start as int, slots[from], d) + windows_after(slots, d, from + 1)
    }
}

/// Goes through the start/deadline combinations a task of `duration` hours can take
/// in its slots: within each slot, from its start one hour at a time.
#[derive(Debug, Clone)]
pub struct StartDeadlineIterator {
    slots: Vec<Slot>,
    duration: usize,
    marker: i64,
    slot_index: usize,
}

/// Slots that the iterator can go through: in range, in order, and a duration
/// whose hours can be counted back from their ends.
pub open spec fn iterable(slots: Seq<Slot>, d: int) -> bool {
    &&& forall|i: int| 0 <= i < slots.len() ==> (#[trigger] slots[i]).wf() && slots[i].start <= slots[i].end
    &&& slots.len() > 0 ==> d * SECS_PER_HOUR <= TIME_LIMIT
}

impl StartDeadlineIterator {
    /// The combinations still to come.
    pub closed spec fn remaining(self) -> Seq<Slot> {
        windows_from(self.marker as int, self.slots@[self.slot_index as int], self.duration as int)
            + windows_after(self.slots@, self.duration as int, self.slot_index + 1)
    }

    /// The position and marker lie within the slots.
    pub closed spec fn wf(self) -> bool {
        &&& self.slot_index < self.slots.len()
        &&& iterable(self.slots@, self.duration as int)
        &&& self.slots@[self.slot_index as int].start <= self.marker
        &&& self.marker <= self.slots@[self.slot_index as int].end + SECS_PER_HOUR
    }

    /// The iterator over the combinations of `duration` hours in `slots`; none when
    /// there is no slot.
    pub fn new(slots: Vec<Slot>, duration: usize) -> (r: Option<StartDeadlineIterator>)
        requires
            iterable(slots@, duration as int),
        ensures
            r.is_some() == (slots.len() > 0),
            r matches Some(it) ==> it.wf() && it.remaining() == windows_after(slots@, duration as int, 0),
    {
        if slots.len() == 0 {
            return None;
        }
        let marker = slots[0].start;
        Some(StartDeadlineIterator { slots, duration, marker, slot_index: 0 })
    }

    /// The next combination, if any.
    pub fn next(&mut self) -> (r: Option<Slot>)
        requires
            old(self).wf(),
        ensures
            final(self).wf(),
            old(self).remaining().len() == 0 ==> r is None && final(self).remaining() == old(self).remaining(),
            old(self).remaining().len() > 0 ==> r == Some(old(self).remaining()[0])
                && final(self).remaining() == old(self).remaining().drop_first(),
    {
        let ghost rem0 = self.remaining();
        while self.slot_index < self.slots.len()
            invariant
                self.wf(),
                self.remaining() == rem0,
                rem0 == old(self).remaining(),
                self.slots@ == old(self).slots@,
                self.duration == old(self).duration,
            decreases self.slots.len() - self.slot_index,
        {
            let cur = self.slots[self.slot_index];
            let lim = cur.end - (self.duration as i64) * SECS_PER_HOUR;
            if self.marker > lim {
                proof {
                    assert(windows_from(self.marker as int, cur, self.duration as int).len() == 0);
                }
                if self.slot_index >= self.slots.len() - 1 {
                    proof {
                        assert(windows_after(self.slots@, self.duration as int, self.slot_index + 1).len() == 0);
                        assert(self.remaining() =~= Seq::<Slot>::empty());
                    }
                    return None;
                }
                let ghost before = self.remaining();
                self.slot_index = self.slot_index + 1;
                self.marker = self.slots[self.slot_index].start;
                proof {
                    assert(before =~= windows_after(self.slots@, self.duration as int, self.slot_index as int));
                    assert(self.remaining() =~= before);
                }
                continue;
            }
            let start = self.marker;
            let end = self.marker + (self.duration as i64) * SECS_PER_HOUR;
            let ghost w = windows_from(self.marker as int, cur, self.duration as int);
            self.marker = self.marker + SECS_PER_HOUR;
            proof {
                let w2 = windows_from(self.marker as int, cur, self.duration as int);
                assert(w.len() >= 1);
                assert(w2.len() == w.len() - 1) by (nonlinear_arith)
                    requires
                        w.len() == (cur.end - self.duration * 3600 - start) / 3600 + 1,
                        w2.len() == if self.marker <= cur.end - self.duration * 3600 {
                            (cur.end - self.duration * 3600 - self.marker) / 3600 + 1
                        } else {
                            0
                        },
                        self.marker == start + 3600,
                        start <= cur.end - self.duration * 3600,
                ;
                assert(w2 =~= w.drop_first());
                assert(self.remaining() =~= rem0.drop_first());
                assert(rem0[0] == w[0]);
            }
            return Some(Slot { start, end });
        }
        proof {
            assert(false);
        }
        None
    }
}

impl Task {
    /// The combinations of start and deadline the task can take in its slots; none
    /// when it has no slot.
    pub fn start_deadline_iterator(&mut self) -> (r: Option<StartDeadlineIterator>)
        requires
            iterable(old(self).slots@, old(self).duration as int),
        ensures
            final(self)@ == old(self)@,
            r.is_some() == (old(self).slots@.len() > 0),
            r matches Some(it) ==> it.wf() && it.remaining() == windows_after(old(self).slots@, old(self).duration as int, 0),
    {
        StartDeadlineIterator::new(self.get_slots(), self.duration)
    }
}

} // verus!
