use vstd::prelude::*;
use crate::goal::{has_tag, Tag};
use crate::options_generator::{options_generator, options_spec, task_states};
use crate::output::{copy_tags, cross_day, crosses_day, free_string, free_text, hours_usize};
use crate::slot::Slot;
use crate::sorting::{items_of, lemma_sort_map, map_payload, sort_by_key, sort_keyed, strip_keys};
use crate::step::Error;
use crate::task::{copy_options, opt_options, slot_num_hours, ScheduleOption, Task, TaskState, TaskStatus};
use crate::time::{hour, hour_of, time_ok, with_hour, with_hour_of};

verus! {

/// A task as handed back to the front end. Times are timestamps.
#[derive(Debug, Clone)]
pub struct Output {
    pub taskid: usize,
    pub goalid: String,
    pub title: String,
    pub duration: usize,
    pub start: i64,
    pub deadline: i64,
    pub first_conflict_with: Option<String>,
    pub tags: Vec<Tag>,
    pub impossible: bool,
    pub options: Option<Vec<ScheduleOption>>,
}

/// The tasks handed back: those scheduled and those found impossible.
#[derive(Debug, Clone)]
pub struct FinalOutput {
    pub scheduled: Vec<Output>,
    pub impossible: Vec<Output>,
}

/// What an output says, as plain values.
pub struct OutputModel {
    pub taskid: int,
    pub goalid: Seq<char>,
    pub title: Seq<char>,
    pub duration: int,
    pub start: int,
    pub deadline: int,
    pub first_conflict_with: Option<Seq<char>>,
    pub tags: Seq<Tag>,
    pub impossible: bool,
    pub options: Option<Seq<ScheduleOption>>,
}

/// The text of an optional string.
pub open spec fn opt_text(s: Option<String>) -> Option<Seq<char>> {
    match s {
        Some(s) => Some(s@),
        None => None,
    }
}

impl View for Output {
    type V = OutputModel;

    open spec fn view(&self) -> OutputModel {
        OutputModel {
            taskid: self.taskid as int,
            goalid: self.goalid@,
            title: self.title@,
            duration: self.duration as int,
            start: self.start as int,
            deadline: self.deadline as int,
            first_conflict_with: opt_text(self.first_conflict_with),
            tags: self.tags@,
            impossible: self.impossible,
            options: opt_options(self.options),
        }
    }
}

/// The models of a sequence of outputs.
pub open spec fn output_models(s: Seq<Output>) -> Seq<OutputModel> {
    s.map_values(|o: Output| o@)
}

impl Output {
    /// A copy of the output.
    pub fn duplicate(&self) -> (r: Output)
        ensures
            r@ == self@,
    {
        Output {
            taskid: self.taskid,
            goalid: self.goalid.clone(),
            title: self.title.clone(),
            duration: self.duration,
            start: self.start,
            deadline: self.deadline,
            first_conflict_with: match &self.first_conflict_with {
                Some(s) => Some(s.clone()),
                None => None,
            },
            tags: copy_tags(&self.tags),
            impossible: self.impossible,
            options: copy_options(&self.options),
        }
    }
}

/// A task that can be handed back: a scheduled one has its confirmed times, any
/// other has a first conflict.
pub open spec fn output_ok(t: TaskState) -> bool {
    &&& t.status == TaskStatus::Scheduled ==> t.confirmed_start is Some && t.confirmed_deadline is Some
    &&& t.status != TaskStatus::Scheduled ==> t.conflicts.len() > 0
}

/// The output of a task: a scheduled task at its confirmed times, any other over its
/// first conflict, naming the goal it conflicts with when it is impossible.
pub open spec fn output_of(t: TaskState) -> OutputModel {
    OutputModel {
        taskid: t.id as int,
        goalid: t.goal_id@,
        title: t.title@,
        duration: t.duration as int,
        start: if t.status == TaskStatus::Scheduled {
            t.confirmed_start->0 as int
        } else {
            t.conflicts[0].0.start as int
        },
        deadline: if t.status == TaskStatus::Scheduled {
            t.confirmed_deadline->0 as int
        } else {
            t.conflicts[0].0.end as int
        },
        first_conflict_with: if t.status == TaskStatus::Impossible {
            Some(t.conflicts[0].1@)
        } else {
            None
        },
        tags: t.tags,
        impossible: t.status == TaskStatus::Impossible,
        options: t.options,
    }
}

/// The output of a task.
pub fn get_output_from_task(task: &Task) -> (r: Output)
    requires
        output_ok(task@),
    ensures
        r@ == output_of(task@),
{
    let scheduled = task.status == TaskStatus::Scheduled;
    let start = if scheduled {
        match task.confirmed_start {
            Some(s) => s,
            None => 0,
        }
    } else {
        task.conflicts[0].0.start
    };
    let deadline = if scheduled {
        match task.confirmed_deadline {
            Some(d) => d,
            None => 0,
        }
    } else {
        task.conflicts[0].0.end
    };
    let first_conflict_with = if task.status == TaskStatus::Impossible {
        Some(task.conflicts[0].1.clone())
    } else {
        None
    };
    Output {
        taskid: task.id,
        goalid: task.goal_id.clone(),
        title: task.title.clone(),
        duration: task.duration,
        start,
        deadline,
        first_conflict_with,
        tags: copy_tags(&task.tags),
        impossible: task.status == TaskStatus::Impossible,
        options: copy_options(&task.options),
    }
}

/// Can `t` be merged into `h`: the same goal, and `t` starts where `h` ends or `h`
/// is an impossible output of flexible duration.
pub open spec fn joins(h: OutputModel, t: OutputModel) -> bool {
    (t.goalid == h.goalid && t.start == h.deadline) || (t.goalid == h.goalid && h.tags.contains(
        Tag::FlexDur,
    ) && h.impossible)
}

/// Contiguous outputs of the same goal combined, left to right; nothing when a
/// combined duration would not fit in a `usize`.
pub open spec fn combine_outputs(s: Seq<OutputModel>) -> Option<Seq<OutputModel>>
    decreases s.len(),
{
    if s.len() <= 1 {
        Some(s)
    } else {
        match combine_outputs(s.drop_last()) {
            None => None,
            Some(r) => {
                let h = r.last();
                let t = s.last();
                if joins(h, t) {
                    if h.duration + t.duration > usize::MAX {
                        None
                    } else {
                        Some(
                            r.update(
                                r.len() - 1,
                                OutputModel { deadline: t.deadline, duration: h.duration + t.duration, ..h },
                            ),
                        )
                    }
                } else {
                    Some(r.push(t))
                }
            },
        }
    }
}

proof fn lemma_combine_outputs(s: Seq<OutputModel>, k: int)
    requires
        0 <= k <= s.len(),
        combine_outputs(s) is Some,
    ensures
        combine_outputs(s.take(k)) is Some,
        k > 0 ==> (combine_outputs(s.take(k))->0).len() > 0,
    decreases s.len(),
{
    if k == s.len() {
        assert(s.take(k) =~= s);
        if s.len() > 1 {
            lemma_combine_outputs(s.drop_last(), s.len() - 1);
            assert(s.drop_last().take(s.len() - 1) =~= s.drop_last());
        }
    } else if s.len() > 1 {
        lemma_combine_outputs(s.drop_last(), k);
        assert(s.drop_last().take(k) =~= s.take(k));
    } else {
        assert(s.take(k).len() <= 1);
    }
}

/// Combines contiguous outputs of the same goal into one.
fn combine(outputs: &mut Vec<Output>)
    requires
        combine_outputs(output_models(old(outputs)@)) is Some,
    ensures
        output_models(final(outputs)@) == combine_outputs(output_models(old(outputs)@))->0,
{
    let ghost m = output_models(outputs@);
    let mut out: Vec<Output> = Vec::new();
    let mut i: usize = 0;
    while i < outputs.len()
        invariant
            i <= outputs.len(),
            m == output_models(outputs@),
            combine_outputs(m) is Some,
            combine_outputs(m.take(i as int)) is Some,
            output_models(out@) == combine_outputs(m.take(i as int))->0,
        decreases outputs.len() - i,
    {
        proof {
            lemma_combine_outputs(m, i + 1);
            lemma_combine_outputs(m, i as int);
            assert(m.take(i + 1).drop_last() =~= m.take(i as int));
            assert(m.take(i + 1).last() == outputs@[i as int]@);
        }
        let t = outputs[i].duplicate();
        let ghost before = out@;
        if out.len() > 0 {
            let last = out.len() - 1;
            let join = out[last].goalid == t.goalid && (t.start == out[last].deadline || (has_tag(
                &out[last].tags,
                Tag::FlexDur,
            ) && out[last].impossible));
            proof {
                assert(output_models(out@).last() == out@[last as int]@);
            }
            if join {
                let mut h = out.pop().unwrap();
                h.deadline = t.deadline;
                h.duration = h.duration + t.duration;
                out.push(h);
                proof {
                    assert(output_models(out@) =~= output_models(before).update(
                        last as int,
                        OutputModel {
                            deadline: t@.deadline,
                            duration: before[last as int]@.duration + t@.duration,
                            ..before[last as int]@
                        },
                    ));
                }
            } else {
                out.push(t);
                proof {
                    assert(output_models(out@) =~= output_models(before).push(t@));
                }
            }
        } else {
            out.push(t);
            proof {
                assert(m.take(i + 1).len() == 1);
                assert(output_models(out@) =~= m.take(i + 1));
            }
        }
        i = i + 1;
    }
    proof {
        assert(m.take(outputs.len() as int) =~= m);
    }
    *outputs = out;
}

/// The outputs in the order of their start, outputs that start together keeping
/// their order.
pub open spec fn outputs_by_start(s: Seq<OutputModel>) -> Seq<OutputModel> {
    items_of(sort_keyed(s.map_values(|o: OutputModel| (o.start as i64, o))))
}

fn sort_outputs(v: Vec<Output>) -> (r: Vec<Output>)
    ensures
        output_models(r@) == outputs_by_start(output_models(v@)),
{
    let ghost m = output_models(v@);
    let mut keyed: Vec<(i64, Output)> = Vec::new();
    let src = v;
    let mut i: usize = 0;
    while i < src.len()
        invariant
            i <= src.len(),
            m == output_models(src@),
            map_payload(keyed@, |o: Output| o@) =~= m.take(i as int).map_values(|o: OutputModel| (o.start as i64, o)),
        decreases src.len() - i,
    {
        let t = src[i].duplicate();
        let ghost kb = keyed@;
        keyed.push((t.start, t));
        proof {
            assert(m[i as int] == t@);
            assert(map_payload(keyed@, |o: Output| o@) =~= map_payload(kb, |o: Output| o@).push((t.start, t@)));
            assert(m.take(i + 1).map_values(|o: OutputModel| (o.start as i64, o)) =~= m.take(i as int).map_values(
                |o: OutputModel| (o.start as i64, o),
            ).push((t@.start as i64, t@)));
        }
        i = i + 1;
    }
    let ghost k0 = keyed@;
    sort_by_key(&mut keyed);
    proof {
        lemma_sort_map(k0, |o: Output| o@);
        assert(m.take(m.len() as int) =~= m);
    }
    let ghost sorted = keyed@;
    let r = strip_keys(keyed);
    proof {
        assert(output_models(r@) =~= items_of(map_payload(sorted, |o: Output| o@)));
    }
    r
}

/// An output split where it crosses into a later day: the part up to the start of the
/// hour of its end on that day, and the rest when it has hours left; the output itself
/// when it stays within its day. Nothing when the first part would be longer than the
/// output.
pub open spec fn split_output(t: OutputModel) -> Option<Seq<OutputModel>> {
    if cross_day(t.start as i64, t.deadline as i64) {
        let nd = with_hour_of(t.deadline, 0);
        let d1 = hours_usize(t.start, nd);
        if d1 > t.duration {
            None
        } else {
            let first = OutputModel { deadline: nd, duration: d1, ..t };
            let second = OutputModel { start: nd, duration: t.duration - d1, ..t };
            if t.duration - d1 > 0 {
                Some(seq![first, second])
            } else {
                Some(seq![first])
            }
        }
    } else {
        Some(seq![t])
    }
}

/// The first `n` outputs split as `split_output` does, in order.
pub open spec fn split_outputs(s: Seq<OutputModel>, n: nat) -> Option<Seq<OutputModel>>
    decreases n,
{
    if n == 0 {
        Some(Seq::empty())
    } else {
        match (split_outputs(s, (n - 1) as nat), split_output(s[n - 1])) {
            (Some(a), Some(b)) => Some(a + b),
            _ => None,
        }
    }
}

/// Every output starts and ends within the supported range.
pub open spec fn outputs_in_range(s: Seq<OutputModel>) -> bool {
    forall|k: int| 0 <= k < s.len() ==> time_ok((#[trigger] s[k]).start) && time_ok(s[k].deadline)
}

proof fn lemma_split_outputs_prefix(s: Seq<OutputModel>, n: nat, k: nat)
    requires
        k <= n,
        split_outputs(s, n) is Some,
    ensures
        split_outputs(s, k) is Some,
    decreases n,
{
    if k < n {
        lemma_split_outputs_prefix(s, (n - 1) as nat, k);
    }
}

/// Splits each output that crosses into a later day at the start of the hour of its
/// end on that day.
#[verifier::spinoff_prover]
#[verifier::rlimit(40)]
fn split_cross_day_task(outputs: &mut Vec<Output>)
    requires
        outputs_in_range(output_models(old(outputs)@)),
        split_outputs(output_models(old(outputs)@), old(outputs)@.len()) is Some,
    ensures
        output_models(final(outputs)@) == split_outputs(output_models(old(outputs)@), old(outputs)@.len())->0,
{
    let ghost m = output_models(outputs@);
    let mut new_outputs: Vec<Output> = Vec::new();
    let mut i: usize = 0;
    while i < outputs.len()
        invariant
            i <= outputs.len(),
            m == output_models(outputs@),
            outputs_in_range(m),
            split_outputs(m, m.len()) is Some,
            split_outputs(m, i as nat) is Some,
            output_models(new_outputs@) == split_outputs(m, i as nat)->0,
        decreases outputs.len() - i,
    {
        proof {
            lemma_split_outputs_prefix(m, m.len(), (i + 1) as nat);
            assert(m[i as int] == outputs@[i as int]@);
        }
        let ghost before = output_models(new_outputs@);
        let mut task = outputs[i].duplicate();
        proof {
            assert(time_ok(m[i as int].start) && time_ok(m[i as int].deadline));
        }
        let cross = crosses_day(task.start, task.deadline);
        if cross {
            let mut task2 = task.duplicate();
            let nd = with_hour(task.deadline, 0);
            task.deadline = nd;
            task2.start = nd;
            task.duration = Slot { start: task.start, end: task.deadline }.num_hours();
            task2.duration = task2.duration - task.duration;
            new_outputs.push(task.duplicate());
            if task2.duration > 0 {
                new_outputs.push(task2);
            }
        } else {
            new_outputs.push(task.duplicate());
        }
        proof {
            assert(output_models(new_outputs@) =~= before + (split_output(m[i as int])->0));
        }
        i = i + 1;
    }
    *outputs = new_outputs;
}

/// The outputs numbered from `base` on, in order.
pub open spec fn renumber_outputs(s: Seq<OutputModel>, base: int) -> Seq<OutputModel> {
    Seq::new(s.len(), |k: int| OutputModel { taskid: base + k, ..s[k] })
}

fn renumber(outputs: &mut Vec<Output>, base: usize)
    requires
        base + old(outputs)@.len() <= usize::MAX,
    ensures
        output_models(final(outputs)@) == renumber_outputs(output_models(old(outputs)@), base as int),
{
    let ghost m = output_models(outputs@);
    let mut i: usize = 0;
    while i < outputs.len()
        invariant
            i <= outputs.len(),
            base + outputs@.len() <= usize::MAX,
            m.len() == outputs@.len(),
            forall|k: int| 0 <= k < i ==> #[trigger] outputs@[k]@ == renumber_outputs(m, base as int)[k],
            forall|k: int| i <= k < outputs.len() ==> #[trigger] outputs@[k]@ == m[k],
        decreases outputs.len() - i,
    {
        let mut t = outputs[i].duplicate();
        t.taskid = base + i;
        outputs.set(i, t);
        i = i + 1;
    }
    assert(output_models(outputs@) =~= renumber_outputs(m, base as int));
}

/// What going through the scheduled tasks in order gives: their outputs, a task
/// without confirmed times, or a task that cannot be handed back.
pub enum Gathered {
    Outs(Seq<OutputModel>),
    Missing(String, usize),
    Fails,
}

/// The first `n` scheduled tasks gone through in order.
pub open spec fn gather_scheduled(ts: Seq<TaskState>, n: nat) -> Gathered
    decreases n,
{
    if n == 0 {
        Gathered::Outs(Seq::empty())
    } else {
        match gather_scheduled(ts, (n - 1) as nat) {
            Gathered::Outs(o) => {
                let t = ts[n - 1];
                if t.confirmed_start is None || t.confirmed_deadline is None {
                    Gathered::Missing(t.title, t.id)
                } else if !output_ok(t) {
                    Gathered::Fails
                } else {
                    Gathered::Outs(o.push(output_of(t)))
                }
            },
            other => other,
        }
    }
}

/// The outputs of the first `n` impossible tasks, leaving out optional ones; nothing
/// when one cannot be handed back.
pub open spec fn gather_impossible(ts: Seq<TaskState>, n: nat) -> Option<Seq<OutputModel>>
    decreases n,
{
    if n == 0 {
        Some(Seq::empty())
    } else {
        match gather_impossible(ts, (n - 1) as nat) {
            None => None,
            Some(o) => {
                let t = ts[n - 1];
                if t.tags.contains(Tag::Optional) {
                    Some(o)
                } else if !output_ok(t) {
                    None
                } else {
                    Some(o.push(output_of(t)))
                }
            },
        }
    }
}

/// The output of free time over `slot`.
pub open spec fn free_output(id: int, slot: Slot) -> OutputModel {
    OutputModel {
        taskid: id,
        goalid: free_text(),
        title: free_text(),
        duration: slot_num_hours(slot),
        start: slot.start as int,
        deadline: slot.end as int,
        first_conflict_with: None,
        tags: Seq::empty(),
        impossible: false,
        options: None,
    }
}

/// The tasks with their identifiers one higher.
pub open spec fn bump_ids(ts: Seq<TaskState>) -> Seq<TaskState> {
    ts.map_values(|t: TaskState| TaskState { id: (t.id + 1) as usize, ..t })
}

/// What the formatter hands back for the scheduled and impossible tasks: the free
/// time before the first and after the last scheduled task, the scheduled tasks with
/// their options, sorted, combined, split across days and numbered, then the
/// impossible ones sorted, combined and numbered on; an error for a scheduled task
/// without confirmed times; nothing where the formatting would fail.
pub open spec fn old_formatter_spec(sched: Seq<TaskState>, imp: Seq<TaskState>) -> Option<
    Result<(Seq<OutputModel>, Seq<OutputModel>), (String, usize)>,
> {
    if sched.len() == 0 {
        None
    } else {
        let s0 = sched[0];
        let sl = sched[sched.len() - 1];
        if s0.confirmed_start is None {
            Some(Err((s0.title, s0.id)))
        } else if sl.confirmed_deadline is None {
            Some(Err((sl.title, sl.id)))
        } else {
            let first_slot = Slot { start: s0.calender_start, end: s0.confirmed_start->0 };
            let last_slot = Slot { start: sl.confirmed_deadline->0, end: s0.calender_end };
            let bump = slot_num_hours(first_slot) > 0;
            if !(time_ok(first_slot.start as int) && time_ok(first_slot.end as int) && time_ok(
                last_slot.start as int,
            ) && time_ok(last_slot.end as int)) {
                None
            } else {
                match options_spec(sched) {
                    None => None,
                    Some(t1) => {
                        if bump && exists|k: int| 0 <= k < t1.len() && (#[trigger] t1[k]).id == usize::MAX {
                            None
                        } else {
                            let t2 = if bump {
                                bump_ids(t1)
                            } else {
                                t1
                            };
                            let pre: Seq<OutputModel> = if bump {
                                seq![free_output(0, first_slot)]
                            } else {
                                Seq::empty()
                            };
                            match gather_scheduled(t2, t2.len()) {
                                Gathered::Fails => None,
                                Gathered::Missing(title, id) => Some(Err((title, id))),
                                Gathered::Outs(o) => {
                                    let post: Seq<OutputModel> = if slot_num_hours(last_slot) > 0 {
                                        seq![free_output(sched.len() as int, last_slot)]
                                    } else {
                                        Seq::empty()
                                    };
                                    match (
                                        gather_impossible(imp, imp.len()),
                                        combine_outputs(outputs_by_start(pre + o + post)),
                                    ) {
                                        (Some(io), Some(c1)) => {
                                            if !outputs_in_range(c1) {
                                                None
                                            } else {
                                                match (
                                                    split_outputs(c1, c1.len()),
                                                    combine_outputs(outputs_by_start(io)),
                                                ) {
                                                    (Some(s2), Some(c2)) => {
                                                        if s2.len() + c2.len() > usize::MAX {
                                                            None
                                                        } else {
                                                            Some(
                                                                Ok(
                                                                    (
                                                                        renumber_outputs(s2, 0),
                                                                        renumber_outputs(c2, s2.len() as int),
                                                                    ),
                                                                ),
                                                            )
                                                        }
                                                    },
                                                    _ => None,
                                                }
                                            }
                                        },
                                        _ => None,
                                    }
                                },
                            }
                        }
                    },
                }
            }
        }
    }
}

proof fn lemma_gather_stays(ts: Seq<TaskState>, k: nat, n: nat)
    requires
        k <= n,
        !(gather_scheduled(ts, k) is Outs),
    ensures
        gather_scheduled(ts, n) == gather_scheduled(ts, k),
    decreases n,
{
    if k < n {
        lemma_gather_stays(ts, k, (n - 1) as nat);
    }
}

proof fn lemma_gather_impossible_prefix(ts: Seq<TaskState>, n: nat, k: nat)
    requires
        k <= n,
        gather_impossible(ts, n) is Some,
    ensures
        gather_impossible(ts, k) is Some,
    decreases n,
{
    if k < n {
        lemma_gather_impossible_prefix(ts, (n - 1) as nat, k);
    }
}

fn free_output_task(id: usize, slot: Slot) -> (r: Output)
    requires
        slot.wf(),
    ensures
        r@ == free_output(id as int, slot),
{
    let r = Output {
        taskid: id,
        goalid: free_string(),
        title: free_string(),
        duration: slot.num_hours(),
        start: slot.start,
        deadline: slot.end,
        first_conflict_with: None,
        tags: Vec::new(),
        impossible: false,
        options: None,
    };
    assert(r@.tags =~= Seq::<Tag>::empty());
    r
}

/// Formats the scheduled and impossible tasks for the front end: free time before
/// the first and after the last scheduled task, options for each scheduled task, the
/// scheduled outputs sorted, combined, split across days and numbered, then the
/// impossible ones (but optional ones) sorted, combined and numbered on. A scheduled
/// task without confirmed times is an error.
pub fn output_formatter(scheduled: Vec<Task>, impossible: Vec<Task>) -> (r: Result<FinalOutput, Error>)
    requires
        old_formatter_spec(task_states(scheduled@), task_states(impossible@)) is Some,
    ensures
        match old_formatter_spec(task_states(scheduled@), task_states(impossible@))->0 {
            Ok(outs) => r matches Ok(f) && output_models(f.scheduled@) == outs.0 && output_models(
                f.impossible@,
            ) == outs.1,
            Err(e) => r == Err::<FinalOutput, Error>(Error::NoConfirmedDate(e.0, e.1)),
        },
{
    let ghost sm = task_states(scheduled@);
    let ghost im = task_states(impossible@);
    let last_index = scheduled.len() - 1;
    proof {
        assert(sm[0] == scheduled@[0]@);
        assert(sm[last_index as int] == scheduled@[last_index as int]@);
    }
    if scheduled[0].confirmed_start.is_none() {
        return Err(Error::NoConfirmedDate(scheduled[0].title.clone(), scheduled[0].id));
    }
    if scheduled[last_index].confirmed_deadline.is_none() {
        return Err(Error::NoConfirmedDate(scheduled[last_index].title.clone(), scheduled[last_index].id));
    }
    let calender_start = scheduled[0].calender_start;
    let calender_end = scheduled[0].calender_end;
    let reserved_start = match scheduled[0].confirmed_start {
        Some(x) => x,
        None => 0,
    };
    let reserved_end = match scheduled[last_index].confirmed_deadline {
        Some(x) => x,
        None => 0,
    };
    let first_free_slot = Slot { start: calender_start, end: reserved_start };
    let last_free_slot = Slot { start: reserved_end, end: calender_end };
    let ghost t1 = options_spec(sm)->0;
    let ghost expected = old_formatter_spec(sm, im);
    let mut sched = options_generator(scheduled);
    let bump = first_free_slot.num_hours() > 0;
    let mut scheduled_outputs: Vec<Output> = Vec::new();
    if bump {
        let mut k: usize = 0;
        while k < sched.len()
            invariant
                k <= sched.len(),
                t1.len() == sched.len(),
                !(exists|j: int| 0 <= j < t1.len() && (#[trigger] t1[j]).id == usize::MAX),
                forall|j: int| 0 <= j < k ==> #[trigger] sched@[j]@ == bump_ids(t1)[j],
                forall|j: int| k <= j < sched.len() ==> #[trigger] sched@[j]@ == t1[j],
            decreases sched.len() - k,
        {
            let mut t = sched[k].duplicate();
            proof {
                assert(t1[k as int].id != usize::MAX);
            }
            t.id = t.id + 1;
            sched.set(k, t);
            k = k + 1;
        }
        scheduled_outputs.push(free_output_task(0, first_free_slot));
    }
    let ghost t2 = task_states(sched@);
    proof {
        assert(t2 =~= if bump { bump_ids(t1) } else { t1 });
    }
    let ghost pre = output_models(scheduled_outputs@);
    proof {
        assert(pre =~= if bump { seq![free_output(0, first_free_slot)] } else { Seq::<OutputModel>::empty() });
        assert(output_models(scheduled_outputs@).skip(pre.len() as int) =~= Seq::<OutputModel>::empty());
        assert(output_models(scheduled_outputs@).take(pre.len() as int) =~= pre);
        assert(forall|title: String, id: usize| gather_scheduled(t2, t2.len()) == Gathered::Missing(title, id)
            ==> expected == Some(Err::<(Seq<OutputModel>, Seq<OutputModel>), (String, usize)>((title, id))));
    }
    let mut i: usize = 0;
    while i < sched.len()
        invariant
            i <= sched.len(),
            t2 == task_states(sched@),
            sm == task_states(scheduled@),
            im == task_states(impossible@),
            expected == old_formatter_spec(sm, im),
            forall|title: String, id: usize| gather_scheduled(t2, t2.len()) == Gathered::Missing(title, id)
                ==> expected == Some(Err::<(Seq<OutputModel>, Seq<OutputModel>), (String, usize)>((title, id))),
            gather_scheduled(t2, i as nat) == Gathered::Outs(output_models(scheduled_outputs@).skip(pre.len() as int)),
            output_models(scheduled_outputs@).take(pre.len() as int) == pre,
            pre.len() <= scheduled_outputs@.len(),
            !(gather_scheduled(t2, t2.len()) is Fails),
        decreases sched.len() - i,
    {
        let task = &sched[i];
        proof {
            assert(t2[i as int] == task@);
        }
        if task.confirmed_start.is_none() || task.confirmed_deadline.is_none() {
            proof {
                assert(gather_scheduled(t2, (i + 1) as nat) == Gathered::Missing(task@.title, task@.id));
                lemma_gather_stays(t2, (i + 1) as nat, t2.len());
            }
            return Err(Error::NoConfirmedDate(task.title.clone(), task.id));
        }
        proof {
            if !output_ok(task@) {
                lemma_gather_stays(t2, (i + 1) as nat, t2.len());
            }
        }
        let o = get_output_from_task(task);
        let ghost before = output_models(scheduled_outputs@);
        scheduled_outputs.push(o);
        proof {
            assert(output_models(scheduled_outputs@) =~= before.push(o@));
            assert(output_models(scheduled_outputs@).skip(pre.len() as int) =~= before.skip(pre.len() as int).push(o@));
            assert(output_models(scheduled_outputs@).take(pre.len() as int) =~= before.take(pre.len() as int));
        }
        i = i + 1;
    }
    proof {
        assert(output_models(scheduled_outputs@) =~= output_models(scheduled_outputs@).take(pre.len() as int)
            + output_models(scheduled_outputs@).skip(pre.len() as int));
    }
    let ghost mid = output_models(scheduled_outputs@);
    if last_free_slot.num_hours() > 0 {
        scheduled_outputs.push(free_output_task(last_index + 1, last_free_slot));
    }
    let ghost gathered = match gather_scheduled(t2, t2.len()) {
        Gathered::Outs(o) => o,
        _ => Seq::empty(),
    };
    let ghost post = if slot_num_hours(last_free_slot) > 0 {
        seq![free_output(sm.len() as int, last_free_slot)]
    } else {
        Seq::<OutputModel>::empty()
    };
    proof {
        assert(gather_scheduled(t2, t2.len()) is Outs);
        assert(mid =~= pre + gathered);
        assert(output_models(scheduled_outputs@) =~= pre + gathered + post);
    }
    let mut impossible_outputs: Vec<Output> = Vec::new();
    let mut j: usize = 0;
    while j < impossible.len()
        invariant
            j <= impossible.len(),
            im == task_states(impossible@),
            gather_impossible(im, im.len()) is Some,
            gather_impossible(im, j as nat) == Some(output_models(impossible_outputs@)),
        decreases impossible.len() - j,
    {
        let task = &impossible[j];
        proof {
            assert(im[j as int] == task@);
            lemma_gather_impossible_prefix(im, im.len(), (j + 1) as nat);
        }
        if !has_tag(&task.tags, Tag::Optional) {
            let o = get_output_from_task(task);
            let ghost before = output_models(impossible_outputs@);
            impossible_outputs.push(o);
            assert(output_models(impossible_outputs@) =~= before.push(o@));
        }
        j = j + 1;
    }
    proof {
        assert(expected == match (
            gather_impossible(im, im.len()),
            combine_outputs(outputs_by_start(pre + gathered + post)),
        ) {
            (Some(io), Some(c1)) => {
                if !outputs_in_range(c1) {
                    None
                } else {
                    match (split_outputs(c1, c1.len()), combine_outputs(outputs_by_start(io))) {
                        (Some(s2), Some(c2)) => {
                            if s2.len() + c2.len() > usize::MAX {
                                None
                            } else {
                                Some(Ok::<(Seq<OutputModel>, Seq<OutputModel>), (String, usize)>((renumber_outputs(s2, 0), renumber_outputs(c2, s2.len() as int))))
                            }
                        },
                        _ => None,
                    }
                }
            },
            _ => None,
        });
    }
    let mut scheduled_outputs = sort_outputs(scheduled_outputs);
    combine(&mut scheduled_outputs);
    split_cross_day_task(&mut scheduled_outputs);
    let n = scheduled_outputs.len();
    renumber(&mut scheduled_outputs, 0);
    let mut impossible_outputs = sort_outputs(impossible_outputs);
    combine(&mut impossible_outputs);
    renumber(&mut impossible_outputs, n);
    Ok(FinalOutput { scheduled: scheduled_outputs, impossible: impossible_outputs })
}

} // verus!
