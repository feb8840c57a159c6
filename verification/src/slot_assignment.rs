use vstd::prelude::*;
use crate::slot::{slot_hours, slot_ok, Slot};
use crate::splitters::hour_pieces;
use crate::task::{slot_num_hours, task_flex_ok, task_flex_sum, Task, TaskState};
use crate::time::{hour, hour_of, time_ok, with_hour, with_hour_of, SECS_PER_DAY, SECS_PER_HOUR, TIME_LIMIT};

verus! {

/// Does hour `h` lie within the hour bounds `[after, before)`, which wrap past
/// midnight when `before` comes first?
pub open spec fn within_bounds(after: int, before: int, h: int) -> bool {
    if before < after {
        h < before || h >= after
    } else {
        h >= after && h < before
    }
}

/// The hours between the bounds, going past midnight when they wrap.
pub open spec fn bounds_size(after: int, before: int) -> int {
    if before > after {
        before - after
    } else {
        before + (24 - after)
    }
}

/// The slot of `num` hours from the start of hour `i`, cut at the hard deadline and,
/// when it ends past the hour `before` of its last day, at that hour.
pub open spec fn generated_slot(hours: Seq<Slot>, i: int, num: int, hard_deadline: Option<i64>, before: int) -> Slot {
    let start = hours[i].start as int;
    let e0 = start + num * SECS_PER_HOUR;
    let e1 = match hard_deadline {
        Some(d) => if e0 > d {
            d as int
        } else {
            e0
        },
        None => e0,
    };
    let e2 = if hour_of(e1) > before {
        with_hour_of(e1, before)
    } else {
        e1
    };
    Slot { start: start as i64, end: e2 as i64 }
}

/// The slots generated from hour `i` of `hours` on: at each hour within the task's
/// bounds, a slot of `num` hours, after which the walk goes on `num + 1` hours later.
pub open spec fn generated_from(
    hours: Seq<Slot>,
    after: int,
    before: int,
    num: int,
    hard_deadline: Option<i64>,
    i: int,
) -> Seq<Slot>
    decreases hours.len() - i,
{
    if i < 0 || i >= hours.len() || num < 0 {
        seq![]
    } else if !within_bounds(after, before, hour_of(hours[i].start as int)) {
        generated_from(hours, after, before, num, hard_deadline, i + 1)
    } else {
        let next = if i + num + 1 > hours.len() {
            hours.len() as int
        } else {
            i + num + 1
        };
        seq![generated_slot(hours, i, num, hard_deadline, before)] + generated_from(
            hours,
            after,
            before,
            num,
            hard_deadline,
            next,
        )
    }
}

/// The slots a task gets within `time_period`: the whole period for a task bounded by
/// neither hour; otherwise the slots generated hour by hour (see `generated_from`).
pub open spec fn generator_slots(t: TaskState, time_period: Slot, hard_deadline: Option<i64>) -> Seq<Slot> {
    if t.after_time == 0 && t.before_time == 24 {
        seq![time_period]
    } else {
        generated_from(
            hour_pieces(time_period),
            t.after_time as int,
            t.before_time as int,
            bounds_size(t.after_time as int, t.before_time as int),
            hard_deadline,
            0,
        )
    }
}

/// A period of time whose hours lie well within the supported range.
pub open spec fn period_ok(p: Slot) -> bool {
    &&& slot_ok(p)
    &&& -TIME_LIMIT <= p.start
    &&& p.end + 2 * SECS_PER_DAY <= TIME_LIMIT
}

/// The slot from hour `i` of `hours`, as `generated_slot` gives it.
fn assign_generated_slot(hours: &Vec<Slot>, i: usize, num: usize, hard_deadline: Option<i64>, before_time: usize) -> (r: Slot)
    requires
        i < hours.len(),
        num <= 48,
        before_time <= 24,
        time_ok(hours@[i as int].start as int),
        hours@[i as int].start + 2 * SECS_PER_DAY <= TIME_LIMIT,
        hard_deadline matches Some(d) ==> time_ok(d as int),
    ensures
        r == generated_slot(hours@, i as int, num as int, hard_deadline, before_time as int),
{
    let start = hours[i];
    let mut end = start.start + (num as i64) * SECS_PER_HOUR;
    match hard_deadline {
        Some(d) => {
            if end > d {
                end = d;
            }
        },
        None => {},
    }
    if hour(end) > before_time {
        end = with_hour(end, before_time);
    }
    Slot { start: start.start, end }
}

/// Gives the task its slots within `time_period`: the whole period when the task is
/// bounded by neither hour; otherwise, walking the hours of the period, a slot of the
/// task's bounded hours from each hour within its bounds, cut at the hard deadline and
/// at its before-time, after which the walk skips the hours that slot took.
pub fn slot_generator(task: Task, time_period: &Slot, hard_deadline: Option<i64>) -> (r: Task)
    requires
        !(task.after_time == 0 && task.before_time == 24) ==> period_ok(*time_period),
        task.after_time <= 24,
        task.before_time <= 24,
        hard_deadline matches Some(d) ==> time_ok(d as int),
    ensures
        r@ == (TaskState { slots: generator_slots(task@, *time_period, hard_deadline), ..task@ }),
{
    let mut task = task;
    if task.after_time == 0 && task.before_time == 24 {
        let mut whole: Vec<Slot> = Vec::new();
        whole.push(*time_period);
        task.slots = whole;
        assert(task@.slots =~= seq![*time_period]);
        return task;
    }
    let hours = time_period.split_into_1h_slots();
    let ghost hs = hours@;
    proof {
        assert forall|k: int| 0 <= k < hs.len() implies time_ok((#[trigger] hs[k]).start as int) && hs[k].start
            + 2 * SECS_PER_DAY <= TIME_LIMIT by {
            assert(hs[k].start == time_period.start + k * SECS_PER_HOUR);
            assert(k * SECS_PER_HOUR < slot_hours(*time_period) * SECS_PER_HOUR) by (nonlinear_arith)
                requires
                    k < slot_hours(*time_period),
            ;
            assert(slot_hours(*time_period) * SECS_PER_HOUR <= time_period.end - time_period.start) by (nonlinear_arith)
                requires
                    slot_hours(*time_period) == (time_period.end - time_period.start) / 3600,
                    time_period.end - time_period.start >= 0,
            ;
        }
    }
    let num = task.size_of_slots_to_be_assigned();
    let ghost after = task.after_time as int;
    let ghost before = task.before_time as int;
    let mut slots: Vec<Slot> = Vec::new();
    let mut i: usize = 0;
    while i < hours.len()
        invariant
            hs == hours@,
            forall|k: int| 0 <= k < hs.len() ==> time_ok((#[trigger] hs[k]).start as int) && hs[k].start
                + 2 * SECS_PER_DAY <= TIME_LIMIT,
            i <= hours.len(),
            num == bounds_size(after, before),
            num <= 48,
            after == task.after_time,
            before == task.before_time,
            task.before_time <= 24,
            hard_deadline matches Some(d) ==> time_ok(d as int),
            slots@ + generated_from(hs, after, before, num as int, hard_deadline, i as int) == generated_from(
                hs,
                after,
                before,
                num as int,
                hard_deadline,
                0,
            ),
        decreases hours.len() - i,
    {
        let h = hour(hours[i].start);
        if !task.bounds_contain(h) {
            i = i + 1;
            continue;
        }
        let slot = assign_generated_slot(&hours, i, num, hard_deadline, task.before_time);
        let ghost before_slots = slots@;
        slots.push(slot);
        proof {
            assert(slots@ =~= before_slots + seq![slot]);
        }
        if num + 1 > hours.len() - i {
            i = hours.len();
        } else {
            i = i + num + 1;
        }
    }
    proof {
        assert(generated_from(hs, after, before, num as int, hard_deadline, i as int) =~= seq![]);
        assert(slots@ + seq![] =~= slots@);
    }
    task.slots = slots;
    task
}

/// The hour where a slot assigned from hour `i` ends: `size - 1` hours further on,
/// or the last hour.
pub open spec fn assigned_end(n: int, i: int, size: int) -> int {
    if size <= 1 {
        i
    } else if i + size - 1 > n - 1 {
        if i > n - 1 {
            i
        } else {
            n - 1
        }
    } else {
        i + size - 1
    }
}

/// From hour `k` on, the first hour that follows an hour ending at midnight; the end
/// of the hours when there is none.
pub open spec fn past_midnight(hours: Seq<Slot>, k: int) -> int
    decreases hours.len() - k,
{
    if k < 1 || k >= hours.len() {
        k
    } else if hour_of(hours[k - 1].end as int) == 0 {
        k
    } else if k + 1 >= hours.len() {
        hours.len() as int
    } else {
        past_midnight(hours, k + 1)
    }
}

/// A walk past midnight never goes back.
pub proof fn lemma_past_midnight(hours: Seq<Slot>, k: int)
    ensures
        past_midnight(hours, k) >= k,
        k <= hours.len() ==> past_midnight(hours, k) <= hours.len(),
    decreases hours.len() - k,
{
    if 1 <= k < hours.len() && hour_of(hours[k - 1].end as int) != 0 && k + 1 < hours.len() {
        lemma_past_midnight(hours, k + 1);
    }
}

/// Can the task take hour `i`: it lies between the task's start and deadline and starts
/// no earlier in its day than the task's after-time?
pub open spec fn takes_hour(t: TaskState, h: Slot) -> bool {
    h.start >= t.start && h.end < t.deadline && hour_of(h.start as int) >= t.after_time
}

/// The slots assigned to a task from hour `i` on: at each hour it can take, a slot over
/// the task's bounded hours (or up to the last hour), after which the walk goes on past
/// the next midnight.
pub open spec fn assigned_from(hours: Seq<Slot>, t: TaskState, size: int, i: int) -> Seq<Slot>
    decreases hours.len() - i,
{
    if i < 0 || i >= hours.len() {
        seq![]
    } else if !takes_hour(t, hours[i]) {
        assigned_from(hours, t, size, i + 1)
    } else {
        let e = assigned_end(hours.len() as int, i, size);
        let k = past_midnight(hours, e);
        proof {
            lemma_past_midnight(hours, e);
        }
        let next = if k + 1 > hours.len() {
            hours.len() as int
        } else {
            k + 1
        };
        seq![Slot { start: hours[i].start, end: hours[e].end }] + assigned_from(hours, t, size, next)
    }
}

/// Whole hours of the slots, added up.
pub open spec fn hours_sum(slots: Seq<Slot>) -> int
    decreases slots.len(),
{
    if slots.len() == 0 {
        0
    } else {
        hours_sum(slots.drop_last()) + slot_num_hours(slots.last())
    }
}

/// The task with its slots assigned within `hours`: the assigned slots added to its own,
/// its duration cut to the hours of all its slots when those are fewer, and its
/// flexibility computed.
pub open spec fn assigned_task(hours: Seq<Slot>, t: TaskState) -> TaskState {
    let size = bounds_size(t.after_time as int, t.before_time as int);
    let slots = t.slots + assigned_from(hours, t, size, 0);
    let total = hours_sum(slots);
    let duration = if total < t.duration {
        total as usize
    } else {
        t.duration
    };
    TaskState { slots, duration, flexibility: task_flex_sum(slots, duration as int) as usize, ..t }
}

/// What assigning needs of a task: hour bounds within a day, a first hour it can
/// take that leads to a slot past it (the walk looks back one hour), slots within the
/// supported range, and hours and flexibility that fit in a `usize`.
pub open spec fn assignable(hours: Seq<Slot>, t: TaskState) -> bool {
    let size = bounds_size(t.after_time as int, t.before_time as int);
    let slots = t.slots + assigned_from(hours, t, size, 0);
    &&& t.after_time <= 24
    &&& t.before_time <= 24
    &&& (hours.len() > 0 && takes_hour(t, hours[0]) ==> assigned_end(hours.len() as int, 0, size) >= 1)
    &&& forall|k: int| 0 <= k < slots.len() ==> (#[trigger] slots[k]).wf()
    &&& hours_sum(slots) <= usize::MAX
    &&& task_flex_ok(TaskState { slots, ..t })
    &&& task_flex_ok(assigned_task(hours, t))
}

/// Adds to the task the slot from hour `*i` over its bounded hours (or up to the last
/// hour), then moves `*i` past the next midnight.
fn assign_slots(task: &mut Task, time_slots: &Vec<Slot>, i: &mut usize)
    requires
        *old(i) < time_slots.len(),
        old(task).after_time <= 24,
        old(task).before_time <= 24,
        assigned_end(
            time_slots.len() as int,
            *old(i) as int,
            bounds_size(old(task).after_time as int, old(task).before_time as int),
        ) >= 1,
        forall|k: int| 0 <= k < time_slots.len() ==> (#[trigger] time_slots@[k]).wf(),
    ensures
        ({
            let e = assigned_end(
                time_slots.len() as int,
                *old(i) as int,
                bounds_size(old(task).after_time as int, old(task).before_time as int),
            );
            &&& final(task)@ == (TaskState {
                slots: old(task)@.slots.push(Slot { start: time_slots@[*old(i) as int].start, end: time_slots@[e].end }),
                ..old(task)@
            })
            &&& *final(i) == past_midnight(time_slots@, e)
        }),
{
    let ghost i0 = *i as int;
    let n = time_slots.len();
    let start = time_slots[*i];
    let mut end = time_slots[*i];
    let size = task.size_of_slots_to_be_assigned();
    let mut c: usize = 1;
    while c < size
        invariant
            1 <= c,
            c <= size || size == 0,
            size == 0 ==> c == 1,
            n == time_slots.len(),
            i0 < n,
            *i == assigned_end(n as int, i0, c as int),
            *i < n,
            end == time_slots@[*i as int],
        decreases size - c,
    {
        if *i < n - 1 {
            *i = *i + 1;
            end = time_slots[*i];
        }
        c = c + 1;
    }
    let ghost e = *i as int;
    assert(e == assigned_end(n as int, i0, size as int));
    task.slots.push(Slot { start: start.start, end: end.end });
    let ghost target = past_midnight(time_slots@, e);
    loop
        invariant_except_break
            1 <= *i < n,
            past_midnight(time_slots@, *i as int) == target,
        invariant
            n == time_slots.len(),
            forall|k: int| 0 <= k < time_slots.len() ==> (#[trigger] time_slots@[k]).wf(),
        ensures
            *i == target,
        decreases n - *i,
    {
        if hour(time_slots[*i - 1].end) == 0 {
            break;
        }
        *i = *i + 1;
        if *i == n {
            break;
        }
    }
}

proof fn lemma_hours_sum_prefix(s: Seq<Slot>, k: int)
    requires
        0 <= k <= s.len(),
    ensures
        0 <= hours_sum(s.take(k)) <= hours_sum(s),
    decreases s.len(),
{
    if s.len() > 0 {
        if k == s.len() {
            assert(s.take(k) =~= s);
            lemma_hours_sum_prefix(s.drop_last(), k - 1);
            assert(s.drop_last().take(k - 1) =~= s.drop_last());
        } else {
            lemma_hours_sum_prefix(s.drop_last(), k);
            assert(s.drop_last().take(k) =~= s.take(k));
        }
    } else {
        assert(s.take(k) =~= s);
    }
}

/// Assigns the task its slots within the hours of the calendar (see `assigned_task`).
fn assign_task(task: Task, time_slots: &Vec<Slot>) -> (r: Task)
    requires
        assignable(time_slots@, task@),
        forall|k: int| 0 <= k < time_slots.len() ==> (#[trigger] time_slots@[k]).wf(),
    ensures
        r@ == assigned_task(time_slots@, task@),
{
    let ghost t0 = task@;
    let ghost size = bounds_size(t0.after_time as int, t0.before_time as int);
    let ghost ts = time_slots@;
    let mut task = task;
    let n = time_slots.len();
    let mut i: usize = 0;
    while i < n
        invariant
            n == time_slots.len(),
            ts == time_slots@,
            forall|k: int| 0 <= k < time_slots.len() ==> (#[trigger] time_slots@[k]).wf(),
            assignable(ts, t0),
            size == bounds_size(t0.after_time as int, t0.before_time as int),
            i <= n,
            i == 0 || (i as int) >= 1,
            task@ == (TaskState { slots: task@.slots, ..t0 }),
            task@.slots + assigned_from(ts, t0, size, i as int) == t0.slots + assigned_from(ts, t0, size, 0),
        decreases n - i,
    {
        let h = time_slots[i];
        if !(h.start >= task.start && h.end < task.deadline) {
            i = i + 1;
            continue;
        }
        if !(hour(h.start) >= task.after_time) {
            i = i + 1;
            continue;
        }
        let ghost i0 = i as int;
        let ghost before = task@.slots;
        proof {
            assert(takes_hour(t0, ts[i0]));
            lemma_past_midnight(ts, assigned_end(n as int, i0, size));
        }
        assign_slots(&mut task, time_slots, &mut i);
        proof {
            let e = assigned_end(n as int, i0, size);
            assert(task@.slots == before.push(Slot { start: ts[i0].start, end: ts[e].end }));
            assert(before.push(Slot { start: ts[i0].start, end: ts[e].end }) + assigned_from(ts, t0, size, if i + 1 > n { n as int } else { i + 1 })
                =~= before + (seq![Slot { start: ts[i0].start, end: ts[e].end }] + assigned_from(ts, t0, size, if i + 1 > n { n as int } else { i + 1 })));
        }
        if i >= n {
            proof {
                assert(assigned_from(ts, t0, size, n as int) =~= seq![]);
            }
            i = n;
        } else {
            i = i + 1;
        }
    }
    proof {
        assert(assigned_from(ts, t0, size, i as int) =~= seq![]);
        assert(task@.slots + seq![] =~= task@.slots);
    }
    let ghost slots = task@.slots;
    let mut total: usize = 0;
    let mut j: usize = 0;
    while j < task.slots.len()
        invariant
            slots == task@.slots,
            assignable(ts, t0),
            slots == t0.slots + assigned_from(ts, t0, size, 0),
            size == bounds_size(t0.after_time as int, t0.before_time as int),
            j <= slots.len(),
            total == hours_sum(slots.take(j as int)),
        decreases slots.len() - j,
    {
        proof {
            assert(slots.take(j + 1).drop_last() =~= slots.take(j as int));
            assert(slots.take(j + 1).last() == slots[j as int]);
            lemma_hours_sum_prefix(slots, j + 1);
            assert(slots[j as int].wf());
        }
        let hrs = task.slots[j].num_hours();
        total = total + hrs;
        j = j + 1;
    }
    proof {
        assert(slots.take(slots.len() as int) =~= slots);
    }
    if total < task.duration {
        task.duration = total;
    }
    task.calculate_flexibility();
    task
}

/// Assigns each task its slots within the hours of the calendar from `calendar_start`
/// to `calendar_end`: walking the hours, at each hour that lies within the task's
/// start and deadline and starts no earlier than its after-time, a slot over its
/// bounded hours is added, and the walk goes on past the next midnight; a task whose
/// slots hold fewer hours than it lasts is cut to those hours; its flexibility is
/// then computed.
pub fn slot_assigner(tasks: Vec<Task>, calendar_start: i64, calendar_end: i64) -> (r: Vec<Task>)
    requires
        period_ok(Slot { start: calendar_start, end: calendar_end }),
        forall|k: int|
            0 <= k < tasks.len() ==> assignable(
                hour_pieces(Slot { start: calendar_start, end: calendar_end }),
                #[trigger] tasks@[k]@,
            ),
    ensures
        r@.len() == tasks@.len(),
        forall|k: int|
            0 <= k < tasks.len() ==> (#[trigger] r@[k])@ == assigned_task(
                hour_pieces(Slot { start: calendar_start, end: calendar_end }),
                tasks@[k]@,
            ),
{
    let calendar = Slot { start: calendar_start, end: calendar_end };
    let time_slots = calendar.split_into_1h_slots();
    proof {
        assert forall|k: int| 0 <= k < time_slots.len() implies (#[trigger] time_slots@[k]).wf() by {
            assert(time_slots@[k].start == calendar.start + k * SECS_PER_HOUR);
            assert(time_slots@[k].end == calendar.start + (k + 1) * SECS_PER_HOUR);
            assert((k + 1) * SECS_PER_HOUR <= slot_hours(calendar) * SECS_PER_HOUR) by (nonlinear_arith)
                requires
                    k < slot_hours(calendar),
            ;
            assert(slot_hours(calendar) * SECS_PER_HOUR <= calendar.end - calendar.start) by (nonlinear_arith)
                requires
                    slot_hours(calendar) == (calendar.end - calendar.start) / 3600,
                    calendar.end - calendar.start >= 0,
            ;
        }
    }
    let mut tasks = tasks;
    let ghost t0 = tasks@;
    let mut idx: usize = 0;
    while idx < tasks.len()
        invariant
            idx <= tasks.len(),
            tasks@.len() == t0.len(),
            time_slots@ == hour_pieces(calendar),
            calendar == (Slot { start: calendar_start, end: calendar_end }),
            forall|k: int| 0 <= k < time_slots.len() ==> (#[trigger] time_slots@[k]).wf(),
            forall|k: int| 0 <= k < t0.len() ==> assignable(hour_pieces(calendar), #[trigger] t0[k]@),
            forall|k: int| 0 <= k < idx ==> (#[trigger] tasks@[k])@ == assigned_task(hour_pieces(calendar), t0[k]@),
            forall|k: int| idx <= k < tasks.len() ==> #[trigger] tasks@[k] == t0[k],
        decreases tasks.len() - idx,
    {
        let task = tasks.remove(idx);
        let task = assign_task(task, &time_slots);
        tasks.insert(idx, task);
        idx = idx + 1;
    }
    tasks
}

} // verus!
