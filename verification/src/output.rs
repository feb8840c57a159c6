use vstd::prelude::*;
use crate::goal::{has_tag, Tag};
use crate::slot::Slot;
use crate::placer::{step_models, PlacedSteps};
use crate::step::{Error, Step, StepModel, StepStatus};
use crate::sorting::{items_of, lemma_sort_keeps, lemma_sort_map, lemma_sort_sorted, map_payload, sort_by_key, sort_keyed, strip_keys};
use crate::time::{day_number, day_number_of, hours_between, hours_from_to, time_ok, with_hour, with_hour_of, SECS_PER_DAY, SECS_PER_HOUR, TIME_LIMIT};

verus! {

/// A task of the schedule handed back: a goal, or free time, over `[start, deadline)`.
/// Times are timestamps.
#[derive(Debug, Clone)]
pub struct Task {
    pub taskid: usize,
    pub goalid: String,
    pub title: String,
    pub duration: usize,
    pub start: i64,
    pub deadline: i64,
    pub tags: Vec<Tag>,
    pub impossible: bool,
}

/// The tasks of one day; the day is numbered from 1970-01-01.
#[derive(Debug, Clone)]
pub struct DayTasks {
    pub day: i64,
    pub tasks: Vec<Task>,
}

/// The schedule handed back: the tasks placed and those that could not be, by day.
#[derive(Debug, Clone)]
pub struct FinalTasks {
    pub scheduled: Vec<DayTasks>,
    pub impossible: Vec<DayTasks>,
}

/// What a task says, as plain values.
pub struct TaskModel {
    pub taskid: int,
    pub goalid: Seq<char>,
    pub title: Seq<char>,
    pub duration: int,
    pub start: int,
    pub deadline: int,
    pub tags: Seq<Tag>,
    pub impossible: bool,
}

impl View for Task {
    type V = TaskModel;

    open spec fn view(&self) -> TaskModel {
        TaskModel {
            taskid: self.taskid as int,
            goalid: self.goalid@,
            title: self.title@,
            duration: self.duration as int,
            start: self.start as int,
            deadline: self.deadline as int,
            tags: self.tags@,
            impossible: self.impossible,
        }
    }
}

/// The models of a sequence of tasks.
pub open spec fn task_models(s: Seq<Task>) -> Seq<TaskModel> {
    s.map_values(|t: Task| t@)
}

/// The name that free time goes by, as goal and as title.
pub open spec fn free_text() -> Seq<char> {
    seq!['f', 'r', 'e', 'e']
}

/// The text `free`.
pub fn free_string() -> (r: String)
    ensures
        r@ == free_text(),
{
    let r = "free".to_owned();
    proof {
        reveal_strlit("free");
        assert(r@ =~= free_text());
    }
    r
}

/// A copy of a list of tags.
pub fn copy_tags(v: &Vec<Tag>) -> (r: Vec<Tag>)
    ensures
        r@ == v@,
{
    let mut out: Vec<Tag> = Vec::new();
    let mut i: usize = 0;
    while i < v.len()
        invariant
            i <= v.len(),
            out@ == v@.take(i as int),
        decreases v.len() - i,
    {
        out.push(v[i]);
        i = i + 1;
        assert(out@ =~= v@.take(i as int));
    }
    assert(v@.take(v.len() as int) =~= v@);
    out
}

impl Task {
    /// A copy of the task.
    pub fn duplicate(&self) -> (r: Task)
        ensures
            r@ == self@,
    {
        Task {
            taskid: self.taskid,
            goalid: self.goalid.clone(),
            title: self.title.clone(),
            duration: self.duration,
            start: self.start,
            deadline: self.deadline,
            tags: copy_tags(&self.tags),
            impossible: self.impossible,
        }
    }
}

/// Can `t` be merged into `h`: the same goal, and `t` starts where `h` ends or `h`
/// is an impossible task of flexible duration.
pub open spec fn mergeable(h: TaskModel, t: TaskModel) -> bool {
    (t.goalid == h.goalid && t.start == h.deadline) || (t.goalid == h.goalid && h.tags.contains(
        Tag::FlexDur,
    ) && h.impossible)
}

/// `h` extended by `t`: it ends where `t` ends and lasts both durations.
pub open spec fn merged(h: TaskModel, t: TaskModel) -> TaskModel {
    TaskModel { deadline: t.deadline, duration: h.duration + t.duration, ..h }
}

/// Contiguous tasks of the same goal combined, left to right: each task is merged
/// into the one before it when it can be, and starts a new task otherwise. Nothing
/// when a combined duration would not fit in a `usize`.
pub open spec fn combine_spec(s: Seq<TaskModel>) -> Option<Seq<TaskModel>>
    decreases s.len(),
{
    if s.len() <= 1 {
        Some(s)
    } else {
        match combine_spec(s.drop_last()) {
            None => None,
            Some(r) => {
                let h = r.last();
                let t = s.last();
                if mergeable(h, t) {
                    if h.duration + t.duration > usize::MAX {
                        None
                    } else {
                        Some(r.update(r.len() - 1, merged(h, t)))
                    }
                } else {
                    Some(r.push(t))
                }
            },
        }
    }
}

proof fn lemma_combine_len(s: Seq<TaskModel>)
    requires
        combine_spec(s) is Some,
    ensures
        (combine_spec(s)->0).len() <= s.len(),
        s.len() > 0 ==> (combine_spec(s)->0).len() > 0,
    decreases s.len(),
{
    if s.len() > 1 {
        lemma_combine_len(s.drop_last());
    }
}

/// The hours of the tasks, added up.
pub open spec fn total_duration(s: Seq<TaskModel>) -> int
    decreases s.len(),
{
    if s.len() == 0 {
        0
    } else {
        total_duration(s.drop_last()) + s.last().duration
    }
}

proof fn lemma_total_update_last(s: Seq<TaskModel>, t: TaskModel)
    requires
        s.len() > 0,
    ensures
        total_duration(s.update(s.len() - 1, t)) == total_duration(s) - s.last().duration + t.duration,
{
    assert(s.update(s.len() - 1, t).drop_last() =~= s.drop_last());
}

/// Combining tasks keeps their hours: the combined tasks last as long, all together,
/// as the tasks did.
pub proof fn lemma_combine_keeps_hours(s: Seq<TaskModel>)
    requires
        combine_spec(s) is Some,
    ensures
        total_duration(combine_spec(s)->0) == total_duration(s),
    decreases s.len(),
{
    if s.len() > 1 {
        lemma_combine_keeps_hours(s.drop_last());
        lemma_combine_len(s.drop_last());
        let r = combine_spec(s.drop_last())->0;
        let h = r.last();
        let t = s.last();
        if mergeable(h, t) {
            lemma_total_update_last(r, merged(h, t));
        } else {
            assert(r.push(t).drop_last() =~= r);
        }
    }
}

/// Splitting tasks that cross into a later day keeps their hours.
pub proof fn lemma_split_keeps_hours(s: Seq<TaskModel>, n: nat)
    requires
        n <= s.len(),
        split_all(s, n) is Some,
    ensures
        total_duration(split_all(s, n)->0) == total_duration(s.take(n as int)),
    decreases n,
{
    if n > 0 {
        lemma_split_all_prefix(s, n, (n - 1) as nat);
        lemma_split_keeps_hours(s, (n - 1) as nat);
        let a = split_all(s, (n - 1) as nat)->0;
        let b = split_one(s[n - 1])->0;
        lemma_total_concat(a, b);
        assert(s.take(n as int).drop_last() =~= s.take(n - 1));
        assert(s.take(n as int).last() == s[n - 1]);
        let t = s[n - 1];
        assert(total_duration(Seq::<TaskModel>::empty()) == 0);
        if b.len() == 2 {
            assert(b.drop_last() =~= seq![b[0]]);
            assert(seq![b[0]].drop_last() =~= Seq::<TaskModel>::empty());
            assert(seq![b[0]].last() == b[0]);
            assert(total_duration(seq![b[0]]) == b[0].duration);
            assert(total_duration(b) == b[0].duration + b[1].duration);
        } else {
            assert(b.drop_last() =~= Seq::<TaskModel>::empty());
            assert(total_duration(b) == b[0].duration);
        }
        assert(total_duration(b) == t.duration);
    }
}

proof fn lemma_total_concat(a: Seq<TaskModel>, b: Seq<TaskModel>)
    ensures
        total_duration(a + b) == total_duration(a) + total_duration(b),
    decreases b.len(),
{
    if b.len() > 0 {
        assert((a + b).drop_last() =~= a + b.drop_last());
        lemma_total_concat(a, b.drop_last());
    } else {
        assert(a + b =~= a);
    }
}

proof fn lemma_combine_prefix(s: Seq<TaskModel>, k: int)
    requires
        0 <= k <= s.len(),
        combine_spec(s) is Some,
    ensures
        combine_spec(s.take(k)) is Some,
    decreases s.len(),
{
    if k == s.len() {
        assert(s.take(k) =~= s);
    } else if s.len() > 1 {
        lemma_combine_prefix(s.drop_last(), k);
        assert(s.drop_last().take(k) =~= s.take(k));
    } else {
        assert(s.take(k).len() <= 1);
    }
}

proof fn lemma_combine_none_from(s: Seq<TaskModel>, k: int)
    requires
        0 <= k <= s.len(),
        combine_spec(s.take(k)) is None,
    ensures
        combine_spec(s) is None,
{
    if combine_spec(s) is Some {
        lemma_combine_prefix(s, k);
    }
}

/// The tasks with contiguous tasks of the same goal combined (see `combine_spec`);
/// nothing when a combined duration would not fit in a `usize`.
fn combined(tasks: &Vec<Task>) -> (r: Option<Vec<Task>>)
    ensures
        r is Some == combine_spec(task_models(tasks@)) is Some,
        r matches Some(v) ==> task_models(v@) == combine_spec(task_models(tasks@))->0,
{
    let ghost m = task_models(tasks@);
    let mut out: Vec<Task> = Vec::new();
    let mut i: usize = 0;
    while i < tasks.len()
        invariant
            i <= tasks.len(),
            m == task_models(tasks@),
            combine_spec(m.take(i as int)) is Some,
            task_models(out@) == combine_spec(m.take(i as int))->0,
        decreases tasks.len() - i,
    {
        proof {
            assert(m.take(i + 1).drop_last() =~= m.take(i as int));
            assert(m.take(i + 1).last() == tasks@[i as int]@);
            lemma_combine_len(m.take(i as int));
        }
        let t = tasks[i].duplicate();
        let ghost before = out@;
        if out.len() > 0 {
            let last = out.len() - 1;
            let same_goal = out[last].goalid == t.goalid;
            let join = same_goal && (t.start == out[last].deadline || (has_tag(&out[last].tags, Tag::FlexDur) && out[last].impossible));
            proof {
                assert(task_models(out@).last() == out@[last as int]@);
            }
            if join {
                let sum = match out[last].duration.checked_add(t.duration) {
                    Some(d) => d,
                    None => {
                        proof {
                            assert(combine_spec(m.take(i + 1)) is None);
                            lemma_combine_none_from(m, i + 1);
                        }
                        return None;
                    },
                };
                let mut h = out.pop().unwrap();
                h.deadline = t.deadline;
                h.duration = sum;
                out.push(h);
                proof {
                    assert(task_models(out@) =~= task_models(before).update(last as int, merged(before[last as int]@, t@)));
                }
            } else {
                out.push(t);
                proof {
                    assert(task_models(out@) =~= task_models(before).push(t@));
                }
            }
        } else {
            out.push(t);
            proof {
                assert(m.take(i + 1).len() == 1);
                assert(task_models(out@) =~= m.take(i + 1));
            }
        }
        i = i + 1;
    }
    proof {
        assert(m.take(tasks.len() as int) =~= m);
    }
    Some(out)
}

/// Combines contiguous tasks of the same goal into one: a task that starts where
/// the one before it ends (or follows an impossible task of flexible duration) is
/// merged into it.
pub fn combine(tasks: &mut Vec<Task>)
    requires
        combine_spec(task_models(old(tasks)@)) is Some,
    ensures
        task_models(final(tasks)@) == combine_spec(task_models(old(tasks)@))->0,
{
    match combined(tasks) {
        Some(v) => {
            *tasks = v;
        },
        None => {},
    }
}

/// The tasks in the order of their start, tasks that start together keeping their order.
pub open spec fn by_start(s: Seq<TaskModel>) -> Seq<TaskModel> {
    items_of(sort_keyed(s.map_values(|t: TaskModel| (t.start as i64, t))))
}

/// Sorts tasks by their start; tasks that start together keep their order.
pub fn sort_by_start(v: Vec<Task>) -> (r: Vec<Task>)
    ensures
        task_models(r@) == by_start(task_models(v@)),
{
    let ghost m = task_models(v@);
    let mut keyed: Vec<(i64, Task)> = Vec::new();
    let mut src = v;
    let mut i: usize = 0;
    while i < src.len()
        invariant
            i <= src.len(),
            m == task_models(src@),
            map_payload(keyed@, |t: Task| t@) =~= m.take(i as int).map_values(|t: TaskModel| (t.start as i64, t)),
        decreases src.len() - i,
    {
        let t = src[i].duplicate();
        let ghost kb = keyed@;
        keyed.push((t.start, t));
        proof {
            assert(m[i as int] == t@);
            assert(map_payload(keyed@, |t: Task| t@) =~= map_payload(kb, |t: Task| t@).push((t.start, t@)));
            assert(m.take(i + 1).map_values(|t: TaskModel| (t.start as i64, t)) =~= m.take(i as int).map_values(
                |t: TaskModel| (t.start as i64, t),
            ).push((t@.start as i64, t@)));
        }
        i = i + 1;
    }
    let ghost k0 = keyed@;
    sort_by_key(&mut keyed);
    proof {
        lemma_sort_map(k0, |t: Task| t@);
        assert(m.take(m.len() as int) =~= m);
    }
    let ghost sorted = keyed@;
    let r = strip_keys(keyed);
    proof {
        assert(task_models(r@) =~= items_of(map_payload(sorted, |t: Task| t@)));
    }
    r
}

/// The tasks of `s` that start on day `d`, in order.
pub open spec fn tasks_on_day(s: Seq<TaskModel>, d: int) -> Seq<TaskModel>
    decreases s.len(),
{
    if s.len() == 0 {
        s
    } else if day_number_of(s.last().start) == d {
        tasks_on_day(s.drop_last(), d).push(s.last())
    } else {
        tasks_on_day(s.drop_last(), d)
    }
}

/// Every task starts and ends within the supported range.
pub open spec fn tasks_in_range(s: Seq<TaskModel>) -> bool {
    forall|k: int| 0 <= k < s.len() ==> time_ok((#[trigger] s[k]).start) && time_ok(s[k].deadline)
}

/// Copies of the tasks of `tasks` that start on day `d`, in order.
fn filter_day(tasks: &Vec<Task>, d: i64) -> (r: Vec<Task>)
    requires
        tasks_in_range(task_models(tasks@)),
    ensures
        task_models(r@) == tasks_on_day(task_models(tasks@), d as int),
{
    let ghost m = task_models(tasks@);
    let mut out: Vec<Task> = Vec::new();
    let mut i: usize = 0;
    while i < tasks.len()
        invariant
            i <= tasks.len(),
            m == task_models(tasks@),
            tasks_in_range(m),
            task_models(out@) == tasks_on_day(m.take(i as int), d as int),
        decreases tasks.len() - i,
    {
        proof {
            assert(m.take(i + 1).drop_last() =~= m.take(i as int));
            assert(m.take(i + 1).last() == tasks@[i as int]@);
            assert(m[i as int] == tasks@[i as int]@);
        }
        let ghost before = out@;
        if day_number(tasks[i].start) == d {
            let t = tasks[i].duplicate();
            out.push(t);
            assert(task_models(out@) =~= task_models(before).push(t@));
        }
        i = i + 1;
    }
    proof {
        assert(m.take(tasks.len() as int) =~= m);
    }
    out
}

/// The days from the day of `start`, one for each whole day from `start` to `end`.
pub open spec fn calendar_days(start: int, end: int) -> Seq<int> {
    Seq::new((hours_between(start, end) / 24) as nat, |k: int| day_number_of(start) + k)
}

/// The days of the calendar from `start` to `end`, numbered from 1970-01-01: the day
/// of `start` and the days after it, one for each whole day between them.
pub fn get_calendar_days(start: i64, end: i64) -> (r: Vec<i64>)
    requires
        time_ok(start as int),
        time_ok(end as int),
        start <= end,
    ensures
        r@.map_values(|d: i64| d as int) == calendar_days(start as int, end as int),
        forall|i: int| 0 <= i < r.len() ==> day_ok(#[trigger] r@[i] as int),
{
    let date = day_number(start);
    let days_num = (hours_from_to(start, end) / 24) as usize;
    let mut days: Vec<i64> = Vec::new();
    let mut i: usize = 0;
    proof {
        assert(date <= 101806632);
        assert(hours_between(start as int, end as int) / 24 <= 203613264) by (nonlinear_arith)
            requires
                hours_between(start as int, end as int) == (end - start) / 3600,
                0 <= end - start <= 2 * 8_796_093_004_800,
        ;
    }
    while i < days_num
        invariant
            i <= days_num,
            days_num == hours_between(start as int, end as int) / 24,
            days_num <= 203613264,
            date == day_number_of(start as int),
            -101806633 <= date <= 101806632,
            days@.map_values(|d: i64| d as int) =~= calendar_days(start as int, end as int).take(i as int),
            forall|k: int| 0 <= k < days.len() ==> day_ok(#[trigger] days@[k] as int),
            time_ok(start as int),
            time_ok(end as int),
            start <= end,
        decreases days_num - i,
    {
        proof {
            let ds = date * 86400;
            vstd::arithmetic::div_mod::lemma_fundamental_div_mod(start as int, 86400);
            assert(ds == start - start % 86400);
            assert(ds >= -8_796_093_004_800) by (nonlinear_arith)
                requires
                    ds == start - start % 86400,
                    start >= -8_796_093_004_800,
                    ds % 86400 == 0,
                    0 <= start % 86400 < 86400,
            ;
            assert((date + i) * 86400 + 86400 <= end) by (nonlinear_arith)
                requires
                    date * 86400 <= start,
                    i < days_num,
                    days_num == ((end - start) / 3600) / 24,
                    start <= end,
            ;
            assert((date + i) * 86400 >= date * 86400) by (nonlinear_arith)
                requires
                    i >= 0,
            ;
        }
        let ghost before = days@;
        days.push(date + i as i64);
        proof {
            assert(days@.map_values(|d: i64| d as int) =~= before.map_values(|d: i64| d as int).push(date + i));
            assert(calendar_days(start as int, end as int)[i as int] == date + i);
            assert(calendar_days(start as int, end as int).take(i + 1) =~= calendar_days(start as int, end as int).take(i as int).push(date + i));
        }
        i = i + 1;
    }
    days
}

/// The hour `h` of day `d` as a slot.
pub open spec fn hour_slot(d: int, h: int) -> Slot {
    Slot {
        start: (d * SECS_PER_DAY + h * SECS_PER_HOUR) as i64,
        end: (d * SECS_PER_DAY + (h + 1) * SECS_PER_HOUR) as i64,
    }
}

/// A day whose hours lie within the supported range.
pub open spec fn day_ok(d: int) -> bool {
    time_ok(d * SECS_PER_DAY) && time_ok(d * SECS_PER_DAY + SECS_PER_DAY)
}

/// The hours of day `d` as slots, in order.
pub fn day_hour_slots(day: i64) -> (r: Vec<Slot>)
    requires
        day_ok(day as int),
    ensures
        r@ == Seq::new(24, |h: int| hour_slot(day as int, h)),
{
    let start = day * SECS_PER_DAY;
    let mut result: Vec<Slot> = Vec::new();
    let mut hour: i64 = 0;
    while hour < 24
        invariant
            0 <= hour <= 24,
            start == day * SECS_PER_DAY,
            day_ok(day as int),
            result@ =~= Seq::new(24, |h: int| hour_slot(day as int, h)).take(hour as int),
        decreases 24 - hour,
    {
        result.push(Slot { start: start + hour * SECS_PER_HOUR, end: start + (hour + 1) * SECS_PER_HOUR });
        hour = hour + 1;
    }
    result
}

/// The tasks of day `d` in the order of their start, combined.
pub open spec fn day_tasks_spec(tasks: Seq<TaskModel>, d: int) -> Option<Seq<TaskModel>> {
    combine_spec(by_start(tasks_on_day(tasks, d)))
}

/// The tasks of each of the first `n` days, combined; nothing when a combined
/// duration would not fit.
pub open spec fn tasks_by_day(tasks: Seq<TaskModel>, days: Seq<int>, n: nat) -> Option<Seq<(int, Seq<TaskModel>)>>
    decreases n,
{
    if n == 0 {
        Some(Seq::empty())
    } else {
        match (tasks_by_day(tasks, days, (n - 1) as nat), day_tasks_spec(tasks, days[n - 1])) {
            (Some(r), Some(t)) => Some(r.push((days[n - 1], t))),
            _ => None,
        }
    }
}

/// What a day's tasks say, as plain values.
pub open spec fn day_tasks_model(d: DayTasks) -> (int, Seq<TaskModel>) {
    (d.day as int, task_models(d.tasks@))
}

proof fn lemma_tasks_by_day_prefix(tasks: Seq<TaskModel>, days: Seq<int>, n: nat, k: nat)
    requires
        k <= n,
        tasks_by_day(tasks, days, n) is Some,
    ensures
        tasks_by_day(tasks, days, k) is Some,
    decreases n,
{
    if k < n {
        lemma_tasks_by_day_prefix(tasks, days, (n - 1) as nat, k);
    }
}

proof fn lemma_tasks_by_day_none_from(tasks: Seq<TaskModel>, days: Seq<int>, k: nat, n: nat)
    requires
        k <= n,
        tasks_by_day(tasks, days, k) is None,
    ensures
        tasks_by_day(tasks, days, n) is None,
    decreases n,
{
    if k < n {
        lemma_tasks_by_day_none_from(tasks, days, k, (n - 1) as nat);
    }
}

/// The tasks of each day of the calendar from `start` to `end`, in the order of
/// their start, combined; nothing when a combined duration would not fit.
fn tasks_with_date_checked(tasks: &Vec<Task>, start: i64, end: i64) -> (r: Option<Vec<DayTasks>>)
    requires
        time_ok(start as int),
        time_ok(end as int),
        start <= end,
        tasks_in_range(task_models(tasks@)),
    ensures
        r is Some == tasks_by_day(
            task_models(tasks@),
            calendar_days(start as int, end as int),
            calendar_days(start as int, end as int).len(),
        ) is Some,
        r matches Some(v) ==> v@.map_values(|d: DayTasks| day_tasks_model(d)) == tasks_by_day(
            task_models(tasks@),
            calendar_days(start as int, end as int),
            calendar_days(start as int, end as int).len(),
        )->0,
{
    let days = get_calendar_days(start, end);
    let ghost cd = calendar_days(start as int, end as int);
    let ghost m = task_models(tasks@);
    let mut result: Vec<DayTasks> = Vec::new();
    let mut i: usize = 0;
    while i < days.len()
        invariant
            i <= days.len(),
            days@.map_values(|d: i64| d as int) == cd,
            cd == calendar_days(start as int, end as int),
            m == task_models(tasks@),
            tasks_in_range(m),
            tasks_by_day(m, cd, i as nat) is Some,
            result@.map_values(|d: DayTasks| day_tasks_model(d)) == tasks_by_day(m, cd, i as nat)->0,
        decreases days.len() - i,
    {
        proof {
            assert(cd[i as int] == days@[i as int] as int);
        }
        let day = days[i];
        let filtered = filter_day(tasks, day);
        let sorted = sort_by_start(filtered);
        let sorted = match combined(&sorted) {
            Some(v) => v,
            None => {
                proof {
                    assert(tasks_by_day(m, cd, (i + 1) as nat) is None);
                    lemma_tasks_by_day_none_from(m, cd, (i + 1) as nat, cd.len());
                }
                return None;
            },
        };
        let ghost before = result@;
        let dt = DayTasks { day, tasks: sorted };
        result.push(dt);
        proof {
            assert(result@.map_values(|d: DayTasks| day_tasks_model(d)) =~= before.map_values(
                |d: DayTasks| day_tasks_model(d),
            ).push(day_tasks_model(dt)));
        }
        i = i + 1;
    }
    Some(result)
}

/// The tasks of each day of the calendar from `start` to `end`, in the order of
/// their start, combined.
pub fn get_tasks_with_date(tasks: Vec<Task>, start: i64, end: i64) -> (r: Vec<DayTasks>)
    requires
        time_ok(start as int),
        time_ok(end as int),
        start <= end,
        tasks_in_range(task_models(tasks@)),
        tasks_by_day(
            task_models(tasks@),
            calendar_days(start as int, end as int),
            calendar_days(start as int, end as int).len(),
        ) is Some,
    ensures
        r@.map_values(|d: DayTasks| day_tasks_model(d)) == tasks_by_day(
            task_models(tasks@),
            calendar_days(start as int, end as int),
            calendar_days(start as int, end as int).len(),
        )->0,
{
    match tasks_with_date_checked(&tasks, start, end) {
        Some(v) => v,
        None => {
            proof {
                assert(false);
            }
            Vec::new()
        },
    }
}

/// Is the slot held by one of the tasks?
pub open spec fn covered_hour(filled: Seq<TaskModel>, s: Slot) -> bool {
    exists|k: int| 0 <= k < filled.len() && (#[trigger] filled[k]).start <= s.start && s.end <= filled[k].deadline
}

/// The first `n` hours of day `d` that no task of `filled` holds, in order.
pub open spec fn free_hours_upto(filled: Seq<TaskModel>, d: int, n: nat) -> Seq<Slot>
    decreases n,
{
    if n == 0 {
        Seq::empty()
    } else if covered_hour(filled, hour_slot(d, n - 1)) {
        free_hours_upto(filled, d, (n - 1) as nat)
    } else {
        free_hours_upto(filled, d, (n - 1) as nat).push(hour_slot(d, n - 1))
    }
}

/// The free task of a slot.
pub open spec fn free_task_of(s: Slot) -> TaskModel {
    TaskModel {
        taskid: 0,
        goalid: free_text(),
        title: free_text(),
        duration: hours_between(s.start as int, s.end as int),
        start: s.start as int,
        deadline: s.end as int,
        tags: Seq::empty(),
        impossible: false,
    }
}

/// The tasks of day `d` with a free task for each hour no task holds, in the order
/// of their start, combined.
pub open spec fn day_with_free(outputs: Seq<TaskModel>, d: int) -> Option<Seq<TaskModel>> {
    let day_outputs = tasks_on_day(outputs, d);
    combine_spec(
        by_start(day_outputs + free_hours_upto(day_outputs, d, 24).map_values(|s: Slot| free_task_of(s))),
    )
}

/// The tasks of the first `n` days with their free time, one day after the other.
pub open spec fn free_by_day(outputs: Seq<TaskModel>, days: Seq<int>, n: nat) -> Option<Seq<TaskModel>>
    decreases n,
{
    if n == 0 {
        Some(Seq::empty())
    } else {
        match (free_by_day(outputs, days, (n - 1) as nat), day_with_free(outputs, days[n - 1])) {
            (Some(r), Some(t)) => Some(r + t),
            _ => None,
        }
    }
}

/// The tasks of the calendar from `start` to `end` with a free task for each hour
/// no task holds, combined day by day, in the order of their start.
pub open spec fn generate_free_spec(outputs: Seq<TaskModel>, start: int, end: int) -> Option<Seq<TaskModel>> {
    let days = calendar_days(start, end);
    match free_by_day(outputs, days, days.len()) {
        Some(all) => Some(by_start(all)),
        None => None,
    }
}

proof fn lemma_free_by_day_prefix(outputs: Seq<TaskModel>, days: Seq<int>, n: nat, k: nat)
    requires
        k <= n,
        free_by_day(outputs, days, n) is Some,
    ensures
        free_by_day(outputs, days, k) is Some,
    decreases n,
{
    if k < n {
        lemma_free_by_day_prefix(outputs, days, (n - 1) as nat, k);
    }
}

fn free_slots_of_day(filled: &Vec<Task>, day: i64) -> (r: Vec<Slot>)
    requires
        day_ok(day as int),
    ensures
        r@ == free_hours_upto(task_models(filled@), day as int, 24),
        forall|i: int| 0 <= i < r.len() ==> (#[trigger] r@[i]).end - r@[i].start == SECS_PER_HOUR && time_ok(r@[i].start as int) && time_ok(r@[i].end as int),
{
    let ghost fm = task_models(filled@);
    let day_slot = day_hour_slots(day);
    let mut out: Vec<Slot> = Vec::new();
    let mut h: usize = 0;
    while h < 24
        invariant
            h <= 24,
            day_ok(day as int),
            fm == task_models(filled@),
            day_slot@ == Seq::new(24, |x: int| hour_slot(day as int, x)),
            out@ == free_hours_upto(fm, day as int, h as nat),
            forall|i: int| 0 <= i < out.len() ==> (#[trigger] out@[i]).end - out@[i].start == SECS_PER_HOUR && time_ok(out@[i].start as int) && time_ok(out@[i].end as int),
        decreases 24 - h,
    {
        let ds = day_slot[h];
        let mut covered = false;
        let mut k: usize = 0;
        while k < filled.len()
            invariant
                k <= filled.len(),
                fm == task_models(filled@),
                covered == exists|j: int| 0 <= j < k && (#[trigger] fm[j]).start <= ds.start && ds.end <= fm[j].deadline,
            decreases filled.len() - k,
        {
            assert(fm[k as int] == filled@[k as int]@);
            if filled[k].start <= ds.start && ds.end <= filled[k].deadline {
                covered = true;
            }
            k = k + 1;
        }
        assert(ds == hour_slot(day as int, h as int));
        if !covered {
            out.push(ds);
        }
        h = h + 1;
    }
    out
}

proof fn lemma_free_by_day_none_from(outputs: Seq<TaskModel>, days: Seq<int>, k: nat, n: nat)
    requires
        k <= n,
        free_by_day(outputs, days, k) is None,
    ensures
        free_by_day(outputs, days, n) is None,
    decreases n,
{
    if k < n {
        lemma_free_by_day_none_from(outputs, days, k, (n - 1) as nat);
    }
}

/// The tasks with free tasks added for the hours of each calendar day that no task
/// holds, each day's tasks combined, all in the order of their start; nothing when a
/// combined duration would not fit.
fn free_tasks_added(outputs: &Vec<Task>, start: i64, end: i64) -> (r: Option<Vec<Task>>)
    requires
        time_ok(start as int),
        time_ok(end as int),
        start <= end,
        tasks_in_range(task_models(outputs@)),
    ensures
        r is Some == generate_free_spec(task_models(outputs@), start as int, end as int) is Some,
        r matches Some(v) ==> task_models(v@) == generate_free_spec(task_models(outputs@), start as int, end as int)->0,
{
    let days = get_calendar_days(start, end);
    let ghost cd = calendar_days(start as int, end as int);
    let ghost m = task_models(outputs@);
    let mut new_outputs: Vec<Task> = Vec::new();
    let mut i: usize = 0;
    while i < days.len()
        invariant
            i <= days.len(),
            days@.map_values(|d: i64| d as int) == cd,
            forall|k: int| 0 <= k < days.len() ==> day_ok(#[trigger] days@[k] as int),
            cd == calendar_days(start as int, end as int),
            m == task_models(outputs@),
            tasks_in_range(m),
            free_by_day(m, cd, i as nat) is Some,
            task_models(new_outputs@) == free_by_day(m, cd, i as nat)->0,
        decreases days.len() - i,
    {
        proof {
            assert(cd[i as int] == days@[i as int] as int);
        }
        let day = days[i];
        let mut day_outputs = filter_day(outputs, day);
        let free = free_slots_of_day(&day_outputs, day);
        let ghost dm = task_models(day_outputs@);
        let mut j: usize = 0;
        while j < free.len()
            invariant
                j <= free.len(),
                forall|x: int| 0 <= x < free.len() ==> (#[trigger] free@[x]).end - free@[x].start == SECS_PER_HOUR && time_ok(free@[x].start as int) && time_ok(free@[x].end as int),
                task_models(day_outputs@) =~= dm + free@.take(j as int).map_values(|s: Slot| free_task_of(s)),
            decreases free.len() - j,
        {
            let fs = free[j];
            let t = Task {
                taskid: 0,
                goalid: free_string(),
                title: free_string(),
                duration: (hours_from_to(fs.start, fs.end)) as usize,
                start: fs.start,
                deadline: fs.end,
                tags: Vec::new(),
                impossible: false,
            };
            proof {
                assert(hours_between(fs.start as int, fs.end as int) == 1);
                assert(t@.tags =~= Seq::<Tag>::empty());
                assert(t@ == free_task_of(fs));
            }
            let ghost before = day_outputs@;
            day_outputs.push(t);
            proof {
                assert(task_models(day_outputs@) =~= task_models(before).push(t@));
                assert(free@.take(j + 1) =~= free@.take(j as int).push(fs));
            }
            j = j + 1;
        }
        proof {
            assert(free@.take(free.len() as int) =~= free@);
        }
        let sorted = sort_by_start(day_outputs);
        let sorted = match combined(&sorted) {
            Some(v) => v,
            None => {
                proof {
                    assert(free_by_day(m, cd, (i + 1) as nat) is None);
                    lemma_free_by_day_none_from(m, cd, (i + 1) as nat, cd.len());
                }
                return None;
            },
        };
        let ghost before = new_outputs@;
        let mut k: usize = 0;
        while k < sorted.len()
            invariant
                k <= sorted.len(),
                task_models(new_outputs@) =~= task_models(before) + task_models(sorted@).take(k as int),
            decreases sorted.len() - k,
        {
            let ghost nb = new_outputs@;
            let t = sorted[k].duplicate();
            new_outputs.push(t);
            proof {
                assert(task_models(new_outputs@) =~= task_models(nb).push(t@));
                assert(task_models(sorted@)[k as int] == t@);
                assert(task_models(sorted@).take(k + 1) =~= task_models(sorted@).take(k as int).push(t@));
            }
            k = k + 1;
        }
        proof {
            assert(task_models(sorted@).take(sorted.len() as int) =~= task_models(sorted@));
        }
        i = i + 1;
    }
    Some(sort_by_start(new_outputs))
}

/// Adds free tasks for the hours of each calendar day that no task holds, combines
/// each day's tasks, and puts all tasks in the order of their start.
pub fn generate_free_tasks(outputs: &mut Vec<Task>, start: i64, end: i64)
    requires
        time_ok(start as int),
        time_ok(end as int),
        start <= end,
        tasks_in_range(task_models(old(outputs)@)),
        generate_free_spec(task_models(old(outputs)@), start as int, end as int) is Some,
    ensures
        task_models(final(outputs)@) == generate_free_spec(task_models(old(outputs)@), start as int, end as int)->0,
{
    match free_tasks_added(outputs, start, end) {
        Some(v) => {
            *outputs = v;
        },
        None => {},
    }
}

/// The task starts no later than it ends and is not marked impossible.
pub open spec fn placed_task(t: TaskModel) -> bool {
    t.start <= t.deadline && !t.impossible
}

/// Task `a` lasts over all of task `b`.
pub open spec fn spans(a: TaskModel, b: TaskModel) -> bool {
    a.start <= b.start && b.deadline <= a.deadline
}

/// Some task of `r` lasts over all of `x`.
pub open spec fn spanned_by(r: Seq<TaskModel>, x: TaskModel) -> bool {
    exists|j: int| 0 <= j < r.len() && spans(#[trigger] r[j], x)
}

/// The task lasts over all of the slot.
pub open spec fn holds_slot(t: TaskModel, s: Slot) -> bool {
    t.start <= s.start && s.end <= t.deadline
}

proof fn lemma_calendar_day_ok(start: int, end: int, k: int)
    requires
        time_ok(start),
        time_ok(end),
        start <= end,
        0 <= k < calendar_days(start, end).len(),
    ensures
        day_ok(calendar_days(start, end)[k]),
{
    let date = day_number_of(start);
    let n = hours_between(start, end) / 24;
    vstd::arithmetic::div_mod::lemma_fundamental_div_mod(start, 86400);
    vstd::arithmetic::div_mod::lemma_mod_bound(start, 86400);
    let ds = date * 86400;
    assert(ds == start - start % 86400);
    assert(ds >= -8_796_093_004_800) by (nonlinear_arith)
        requires
            ds == start - start % 86400,
            ds == date * 86400,
            start >= -8_796_093_004_800,
            0 <= start % 86400 < 86400,
    ;
    assert((date + k) * 86400 + 86400 <= end) by (nonlinear_arith)
        requires
            date * 86400 <= start,
            0 <= k < n,
            n == ((end - start) / 3600) / 24,
            start <= end,
    ;
    assert((date + k) * 86400 >= date * 86400) by (nonlinear_arith)
        requires
            k >= 0,
    ;
    assert(calendar_days(start, end)[k] == date + k);
}

proof fn lemma_free_hours_has(filled: Seq<TaskModel>, d: int, n: nat, h: int)
    requires
        0 <= h < n,
        !covered_hour(filled, hour_slot(d, h)),
    ensures
        free_hours_upto(filled, d, n).contains(hour_slot(d, h)),
    decreases n,
{
    let f = free_hours_upto(filled, d, n);
    let p = free_hours_upto(filled, d, (n - 1) as nat);
    if h == n - 1 {
        assert(f == p.push(hour_slot(d, h)));
        assert(f[p.len() as int] == hour_slot(d, h));
    } else {
        lemma_free_hours_has(filled, d, (n - 1) as nat, h);
        let j = choose|j: int| 0 <= j < p.len() && p[j] == hour_slot(d, h);
        assert(f[j] == p[j]);
    }
}

proof fn lemma_free_hours_ordered(filled: Seq<TaskModel>, d: int, n: nat)
    requires
        day_ok(d),
        n <= 24,
    ensures
        forall|k: int|
            0 <= k < free_hours_upto(filled, d, n).len() ==> (#[trigger] free_hours_upto(filled, d, n)[k]).start
                <= free_hours_upto(filled, d, n)[k].end,
    decreases n,
{
    if n > 0 {
        lemma_free_hours_ordered(filled, d, (n - 1) as nat);
        let f = free_hours_upto(filled, d, n);
        let p = free_hours_upto(filled, d, (n - 1) as nat);
        let hs = hour_slot(d, n - 1);
        assert(hs.start <= hs.end);
        assert forall|k: int| 0 <= k < f.len() implies (#[trigger] f[k]).start <= f[k].end by {
            if k < p.len() {
                assert(f[k] == p[k]);
            }
        }
    }
}

proof fn lemma_tasks_on_day_placed(s: Seq<TaskModel>, d: int)
    requires
        forall|k: int| 0 <= k < s.len() ==> placed_task(#[trigger] s[k]),
    ensures
        forall|k: int| 0 <= k < tasks_on_day(s, d).len() ==> placed_task(#[trigger] tasks_on_day(s, d)[k]),
    decreases s.len(),
{
    if s.len() > 0 {
        let s0 = s.drop_last();
        assert forall|k: int| 0 <= k < s0.len() implies placed_task(#[trigger] s0[k]) by {
            assert(s0[k] == s[k]);
        }
        lemma_tasks_on_day_placed(s0, d);
        let r = tasks_on_day(s, d);
        let p = tasks_on_day(s0, d);
        assert(placed_task(s.last())) by {
            assert(s.last() == s[s.len() - 1]);
        }
        assert forall|k: int| 0 <= k < r.len() implies placed_task(#[trigger] r[k]) by {
            if k < p.len() {
                assert(r[k] == p[k]);
            }
        }
    }
}

proof fn lemma_by_start_has(s: Seq<TaskModel>, x: TaskModel)
    requires
        s.contains(x),
    ensures
        by_start(s).contains(x),
{
    broadcast use {vstd::seq_lib::group_to_multiset_ensures, vstd::multiset::group_multiset_axioms};
    let keyed = s.map_values(|t: TaskModel| (t.start as i64, t));
    let pr = (x.start as i64, x);
    let i = choose|i: int| 0 <= i < s.len() && s[i] == x;
    assert(keyed[i] == pr);
    assert(keyed.contains(pr));
    lemma_sort_sorted(keyed);
    let sk = sort_keyed(keyed);
    assert(keyed.to_multiset().count(pr) > 0);
    assert(sk.to_multiset().count(pr) > 0);
    assert(sk.contains(pr));
    let j = choose|j: int| 0 <= j < sk.len() && sk[j] == pr;
    assert(by_start(s)[j] == x);
}

proof fn lemma_by_start_placed(s: Seq<TaskModel>)
    requires
        forall|k: int| 0 <= k < s.len() ==> placed_task(#[trigger] s[k]),
    ensures
        forall|k: int| 0 <= k < by_start(s).len() ==> placed_task(#[trigger] by_start(s)[k]),
{
    let keyed = s.map_values(|t: TaskModel| (t.start as i64, t));
    let p = |pr: (i64, TaskModel)| placed_task(pr.1);
    assert forall|k: int| 0 <= k < keyed.len() implies p(#[trigger] keyed[k]) by {
        assert(keyed[k].1 == s[k]);
    }
    lemma_sort_keeps(keyed, p);
    let sk = sort_keyed(keyed);
    assert forall|k: int| 0 <= k < by_start(s).len() implies placed_task(#[trigger] by_start(s)[k]) by {
        assert(p(sk[k]));
    }
}

proof fn lemma_combine_spans(s: Seq<TaskModel>)
    requires
        combine_spec(s) is Some,
        forall|k: int| 0 <= k < s.len() ==> placed_task(#[trigger] s[k]),
    ensures
        forall|k: int|
            0 <= k < (combine_spec(s)->0).len() ==> placed_task(#[trigger] (combine_spec(s)->0)[k]),
        forall|k: int| 0 <= k < s.len() ==> spanned_by(combine_spec(s)->0, #[trigger] s[k]),
    decreases s.len(),
{
    let r = combine_spec(s)->0;
    if s.len() <= 1 {
        assert forall|k: int| 0 <= k < s.len() implies spanned_by(r, #[trigger] s[k]) by {
            assert(spans(r[k], s[k]));
        }
    } else {
        let s0 = s.drop_last();
        assert forall|k: int| 0 <= k < s0.len() implies placed_task(#[trigger] s0[k]) by {
            assert(s0[k] == s[k]);
        }
        lemma_combine_spans(s0);
        lemma_combine_len(s0);
        let r0 = combine_spec(s0)->0;
        let h = r0.last();
        let t = s.last();
        assert(placed_task(t)) by {
            assert(t == s[s.len() - 1]);
        }
        assert(placed_task(h)) by {
            assert(h == r0[r0.len() - 1]);
        }
        let last = r0.len() - 1;
        if mergeable(h, t) {
            assert(r == r0.update(last, merged(h, t)));
            assert forall|k: int| 0 <= k < r.len() implies placed_task(#[trigger] r[k]) by {
                if k < last {
                    assert(r[k] == r0[k]);
                }
            }
            assert forall|k: int| 0 <= k < s.len() implies spanned_by(r, #[trigger] s[k]) by {
                if k < s.len() - 1 {
                    assert(s[k] == s0[k]);
                    assert(spanned_by(r0, s0[k]));
                    let j0 = choose|j: int| 0 <= j < r0.len() && spans(#[trigger] r0[j], s0[k]);
                    if j0 != last {
                        assert(r[j0] == r0[j0]);
                    }
                    assert(spans(r[j0], s[k]));
                } else {
                    assert(s[k] == t);
                    assert(spans(r[last], s[k]));
                }
            }
        } else {
            assert(r == r0.push(t));
            assert forall|k: int| 0 <= k < r.len() implies placed_task(#[trigger] r[k]) by {
                if k < r0.len() {
                    assert(r[k] == r0[k]);
                }
            }
            assert forall|k: int| 0 <= k < s.len() implies spanned_by(r, #[trigger] s[k]) by {
                if k < s.len() - 1 {
                    assert(s[k] == s0[k]);
                    assert(spanned_by(r0, s0[k]));
                    let j0 = choose|j: int| 0 <= j < r0.len() && spans(#[trigger] r0[j], s0[k]);
                    assert(r[j0] == r0[j0]);
                    assert(spans(r[j0], s[k]));
                } else {
                    assert(s[k] == t);
                    assert(spans(r[r0.len() as int], s[k]));
                }
            }
        }
    }
}

proof fn lemma_free_by_day_has(outputs: Seq<TaskModel>, days: Seq<int>, n: nat, i: int, x: TaskModel)
    requires
        free_by_day(outputs, days, n) is Some,
        0 <= i < n,
        day_with_free(outputs, days[i]) is Some,
        (day_with_free(outputs, days[i])->0).contains(x),
    ensures
        (free_by_day(outputs, days, n)->0).contains(x),
    decreases n,
{
    let prev = free_by_day(outputs, days, (n - 1) as nat)->0;
    let cur = day_with_free(outputs, days[n - 1])->0;
    let all = free_by_day(outputs, days, n)->0;
    assert(all == prev + cur);
    if i == n - 1 {
        let j = choose|j: int| 0 <= j < cur.len() && cur[j] == x;
        assert(all[prev.len() + j] == x);
    } else {
        lemma_free_by_day_has(outputs, days, (n - 1) as nat, i, x);
        let j = choose|j: int| 0 <= j < prev.len() && prev[j] == x;
        assert(all[j] == x);
    }
}

/// Adding free time leaves no hour of the calendar unheld: given tasks that start no
/// later than they end and are not marked impossible, each hour of each day from
/// `start` to `end` lies within a task of the result, one of the day's tasks or a
/// free task.
pub proof fn lemma_free_time_fills_days(outputs: Seq<TaskModel>, start: int, end: int, d: int, h: int)
    requires
        time_ok(start),
        time_ok(end),
        start <= end,
        forall|k: int| 0 <= k < outputs.len() ==> placed_task(#[trigger] outputs[k]),
        generate_free_spec(outputs, start, end) is Some,
        calendar_days(start, end).contains(d),
        0 <= h < 24,
    ensures
        covered_hour(generate_free_spec(outputs, start, end)->0, hour_slot(d, h)),
{
    let days = calendar_days(start, end);
    let i = choose|i: int| 0 <= i < days.len() && days[i] == d;
    lemma_calendar_day_ok(start, end, i);
    let all = free_by_day(outputs, days, days.len())->0;
    lemma_free_by_day_prefix(outputs, days, days.len(), (i + 1) as nat);
    assert(day_with_free(outputs, d) is Some);
    let dayo = tasks_on_day(outputs, d);
    let free = free_hours_upto(dayo, d, 24);
    let xs = dayo + free.map_values(|s: Slot| free_task_of(s));
    let y = by_start(xs);
    let z = combine_spec(y)->0;
    assert(z == day_with_free(outputs, d)->0);
    let hs = hour_slot(d, h);
    lemma_tasks_on_day_placed(outputs, d);
    lemma_free_hours_ordered(dayo, d, 24);
    assert forall|k: int| 0 <= k < xs.len() implies placed_task(#[trigger] xs[k]) by {
        if k < dayo.len() {
            assert(xs[k] == dayo[k]);
        } else {
            assert(xs[k] == free_task_of(free[k - dayo.len()]));
        }
    }
    assert(exists|k: int| 0 <= k < xs.len() && holds_slot(#[trigger] xs[k], hs)) by {
        if covered_hour(dayo, hs) {
            let k = choose|k: int|
                0 <= k < dayo.len() && (#[trigger] dayo[k]).start <= hs.start && hs.end <= dayo[k].deadline;
            assert(xs[k] == dayo[k]);
            assert(holds_slot(xs[k], hs));
        } else {
            lemma_free_hours_has(dayo, d, 24, h);
            let m = choose|m: int| 0 <= m < free.len() && free[m] == hs;
            assert(xs[dayo.len() + m] == free_task_of(hs));
            assert(holds_slot(xs[dayo.len() + m], hs));
        }
    }
    let k = choose|k: int| 0 <= k < xs.len() && holds_slot(#[trigger] xs[k], hs);
    let x = xs[k];
    assert(xs.contains(x));
    lemma_by_start_has(xs, x);
    lemma_by_start_placed(xs);
    lemma_combine_spans(y);
    let m = choose|m: int| 0 <= m < y.len() && y[m] == x;
    assert(spanned_by(z, y[m]));
    let jz = choose|j: int| 0 <= j < z.len() && spans(#[trigger] z[j], x);
    let zz = z[jz];
    assert(z.contains(zz));
    lemma_free_by_day_has(outputs, days, days.len(), i, zz);
    lemma_by_start_has(all, zz);
    let res = by_start(all);
    let q = choose|q: int| 0 <= q < res.len() && res[q] == zz;
    assert(res[q].start <= hs.start && hs.end <= res[q].deadline);
}

/// Does the span end on a later calendar day than it starts?
pub open spec fn cross_day(start: i64, deadline: i64) -> bool {
    day_number_of(start as int) < day_number_of(deadline as int)
}

/// Does a span from `start` to `deadline` end on a later calendar day than it starts?
pub fn crosses_day(start: i64, deadline: i64) -> (r: bool)
    requires
        time_ok(start as int),
        time_ok(deadline as int),
    ensures
        r == cross_day(start, deadline),
{
    day_number(start) < day_number(deadline)
}

/// Does the task end on a later calendar day than it starts?
pub fn is_cross_day(task: &Task) -> (r: bool)
    requires
        time_ok(task.start as int),
        time_ok(task.deadline as int),
    ensures
        r == cross_day(task.start, task.deadline),
{
    crosses_day(task.start, task.deadline)
}

/// Whole hours from `start` to `end` as a `usize`, wrapped when negative.
pub open spec fn hours_usize(start: int, end: int) -> int {
    (#[verifier::truncate] (hours_between(start, end) as usize)) as int
}

/// A task that crosses into a later day split at the start of the hour of its end:
/// the part up to then, and the rest when it has hours left; nothing when the first
/// part is longer than the task.
pub open spec fn split_one(t: TaskModel) -> Option<Seq<TaskModel>> {
    if cross_day(t.start as i64, t.deadline as i64) {
        let nd = with_hour_of(t.deadline, 0);
        let d1 = hours_usize(t.start, nd);
        if d1 > t.duration {
            None
        } else {
            let first = TaskModel { deadline: nd, duration: d1, ..t };
            let second = TaskModel { start: nd, duration: t.duration - d1, ..t };
            if t.duration - d1 > 0 {
                Some(seq![first, second])
            } else {
                Some(seq![first])
            }
        }
    } else {
        Some(seq![t])
    }
}

/// Each task of the first `n` split where it crosses into a later day, in order.
pub open spec fn split_all(s: Seq<TaskModel>, n: nat) -> Option<Seq<TaskModel>>
    decreases n,
{
    if n == 0 {
        Some(Seq::empty())
    } else {
        match (split_all(s, (n - 1) as nat), split_one(s[n - 1])) {
            (Some(a), Some(b)) => Some(a + b),
            _ => None,
        }
    }
}

proof fn lemma_split_all_prefix(s: Seq<TaskModel>, n: nat, k: nat)
    requires
        k <= n,
        split_all(s, n) is Some,
    ensures
        split_all(s, k) is Some,
    decreases n,
{
    if k < n {
        lemma_split_all_prefix(s, (n - 1) as nat, k);
    }
}

/// Splits each task that crosses into a later day at the start of the hour of its
/// end: the part up to then, and the rest when it has hours left.
pub fn split_cross_day_tasks(tasks: &mut Vec<Task>)
    requires
        tasks_in_range(task_models(old(tasks)@)),
        split_all(task_models(old(tasks)@), old(tasks)@.len()) is Some,
    ensures
        task_models(final(tasks)@) == split_all(task_models(old(tasks)@), old(tasks)@.len())->0,
{
    let ghost m = task_models(tasks@);
    let mut new_tasks: Vec<Task> = Vec::new();
    let mut i: usize = 0;
    while i < tasks.len()
        invariant
            i <= tasks.len(),
            m == task_models(tasks@),
            tasks_in_range(m),
            split_all(m, m.len()) is Some,
            split_all(m, i as nat) is Some,
            task_models(new_tasks@) == split_all(m, i as nat)->0,
        decreases tasks.len() - i,
    {
        proof {
            lemma_split_all_prefix(m, m.len(), (i + 1) as nat);
            assert(m[i as int] == tasks@[i as int]@);
        }
        let ghost before = new_tasks@;
        let mut task = tasks[i].duplicate();
        if is_cross_day(&task) {
            let mut task2 = task.duplicate();
            let nd = with_hour(task.deadline, 0);
            task.deadline = nd;
            task2.start = nd;
            task.duration = Slot { start: task.start, end: task.deadline }.num_hours();
            task2.duration = task2.duration - task.duration;
            new_tasks.push(task.duplicate());
            if task2.duration > 0 {
                new_tasks.push(task2);
                proof {
                    assert(task_models(new_tasks@) =~= task_models(before) + seq![task@, task2@]);
                }
            } else {
                proof {
                    assert(task_models(new_tasks@) =~= task_models(before) + seq![task@]);
                }
            }
        } else {
            new_tasks.push(task);
            proof {
                assert(task_models(new_tasks@) =~= task_models(before) + seq![task@]);
            }
        }
        i = i + 1;
    }
    *tasks = new_tasks;
}

/// Splits the tasks that cross into a later day, as `split_cross_day_tasks` does,
/// when no first part would be longer than its task; otherwise leaves the tasks as
/// they are. Whether it split them is returned.
#[verifier::spinoff_prover]
#[verifier::rlimit(40)]
pub fn try_split_cross_day_tasks(tasks: &mut Vec<Task>) -> (r: bool)
    requires
        tasks_in_range(task_models(old(tasks)@)),
    ensures
        r == split_all(task_models(old(tasks)@), old(tasks)@.len()) is Some,
        r ==> task_models(final(tasks)@) == split_all(task_models(old(tasks)@), old(tasks)@.len())->0,
        !r ==> final(tasks)@ == old(tasks)@,
{
    let ghost m = task_models(tasks@);
    let mut i: usize = 0;
    while i < tasks.len()
        invariant
            i <= tasks.len(),
            m == task_models(tasks@),
            tasks_in_range(m),
            split_all(m, i as nat) is Some,
        decreases tasks.len() - i,
    {
        proof {
            assert(m[i as int] == tasks@[i as int]@);
        }
        let t = &tasks[i];
        if is_cross_day(t) {
            let nd = with_hour(t.deadline, 0);
            let d1 = Slot { start: t.start, end: nd }.num_hours();
            if d1 > t.duration {
                proof {
                    assert(split_one(m[i as int]) is None);
                    lemma_split_none_from(m, (i + 1) as nat, m.len());
                }
                return false;
            }
        }
        i = i + 1;
    }
    split_cross_day_tasks(tasks);
    true
}

proof fn lemma_split_none_from(s: Seq<TaskModel>, k: nat, n: nat)
    requires
        1 <= k <= n,
        split_all(s, k) is None,
    ensures
        split_all(s, n) is None,
    decreases n,
{
    if k < n {
        lemma_split_none_from(s, k, (n - 1) as nat);
    }
}

/// The task of a placed step: a scheduled step at its time, an impossible one over
/// the whole calendar.
pub open spec fn task_from_step(m: StepModel, start_date: int, end_date: int) -> TaskModel {
    if m.status == StepStatus::Scheduled {
        TaskModel {
            taskid: m.id as int,
            goalid: m.goal_id@,
            title: m.title@,
            duration: m.duration as int,
            start: m.start->0 as int,
            deadline: m.deadline->0 as int,
            tags: m.tags,
            impossible: false,
        }
    } else {
        TaskModel {
            taskid: m.id as int,
            goalid: m.goal_id@,
            title: m.title@,
            duration: m.duration as int,
            start: start_date,
            deadline: end_date,
            tags: m.tags,
            impossible: true,
        }
    }
}

/// The task of a step that is scheduled with a start and an end, or impossible.
pub fn get_task_from_step(step: &Step, start_date: i64, end_date: i64) -> (r: Task)
    requires
        (step.status == StepStatus::Scheduled && step.start is Some && step.deadline is Some)
            || step.status == StepStatus::Impossible,
    ensures
        r@ == task_from_step(step@, start_date as int, end_date as int),
{
    match step.status {
        StepStatus::Scheduled => Task {
            taskid: step.id,
            goalid: step.goal_id.clone(),
            title: step.title.clone(),
            duration: step.duration,
            start: match step.start {
                Some(s) => s,
                None => 0,
            },
            deadline: match step.deadline {
                Some(d) => d,
                None => 0,
            },
            tags: copy_tags(&step.tags),
            impossible: false,
        },
        _ => Task {
            taskid: step.id,
            goalid: step.goal_id.clone(),
            title: step.title.clone(),
            duration: step.duration,
            start: start_date,
            deadline: end_date,
            tags: copy_tags(&step.tags),
            impossible: true,
        },
    }
}

/// What going through the placed steps in order gives: the scheduled and the
/// impossible tasks, a scheduled step without a time, or a step in a state that
/// placed steps cannot be in.
pub enum Collected {
    Tasks(Seq<TaskModel>, Seq<TaskModel>),
    Missing(String, usize),
    Invalid,
}

/// The first `n` placed steps gone through in order: scheduled steps give tasks at
/// their time, impossible steps (but optional ones) tasks over the calendar.
pub open spec fn collect_spec(steps: Seq<StepModel>, start: int, end: int, n: nat) -> Collected
    decreases n,
{
    if n == 0 {
        Collected::Tasks(Seq::empty(), Seq::empty())
    } else {
        match collect_spec(steps, start, end, (n - 1) as nat) {
            Collected::Tasks(sched, imp) => {
                let m = steps[n - 1];
                if m.status == StepStatus::Scheduled {
                    if m.start is None || m.deadline is None {
                        Collected::Missing(m.title, m.id)
                    } else {
                        Collected::Tasks(sched.push(task_from_step(m, start, end)), imp)
                    }
                } else if m.status == StepStatus::Impossible {
                    if m.tags.contains(Tag::Optional) {
                        Collected::Tasks(sched, imp)
                    } else {
                        Collected::Tasks(sched, imp.push(task_from_step(m, start, end)))
                    }
                } else {
                    Collected::Invalid
                }
            },
            other => other,
        }
    }
}

/// The tasks numbered from `base` on, in order.
pub open spec fn renumber(s: Seq<TaskModel>, base: int) -> Seq<TaskModel> {
    Seq::new(s.len(), |k: int| TaskModel { taskid: base + k, ..s[k] })
}

/// The schedule of the placed steps, day by day: the scheduled tasks sorted,
/// combined, split where they cross into a later day, with free time added and
/// numbered; then the impossible tasks sorted, combined and numbered on. An error
/// for a scheduled step without a time; nothing where the formatting would fail.
pub open spec fn formatter_spec(steps: Seq<StepModel>, start: int, end: int) -> Option<
    Result<(Seq<(int, Seq<TaskModel>)>, Seq<(int, Seq<TaskModel>)>), (String, usize)>,
> {
    match collect_spec(steps, start, end, steps.len()) {
        Collected::Invalid => None,
        Collected::Missing(title, id) => Some(Err((title, id))),
        Collected::Tasks(sched, imp) => {
            let days = calendar_days(start, end);
            match combine_spec(by_start(sched)) {
                None => None,
                Some(c1) => {
                    if !tasks_in_range(c1) {
                        None
                    } else {
                        match split_all(c1, c1.len()) {
                            None => None,
                            Some(s2) => {
                                if !tasks_in_range(s2) {
                                    None
                                } else {
                                    match generate_free_spec(s2, start, end) {
                                        None => None,
                                        Some(s3) => {
                                            let s4 = renumber(s3, 0);
                                            match combine_spec(by_start(imp)) {
                                                None => None,
                                                Some(c2) => {
                                                    if s3.len() + c2.len() > usize::MAX || !tasks_in_range(s4)
                                                        || !tasks_in_range(renumber(c2, s3.len() as int)) {
                                                        None
                                                    } else {
                                                        let i2 = renumber(c2, s3.len() as int);
                                                        match (
                                                            tasks_by_day(s4, days, days.len()),
                                                            tasks_by_day(i2, days, days.len()),
                                                        ) {
                                                            (Some(a), Some(b)) => Some(Ok((a, b))),
                                                            _ => None,
                                                        }
                                                    }
                                                },
                                            }
                                        },
                                    }
                                }
                            },
                        }
                    }
                },
            }
        },
    }
}

/// Numbers the tasks from `base` on.
fn renumber_tasks(tasks: &mut Vec<Task>, base: usize)
    requires
        base + old(tasks)@.len() <= usize::MAX,
    ensures
        task_models(final(tasks)@) == renumber(task_models(old(tasks)@), base as int),
{
    let ghost m = task_models(tasks@);
    let mut i: usize = 0;
    while i < tasks.len()
        invariant
            i <= tasks.len(),
            base + tasks@.len() <= usize::MAX,
            m.len() == tasks@.len(),
            forall|k: int| 0 <= k < i ==> #[trigger] tasks@[k]@ == renumber(m, base as int)[k],
            forall|k: int| i <= k < tasks.len() ==> #[trigger] tasks@[k]@ == m[k],
        decreases tasks.len() - i,
    {
        let mut t = tasks[i].duplicate();
        t.taskid = base + i;
        tasks.set(i, t);
        i = i + 1;
    }
    assert(task_models(tasks@) =~= renumber(m, base as int));
}

/// Do all tasks start and end within the supported range?
fn all_in_range(tasks: &Vec<Task>) -> (r: bool)
    ensures
        r == tasks_in_range(task_models(tasks@)),
{
    let mut i: usize = 0;
    while i < tasks.len()
        invariant
            i <= tasks.len(),
            forall|k: int| 0 <= k < i ==> time_ok((#[trigger] tasks@[k]).start as int) && time_ok(tasks@[k].deadline as int),
        decreases tasks.len() - i,
    {
        let t = &tasks[i];
        if t.start < -TIME_LIMIT || t.start > TIME_LIMIT || t.deadline < -TIME_LIMIT || t.deadline > TIME_LIMIT {
            proof {
                assert(task_models(tasks@)[i as int] == tasks@[i as int]@);
            }
            return false;
        }
        assert(time_ok(tasks@[i as int].start as int) && time_ok(tasks@[i as int].deadline as int));
        i = i + 1;
    }
    proof {
        assert forall|k: int| 0 <= k < task_models(tasks@).len() implies time_ok((#[trigger] task_models(tasks@)[k]).start)
            && time_ok(task_models(tasks@)[k].deadline) by {
            assert(task_models(tasks@)[k] == tasks@[k]@);
        }
    }
    true
}

/// Formats the placed steps as `output_formatter` does, where that succeeds; nothing
/// where the formatting would fail: a step neither scheduled nor impossible, a
/// combined duration that does not fit, a cross-day task whose first part is longer
/// than the task, or a time out of the supported range. A caller that cannot tell
/// these cases apart beforehand learns here which one holds.
pub fn try_output_formatter(placed_steps: PlacedSteps) -> (r: Option<Result<FinalTasks, Error>>)
    requires
        time_ok(placed_steps.calendar_start as int),
        time_ok(placed_steps.calendar_end as int),
        placed_steps.calendar_start <= placed_steps.calendar_end,
    ensures
        r is Some == formatter_spec(
            step_models(placed_steps.steps@),
            placed_steps.calendar_start as int,
            placed_steps.calendar_end as int,
        ) is Some,
        r matches Some(res) ==> match formatter_spec(
            step_models(placed_steps.steps@),
            placed_steps.calendar_start as int,
            placed_steps.calendar_end as int,
        )->0 {
            Ok(days) => res matches Ok(f) && f.scheduled@.map_values(|d: DayTasks| day_tasks_model(d))
                == days.0 && f.impossible@.map_values(|d: DayTasks| day_tasks_model(d)) == days.1,
            Err(e) => res == Err::<FinalTasks, Error>(Error::NoConfirmedDate(e.0, e.1)),
        },
{
    let start = placed_steps.calendar_start;
    let end = placed_steps.calendar_end;
    let ghost sm = step_models(placed_steps.steps@);
    let mut scheduled_tasks: Vec<Task> = Vec::new();
    let mut impossible_tasks: Vec<Task> = Vec::new();
    assert(task_models(scheduled_tasks@) =~= Seq::<TaskModel>::empty());
    assert(task_models(impossible_tasks@) =~= Seq::<TaskModel>::empty());
    let mut i: usize = 0;
    while i < placed_steps.steps.len()
        invariant
            i <= placed_steps.steps.len(),
            sm == step_models(placed_steps.steps@),
            start == placed_steps.calendar_start,
            end == placed_steps.calendar_end,
            collect_spec(sm, start as int, end as int, i as nat) == Collected::Tasks(
                task_models(scheduled_tasks@),
                task_models(impossible_tasks@),
            ),
        decreases placed_steps.steps.len() - i,
    {
        let step = &placed_steps.steps[i];
        proof {
            assert(sm[i as int] == step@);
        }
        match step.status {
            StepStatus::Scheduled => {
                if step.start.is_none() || step.deadline.is_none() {
                    proof {
                        assert(collect_spec(sm, start as int, end as int, (i + 1) as nat) == Collected::Missing(step@.title, step@.id));
                        lemma_collect_missing(sm, start as int, end as int, (i + 1) as nat, sm.len());
                    }
                    let title = step.title.clone();
                    assert(title == step.title);
                    return Some(Err(Error::NoConfirmedDate(title, step.id)));
                }
                let t = get_task_from_step(step, start, end);
                let ghost before = scheduled_tasks@;
                scheduled_tasks.push(t);
                assert(task_models(scheduled_tasks@) =~= task_models(before).push(t@));
            },
            StepStatus::Impossible => {
                if !has_tag(&step.tags, Tag::Optional) {
                    let t = get_task_from_step(step, start, end);
                    let ghost before = impossible_tasks@;
                    impossible_tasks.push(t);
                    assert(task_models(impossible_tasks@) =~= task_models(before).push(t@));
                }
            },
            _ => {
                proof {
                    lemma_collect_invalid(sm, start as int, end as int, (i + 1) as nat, sm.len());
                }
                return None;
            },
        }
        i = i + 1;
    }
    let scheduled_tasks = sort_by_start(scheduled_tasks);
    let mut scheduled_tasks = match combined(&scheduled_tasks) {
        Some(v) => v,
        None => {
            return None;
        },
    };
    if !all_in_range(&scheduled_tasks) {
        return None;
    }
    if !try_split_cross_day_tasks(&mut scheduled_tasks) {
        return None;
    }
    if !all_in_range(&scheduled_tasks) {
        return None;
    }
    let mut scheduled_tasks = match free_tasks_added(&scheduled_tasks, start, end) {
        Some(v) => v,
        None => {
            return None;
        },
    };
    let n = scheduled_tasks.len();
    renumber_tasks(&mut scheduled_tasks, 0);
    let impossible_tasks = sort_by_start(impossible_tasks);
    let mut impossible_tasks = match combined(&impossible_tasks) {
        Some(v) => v,
        None => {
            return None;
        },
    };
    if impossible_tasks.len() > usize::MAX - n {
        return None;
    }
    renumber_tasks(&mut impossible_tasks, n);
    if !all_in_range(&scheduled_tasks) || !all_in_range(&impossible_tasks) {
        return None;
    }
    let scheduled = match tasks_with_date_checked(&scheduled_tasks, start, end) {
        Some(v) => v,
        None => {
            return None;
        },
    };
    let impossible = match tasks_with_date_checked(&impossible_tasks, start, end) {
        Some(v) => v,
        None => {
            return None;
        },
    };
    Some(Ok(FinalTasks { scheduled, impossible }))
}

/// Formats the placed steps as the schedule handed back, day by day: the scheduled
/// steps as tasks with free time between them, then the impossible ones. A scheduled
/// step without a time is an error. The formatting must not fail (see
/// `try_output_formatter`, which says whether it does).
pub fn output_formatter(placed_steps: PlacedSteps) -> (r: Result<FinalTasks, Error>)
    requires
        time_ok(placed_steps.calendar_start as int),
        time_ok(placed_steps.calendar_end as int),
        placed_steps.calendar_start <= placed_steps.calendar_end,
        formatter_spec(
            step_models(placed_steps.steps@),
            placed_steps.calendar_start as int,
            placed_steps.calendar_end as int,
        ) is Some,
    ensures
        match formatter_spec(
            step_models(placed_steps.steps@),
            placed_steps.calendar_start as int,
            placed_steps.calendar_end as int,
        )->0 {
            Ok(days) => r matches Ok(f) && f.scheduled@.map_values(|d: DayTasks| day_tasks_model(d))
                == days.0 && f.impossible@.map_values(|d: DayTasks| day_tasks_model(d)) == days.1,
            Err(e) => r == Err::<FinalTasks, Error>(Error::NoConfirmedDate(e.0, e.1)),
        },
{
    match try_output_formatter(placed_steps) {
        Some(res) => res,
        None => {
            proof {
                assert(false);
            }
            Err(Error::CannotSplit)
        },
    }
}

proof fn lemma_collect_prefix(steps: Seq<StepModel>, start: int, end: int, n: nat, k: nat)
    requires
        k <= n,
        !(collect_spec(steps, start, end, n) is Invalid),
    ensures
        !(collect_spec(steps, start, end, k) is Invalid),
    decreases n,
{
    if k < n {
        lemma_collect_prefix(steps, start, end, (n - 1) as nat, k);
    }
}

proof fn lemma_collect_missing(steps: Seq<StepModel>, start: int, end: int, k: nat, n: nat)
    requires
        k <= n,
        collect_spec(steps, start, end, k) is Missing,
    ensures
        collect_spec(steps, start, end, n) == collect_spec(steps, start, end, k),
    decreases n,
{
    if k < n {
        lemma_collect_missing(steps, start, end, k, (n - 1) as nat);
    }
}

proof fn lemma_collect_invalid(steps: Seq<StepModel>, start: int, end: int, k: nat, n: nat)
    requires
        k <= n,
        collect_spec(steps, start, end, k) is Invalid,
    ensures
        collect_spec(steps, start, end, n) is Invalid,
    decreases n,
{
    if k < n {
        lemma_collect_invalid(steps, start, end, k, (n - 1) as nat);
    }
}

} // verus!
