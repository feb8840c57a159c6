use vstd::prelude::*;
use crate::slot::{conflicts_spec, Slot};
use crate::task::{iterable, windows_after, ScheduleOption, StartDeadlineIterator, Task, TaskState, opt_options};

verus! {

/// What checking a combination against the other tasks gives: free, in conflict
/// with one, or a task without a confirmed time met on the way.
pub enum Scan {
    Free,
    Conflict,
    Fails,
}

/// The combination `w` checked against the first `n` tasks, in order, leaving out
/// the tasks with identifier `id`; the first conflict or missing time decides.
pub open spec fn scan(w: Slot, tasks: Seq<TaskState>, id: usize, n: nat) -> Scan
    decreases n,
{
    if n == 0 {
        Scan::Free
    } else {
        match scan(w, tasks, id, (n - 1) as nat) {
            Scan::Free => {
                let t = tasks[n - 1];
                if t.id == id {
                    Scan::Free
                } else if t.confirmed_start is None || t.confirmed_deadline is None {
                    Scan::Fails
                } else if conflicts_spec(w, Slot { start: t.confirmed_start->0, end: t.confirmed_deadline->0 }) {
                    Scan::Conflict
                } else {
                    Scan::Free
                }
            },
            other => other,
        }
    }
}

/// The options with `opt` added: a first option, or another while there are fewer than three.
pub open spec fn add_option(o: Option<Seq<ScheduleOption>>, opt: ScheduleOption) -> Option<Seq<ScheduleOption>> {
    match o {
        None => Some(seq![opt]),
        Some(v) => if v.len() < 3 {
            Some(v.push(opt))
        } else {
            Some(v)
        },
    }
}

/// The options after the first `n` combinations `ws`: each free one added; nothing
/// when a check meets a task without a confirmed time.
pub open spec fn options_fold(
    init: Option<Seq<ScheduleOption>>,
    ws: Seq<Slot>,
    tasks: Seq<TaskState>,
    id: usize,
    n: nat,
) -> Option<Option<Seq<ScheduleOption>>>
    decreases n,
{
    if n == 0 {
        Some(init)
    } else {
        match options_fold(init, ws, tasks, id, (n - 1) as nat) {
            None => None,
            Some(o) => match scan(ws[n - 1], tasks, id, tasks.len()) {
                Scan::Fails => None,
                Scan::Conflict => Some(o),
                Scan::Free => Some(add_option(o, ScheduleOption { start: ws[n - 1].start, deadline: ws[n - 1].end })),
            },
        }
    }
}

/// The options of task `i` once its combinations have been checked.
pub open spec fn task_options(tasks: Seq<TaskState>, i: int) -> Option<Option<Seq<ScheduleOption>>> {
    let ws = windows_after(tasks[i].slots, tasks[i].duration as int, 0);
    options_fold(tasks[i].options, ws, tasks, tasks[i].id, ws.len())
}

/// The tasks with, for each, up to three options added: the combinations of its
/// slots that conflict with no other task's confirmed time. Nothing when a check
/// meets a task without a confirmed time or slots cannot be gone through.
pub open spec fn options_spec(tasks: Seq<TaskState>) -> Option<Seq<TaskState>> {
    if forall|i: int|
        0 <= i < tasks.len() ==> iterable((#[trigger] tasks[i]).slots, tasks[i].duration as int)
            && task_options(tasks, i) is Some {
        Some(
            Seq::new(
                tasks.len(),
                |i: int| TaskState { options: task_options(tasks, i)->0, ..tasks[i] },
            ),
        )
    } else {
        None
    }
}

/// The states of a sequence of tasks.
pub open spec fn task_states(s: Seq<Task>) -> Seq<TaskState> {
    s.map_values(|t: Task| t@)
}

proof fn lemma_fold_prefix(
    init: Option<Seq<ScheduleOption>>,
    ws: Seq<Slot>,
    tasks: Seq<TaskState>,
    id: usize,
    n: nat,
    k: nat,
)
    requires
        k <= n,
        options_fold(init, ws, tasks, id, n) is Some,
    ensures
        options_fold(init, ws, tasks, id, k) is Some,
    decreases n,
{
    if k < n {
        lemma_fold_prefix(init, ws, tasks, id, (n - 1) as nat, k);
    }
}

fn scan_tasks(w: Slot, tasks: &Vec<Task>, id: usize, Ghost(orig): Ghost<Seq<TaskState>>) -> (r: Option<bool>)
    requires
        tasks.len() == orig.len(),
        forall|j: int|
            0 <= j < orig.len() ==> (#[trigger] tasks@[j]).id == orig[j].id && tasks@[j].confirmed_start
                == orig[j].confirmed_start && tasks@[j].confirmed_deadline == orig[j].confirmed_deadline,
    ensures
        match scan(w, orig, id, orig.len()) {
            Scan::Fails => r is None,
            Scan::Conflict => r == Some(false),
            Scan::Free => r == Some(true),
        },
{
    let mut j: usize = 0;
    while j < tasks.len()
        invariant
            j <= tasks.len(),
            tasks.len() == orig.len(),
            forall|k: int|
                0 <= k < orig.len() ==> (#[trigger] tasks@[k]).id == orig[k].id && tasks@[k].confirmed_start
                    == orig[k].confirmed_start && tasks@[k].confirmed_deadline == orig[k].confirmed_deadline,
            scan(w, orig, id, j as nat) is Free,
        decreases tasks.len() - j,
    {
        let t = &tasks[j];
        if t.id != id {
            match (t.confirmed_start, t.confirmed_deadline) {
                (Some(cs), Some(cd)) => {
                    if w.conflicts_with(&Slot { start: cs, end: cd }) {
                        proof {
                            lemma_scan_stays(w, orig, id, (j + 1) as nat, orig.len());
                        }
                        return Some(false);
                    }
                },
                _ => {
                    proof {
                        lemma_scan_stays(w, orig, id, (j + 1) as nat, orig.len());
                    }
                    return None;
                },
            }
        }
        j = j + 1;
    }
    Some(true)
}

proof fn lemma_scan_stays(w: Slot, tasks: Seq<TaskState>, id: usize, k: nat, n: nat)
    requires
        k <= n,
        !(scan(w, tasks, id, k) is Free),
    ensures
        scan(w, tasks, id, n) == scan(w, tasks, id, k),
    decreases n,
{
    if k < n {
        lemma_scan_stays(w, tasks, id, k, (n - 1) as nat);
    }
}

fn add_schedule_option(o: &Option<Vec<ScheduleOption>>, opt: ScheduleOption) -> (r: Option<Vec<ScheduleOption>>)
    ensures
        opt_options(r) == add_option(opt_options(*o), opt),
{
    match o {
        None => {
            let v = vec![opt];
            assert(v@ =~= seq![opt]);
            Some(v)
        },
        Some(v) => {
            let mut out: Vec<ScheduleOption> = Vec::new();
            let mut i: usize = 0;
            while i < v.len()
                invariant
                    i <= v.len(),
                    out@ == v@.take(i as int),
                decreases v.len() - i,
            {
                out.push(v[i]);
                i = i + 1;
                assert(out@ =~= v@.take(i as int));
            }
            assert(v@.take(v.len() as int) =~= v@);
            if out.len() < 3 {
                out.push(opt);
            }
            Some(out)
        },
    }
}

/// Gives each task up to three options: the start/deadline combinations of its
/// slots that conflict with no other task's confirmed time.
pub fn options_generator(tasks: Vec<Task>) -> (r: Vec<Task>)
    requires
        options_spec(task_states(tasks@)) is Some,
    ensures
        task_states(r@) == options_spec(task_states(tasks@))->0,
{
    let ghost orig = task_states(tasks@);
    let mut tasks = tasks;
    let mut i: usize = 0;
    while i < tasks.len()
        invariant
            i <= tasks.len(),
            tasks.len() == orig.len(),
            options_spec(orig) is Some,
            forall|j: int|
                0 <= j < orig.len() ==> (#[trigger] tasks@[j]).id == orig[j].id && tasks@[j].confirmed_start
                    == orig[j].confirmed_start && tasks@[j].confirmed_deadline == orig[j].confirmed_deadline,
            forall|j: int| 0 <= j < i ==> #[trigger] tasks@[j]@ == (options_spec(orig)->0)[j],
            forall|j: int| i <= j < tasks.len() ==> #[trigger] tasks@[j]@ == orig[j],
        decreases tasks.len() - i,
    {
        let mut ti = tasks[i].duplicate();
        proof {
            assert(orig[i as int] == tasks@[i as int]@);
            assert(iterable(orig[i as int].slots, orig[i as int].duration as int) && task_options(orig, i as int) is Some);
        }
        let ghost ws = windows_after(orig[i as int].slots, orig[i as int].duration as int, 0);
        let ghost id = orig[i as int].id;
        match ti.start_deadline_iterator() {
            None => {
                proof {
                    assert(ws.len() == 0);
                    assert(orig[i as int] == (TaskState { options: task_options(orig, i as int)->0, ..orig[i as int] }));
                }
            },
            Some(it0) => {
                let mut it = it0;
                let mut count: usize = 0;
                let ghost mut k: nat = 0;
                proof {
                    lemma_fold_prefix(orig[i as int].options, ws, orig, id, ws.len(), 0);
                }
                loop
                    invariant
                        it.wf(),
                        k <= ws.len(),
                        it.remaining() == ws.skip(k as int),
                        tasks.len() == orig.len(),
                        i < tasks.len(),
                        forall|j: int|
                            0 <= j < orig.len() ==> (#[trigger] tasks@[j]).id == orig[j].id && tasks@[j].confirmed_start
                                == orig[j].confirmed_start && tasks@[j].confirmed_deadline == orig[j].confirmed_deadline,
                        ws == windows_after(orig[i as int].slots, orig[i as int].duration as int, 0),
                        id == orig[i as int].id,
                        task_options(orig, i as int) is Some,
                        options_fold(orig[i as int].options, ws, orig, id, ws.len()) is Some,
                        options_fold(orig[i as int].options, ws, orig, id, k) is Some,
                        opt_options(ti.options) == options_fold(orig[i as int].options, ws, orig, id, k)->0,
                        ti@ == (TaskState { options: opt_options(ti.options), ..orig[i as int] }),
                    ensures
                        k == ws.len(),
                        options_fold(orig[i as int].options, ws, orig, id, k) is Some,
                        opt_options(ti.options) == options_fold(orig[i as int].options, ws, orig, id, k)->0,
                        ti@ == (TaskState { options: opt_options(ti.options), ..orig[i as int] }),
                        forall|j: int|
                            0 <= j < orig.len() ==> (#[trigger] tasks@[j]).id == orig[j].id && tasks@[j].confirmed_start
                                == orig[j].confirmed_start && tasks@[j].confirmed_deadline == orig[j].confirmed_deadline,
                    decreases it.remaining().len(),
                {
                    let ghost rem = it.remaining();
                    let next = it.next();
                    match next {
                        None => {
                            proof {
                                assert(ws.skip(k as int).len() == 0);
                                assert(k == ws.len());
                            }
                            break;
                        },
                        Some(desired) => {
                            proof {
                                assert(desired == ws[k as int]);
                                assert(it.remaining() =~= ws.skip(k as int + 1));
                                lemma_fold_prefix(orig[i as int].options, ws, orig, id, ws.len(), (k + 1) as nat);
                            }
                            let free = scan_tasks(desired, &tasks, ti.id, Ghost(orig));
                            match free {
                                Some(true) => {
                                    let opt = ScheduleOption { start: desired.start, deadline: desired.end };
                                    ti.options = add_schedule_option(&ti.options, opt);
                                },
                                Some(false) => {},
                                None => {
                                    proof {
                                        assert(false);
                                    }
                                },
                            }
                            proof {
                                k = k + 1;
                            }
                        },
                    }
                }
            },
        }
        proof {
            assert(ti@ == (options_spec(orig)->0)[i as int]);
        }
        tasks.set(i, ti);
        i = i + 1;
    }
    proof {
        assert(task_states(tasks@) =~= options_spec(orig)->0);
    }
    tasks
}

} // verus!
