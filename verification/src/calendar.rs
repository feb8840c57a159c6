use vstd::prelude::*;
use vstd::string::StringExecFns;
use crate::date::{DateTime, DateTimeRange};
use crate::day::{occupy_inverse_spec, occupy_spec, range_of_secs, range_secs, seats_text, slots_upto, Day, HOURS_PER_DAY};
use crate::day_filter::{hour_time_spec, opt_secs, DayFilter};
use crate::sorting::{items_of, lemma_sort_map, map_payload, sort_by_key, sort_keyed, strip_keys};
use crate::output::{free_string, free_text, task_models, DayTasks, FinalTasks, Task, TaskModel};
use crate::time::{day_number, day_number_of, day_start_of, time_ok, SECS_PER_DAY, SECS_PER_HOUR};

verus! {

/// A goal as a day calendar sees it: a name, a number of hours, and hour bounds.
#[derive(Debug)]
pub struct Goal {
    id: String,
    title: String,
    min_span: Option<usize>,
    day_filter: Option<DayFilter>,
}

/// What a goal of the day calendar says, as plain values.
pub struct GoalModel {
    pub id: Seq<char>,
    pub title: Seq<char>,
    pub min_span: Option<usize>,
    pub day_filter: Option<DayFilter>,
}

impl View for Goal {
    type V = GoalModel;

    closed spec fn view(&self) -> GoalModel {
        GoalModel {
            id: self.id@,
            title: self.title@,
            min_span: self.min_span,
            day_filter: self.day_filter,
        }
    }
}

/// The hour bounds of a goal are times of day.
pub open spec fn goal_ok(g: GoalModel) -> bool {
    g.day_filter matches Some(f) ==> f.wf()
}

/// The number of hours a goal takes: one when it does not say.
pub open spec fn span_of(g: GoalModel) -> int {
    match g.min_span {
        Some(s) => s as int,
        None => 1,
    }
}

/// The range a goal may take on the day of `t`, as start and end timestamps.
pub open spec fn filter_range_spec(g: GoalModel, t: int) -> (int, int) {
    let ds = day_start_of(t);
    let after = match g.day_filter {
        Some(f) => ds + match opt_secs(f.after_spec()) {
            Some(x) => x,
            None => 0,
        },
        None => ds,
    };
    let before = match g.day_filter {
        Some(f) => ds + match opt_secs(f.before_spec()) {
            Some(x) => x,
            None => SECS_PER_DAY as int,
        },
        None => ds + SECS_PER_DAY,
    };
    range_of_secs(after, before)
}

impl Goal {
    /// The identifier, as the key goals are ordered by.
    pub closed spec fn key(self) -> String {
        self.id
    }

    /// A goal of one hour with no bounds.
    pub fn new(id: &str, title: &str) -> (g: Goal)
        ensures
            g@ == (GoalModel { id: id@, title: title@, min_span: None, day_filter: None }),
            goal_ok(g@),
    {
        Goal { id: id.to_owned(), title: title.to_owned(), min_span: None, day_filter: None }
    }

    /// The identifier.
    pub fn id(&self) -> (r: String)
        ensures
            r == self.key(),
            r@ == self@.id,
    {
        self.id.clone()
    }

    /// The title.
    pub fn title(&self) -> (r: String)
        ensures
            r@ == self@.title,
    {
        self.title.clone()
    }

    /// The number of hours the goal takes: one when it does not say.
    pub fn min_span(&self) -> (r: usize)
        ensures
            r == span_of(self@),
    {
        match self.min_span {
            Some(s) => s,
            None => 1,
        }
    }

    /// The range the goal may take on the day of `date`: from its lower bound (or
    /// the start of the day) to its upper bound (or the end of the day).
    pub fn day_filter(&self, date: &DateTime) -> (r: DateTimeRange)
        requires
            goal_ok(self@),
            date.wf(),
            time_ok(day_start_of(date.secs())),
            time_ok(day_start_of(date.secs()) + SECS_PER_DAY),
        ensures
            r.start_spec().wf(),
            r.end_spec().wf(),
            range_secs(r) == filter_range_spec(self@, date.secs()),
    {
        let after = match &self.day_filter {
            Some(f) => f.after(date),
            None => date.start_of_day(),
        };
        let before = match &self.day_filter {
            Some(f) => f.before(date),
            None => date.end_of_day(),
        };
        DateTimeRange::new(after, before)
    }

    /// The calendar's view of a goal as the user gave it. The hour bounds of its
    /// filter become times of day; an hour from 24 on gives no bound. Both bounds
    /// must be given when there is a filter.
    pub fn from(goal: &crate::goal::Goal) -> (g: Goal)
        requires
            goal.filters matches Some(f) ==> f.after_time.is_some() && f.before_time.is_some(),
        ensures
            goal_ok(g@),
            g@.id == goal.id@,
            g@.title == goal.title@,
            g@.min_span == goal.min_duration,
            g@.day_filter.is_some() == goal.filters.is_some(),
            g@.day_filter matches Some(f) ==> opt_secs(f.after_spec()) == hour_time_spec(
                goal.filters->0.after_time->0 as int,
            ) && opt_secs(f.before_spec()) == hour_time_spec(
                goal.filters->0.before_time->0 as int,
            ),
    {
        let filter = match &goal.filters {
            Some(f) => {
                let after = match f.after_time {
                    Some(a) => a,
                    None => 0,
                };
                let before = match f.before_time {
                    Some(b) => b,
                    None => 0,
                };
                Some(DayFilter::from_hours(after, before))
            },
            None => None,
        };
        Goal {
            id: goal.id.clone(),
            title: goal.title.clone(),
            min_span: goal.min_duration,
            day_filter: filter,
        }
    }

    /// A copy of the goal.
    pub fn duplicate(&self) -> (g: Goal)
        ensures
            g@ == self@,
            g.key() == self.key(),
    {
        Goal {
            id: self.id.clone(),
            title: self.title.clone(),
            min_span: self.min_span,
            day_filter: self.day_filter,
        }
    }
}

/// A goal together with the hours of the day still open to it.
#[derive(Debug)]
pub struct Flexibility {
    pub goal: Goal,
    pub day: Day,
}

/// What a flexibility says, as plain values.
pub struct FlexModel {
    pub goal: GoalModel,
    pub start: int,
    pub occupied: Seq<bool>,
}

impl View for Flexibility {
    type V = FlexModel;

    open spec fn view(&self) -> FlexModel {
        FlexModel { goal: self.goal@, start: self.day.start(), occupied: self.day.occupied() }
    }
}

impl Flexibility {
    /// The goal is well formed and the day is a day.
    pub open spec fn wf(self) -> bool {
        goal_ok(self.goal@) && self.day.wf()
    }

    /// A copy of the flexibility.
    pub fn duplicate(&self) -> (f: Flexibility)
        requires
            self.wf(),
        ensures
            f.wf(),
            f@ == self@,
            f.goal.key() == self.goal.key(),
    {
        Flexibility { goal: self.goal.duplicate(), day: self.day.duplicate() }
    }
}

/// The hours of the day of `start` that a goal may take, between `start` and `end`
/// and within its own bounds; the others are taken.
pub open spec fn flex_of_spec(g: GoalModel, start: int, end: int) -> FlexModel {
    let ds = day_start_of(start);
    let free = Seq::new(HOURS_PER_DAY as nat, |i: int| false);
    let within = range_of_secs(start, end);
    let bounds = filter_range_spec(g, start);
    FlexModel {
        goal: g,
        start: ds,
        occupied: occupy_inverse_spec(
            occupy_inverse_spec(free, ds, within.0, within.1),
            ds,
            bounds.0,
            bounds.1,
        ),
    }
}

/// Starting and ending points of a calendar within the supported range.
pub open spec fn calendar_points_ok(start: DateTime, end: DateTime) -> bool {
    &&& start.wf()
    &&& end.wf()
    &&& time_ok(day_start_of(start.secs()))
    &&& time_ok(day_start_of(start.secs()) + SECS_PER_DAY)
}

/// The day of `start` with the hours a goal may take between `start` and `end`.
pub fn get_flexibilities(goal: Goal, start: &DateTime, end: &DateTime) -> (f: Flexibility)
    requires
        goal_ok(goal@),
        calendar_points_ok(*start, *end),
    ensures
        f.wf(),
        f@ == flex_of_spec(goal@, start.secs(), end.secs()),
        f.goal.key() == goal.key(),
{
    let mut day = Day::new(*start);
    day.occupy_inverse_range(&DateTimeRange::new(*start, *end));
    let bounds = goal.day_filter(start);
    day.occupy_inverse_range(&bounds);
    Flexibility { goal, day }
}

/// The flexibility of each goal, keyed by the goal's identifier.
pub open spec fn keyed_flex(goals: Seq<Goal>, start: int, end: int) -> Seq<(String, FlexModel)> {
    Seq::new(goals.len(), |i: int| (goals[i].key(), flex_of_spec(goals[i]@, start, end)))
}

/// A position with the range it was given and the goal it holds.
pub type Placement = (usize, DateTimeRange, Goal);

/// What a placement says, as plain values.
pub open spec fn placement_model(p: Placement) -> (usize, (int, int), GoalModel) {
    (p.0, range_secs(p.1), p.2@)
}

/// The models of a sequence of placements.
pub open spec fn placement_models(s: Seq<Placement>) -> Seq<(usize, (int, int), GoalModel)> {
    s.map_values(|p: Placement| placement_model(p))
}

/// The day being planned, goal by goal: which hours each goal may still take,
/// which goals are still to place, and what has been placed or found impossible.
pub struct Calendar {
    day: DateTime,
    span_of_day: usize,
    flexibilities: Vec<Flexibility>,
    unprocessed: Vec<usize>,
    scheduled: Vec<Placement>,
    impossible: Vec<Placement>,
}

impl Calendar {
    /// The midnight that starts the day.
    pub closed spec fn day_spec(self) -> int {
        self.day.secs()
    }

    /// The flexibility of each goal, in order of position.
    pub closed spec fn flex(self) -> Seq<FlexModel> {
        self.flexibilities@.map_values(|f: Flexibility| f@)
    }

    /// The positions still to place.
    pub closed spec fn unprocessed_spec(self) -> Seq<usize> {
        self.unprocessed@
    }

    /// What has been placed.
    pub closed spec fn scheduled_spec(self) -> Seq<(usize, (int, int), GoalModel)> {
        placement_models(self.scheduled@)
    }

    /// What could not be placed.
    pub closed spec fn impossible_spec(self) -> Seq<(usize, (int, int), GoalModel)> {
        placement_models(self.impossible@)
    }

    /// The day is a day, every flexibility is well formed, every position still to
    /// place names a flexibility, and every placed range is a range.
    pub closed spec fn wf(self) -> bool {
        &&& self.day.wf()
        &&& self.day.secs() % (SECS_PER_DAY as int) == 0
        &&& time_ok(self.day.secs() + SECS_PER_DAY)
        &&& self.span_of_day == HOURS_PER_DAY
        &&& forall|i: int| 0 <= i < self.flexibilities.len() ==> (#[trigger] self.flexibilities@[i]).wf()
        &&& forall|i: int| 0 <= i < self.unprocessed.len() ==> #[trigger] self.unprocessed@[i] < self.flexibilities.len()
        &&& forall|i: int| 0 <= i < self.scheduled.len() ==> (#[trigger] self.scheduled@[i]).1.wf()
        &&& forall|i: int| 0 <= i < self.impossible.len() ==> (#[trigger] self.impossible@[i]).1.wf()
    }

    /// The calendar of the day of `calendar_start`: for each goal, in order of
    /// identifier, the hours between `calendar_start` and `calendar_end` within its
    /// bounds; every goal still to place; nothing placed yet.
    pub fn new(calendar_start: DateTime, calendar_end: DateTime, goals: &Vec<Goal>) -> (c: Calendar)
        requires
            calendar_points_ok(calendar_start, calendar_end),
            forall|i: int| 0 <= i < goals.len() ==> goal_ok(#[trigger] goals@[i]@),
        ensures
            c.wf(),
            c.day_spec() == day_start_of(calendar_start.secs()),
            c.flex() == items_of(
                sort_keyed(keyed_flex(goals@, calendar_start.secs(), calendar_end.secs())),
            ),
            c.unprocessed_spec() == Seq::new(goals.len() as nat, |i: int| i as usize),
            c.scheduled_spec().len() == 0,
            c.impossible_spec().len() == 0,
    {
        let day = calendar_start.start_of_day();
        proof {
            assert(day.secs() % (SECS_PER_DAY as int) == 0);
            assert(day_start_of(day.secs()) == day.secs());
        }
        let span_of_day = day.span_of_day();
        let mut keyed: Vec<(String, Flexibility)> = Vec::new();
        let mut i: usize = 0;
        while i < goals.len()
            invariant
                calendar_points_ok(calendar_start, calendar_end),
                forall|k: int| 0 <= k < goals.len() ==> goal_ok(#[trigger] goals@[k]@),
                i <= goals.len(),
                keyed.len() == i,
                forall|k: int| 0 <= k < i ==> (#[trigger] keyed@[k]).1.wf(),
                map_payload(keyed@, |f: Flexibility| f@) =~= keyed_flex(
                    goals@,
                    calendar_start.secs(),
                    calendar_end.secs(),
                ).take(i as int),
            decreases goals.len() - i,
        {
            let g = goals[i].duplicate();
            let key = goals[i].id();
            let f = get_flexibilities(g, &calendar_start, &calendar_end);
            keyed.push((key, f));
            i = i + 1;
        }
        let ghost keyed0 = keyed@;
        sort_by_key(&mut keyed);
        proof {
            lemma_sort_map(keyed0, |f: Flexibility| f@);
            assert(keyed_flex(goals@, calendar_start.secs(), calendar_end.secs()).take(
                goals.len() as int,
            ) =~= keyed_flex(goals@, calendar_start.secs(), calendar_end.secs()));
            lemma_sort_keeps_wf(keyed0);
        }
        let ghost sorted = keyed@;
        let flexibilities = strip_keys(keyed);
        proof {
            assert(flexibilities@.map_values(|f: Flexibility| f@) =~= items_of(
                map_payload(sorted, |f: Flexibility| f@),
            ));
        }
        let mut unprocessed: Vec<usize> = Vec::new();
        let mut k: usize = 0;
        while k < flexibilities.len()
            invariant
                k <= flexibilities.len(),
                unprocessed@ =~= Seq::new(k as nat, |j: int| j as usize),
            decreases flexibilities.len() - k,
        {
            unprocessed.push(k);
            k = k + 1;
        }
        let c = Calendar {
            day,
            span_of_day,
            flexibilities,
            unprocessed,
            scheduled: Vec::new(),
            impossible: Vec::new(),
        };
        assert(c.scheduled_spec() =~= Seq::empty());
        assert(c.impossible_spec() =~= Seq::empty());
        c
    }

    /// Whether positions remain to be placed.
    pub fn has_finished_scheduling(&self) -> (r: bool)
        ensures
            r == (self.unprocessed_spec().len() > 0),
    {
        !self.unprocessed.is_empty()
    }

    /// A copy of the flexibility at `pos`, when there is one.
    pub fn flexibility_at(&self, pos: usize) -> (r: Option<Flexibility>)
        requires
            self.wf(),
        ensures
            r.is_some() == (pos < self.flex().len()),
            r matches Some(f) ==> f.wf() && f@ == self.flex()[pos as int],
    {
        if pos < self.flexibilities.len() {
            Some(self.flexibilities[pos].duplicate())
        } else {
            None
        }
    }

    /// The flexibility at `pos` with the number of ranges of its goal's span that
    /// its day gives. A goal of more than an hour runs past the last hour of the day.
    pub fn flexibility(&self, pos: usize) -> (r: Option<(usize, usize, Flexibility)>)
        requires
            self.wf(),
            pos < self.flex().len() ==> span_of(self.flex()[pos as int].goal) <= 1,
        ensures
            r.is_some() == (pos < self.flex().len()),
            r matches Some(t) ==> t.0 == pos && t.2@ == self.flex()[pos as int] && t.1 == slots_upto(
                t.2@.occupied,
                t.2@.start,
                span_of(t.2@.goal),
                HOURS_PER_DAY as nat,
            ).len(),
    {
        match self.flexibility_at(pos) {
            Some(f) => {
                let n = f.day.flexibility(f.goal.min_span());
                Some((pos, n, f))
            },
            None => None,
        }
    }

    /// The positions still to place.
    pub fn unprocessed(&self) -> (r: Vec<usize>)
        ensures
            r@ == self.unprocessed_spec(),
    {
        let mut out: Vec<usize> = Vec::new();
        let mut i: usize = 0;
        while i < self.unprocessed.len()
            invariant
                i <= self.unprocessed.len(),
                out@ == self.unprocessed@.take(i as int),
            decreases self.unprocessed.len() - i,
        {
            out.push(self.unprocessed[i]);
            i = i + 1;
            assert(out@ =~= self.unprocessed@.take(i as int));
        }
        assert(self.unprocessed@.take(self.unprocessed.len() as int) =~= self.unprocessed@);
        out
    }
}

proof fn lemma_sort_keeps_wf(s: Seq<(String, Flexibility)>)
    requires
        forall|k: int| 0 <= k < s.len() ==> (#[trigger] s[k]).1.wf(),
    ensures
        forall|k: int| 0 <= k < sort_keyed(s).len() ==> (#[trigger] sort_keyed(s)[k]).1.wf(),
        sort_keyed(s).len() == s.len(),
    decreases s.len(),
{
    if s.len() > 0 {
        lemma_sort_keeps_wf(s.drop_last());
        lemma_insert_keeps_wf(sort_keyed(s.drop_last()), s.last());
    }
}

proof fn lemma_insert_keeps_wf(s: Seq<(String, Flexibility)>, x: (String, Flexibility))
    requires
        forall|k: int| 0 <= k < s.len() ==> (#[trigger] s[k]).1.wf(),
        x.1.wf(),
    ensures
        forall|k: int| 0 <= k < crate::sorting::insert_keyed(s, x).len() ==> (
        #[trigger] crate::sorting::insert_keyed(s, x)[k]).1.wf(),
        crate::sorting::insert_keyed(s, x).len() == s.len() + 1,
    decreases s.len(),
{
    if s.len() > 0 && !<String as crate::sorting::KeyOrder>::key_le(s.last().0, x.0) {
        lemma_insert_keeps_wf(s.drop_last(), x);
    }
}

/// A flexibility with the hours of `[rs, re)` taken.
pub open spec fn occupy_flex(f: FlexModel, rs: int, re: int) -> FlexModel {
    FlexModel { goal: f.goal, start: f.start, occupied: occupy_spec(f.occupied, f.start, rs, re) }
}

/// The flexibilities with the hours of `[rs, re)` taken at each position `chosen` holds.
pub open spec fn occupy_positions(
    flex: Seq<FlexModel>,
    chosen: spec_fn(int) -> bool,
    rs: int,
    re: int,
) -> Seq<FlexModel> {
    Seq::new(flex.len(), |i: int| if chosen(i) { occupy_flex(flex[i], rs, re) } else { flex[i] })
}

/// `s` without the occurrences of `x`, in order.
pub open spec fn without(s: Seq<usize>, x: usize) -> Seq<usize>
    decreases s.len(),
{
    if s.len() == 0 {
        s
    } else if s.last() == x {
        without(s.drop_last(), x)
    } else {
        without(s.drop_last(), x).push(s.last())
    }
}

/// The task of a placed goal.
pub open spec fn goal_task(idx: int, g: GoalModel, r: (int, int), impossible: bool) -> TaskModel {
    TaskModel {
        taskid: idx,
        goalid: g.id,
        title: g.title,
        duration: span_of(g),
        start: r.0,
        deadline: r.1,
        tags: Seq::empty(),
        impossible,
    }
}

/// The task of `span` free hours from `start`.
pub open spec fn free_task(idx: int, start: int, span: int) -> TaskModel {
    TaskModel {
        taskid: idx,
        goalid: free_text(),
        title: free_text(),
        duration: span,
        start,
        deadline: start + span * SECS_PER_HOUR,
        tags: Seq::empty(),
        impossible: false,
    }
}

/// Placements in the order of their start, placements that start together keeping
/// their order.
pub open spec fn sorted_placements(s: Seq<(usize, (int, int), GoalModel)>) -> Seq<(usize, (int, int))> {
    items_of(sort_keyed(Seq::new(s.len(), |i: int| (s[i].1.0 as i64, (s[i].0, s[i].1)))))
}

/// The tasks of the first `n` placements, numbered by their place in the order,
/// for the placements whose position names a flexibility.
pub open spec fn gather_spec(
    flex: Seq<FlexModel>,
    sorted: Seq<(usize, (int, int))>,
    impossible: bool,
    n: nat,
) -> Seq<TaskModel>
    decreases n,
{
    if n == 0 {
        Seq::empty()
    } else {
        let prev = gather_spec(flex, sorted, impossible, (n - 1) as nat);
        let p = sorted[n - 1];
        if p.0 < flex.len() {
            prev.push(goal_task(n - 1, flex[p.0 as int].goal, p.1, impossible))
        } else {
            prev
        }
    }
}

/// After the first `n` placements: the tasks so far, where free time starts, and
/// how many free tasks came in between.
pub open spec fn filler_state(
    flex: Seq<FlexModel>,
    sorted: Seq<(usize, (int, int))>,
    ds: int,
    impossible: bool,
    n: nat,
) -> (Seq<TaskModel>, int, int)
    decreases n,
{
    if n == 0 {
        (Seq::empty(), ds, 0)
    } else {
        let prev = filler_state(flex, sorted, ds, impossible, (n - 1) as nat);
        let (ts, cur, off) = (prev.0, prev.1, prev.2);
        let p = sorted[n - 1];
        let ts1 = if cur < p.1.0 {
            ts.push(free_task(n - 1 + off, cur, (p.1.0 - cur) / (SECS_PER_HOUR as int)))
        } else {
            ts
        };
        let off1 = if cur < p.1.0 {
            off + 1
        } else {
            off
        };
        let ts2 = if p.0 < flex.len() {
            ts1.push(goal_task(n - 1 + off1, flex[p.0 as int].goal, p.1, impossible))
        } else {
            ts1
        };
        (ts2, p.1.1, off1)
    }
}

/// The tasks of the placements with free tasks for the gaps before, between and
/// after them within the day starting at `ds`.
pub open spec fn filler_spec(
    flex: Seq<FlexModel>,
    sorted: Seq<(usize, (int, int))>,
    ds: int,
    impossible: bool,
) -> Seq<TaskModel> {
    let st = filler_state(flex, sorted, ds, impossible, sorted.len());
    if st.1 < ds + SECS_PER_DAY {
        st.0.push(
            free_task(
                sorted.len() + st.2,
                st.1,
                (ds + SECS_PER_DAY - st.1) / (SECS_PER_HOUR as int),
            ),
        )
    } else {
        st.0
    }
}

/// The tasks follow one another without gap or overlap from `a` to `b`: the first
/// starts at `a`, each starts where the one before it ends, and the last ends at `b`.
pub open spec fn tiles(ts: Seq<TaskModel>, a: int, b: int) -> bool {
    &&& ts.len() > 0
    &&& ts[0].start == a
    &&& ts[ts.len() - 1].deadline == b
    &&& forall|k: int| 0 <= k < ts.len() - 1 ==> (#[trigger] ts[k]).deadline == ts[k + 1].start
}

/// No task ends before it starts.
pub open spec fn forward(ts: Seq<TaskModel>) -> bool {
    forall|k: int| 0 <= k < ts.len() ==> (#[trigger] ts[k]).start <= ts[k].deadline
}

/// Placements of goals within the day starting at `ds`, on the hour grid, each naming
/// a goal of the calendar, in order of start and not overlapping.
pub open spec fn placements_in_day(flex: Seq<FlexModel>, sorted: Seq<(usize, (int, int))>, ds: int) -> bool {
    &&& forall|i: int|
        #![trigger sorted[i]]
        0 <= i < sorted.len() ==> {
            &&& sorted[i].0 < flex.len()
            &&& ds <= sorted[i].1.0 <= sorted[i].1.1 <= ds + SECS_PER_DAY
            &&& sorted[i].1.0 % (SECS_PER_HOUR as int) == 0
            &&& sorted[i].1.1 % (SECS_PER_HOUR as int) == 0
        }
    &&& forall|i: int, j: int| 0 <= i < j < sorted.len() ==> (#[trigger] sorted[i]).1.1 <= (#[trigger] sorted[j]).1.0
}

proof fn lemma_free_span_reaches(c: int, s: int)
    requires
        c % 3600 == 0,
        s % 3600 == 0,
        c < s,
    ensures
        c + ((s - c) / 3600) * 3600 == s,
{
    assert(c + ((s - c) / 3600) * 3600 == s) by (nonlinear_arith)
        requires
            c % 3600 == 0,
            s % 3600 == 0,
            c < s,
    ;
}

proof fn lemma_filler_state_tiles(
    flex: Seq<FlexModel>,
    sorted: Seq<(usize, (int, int))>,
    ds: int,
    impossible: bool,
    n: nat,
)
    requires
        ds % (SECS_PER_HOUR as int) == 0,
        placements_in_day(flex, sorted, ds),
        n <= sorted.len(),
    ensures
        ({
            let st = filler_state(flex, sorted, ds, impossible, n);
            &&& st.1 == if n == 0 {
                ds
            } else {
                sorted[n - 1].1.1
            }
            &&& n > 0 ==> tiles(st.0, ds, st.1)
            &&& forward(st.0)
        }),
    decreases n,
{
    if n > 0 {
        lemma_filler_state_tiles(flex, sorted, ds, impossible, (n - 1) as nat);
        let prev = filler_state(flex, sorted, ds, impossible, (n - 1) as nat);
        let (ts, cur, off) = (prev.0, prev.1, prev.2);
        let p = sorted[n - 1];
        assert(p.0 < flex.len());
        if n > 1 {
            assert(sorted[n - 2].1.1 <= sorted[n - 1].1.0);
        }
        assert(cur <= p.1.0);
        assert(cur % 3600 == 0);
        let ts1 = if cur < p.1.0 {
            ts.push(free_task(n - 1 + off, cur, (p.1.0 - cur) / (SECS_PER_HOUR as int)))
        } else {
            ts
        };
        let off1 = if cur < p.1.0 {
            off + 1
        } else {
            off
        };
        let ts2 = ts1.push(goal_task(n - 1 + off1, flex[p.0 as int].goal, p.1, impossible));
        assert(filler_state(flex, sorted, ds, impossible, n).0 == ts2);
        if cur < p.1.0 {
            lemma_free_span_reaches(cur, p.1.0);
            assert(ts1.last().deadline == p.1.0);
            if n > 1 {
                assert forall|k: int| 0 <= k < ts1.len() - 1 implies (#[trigger] ts1[k]).deadline
                    == ts1[k + 1].start by {
                    if k < ts.len() - 1 {
                        assert(ts1[k] == ts[k] && ts1[k + 1] == ts[k + 1]);
                    }
                }
                assert(tiles(ts1, ds, p.1.0));
            } else {
                assert(ts1.len() == 1);
                assert(tiles(ts1, ds, p.1.0));
            }
        } else {
            assert(ts1 == ts);
        }
        if n == 1 && cur == p.1.0 {
            assert(ts2.len() == 1);
            assert(ts2[0].start == ds);
        } else {
            assert(tiles(ts1, ds, p.1.0));
            assert forall|k: int| 0 <= k < ts2.len() - 1 implies (#[trigger] ts2[k]).deadline
                == ts2[k + 1].start by {
                if k < ts1.len() - 1 {
                    assert(ts2[k] == ts1[k] && ts2[k + 1] == ts1[k + 1]);
                } else {
                    assert(ts2[k] == ts1[ts1.len() - 1]);
                }
            }
            assert(ts2[0] == ts1[0]);
        }
        assert(tiles(ts2, ds, p.1.1));
        assert forall|k: int| 0 <= k < ts2.len() implies (#[trigger] ts2[k]).start <= ts2[k].deadline by {
            if k < ts.len() {
                assert(ts2[k] == ts[k]);
            } else if k < ts1.len() {
                assert(ts2[k] == ts1[k]);
            }
        }
    }
}

/// The scheduled day is tiled: given placements within the day on the hour grid, in
/// order and not overlapping, each naming a goal, the day's tasks (the goals' tasks
/// and the free time before, between and after them) follow one another without gap
/// or overlap from the day's midnight to the next.
pub proof fn lemma_filler_tiles_day(
    flex: Seq<FlexModel>,
    sorted: Seq<(usize, (int, int))>,
    ds: int,
    impossible: bool,
)
    requires
        ds % (SECS_PER_HOUR as int) == 0,
        placements_in_day(flex, sorted, ds),
    ensures
        tiles(filler_spec(flex, sorted, ds, impossible), ds, ds + SECS_PER_DAY),
        forward(filler_spec(flex, sorted, ds, impossible)),
{
    let n = sorted.len();
    lemma_filler_state_tiles(flex, sorted, ds, impossible, n);
    let st = filler_state(flex, sorted, ds, impossible, n);
    let r = filler_spec(flex, sorted, ds, impossible);
    if n > 0 {
        assert(st.1 == sorted[n - 1].1.1);
        assert(st.1 <= ds + SECS_PER_DAY);
    }
    if st.1 < ds + SECS_PER_DAY {
        assert(st.1 % 3600 == 0);
        lemma_free_span_reaches(st.1, ds + SECS_PER_DAY);
        assert(r == st.0.push(free_task(n + st.2, st.1, (ds + SECS_PER_DAY - st.1) / (SECS_PER_HOUR as int))));
        if n > 0 {
            assert forall|k: int| 0 <= k < r.len() - 1 implies (#[trigger] r[k]).deadline == r[k + 1].start by {
                if k < st.0.len() - 1 {
                    assert(r[k] == st.0[k] && r[k + 1] == st.0[k + 1]);
                } else {
                    assert(r[k] == st.0[st.0.len() - 1]);
                }
            }
            assert(r[0] == st.0[0]);
        } else {
            assert(r.len() == 1);
        }
        assert forall|k: int| 0 <= k < r.len() implies (#[trigger] r[k]).start <= r[k].deadline by {
            if k < st.0.len() {
                assert(r[k] == st.0[k]);
            }
        }
    } else {
        assert(n > 0);
        assert(r == st.0);
    }
}

proof fn lemma_tiling_ordered(ts: Seq<TaskModel>, a: int, b: int, j: int, k: int)
    requires
        tiles(ts, a, b),
        forward(ts),
        0 <= j < k < ts.len(),
    ensures
        ts[j].deadline <= ts[k].start,
    decreases k - j,
{
    if k > j + 1 {
        lemma_tiling_ordered(ts, a, b, j, k - 1);
        assert(ts[k - 1].deadline == ts[k].start);
    } else {
        assert(ts[j].deadline == ts[j + 1].start);
    }
}

proof fn lemma_tiling_reaches(ts: Seq<TaskModel>, a: int, b: int, x: int, i: int)
    requires
        tiles(ts, a, b),
        0 <= i < ts.len(),
        ts[i].start <= x < b,
    ensures
        exists|k: int| 0 <= k < ts.len() && (#[trigger] ts[k]).start <= x < ts[k].deadline,
    decreases ts.len() - i,
{
    if x < ts[i].deadline {
        assert(ts[i].start <= x < ts[i].deadline);
    } else {
        assert(i < ts.len() - 1);
        assert(ts[i].deadline == ts[i + 1].start);
        lemma_tiling_reaches(ts, a, b, x, i + 1);
    }
}

/// Tasks that tile `[a, b)`, none ending before it starts, hold each instant of
/// `[a, b)` in exactly one task.
pub proof fn lemma_tiling_holds_once(ts: Seq<TaskModel>, a: int, b: int, x: int)
    requires
        tiles(ts, a, b),
        forward(ts),
        a <= x < b,
    ensures
        exists|k: int| 0 <= k < ts.len() && (#[trigger] ts[k]).start <= x < ts[k].deadline,
        forall|j: int, k: int|
            0 <= j < ts.len() && 0 <= k < ts.len() && (#[trigger] ts[j]).start <= x < ts[j].deadline
                && (#[trigger] ts[k]).start <= x < ts[k].deadline ==> j == k,
{
    lemma_tiling_reaches(ts, a, b, x, 0);
    assert forall|j: int, k: int|
        0 <= j < ts.len() && 0 <= k < ts.len() && (#[trigger] ts[j]).start <= x < ts[j].deadline
            && (#[trigger] ts[k]).start <= x < ts[k].deadline implies j == k by {
        if j < k {
            lemma_tiling_ordered(ts, a, b, j, k);
        } else if k < j {
            lemma_tiling_ordered(ts, a, b, k, j);
        }
    }
}

/// Every instant of the scheduled day lies in exactly one of the day's tasks: given
/// placements within the day on the hour grid, in order and not overlapping, each
/// naming a goal, one task (a goal's or free time) holds the instant, and no other.
pub proof fn lemma_filler_holds_once(
    flex: Seq<FlexModel>,
    sorted: Seq<(usize, (int, int))>,
    ds: int,
    impossible: bool,
    x: int,
)
    requires
        ds % (SECS_PER_HOUR as int) == 0,
        placements_in_day(flex, sorted, ds),
        ds <= x < ds + SECS_PER_DAY,
    ensures
        ({
            let ts = filler_spec(flex, sorted, ds, impossible);
            &&& exists|k: int| 0 <= k < ts.len() && (#[trigger] ts[k]).start <= x < ts[k].deadline
            &&& forall|j: int, k: int|
                0 <= j < ts.len() && 0 <= k < ts.len() && (#[trigger] ts[j]).start <= x < ts[j].deadline
                    && (#[trigger] ts[k]).start <= x < ts[k].deadline ==> j == k
        }),
{
    lemma_filler_tiles_day(flex, sorted, ds, impossible);
    lemma_tiling_holds_once(filler_spec(flex, sorted, ds, impossible), ds, ds + SECS_PER_DAY, x);
}

/// A time close enough to the day starting at `ds` for a count of hours between
/// them to fit in a `usize`.
pub open spec fn near_day(ds: int, t: int) -> bool {
    -(usize::MAX as int / 2) * SECS_PER_HOUR <= t - ds <= (usize::MAX as int / 2) * SECS_PER_HOUR
}

/// Every placed range lies near the day starting at `ds`.
pub open spec fn placements_near(ds: int, s: Seq<(usize, (int, int), GoalModel)>) -> bool {
    forall|i: int| 0 <= i < s.len() ==> near_day(ds, (#[trigger] s[i]).1.0) && near_day(ds, s[i].1.1)
}

proof fn lemma_near_span(ds: int, a: int, b: int)
    requires
        near_day(ds, a),
        near_day(ds, b),
        a <= b,
    ensures
        (b - a) / (SECS_PER_HOUR as int) <= usize::MAX,
{
    let m = usize::MAX as int / 2;
    assert((b - a) / 3600 <= 2 * m) by (nonlinear_arith)
        requires
            0 <= b - a <= 2 * m * 3600,
            m >= 0,
    ;
}

proof fn lemma_filler_offset(
    flex: Seq<FlexModel>,
    sorted: Seq<(usize, (int, int))>,
    ds: int,
    impossible: bool,
    n: nat,
)
    ensures
        0 <= filler_state(flex, sorted, ds, impossible, n).2 <= n,
    decreases n,
{
    if n > 0 {
        lemma_filler_offset(flex, sorted, ds, impossible, (n - 1) as nat);
    }
}

impl Calendar {
    /// Takes the hours of `range` in the day of every position still to place.
    pub fn occupy_unprocessed(&mut self, range: &DateTimeRange)
        requires
            old(self).wf(),
            range.wf(),
        ensures
            final(self).wf(),
            final(self).day_spec() == old(self).day_spec(),
            final(self).unprocessed_spec() == old(self).unprocessed_spec(),
            final(self).scheduled_spec() == old(self).scheduled_spec(),
            final(self).impossible_spec() == old(self).impossible_spec(),
            final(self).flex() == occupy_positions(
                old(self).flex(),
                |i: int| old(self).unprocessed_spec().contains(i as usize),
                range.start_spec().secs(),
                range.end_spec().secs(),
            ),
    {
        let ghost flex0 = self.flex();
        let ghost rs = range.start_spec().secs();
        let ghost re = range.end_spec().secs();
        let mut k: usize = 0;
        while k < self.unprocessed.len()
            invariant
                self.wf(),
                range.wf(),
                k <= self.unprocessed.len(),
                self.unprocessed@ == old(self).unprocessed@,
                self.day == old(self).day,
                self.scheduled@ == old(self).scheduled@,
                self.impossible@ == old(self).impossible@,
                flex0 == old(self).flex(),
                rs == range.start_spec().secs(),
                re == range.end_spec().secs(),
                self.flex() =~= occupy_positions(
                    flex0,
                    |i: int| self.unprocessed@.take(k as int).contains(i as usize),
                    rs,
                    re,
                ),
            decreases self.unprocessed.len() - k,
        {
            let p = self.unprocessed[k];
            let ghost before = self.flex();
            let mut f = self.flexibilities[p].duplicate();
            f.day.occupy(range);
            self.flexibilities.set(p, f);
            proof {
                let taken = self.unprocessed@.take(k as int);
                let next = self.unprocessed@.take(k as int + 1);
                assert(next =~= taken.push(p));
                assert(self.flex() =~= before.update(p as int, occupy_flex(before[p as int], rs, re)));
                Day::lemma_occupy_twice(flex0[p as int].occupied, flex0[p as int].start, rs, re);
                assert forall|i: int| 0 <= i < flex0.len() implies #[trigger] self.flex()[i] == (if next.contains(i as usize) {
                    occupy_flex(flex0[i], rs, re)
                } else {
                    flex0[i]
                }) by {
                    lemma_contains_push(taken, p, i as usize);
                }
                assert(self.flex() =~= occupy_positions(
                    flex0,
                    |i: int| self.unprocessed@.take(k as int + 1).contains(i as usize),
                    rs,
                    re,
                ));
            }
            k = k + 1;
        }
        proof {
            assert(self.unprocessed@.take(self.unprocessed.len() as int) =~= self.unprocessed@);
        }
    }

    /// Places the goal at `position` in `range` as impossible: its own day and the
    /// day of every position still to place lose the hours of `range`.
    pub fn push_impossible(&mut self, position: usize, range: DateTimeRange)
        requires
            old(self).wf(),
            position < old(self).flex().len(),
            range.wf(),
        ensures
            final(self).wf(),
            final(self).day_spec() == old(self).day_spec(),
            final(self).unprocessed_spec() == old(self).unprocessed_spec(),
            final(self).scheduled_spec() == old(self).scheduled_spec(),
            final(self).flex() == occupy_positions(
                old(self).flex(),
                |i: int| i == position || old(self).unprocessed_spec().contains(i as usize),
                range.start_spec().secs(),
                range.end_spec().secs(),
            ),
            final(self).impossible_spec() == old(self).impossible_spec().push(
                (position, range_secs(range), old(self).flex()[position as int].goal),
            ),
    {
        self.occupy_position(position, &range);
        let g = self.flexibilities[position].goal.duplicate();
        let ghost before = self.impossible@;
        self.impossible.push((position, range, g));
        assert(placement_models(self.impossible@) =~= placement_models(before).push(
            placement_model((position, range, g)),
        ));
    }

    /// Places the goal at `position` in `range`: its own day and the day of every
    /// position still to place lose the hours of `range`.
    pub fn push_scheduled(&mut self, position: usize, range: DateTimeRange)
        requires
            old(self).wf(),
            position < old(self).flex().len(),
            range.wf(),
        ensures
            final(self).wf(),
            final(self).day_spec() == old(self).day_spec(),
            final(self).unprocessed_spec() == old(self).unprocessed_spec(),
            final(self).impossible_spec() == old(self).impossible_spec(),
            final(self).flex() == occupy_positions(
                old(self).flex(),
                |i: int| i == position || old(self).unprocessed_spec().contains(i as usize),
                range.start_spec().secs(),
                range.end_spec().secs(),
            ),
            final(self).scheduled_spec() == old(self).scheduled_spec().push(
                (position, range_secs(range), old(self).flex()[position as int].goal),
            ),
    {
        self.occupy_position(position, &range);
        let g = self.flexibilities[position].goal.duplicate();
        let ghost before = self.scheduled@;
        self.scheduled.push((position, range, g));
        assert(placement_models(self.scheduled@) =~= placement_models(before).push(
            placement_model((position, range, g)),
        ));
    }

    fn occupy_position(&mut self, position: usize, range: &DateTimeRange)
        requires
            old(self).wf(),
            position < old(self).flex().len(),
            range.wf(),
        ensures
            final(self).wf(),
            final(self).day_spec() == old(self).day_spec(),
            final(self).unprocessed_spec() == old(self).unprocessed_spec(),
            final(self).scheduled_spec() == old(self).scheduled_spec(),
            final(self).impossible_spec() == old(self).impossible_spec(),
            final(self).flexibilities.len() == old(self).flexibilities.len(),
            final(self).flex() == occupy_positions(
                old(self).flex(),
                |i: int| i == position || old(self).unprocessed_spec().contains(i as usize),
                range.start_spec().secs(),
                range.end_spec().secs(),
            ),
            final(self).flexibilities@[position as int].goal@ == old(self).flex()[position as int].goal,
    {
        let ghost flex0 = self.flex();
        let ghost rs = range.start_spec().secs();
        let ghost re = range.end_spec().secs();
        let mut f = self.flexibilities[position].duplicate();
        f.day.occupy(range);
        self.flexibilities.set(position, f);
        let ghost flex1 = self.flex();
        assert(flex1 =~= flex0.update(position as int, occupy_flex(flex0[position as int], rs, re)));
        self.occupy_unprocessed(range);
        assert(self.flex().len() == flex0.len());
        assert(self.flexibilities@.len() == self.flex().len());
        assert(self.flex()[position as int] == self.flexibilities@[position as int]@);
        proof {
            Day::lemma_occupy_twice(flex0[position as int].occupied, flex0[position as int].start, rs, re);
            assert(self.flex() =~= occupy_positions(
                flex0,
                |i: int| i == position || self.unprocessed@.contains(i as usize),
                rs,
                re,
            ));
        }
    }

    /// Removes `position` from the positions still to place; when it was one of
    /// them and names a flexibility, that flexibility with the positions left.
    pub fn take(&mut self, position: usize) -> (r: Option<(Flexibility, Vec<usize>)>)
        requires
            old(self).wf(),
        ensures
            final(self).wf(),
            final(self).day_spec() == old(self).day_spec(),
            final(self).flex() == old(self).flex(),
            final(self).scheduled_spec() == old(self).scheduled_spec(),
            final(self).impossible_spec() == old(self).impossible_spec(),
            final(self).unprocessed_spec() == without(old(self).unprocessed_spec(), position),
            r.is_some() == (old(self).unprocessed_spec().contains(position) && position < old(
                self,
            ).flex().len()),
            r matches Some(t) ==> t.0@ == old(self).flex()[position as int] && t.0.wf() && t.1@
                == final(self).unprocessed_spec(),
    {
        let mut rest: Vec<usize> = Vec::new();
        let mut found = false;
        let mut i: usize = 0;
        while i < self.unprocessed.len()
            invariant
                i <= self.unprocessed.len(),
                rest@ == without(self.unprocessed@.take(i as int), position),
                found == self.unprocessed@.take(i as int).contains(position),
                forall|k: int| 0 <= k < rest.len() ==> #[trigger] rest@[k] < self.flexibilities.len() || exists|j: int| 0 <= j < i && self.unprocessed@[j] == rest@[k],
            decreases self.unprocessed.len() - i,
        {
            let p = self.unprocessed[i];
            let ghost taken = self.unprocessed@.take(i as int);
            assert(self.unprocessed@.take(i as int + 1) =~= taken.push(p));
            assert(taken.push(p).drop_last() =~= taken);
            proof {
                lemma_contains_push(taken, p, position);
            }
            if p == position {
                found = true;
            } else {
                rest.push(p);
            }
            i = i + 1;
        }
        proof {
            assert(self.unprocessed@.take(self.unprocessed.len() as int) =~= self.unprocessed@);
            assert forall|k: int| 0 <= k < rest.len() implies #[trigger] rest@[k] < self.flexibilities.len() by {
                if !(rest@[k] < self.flexibilities.len()) {
                    let j = choose|j: int| 0 <= j < self.unprocessed.len() && self.unprocessed@[j] == rest@[k];
                    assert(self.unprocessed@[j] < self.flexibilities.len());
                }
            }
        }
        self.unprocessed = rest;
        if found {
            match self.flexibility_at(position) {
                Some(f) => Some((f, self.unprocessed())),
                None => None,
            }
        } else {
            None
        }
    }

    fn sorted_slots(slots: &Vec<Placement>) -> (r: Vec<(usize, DateTimeRange)>)
        requires
            forall|i: int| 0 <= i < slots.len() ==> (#[trigger] slots@[i]).1.wf(),
        ensures
            r@.map_values(|p: (usize, DateTimeRange)| (p.0, range_secs(p.1))) == sorted_placements(
                placement_models(slots@),
            ),
            forall|i: int| 0 <= i < r.len() ==> (#[trigger] r@[i]).1.wf(),
            forall|i: int| 0 <= i < r.len() ==> exists|j: int| 0 <= j < slots.len() && #[trigger] r@[i].0 == slots@[j].0 && r@[i].1 == slots@[j].1,
            r.len() == slots.len(),
    {
        let mut keyed: Vec<(i64, (usize, DateTimeRange))> = Vec::new();
        let mut i: usize = 0;
        let ghost models = placement_models(slots@);
        let ghost target = Seq::new(models.len(), |k: int| (models[k].1.0 as i64, (models[k].0, models[k].1)));
        while i < slots.len()
            invariant
                i <= slots.len(),
                models == placement_models(slots@),
                target == Seq::new(models.len(), |k: int| (models[k].1.0 as i64, (models[k].0, models[k].1))),
                forall|k: int| 0 <= k < slots.len() ==> (#[trigger] slots@[k]).1.wf(),
                keyed.len() == i,
                forall|k: int| 0 <= k < i ==> (#[trigger] keyed@[k]).1.1.wf(),
                forall|k: int| 0 <= k < i ==> #[trigger] keyed@[k].1.0 == slots@[k].0 && keyed@[k].1.1 == slots@[k].1,
                map_payload(keyed@, |p: (usize, DateTimeRange)| (p.0, range_secs(p.1))) =~= target.take(i as int),
            decreases slots.len() - i,
        {
            let key = slots[i].1.start().timestamp();
            keyed.push((key, (slots[i].0, slots[i].1)));
            i = i + 1;
        }
        let ghost keyed0 = keyed@;
        sort_by_key(&mut keyed);
        proof {
            lemma_sort_map(keyed0, |p: (usize, DateTimeRange)| (p.0, range_secs(p.1)));
            assert(target.take(slots.len() as int) =~= target);
            lemma_sort_keeps_range_wf(keyed0);
            crate::sorting::lemma_sort_len(keyed0);
            let member = |e: (i64, (usize, DateTimeRange))| exists|j: int| 0 <= j < slots.len() && #[trigger] e.1.0 == slots@[j].0 && e.1.1 == slots@[j].1;
            assert forall|k: int| 0 <= k < keyed0.len() implies member(#[trigger] keyed0[k]) by {
                assert(keyed0[k].1.0 == slots@[k].0 && keyed0[k].1.1 == slots@[k].1);
            }
            crate::sorting::lemma_sort_keeps(keyed0, member);
        }
        let ghost sorted = keyed@;
        let r = strip_keys(keyed);
        proof {
            assert(r@.map_values(|p: (usize, DateTimeRange)| (p.0, range_secs(p.1))) =~= items_of(
                map_payload(sorted, |p: (usize, DateTimeRange)| (p.0, range_secs(p.1))),
            ));
        }
        r
    }

    fn goal_task_of(&self, idx: usize, position: usize, range: &DateTimeRange, impossible: bool) -> (r: Option<Task>)
        requires
            self.wf(),
            range.wf(),
        ensures
            r.is_some() == (position < self.flex().len()),
            r matches Some(t) ==> t@ == goal_task(
                idx as int,
                self.flex()[position as int].goal,
                range_secs(*range),
                impossible,
            ),
    {
        match self.flexibility_at(position) {
            Some(f) => {
                let t = Task {
                    taskid: idx,
                    goalid: f.goal.id(),
                    title: f.goal.title(),
                    duration: f.goal.min_span(),
                    start: range.start().timestamp(),
                    deadline: range.end().timestamp(),
                    tags: Vec::new(),
                    impossible,
                };
                assert(t@.tags =~= Seq::<crate::goal::Tag>::empty());
                Some(t)
            },
            None => None,
        }
    }

    fn gather_tasks(&self, tasks: &mut Vec<Task>, slots: &Vec<Placement>, impossible: bool)
        requires
            self.wf(),
            forall|i: int| 0 <= i < slots.len() ==> (#[trigger] slots@[i]).1.wf(),
        ensures
            task_models(final(tasks)@) == task_models(old(tasks)@) + gather_spec(
                self.flex(),
                sorted_placements(placement_models(slots@)),
                impossible,
                slots.len() as nat,
            ),
    {
        let sorted = Self::sorted_slots(slots);
        let ghost sorted_model = sorted@.map_values(|p: (usize, DateTimeRange)| (p.0, range_secs(p.1)));
        let ghost base = task_models(tasks@);
        let mut idx: usize = 0;
        while idx < sorted.len()
            invariant
                self.wf(),
                idx <= sorted.len(),
                sorted.len() == slots.len(),
                sorted_model == sorted@.map_values(|p: (usize, DateTimeRange)| (p.0, range_secs(p.1))),
                forall|i: int| 0 <= i < sorted.len() ==> (#[trigger] sorted@[i]).1.wf(),
                task_models(tasks@) =~= base + gather_spec(self.flex(), sorted_model, impossible, idx as nat),
            decreases sorted.len() - idx,
        {
            let (position, range) = sorted[idx];
            let ghost before = tasks@;
            match self.goal_task_of(idx, position, &range, impossible) {
                Some(t) => {
                    tasks.push(t);
                    assert(task_models(tasks@) =~= task_models(before).push(t@));
                },
                None => {},
            }
            idx = idx + 1;
        }
    }

    fn free_task_of(idx: usize, current: &DateTime, span: usize) -> (r: Task)
        requires
            current.wf(),
            time_ok(current.secs() + span * SECS_PER_HOUR),
        ensures
            r@ == free_task(idx as int, current.secs(), span as int),
    {
        let t = Task {
            taskid: idx,
            goalid: free_string(),
            title: free_string(),
            duration: span,
            start: current.timestamp(),
            deadline: current.inc_by(span).timestamp(),
            tags: Vec::new(),
            impossible: false,
        };
        assert(t@.tags =~= Seq::<crate::goal::Tag>::empty());
        t
    }

    fn gather_tasks_with_filler(&self, tasks: &mut Vec<Task>, slots: &Vec<Placement>, impossible: bool)
        requires
            self.wf(),
            forall|i: int| 0 <= i < slots.len() ==> (#[trigger] slots@[i]).1.wf(),
            slots.len() < usize::MAX / 2,
            placements_near(self.day_spec(), placement_models(slots@)),
        ensures
            task_models(final(tasks)@) == task_models(old(tasks)@) + filler_spec(
                self.flex(),
                sorted_placements(placement_models(slots@)),
                self.day_spec(),
                impossible,
            ),
    {
        let ghost ds = self.day_spec();
        proof {
            assert(day_start_of(ds) == ds);
        }
        let mut current = self.day.start_of_day();
        let mut filler_offset: usize = 0;
        let sorted = Self::sorted_slots(slots);
        let ghost sorted_model = sorted@.map_values(|p: (usize, DateTimeRange)| (p.0, range_secs(p.1)));
        let ghost base = task_models(tasks@);
        let mut idx: usize = 0;
        while idx < sorted.len()
            invariant
                self.wf(),
                ds == self.day_spec(),
                idx <= sorted.len(),
                sorted.len() == slots.len(),
                slots.len() < usize::MAX / 2,
                current.wf(),
                sorted_model == sorted@.map_values(|p: (usize, DateTimeRange)| (p.0, range_secs(p.1))),
                forall|i: int| 0 <= i < sorted.len() ==> (#[trigger] sorted@[i]).1.wf(),
                ({
                    let st = filler_state(self.flex(), sorted_model, ds, impossible, idx as nat);
                    &&& task_models(tasks@) =~= base + st.0
                    &&& current.secs() == st.1
                    &&& filler_offset == st.2
                }),
                filler_offset <= idx,
                near_day(ds, current.secs()),
                placements_near(ds, placement_models(slots@)),
                forall|i: int| 0 <= i < sorted.len() ==> exists|j: int| 0 <= j < slots.len() && #[trigger] sorted@[i].0 == slots@[j].0 && sorted@[i].1 == slots@[j].1,
            decreases sorted.len() - idx,
        {
            let (position, range) = sorted[idx];
            proof {
                lemma_filler_offset(self.flex(), sorted_model, ds, impossible, idx as nat);
                assert(sorted_model[idx as int].1 == range_secs(range));
                let j = choose|j: int| 0 <= j < slots.len() && sorted@[idx as int].0 == slots@[j].0 && sorted@[idx as int].1 == slots@[j].1;
                assert(placement_models(slots@)[j].1 == range_secs(range));
            }
            if current.timestamp() < range.start().timestamp() {
                proof {
                    lemma_near_span(ds, current.secs(), range.start_spec().secs());
                }
                let span = current.span_by(range.start());
                proof {
                    let c = current.secs();
                    let s = range.start_spec().secs();
                    assert(c + ((s - c) / 3600) * 3600 == s) by (nonlinear_arith)
                        requires
                            c % 3600 == 0,
                            s % 3600 == 0,
                            c < s,
                    ;
                }
                let ghost before = tasks@;
                let t = Self::free_task_of(idx + filler_offset, &current, span);
                tasks.push(t);
                assert(task_models(tasks@) =~= task_models(before).push(t@));
                filler_offset = filler_offset + 1;
            }
            current = *range.end();
            let ghost before = tasks@;
            match self.goal_task_of(idx + filler_offset, position, &range, impossible) {
                Some(t) => {
                    tasks.push(t);
                    assert(task_models(tasks@) =~= task_models(before).push(t@));
                },
                None => {},
            }
            idx = idx + 1;
        }
        let end_of_day = self.day.end_of_day();
        if current.timestamp() < end_of_day.timestamp() {
            proof {
                lemma_near_span(ds, current.secs(), end_of_day.secs());
            }
            let span = current.span_by(&end_of_day);
            proof {
                let c = current.secs();
                let s = end_of_day.secs();
                assert(c + ((s - c) / 3600) * 3600 == s) by (nonlinear_arith)
                    requires
                        c % 3600 == 0,
                        s % 3600 == 0,
                        c < s,
                ;
            }
            let ghost before = tasks@;
            let t = Self::free_task_of(sorted.len() + filler_offset, &current, span);
            tasks.push(t);
            assert(task_models(tasks@) =~= task_models(before).push(t@));
        }
    }

    /// The day's schedule: the placed goals with free time between them, and the
    /// goals that could not be placed, each in the order of their start.
    pub fn result(&self) -> (r: FinalTasks)
        requires
            self.wf(),
            self.scheduled_spec().len() < usize::MAX / 2,
            placements_near(self.day_spec(), self.scheduled_spec()),
        ensures
            r.scheduled.len() == 1,
            r.impossible.len() == 1,
            r.scheduled@[0].day == day_number_of(self.day_spec()),
            r.impossible@[0].day == day_number_of(self.day_spec()),
            task_models(r.scheduled@[0].tasks@) == filler_spec(
                self.flex(),
                sorted_placements(self.scheduled_spec()),
                self.day_spec(),
                false,
            ),
            task_models(r.impossible@[0].tasks@) == gather_spec(
                self.flex(),
                sorted_placements(self.impossible_spec()),
                true,
                self.impossible_spec().len(),
            ),
    {
        let mut tasks: Vec<Task> = Vec::new();
        self.gather_tasks_with_filler(&mut tasks, &self.scheduled, false);
        let mut impossible_tasks: Vec<Task> = Vec::new();
        self.gather_tasks(&mut impossible_tasks, &self.impossible, true);
        let day = day_number(self.day.timestamp());
        proof {
            assert(task_models(Seq::<Task>::empty()) =~= Seq::empty());
        }
        FinalTasks {
            scheduled: vec![DayTasks { day, tasks }],
            impossible: vec![DayTasks { day, tasks: impossible_tasks }],
        }
    }
}

proof fn lemma_sort_keeps_range_wf(s: Seq<(i64, (usize, DateTimeRange))>)
    requires
        forall|k: int| 0 <= k < s.len() ==> (#[trigger] s[k]).1.1.wf(),
    ensures
        forall|k: int| 0 <= k < sort_keyed(s).len() ==> (#[trigger] sort_keyed(s)[k]).1.1.wf(),
        sort_keyed(s).len() == s.len(),
    decreases s.len(),
{
    if s.len() > 0 {
        lemma_sort_keeps_range_wf(s.drop_last());
        lemma_insert_keeps_range_wf(sort_keyed(s.drop_last()), s.last());
    }
}

proof fn lemma_insert_keeps_range_wf(s: Seq<(i64, (usize, DateTimeRange))>, x: (i64, (usize, DateTimeRange)))
    requires
        forall|k: int| 0 <= k < s.len() ==> (#[trigger] s[k]).1.1.wf(),
        x.1.1.wf(),
    ensures
        forall|k: int| 0 <= k < crate::sorting::insert_keyed(s, x).len() ==> (
        #[trigger] crate::sorting::insert_keyed(s, x)[k]).1.1.wf(),
        crate::sorting::insert_keyed(s, x).len() == s.len() + 1,
    decreases s.len(),
{
    if s.len() > 0 && !(s.last().0 <= x.0) {
        lemma_insert_keeps_range_wf(s.drop_last(), x);
    }
}

proof fn lemma_contains_push(s: Seq<usize>, x: usize, y: usize)
    ensures
        s.push(x).contains(y) == (s.contains(y) || x == y),
{
    let t = s.push(x);
    assert(t[s.len() as int] == x);
    if s.contains(y) {
        let w = choose|w: int| 0 <= w < s.len() && s[w] == y;
        assert(t[w] == y);
    }
    if t.contains(y) && x != y {
        let w = choose|w: int| 0 <= w < t.len() && t[w] == y;
        assert(w < s.len());
        assert(s[w] == y);
    }
}

/// The days as text, each day's hours one line (see `seats_text`), lines apart.
pub open spec fn days_text(days: Seq<Seq<bool>>) -> Seq<char>
    decreases days.len(),
{
    if days.len() == 0 {
        Seq::empty()
    } else if days.len() == 1 {
        seats_text(days[0])
    } else {
        days_text(days.drop_last()) + seq!['\n'] + seats_text(days.last())
    }
}

impl Calendar {
    /// The calendar as text: the day of each goal, one line per goal, in order.
    pub fn to_text(&self) -> (r: String)
        ensures
            r@ == days_text(self.flex().map_values(|f: FlexModel| f.occupied)),
    {
        let ghost occs = self.flex().map_values(|f: FlexModel| f.occupied);
        let mut out = String::new();
        let mut i: usize = 0;
        while i < self.flexibilities.len()
            invariant
                i <= self.flexibilities.len(),
                occs == self.flex().map_values(|f: FlexModel| f.occupied),
                occs.len() == self.flexibilities.len(),
                out@ == days_text(occs.take(i as int)),
            decreases self.flexibilities.len() - i,
        {
            proof {
                reveal_strlit("\n");
            }
            let ghost before = out@;
            if i > 0 {
                out.append("\n");
            }
            let line = self.flexibilities[i].day.to_text();
            out.append(line.as_str());
            proof {
                assert(occs[i as int] == self.flexibilities@[i as int].day.occupied());
                assert(occs.take(i + 1).drop_last() =~= occs.take(i as int));
                assert(occs.take(i + 1).last() == occs[i as int]);
                if i == 0 {
                    assert(occs.take(1)[0] == occs[0]);
                    assert(out@ =~= days_text(occs.take(1)));
                } else {
                    assert(out@ =~= days_text(occs.take(i + 1)));
                }
            }
            i = i + 1;
        }
        proof {
            assert(occs.take(i as int) =~= occs);
        }
        out
    }
}

} // verus!
