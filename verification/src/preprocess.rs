use vstd::prelude::*;
use vstd::string::StringExecFns;
use crate::budget::texts;
use crate::goal::{Budget, Goal, Repetition, Tag};
use crate::slot::Slot;
use crate::step::{clone_opt_strings, clone_slots, clone_strings, clone_tags, opt_seq};
use crate::timing::{Day, TimeFilter};
use crate::steps_sorting::{find_goal, first_goal};

verus! {

/// The decimal digit of `d` (below ten).
pub open spec fn digit_char(d: int) -> char {
    if d == 0 {
        '0'
    } else if d == 1 {
        '1'
    } else if d == 2 {
        '2'
    } else if d == 3 {
        '3'
    } else if d == 4 {
        '4'
    } else if d == 5 {
        '5'
    } else if d == 6 {
        '6'
    } else if d == 7 {
        '7'
    } else if d == 8 {
        '8'
    } else {
        '9'
    }
}

/// The decimal writing of `n`, without leading zeros.
pub open spec fn decimal(n: nat) -> Seq<char>
    decreases n,
{
    if n < 10 {
        seq![digit_char(n as int)]
    } else {
        decimal(n / 10) + seq![digit_char((n % 10) as int)]
    }
}

/// The text of one decimal digit.
fn digit_text(d: usize) -> (r: &'static str)
    requires
        d < 10,
    ensures
        r@ == seq![digit_char(d as int)],
{
    if d == 0 {
        proof { reveal_strlit("0"); }
        "0"
    } else if d == 1 {
        proof { reveal_strlit("1"); }
        "1"
    } else if d == 2 {
        proof { reveal_strlit("2"); }
        "2"
    } else if d == 3 {
        proof { reveal_strlit("3"); }
        "3"
    } else if d == 4 {
        proof { reveal_strlit("4"); }
        "4"
    } else if d == 5 {
        proof { reveal_strlit("5"); }
        "5"
    } else if d == 6 {
        proof { reveal_strlit("6"); }
        "6"
    } else if d == 7 {
        proof { reveal_strlit("7"); }
        "7"
    } else if d == 8 {
        proof { reveal_strlit("8"); }
        "8"
    } else {
        proof { reveal_strlit("9"); }
        "9"
    }
}

/// Appends the decimal writing of `n` to `s`.
pub fn push_decimal(s: &mut String, n: usize)
    ensures
        final(s)@ == old(s)@ + decimal(n as nat),
    decreases n,
{
    if n >= 10 {
        push_decimal(s, n / 10);
    }
    let d = digit_text(n % 10);
    s.append(d);
    proof {
        if n >= 10 {
            assert(decimal(n as nat) == decimal((n / 10) as nat) + seq![digit_char((n % 10) as int)]);
        }
    }
}

/// What a time filter says, its lists as sequences.
pub struct FilterRecord {
    pub after_time: Option<usize>,
    pub before_time: Option<usize>,
    pub on_days: Option<Seq<Day>>,
    pub not_on: Option<Seq<Slot>>,
}

/// The sequence of an optional vector.
pub open spec fn opt_items<T>(v: Option<Vec<T>>) -> Option<Seq<T>> {
    match v {
        Some(v) => Some(v@),
        None => None,
    }
}

/// The texts of an optional list of strings.
pub open spec fn opt_texts(v: Option<Vec<String>>) -> Option<Seq<Seq<char>>> {
    match opt_seq(v) {
        Some(s) => Some(texts(s)),
        None => None,
    }
}

/// What a time filter says.
pub open spec fn filter_record(f: TimeFilter) -> FilterRecord {
    FilterRecord {
        after_time: f.after_time,
        before_time: f.before_time,
        on_days: opt_items(f.on_days),
        not_on: opt_items(f.not_on),
    }
}

/// What a goal says, its texts as character sequences and its lists as sequences.
pub struct GoalRecord {
    pub id: Seq<char>,
    pub title: Seq<char>,
    pub min_duration: Option<usize>,
    pub start: Option<i64>,
    pub deadline: Option<i64>,
    pub repeat: Option<Repetition>,
    pub filters: Option<FilterRecord>,
    pub children: Option<Seq<Seq<char>>>,
    pub budgets: Option<Seq<Budget>>,
    pub tags: Seq<Tag>,
    pub after_goals: Option<Seq<Seq<char>>>,
}

/// What a goal says.
pub open spec fn goal_record(g: Goal) -> GoalRecord {
    GoalRecord {
        id: g.id@,
        title: g.title@,
        min_duration: g.min_duration,
        start: g.start,
        deadline: g.deadline,
        repeat: g.repeat,
        filters: match g.filters {
            Some(f) => Some(filter_record(f)),
            None => None,
        },
        children: opt_texts(g.children),
        budgets: opt_items(g.budgets),
        tags: g.tags@,
        after_goals: opt_texts(g.after_goals),
    }
}

/// What each goal of a list says.
pub open spec fn records(goals: Seq<Goal>) -> Seq<GoalRecord> {
    goals.map_values(|g: Goal| goal_record(g))
}

/// A copy of a vector of plain values.
pub fn copy_items<T: Copy>(v: &Vec<T>) -> (r: Vec<T>)
    ensures
        r@ == v@,
{
    let mut r: Vec<T> = Vec::new();
    let mut i: usize = 0;
    while i < v.len()
        invariant
            i <= v@.len(),
            r@ == v@.take(i as int),
        decreases v@.len() - i,
    {
        r.push(v[i]);
        proof {
            assert(v@.take(i + 1) =~= v@.take(i as int).push(v@[i as int]));
        }
        i += 1;
    }
    proof {
        assert(v@.take(v@.len() as int) =~= v@);
    }
    r
}

/// A copy of a time filter.
fn duplicate_filter(f: &TimeFilter) -> (r: TimeFilter)
    ensures
        filter_record(r) == filter_record(*f),
{
    TimeFilter {
        after_time: f.after_time,
        before_time: f.before_time,
        on_days: match &f.on_days {
            Some(days) => Some(copy_items(days)),
            None => None,
        },
        not_on: match &f.not_on {
            Some(slots) => Some(clone_slots(slots)),
            None => None,
        },
    }
}

impl Goal {
    /// A copy of the goal.
    pub fn duplicate(&self) -> (r: Goal)
        ensures
            goal_record(r) == goal_record(*self),
            r.id == self.id,
            r.title == self.title,
            r.min_duration == self.min_duration,
            r.start == self.start,
            r.deadline == self.deadline,
            r.repeat == self.repeat,
            r.tags@ == self.tags@,
            opt_seq(r.children) == opt_seq(self.children),
            opt_seq(r.after_goals) == opt_seq(self.after_goals),
    {
        let children = clone_opt_strings(&self.children);
        let after_goals = clone_opt_strings(&self.after_goals);
        Goal {
            id: self.id.clone(),
            title: self.title.clone(),
            min_duration: self.min_duration,
            start: self.start,
            deadline: self.deadline,
            repeat: self.repeat,
            filters: match &self.filters {
                Some(f) => Some(duplicate_filter(f)),
                None => None,
            },
            children,
            budgets: match &self.budgets {
                Some(b) => Some(copy_items(b)),
                None => None,
            },
            tags: clone_tags(&self.tags),
            after_goals,
        }
    }
}

/// The goal with its missing start and deadline taken from the calendar.
pub open spec fn dated(g: Goal, calendar_start: i64, calendar_end: i64) -> Goal {
    Goal {
        start: Some(
            match g.start {
                Some(t) => t,
                None => calendar_start,
            },
        ),
        deadline: Some(
            match g.deadline {
                Some(t) => t,
                None => calendar_end,
            },
        ),
        ..g
    }
}

/// Gives every goal without a start the calendar's start, and every goal without a
/// deadline the calendar's end.
pub fn populate_goal_dates(goals: Vec<Goal>, calendar_start: i64, calendar_end: i64) -> (r: Vec<Goal>)
    ensures
        r@.len() == goals@.len(),
        forall|i: int| 0 <= i < goals@.len() ==> #[trigger] r@[i] == dated(goals@[i], calendar_start, calendar_end),
{
    let mut goals = goals;
    let ghost g0 = goals@;
    let mut i: usize = 0;
    while i < goals.len()
        invariant
            i <= goals.len(),
            goals@.len() == g0.len(),
            forall|k: int| 0 <= k < i ==> #[trigger] goals@[k] == dated(g0[k], calendar_start, calendar_end),
            forall|k: int| i <= k < goals.len() ==> #[trigger] goals@[k] == g0[k],
        decreases goals.len() - i,
    {
        let mut g = goals.remove(i);
        if g.start.is_none() {
            g.start = Some(calendar_start);
        }
        if g.deadline.is_none() {
            g.deadline = Some(calendar_end);
        }
        goals.insert(i, g);
        i = i + 1;
    }
    goals
}

/// Splits a goal into one-hour goals: as many copies as its minimum duration, each
/// with a minimum duration of one hour.
pub fn get_1_hr_goals(goal: Goal) -> (r: Vec<Goal>)
    requires
        goal.min_duration is Some,
    ensures
        r@.len() == goal.min_duration->0,
        forall|i: int|
            0 <= i < r@.len() ==> goal_record(#[trigger] r@[i]) == (GoalRecord {
                min_duration: Some(1usize),
                ..goal_record(goal)
            }),
{
    let mut goals: Vec<Goal> = Vec::new();
    let dur = match goal.min_duration {
        Some(d) => d,
        None => 0,
    };
    let mut n: usize = 0;
    while n < dur
        invariant
            n <= dur,
            dur == goal.min_duration->0,
            goals@.len() == n,
            forall|i: int|
                0 <= i < goals@.len() ==> goal_record(#[trigger] goals@[i]) == (GoalRecord {
                    min_duration: Some(1usize),
                    ..goal_record(goal)
                }),
        decreases dur - n,
    {
        let mut g = goal.duplicate();
        g.min_duration = Some(1);
        goals.push(g);
        n = n + 1;
    }
    goals
}

/// The minimum duration of the first goal with identifier `id` (0 when there is none).
pub open spec fn min_of(goals: Seq<Goal>, id: Seq<char>) -> int {
    match first_goal(goals, id) {
        Some(i) => match goals[i].min_duration {
            Some(d) => d as int,
            None => 0,
        },
        None => 0,
    }
}

/// The minimum durations of the goals named by `children`, added up.
pub open spec fn child_sum(goals: Seq<Goal>, children: Seq<Seq<char>>) -> int
    decreases children.len(),
{
    if children.len() == 0 {
        0
    } else {
        child_sum(goals, children.drop_last()) + min_of(goals, children.last())
    }
}

/// A goal that may get a filler: it has children and no budgets.
pub open spec fn filler_candidate(g: Goal) -> bool {
    g.children is Some && g.budgets is None
}

/// What filling needs of the goals: each goal that may get a filler has a minimum
/// duration, each of its children names a goal with a minimum duration, and those
/// add up to no more than its own.
pub open spec fn fillable(goals: Seq<Goal>) -> bool {
    forall|i: int|
        0 <= i < goals.len() && filler_candidate(#[trigger] goals[i]) ==> {
            let c = texts(goals[i].children->0@);
            &&& goals[i].min_duration is Some
            &&& forall|j: int|
                0 <= j < c.len() ==> (first_goal(goals, #[trigger] c[j]) matches Some(k)
                    && goals[k].min_duration is Some)
            &&& child_sum(goals, c) <= goals[i].min_duration->0
        }
}

/// The hours of a goal that its children leave uncovered (0 for a goal that may not
/// get a filler).
pub open spec fn uncovered(goals: Seq<Goal>, g: Goal) -> int {
    if filler_candidate(g) && g.min_duration is Some {
        g.min_duration->0 - child_sum(goals, texts(g.children->0@))
    } else {
        0
    }
}

/// The text ` filler`.
pub open spec fn filler_suffix() -> Seq<char> {
    seq![' ', 'f', 'i', 'l', 'l', 'e', 'r']
}

/// A goal whose children leave hours uncovered becomes its filler: titled with
/// ` filler`, tagged `Filler`, and lasting the uncovered hours; other goals stay.
pub open spec fn filled(goals: Seq<Goal>, g: Goal) -> GoalRecord {
    if uncovered(goals, g) > 0 {
        GoalRecord {
            title: g.title@ + filler_suffix(),
            min_duration: Some(uncovered(goals, g) as usize),
            tags: g.tags@.push(Tag::Filler),
            ..goal_record(g)
        }
    } else {
        goal_record(g)
    }
}

proof fn lemma_child_sum_prefix(goals: Seq<Goal>, c: Seq<Seq<char>>, k: int)
    requires
        0 <= k <= c.len(),
    ensures
        0 <= child_sum(goals, c.take(k)) <= child_sum(goals, c),
    decreases c.len(),
{
    if c.len() > 0 {
        if k == c.len() {
            assert(c.take(k) =~= c);
            lemma_child_sum_prefix(goals, c.drop_last(), k - 1);
            assert(c.drop_last().take(k - 1) =~= c.drop_last());
        } else {
            lemma_child_sum_prefix(goals, c.drop_last(), k);
            assert(c.drop_last().take(k) =~= c.take(k));
        }
    } else {
        assert(c.take(k) =~= c);
    }
}

/// The hours of goal `i` that its children leave uncovered.
fn uncovered_hours(goals: &Vec<Goal>, i: usize) -> (r: usize)
    requires
        i < goals.len(),
        fillable(goals@),
    ensures
        r == uncovered(goals@, goals@[i as int]),
{
    let g = &goals[i];
    if g.budgets.is_some() {
        return 0;
    }
    let children = match &g.children {
        Some(c) => c,
        None => {
            return 0;
        },
    };
    let min = match g.min_duration {
        Some(d) => d,
        None => {
            return 0;
        },
    };
    let ghost c = texts(children@);
    assert(filler_candidate(goals@[i as int]));
    let mut sum: usize = 0;
    let mut j: usize = 0;
    while j < children.len()
        invariant
            j <= children.len(),
            c == texts(children@),
            fillable(goals@),
            i < goals.len(),
            goals@[i as int].children == Some(*children),
            goals@[i as int].min_duration == Some(min),
            filler_candidate(goals@[i as int]),
            sum == child_sum(goals@, c.take(j as int)),
        decreases children.len() - j,
    {
        let k = match find_goal(goals, &children[j]) {
            Some(k) => k,
            None => {
                assert(c[j as int] == children@[j as int]@);
                assert(false);
                0
            },
        };
        let d = match goals[k].min_duration {
            Some(d) => d,
            None => {
                assert(c[j as int] == children@[j as int]@);
                assert(false);
                0
            },
        };
        proof {
            assert(c[j as int] == children@[j as int]@);
            assert(c.take(j + 1).drop_last() =~= c.take(j as int));
            assert(c.take(j + 1).last() == c[j as int]);
            lemma_child_sum_prefix(goals@, c, j + 1);
        }
        sum = sum + d;
        j = j + 1;
    }
    proof {
        assert(c.take(c.len() as int) =~= c);
    }
    min - sum
}

/// Does goal `i` meet what filling needs of it (see `fillable`)?
fn goal_fillable(goals: &Vec<Goal>, i: usize) -> (r: bool)
    requires
        i < goals.len(),
    ensures
        r == (filler_candidate(goals@[i as int]) ==> {
            let c = texts(goals@[i as int].children->0@);
            &&& goals@[i as int].min_duration is Some
            &&& forall|j: int|
                0 <= j < c.len() ==> (first_goal(goals@, #[trigger] c[j]) matches Some(k)
                    && goals@[k].min_duration is Some)
            &&& child_sum(goals@, c) <= goals@[i as int].min_duration->0
        }),
{
    let g = &goals[i];
    if g.budgets.is_some() {
        return true;
    }
    let children = match &g.children {
        Some(c) => c,
        None => {
            return true;
        },
    };
    let min = match g.min_duration {
        Some(d) => d,
        None => {
            return false;
        },
    };
    let ghost c = texts(children@);
    let mut sum: usize = 0;
    let mut j: usize = 0;
    while j < children.len()
        invariant
            j <= children.len(),
            c == texts(children@),
            i < goals.len(),
            goals@[i as int].children == Some(*children),
            goals@[i as int].budgets is None,
            goals@[i as int].min_duration == Some(min),
            forall|x: int|
                0 <= x < j ==> (first_goal(goals@, #[trigger] c[x]) matches Some(k) && goals@[k].min_duration
                    is Some),
            sum == child_sum(goals@, c.take(j as int)),
        decreases children.len() - j,
    {
        proof {
            assert(c[j as int] == children@[j as int]@);
            assert(c.take(j + 1).drop_last() =~= c.take(j as int));
            assert(c.take(j + 1).last() == c[j as int]);
            lemma_first_goal_range(goals@, c[j as int]);
        }
        let k = match find_goal(goals, &children[j]) {
            Some(k) => k,
            None => {
                proof {
                    let cc = texts(goals@[i as int].children->0@);
                    assert(cc == c);
                    assert(0 <= j < cc.len());
                    assert(first_goal(goals@, cc[j as int]) is None);
                }
                return false;
            },
        };
        let d = match goals[k].min_duration {
            Some(d) => d,
            None => {
                proof {
                    let cc = texts(goals@[i as int].children->0@);
                    assert(cc == c);
                    assert(0 <= j < cc.len());
                    assert(first_goal(goals@, cc[j as int]) == Some(k as int));
                    assert(goals@[k as int].min_duration is None);
                }
                return false;
            },
        };
        let next = match sum.checked_add(d) {
            Some(x) => x,
            None => {
                proof {
                    lemma_child_sum_prefix(goals@, c, j + 1);
                }
                return false;
            },
        };
        if next > min {
            proof {
                lemma_child_sum_prefix(goals@, c, j + 1);
            }
            return false;
        }
        sum = next;
        j = j + 1;
    }
    proof {
        assert(c.take(c.len() as int) =~= c);
    }
    sum <= min
}

/// Do the goals meet what filling needs of them (see `fillable`)?
pub fn goals_fillable(goals: &Vec<Goal>) -> (r: bool)
    ensures
        r == fillable(goals@),
{
    let mut i: usize = 0;
    while i < goals.len()
        invariant
            i <= goals.len(),
            forall|x: int|
                0 <= x < i && filler_candidate(#[trigger] goals@[x]) ==> {
                    let c = texts(goals@[x].children->0@);
                    &&& goals@[x].min_duration is Some
                    &&& forall|j: int|
                        0 <= j < c.len() ==> (first_goal(goals@, #[trigger] c[j]) matches Some(k)
                            && goals@[k].min_duration is Some)
                    &&& child_sum(goals@, c) <= goals@[x].min_duration->0
                },
        decreases goals.len() - i,
    {
        if !goal_fillable(goals, i) {
            return false;
        }
        i = i + 1;
    }
    true
}

/// Gives each goal whose children leave part of its minimum duration uncovered a
/// filler for those hours. The filler keeps the goal's identifier, so in the goal map
/// it takes the goal's place: the goal's title gets ` filler`, its minimum duration
/// becomes the uncovered hours, and it is tagged `Filler`.
pub fn add_filler_goals(goals: &mut Vec<Goal>)
    requires
        fillable(old(goals)@),
    ensures
        final(goals)@.len() == old(goals)@.len(),
        forall|i: int|
            0 <= i < old(goals)@.len() ==> goal_record(#[trigger] final(goals)@[i]) == filled(
                old(goals)@,
                old(goals)@[i],
            ),
{
    let ghost g0 = goals@;
    let mut fillers: Vec<usize> = Vec::new();
    let mut i: usize = 0;
    while i < goals.len()
        invariant
            i <= goals.len(),
            goals@ == g0,
            fillable(g0),
            fillers@.len() == i,
            forall|k: int| 0 <= k < i ==> fillers@[k] == uncovered(g0, #[trigger] g0[k]),
        decreases goals.len() - i,
    {
        let d = uncovered_hours(goals, i);
        fillers.push(d);
        i = i + 1;
    }
    let mut i: usize = 0;
    while i < goals.len()
        invariant
            i <= goals.len(),
            goals@.len() == g0.len(),
            fillers@.len() == g0.len(),
            forall|k: int| 0 <= k < g0.len() ==> fillers@[k] == uncovered(g0, #[trigger] g0[k]),
            forall|k: int| 0 <= k < i ==> goal_record(#[trigger] goals@[k]) == filled(g0, g0[k]),
            forall|k: int| i <= k < goals.len() ==> #[trigger] goals@[k] == g0[k],
        decreases goals.len() - i,
    {
        let d = fillers[i];
        if d > 0 {
            let mut g = goals.remove(i);
            g.title.append(" filler");
            g.min_duration = Some(d);
            g.tags.push(Tag::Filler);
            proof {
                reveal_strlit(" filler");
                assert(g.title@ =~= g0[i as int].title@ + filler_suffix());
                assert(goal_record(g) == filled(g0, g0[i as int]));
            }
            goals.insert(i, g);
        }
        i = i + 1;
    }
}

/// The position of the first record with identifier `id`, if any.
pub open spec fn first_record(s: Seq<GoalRecord>, id: Seq<char>) -> Option<int>
    decreases s.len(),
{
    if s.len() == 0 {
        None
    } else if s[0].id == id {
        Some(0)
    } else {
        match first_record(s.drop_first(), id) {
            Some(i) => Some(i + 1),
            None => None,
        }
    }
}

/// The goal map after inserting `r` under its identifier: it replaces the goal held
/// under that identifier, or else is added at the end.
pub open spec fn upsert(s: Seq<GoalRecord>, r: GoalRecord) -> Seq<GoalRecord> {
    match first_record(s, r.id) {
        Some(i) => s.update(i, r),
        None => s.push(r),
    }
}

/// The goal map after inserting the records of `rs` in order.
pub open spec fn upsert_all(s: Seq<GoalRecord>, rs: Seq<GoalRecord>) -> Seq<GoalRecord>
    decreases rs.len(),
{
    if rs.len() == 0 {
        s
    } else {
        upsert(upsert_all(s, rs.drop_last()), rs.last())
    }
}

proof fn lemma_first_record(s: Seq<GoalRecord>, id: Seq<char>, i: int)
    requires
        0 <= i <= s.len(),
        forall|k: int| 0 <= k < i ==> (#[trigger] s[k]).id != id,
    ensures
        i < s.len() && s[i].id == id ==> first_record(s, id) == Some(i),
        i == s.len() ==> first_record(s, id) is None,
    decreases i,
{
    if i > 0 {
        let rest = s.drop_first();
        assert forall|k: int| 0 <= k < i - 1 implies (#[trigger] rest[k]).id != id by {
            assert(rest[k] == s[k + 1]);
        }
        lemma_first_record(rest, id, i - 1);
        if i < s.len() {
            assert(rest[i - 1] == s[i]);
        }
    }
}

proof fn lemma_upsert_all_append(s: Seq<GoalRecord>, a: Seq<GoalRecord>, b: Seq<GoalRecord>)
    ensures
        upsert_all(s, a + b) == upsert_all(upsert_all(s, a), b),
    decreases b.len(),
{
    if b.len() == 0 {
        assert(a + b =~= a);
    } else {
        assert((a + b).drop_last() =~= a + b.drop_last());
        lemma_upsert_all_append(s, a, b.drop_last());
    }
}

/// Inserts the goal into the goal map under its identifier.
fn upsert_goal(goals: &mut Vec<Goal>, g: Goal)
    ensures
        records(final(goals)@) == upsert(records(old(goals)@), goal_record(g)),
{
    let ghost s0 = records(goals@);
    let mut i: usize = 0;
    while i < goals.len()
        invariant
            i <= goals.len(),
            s0 == records(goals@),
            goals@ == old(goals)@,
            forall|k: int| 0 <= k < i ==> (#[trigger] s0[k]).id != g.id@,
        decreases goals.len() - i,
    {
        if goals[i].id == g.id {
            proof {
                assert(s0[i as int].id == g.id@);
                lemma_first_record(s0, g.id@, i as int);
            }
            let ghost rg = goal_record(g);
            proof {
                assert(rg.id == g.id@);
                assert(first_record(s0, rg.id) == Some(i as int));
                assert(upsert(s0, rg) == s0.update(i as int, rg));
            }
            goals.set(i, g);
            proof {
                assert(records(goals@) =~= s0.update(i as int, rg));
            }
            return;
        }
        i = i + 1;
    }
    proof {
        lemma_first_record(s0, g.id@, i as int);
    }
    goals.push(g);
    proof {
        assert(records(goals@) =~= s0.push(goal_record(g)));
    }
}

/// The text `-repeat-`.
pub open spec fn repeat_suffix() -> Seq<char> {
    seq!['-', 'r', 'e', 'p', 'e', 'a', 't', '-']
}

/// The text `opt-`.
pub open spec fn optional_suffix() -> Seq<char> {
    seq!['o', 'p', 't', '-']
}

/// The goal repeating once a week.
pub open spec fn weekly(r: GoalRecord) -> GoalRecord {
    GoalRecord { repeat: Some(Repetition::Weekly(1)), ..r }
}

/// A goal repeating a flexible number of times a week repeats once a week; others stay.
pub open spec fn relaxed(r: GoalRecord) -> GoalRecord {
    if r.repeat matches Some(Repetition::FlexWeekly(_, _)) {
        weekly(r)
    } else {
        r
    }
}

/// Copy `number` of the weekly goal `m`: a repetition `<id>-repeat-<number>` while
/// `number` is below `min`, an optional one `<id>-repeat-opt-<number>` from there on.
pub open spec fn flex_copy(m: GoalRecord, number: nat, min: nat) -> GoalRecord {
    if number < min {
        GoalRecord { id: m.id + repeat_suffix() + decimal(number), ..m }
    } else {
        GoalRecord {
            id: m.id + repeat_suffix() + optional_suffix() + decimal(number),
            tags: m.tags.push(Tag::Optional),
            ..m
        }
    }
}

/// The copies numbered from 1 up to (not including) `max`.
pub open spec fn flex_copies(m: GoalRecord, min: nat, max: nat) -> Seq<GoalRecord> {
    Seq::new(if max >= 1 { (max - 1) as nat } else { 0 }, |k: int| flex_copy(m, (k + 1) as nat, min))
}

/// The goals that a goal of flexible weekly repetition gives: its copies, then itself
/// repeating once a week; none for another goal.
pub open spec fn flex_goals(r: GoalRecord) -> Seq<GoalRecord> {
    match r.repeat {
        Some(Repetition::FlexWeekly(min, max)) => flex_copies(weekly(r), min as nat, max as nat).push(
            weekly(r),
        ),
        _ => seq![],
    }
}

/// The goals that the goals of `rs` give, in order.
pub open spec fn flex_goals_of(rs: Seq<GoalRecord>) -> Seq<GoalRecord>
    decreases rs.len(),
{
    if rs.len() == 0 {
        seq![]
    } else {
        flex_goals_of(rs.drop_last()) + flex_goals(rs.last())
    }
}

/// The goal map after generating the goals of flexible weekly repetition: every such
/// goal repeats once a week, and the goals generated are inserted (each under its
/// identifier) into a map of their own, which is then merged into the goal map.
pub open spec fn flex_weekly_spec(rs: Seq<GoalRecord>) -> Seq<GoalRecord> {
    upsert_all(rs.map_values(|r: GoalRecord| relaxed(r)), upsert_all(seq![], flex_goals_of(rs)))
}

/// Copy `number` of goal `g` for its flexible weekly repetition.
fn make_flex_copy(g: &Goal, number: usize, min: usize) -> (r: Goal)
    ensures
        goal_record(r) == flex_copy(goal_record(*g), number as nat, min as nat),
{
    let mut t = g.duplicate();
    t.id.append("-repeat-");
    proof {
        reveal_strlit("-repeat-");
    }
    if number < min {
        push_decimal(&mut t.id, number);
    } else {
        t.id.append("opt-");
        proof {
            reveal_strlit("opt-");
        }
        push_decimal(&mut t.id, number);
        t.tags.push(Tag::Optional);
    }
    proof {
        if number < min {
            assert(t.id@ =~= g.id@ + repeat_suffix() + decimal(number as nat));
        } else {
            assert(t.id@ =~= g.id@ + repeat_suffix() + optional_suffix() + decimal(number as nat));
        }
    }
    t
}

/// Generates goals for the goals repeating a flexible number of times a week: a goal
/// of `min` to `max` times a week comes to repeat once a week, and gains copies
/// numbered 1 to `max - 1`, those below `min` as repetitions and the rest as optional
/// ones (see `flex_copy`).
pub fn generate_flex_weekly_goals(goals: &mut Vec<Goal>)
    ensures
        records(final(goals)@) == flex_weekly_spec(records(old(goals)@)),
{
    let ghost g0 = goals@;
    let ghost r0 = records(g0);
    let mut generated: Vec<Goal> = Vec::new();
    let mut i: usize = 0;
    while i < goals.len()
        invariant
            i <= goals.len(),
            goals@.len() == g0.len(),
            r0 == records(g0),
            forall|k: int| 0 <= k < i ==> goal_record(#[trigger] goals@[k]) == relaxed(r0[k]),
            forall|k: int| i <= k < goals.len() ==> #[trigger] goals@[k] == g0[k],
            records(generated@) == upsert_all(seq![], flex_goals_of(r0.take(i as int))),
        decreases goals.len() - i,
    {
        let ghost gen0 = records(generated@);
        proof {
            assert(r0.take(i + 1).drop_last() =~= r0.take(i as int));
            assert(r0.take(i + 1).last() == r0[i as int]);
            assert(goal_record(goals@[i as int]) == r0[i as int]);
        }
        match goals[i].repeat {
            Some(Repetition::FlexWeekly(min, max)) => {
                let mut g = goals.remove(i);
                g.repeat = Some(Repetition::Weekly(1));
                goals.insert(i, g);
                let ghost w = weekly(r0[i as int]);
                assert(goal_record(goals@[i as int]) == w);
                let mut number: usize = 1;
                while number < max
                    invariant
                        1 <= number,
                        number <= max || max == 0,
                        max == 0 ==> number == 1,
                        i < goals.len(),
                        goal_record(goals@[i as int]) == w,
                        records(generated@) == upsert_all(
                            gen0,
                            Seq::new((number - 1) as nat, |k: int| flex_copy(w, (k + 1) as nat, min as nat)),
                        ),
                    decreases max - number,
                {
                    let t = make_flex_copy(&goals[i], number, min);
                    let ghost before = Seq::new((number - 1) as nat, |k: int| flex_copy(w, (k + 1) as nat, min as nat));
                    upsert_goal(&mut generated, t);
                    proof {
                        let after = Seq::new(number as nat, |k: int| flex_copy(w, (k + 1) as nat, min as nat));
                        assert(after.drop_last() =~= before);
                        assert(after.last() == flex_copy(w, number as nat, min as nat));
                    }
                    number = number + 1;
                }
                let ghost copies = Seq::new((number - 1) as nat, |k: int| flex_copy(w, (k + 1) as nat, min as nat));
                proof {
                    assert(number == max || max == 0);
                    let fc = flex_copies(w, min as nat, max as nat);
                    assert(copies.len() == (number - 1) as nat);
                    assert(fc.len() == (if max >= 1 { (max - 1) as nat } else { 0 }));
                    assert(copies.len() == fc.len());
                    assert forall|k: int| 0 <= k < copies.len() implies copies[k] == fc[k] by {
                        assert(copies[k] == flex_copy(w, (k + 1) as nat, min as nat));
                        assert(fc[k] == flex_copy(w, (k + 1) as nat, min as nat));
                    }
                    assert(copies =~= fc);
                }
                upsert_goal(&mut generated, goals[i].duplicate());
                proof {
                    let fl = flex_goals(r0[i as int]);
                    assert(fl == copies.push(w));
                    assert(copies.push(w).drop_last() =~= copies);
                    lemma_upsert_all_append(seq![], flex_goals_of(r0.take(i as int)), fl);
                }
            },
            _ => {
                proof {
                    assert(flex_goals(r0[i as int]) =~= seq![]);
                    assert(flex_goals_of(r0.take(i as int)) + seq![] =~= flex_goals_of(r0.take(i as int)));
                }
            },
        }
        i = i + 1;
    }
    proof {
        assert(r0.take(g0.len() as int) =~= r0);
        assert(records(goals@) =~= r0.map_values(|r: GoalRecord| relaxed(r)));
    }
    let ghost base = records(goals@);
    let ghost gen = records(generated@);
    let mut k: usize = 0;
    while k < generated.len()
        invariant
            k <= generated.len(),
            gen == records(generated@),
            records(goals@) == upsert_all(base, gen.take(k as int)),
        decreases generated.len() - k,
    {
        upsert_goal(goals, generated[k].duplicate());
        proof {
            assert(gen.take(k + 1).drop_last() =~= gen.take(k as int));
            assert(gen.take(k + 1).last() == gen[k as int]);
        }
        k = k + 1;
    }
    proof {
        assert(gen.take(generated.len() as int) =~= gen);
    }
}

proof fn lemma_first_goal_range(goals: Seq<Goal>, id: Seq<char>)
    ensures
        first_goal(goals, id) matches Some(i) ==> 0 <= i < goals.len() && goals[i].id@ == id,
    decreases goals.len(),
{
    if goals.len() > 0 && goals[0].id@ != id {
        lemma_first_goal_range(goals.drop_first(), id);
        match first_goal(goals.drop_first(), id) {
            Some(i) => {
                assert(goals.drop_first()[i] == goals[i + 1]);
            },
            None => {},
        }
    }
}

proof fn lemma_first_goal_same_ids(a: Seq<Goal>, b: Seq<Goal>, id: Seq<char>)
    requires
        a.len() == b.len(),
        forall|i: int| 0 <= i < a.len() ==> (#[trigger] a[i]).id == b[i].id,
    ensures
        first_goal(a, id) == first_goal(b, id),
    decreases a.len(),
{
    if a.len() > 0 {
        assert(a[0].id == b[0].id);
        let (ra, rb) = (a.drop_first(), b.drop_first());
        assert forall|i: int| 0 <= i < ra.len() implies (#[trigger] ra[i]).id == rb[i].id by {
            assert(ra[i] == a[i + 1]);
            assert(rb[i] == b[i + 1]);
        }
        lemma_first_goal_same_ids(ra, rb, id);
    }
}

proof fn lemma_child_sum_same(a: Seq<Goal>, b: Seq<Goal>, c: Seq<Seq<char>>)
    requires
        a.len() == b.len(),
        forall|i: int| 0 <= i < a.len() ==> (#[trigger] a[i]).id == b[i].id && a[i].min_duration == b[i].min_duration,
    ensures
        child_sum(a, c) == child_sum(b, c),
    decreases c.len(),
{
    if c.len() > 0 {
        lemma_child_sum_same(a, b, c.drop_last());
        lemma_first_goal_same_ids(a, b, c.last());
        lemma_first_goal_range(a, c.last());
    }
}

proof fn lemma_dated_fillable(goals: Seq<Goal>, calendar_start: i64, calendar_end: i64)
    requires
        fillable(goals),
    ensures
        fillable(goals.map_values(|g: Goal| dated(g, calendar_start, calendar_end))),
{
    let d = goals.map_values(|g: Goal| dated(g, calendar_start, calendar_end));
    assert forall|i: int| 0 <= i < d.len() implies (#[trigger] d[i]).id == goals[i].id && d[i].min_duration
        == goals[i].min_duration by {}
    assert forall|i: int| 0 <= i < goals.len() implies (#[trigger] goals[i]).id == d[i].id && goals[i].min_duration
        == d[i].min_duration by {}
    assert forall|i: int| 0 <= i < d.len() && filler_candidate(#[trigger] d[i]) implies {
        let c = texts(d[i].children->0@);
        &&& d[i].min_duration is Some
        &&& forall|j: int|
            0 <= j < c.len() ==> (first_goal(d, #[trigger] c[j]) matches Some(k) && d[k].min_duration is Some)
        &&& child_sum(d, c) <= d[i].min_duration->0
    } by {
        assert(d[i] == dated(goals[i], calendar_start, calendar_end));
        assert(filler_candidate(goals[i]));
        let c = texts(d[i].children->0@);
        lemma_child_sum_same(goals, d, c);
        assert forall|j: int| 0 <= j < c.len() implies (first_goal(d, #[trigger] c[j]) matches Some(k)
            && d[k].min_duration is Some) by {
            lemma_first_goal_same_ids(goals, d, c[j]);
            lemma_first_goal_range(goals, c[j]);
        }
    }
}

/// The goals once dated from the calendar, given fillers and given their flexible
/// weekly repetitions.
pub open spec fn manipulated_spec(goals: Seq<Goal>, calendar_start: i64, calendar_end: i64) -> Seq<GoalRecord> {
    let d = goals.map_values(|g: Goal| dated(g, calendar_start, calendar_end));
    flex_weekly_spec(Seq::new(d.len(), |i: int| filled(d, d[i])))
}

/// Prepares the input goals for step generation: dates them from the calendar, adds
/// filler goals and generates the goals of flexible weekly repetitions.
pub fn manipulate_input_goals(goals: Vec<Goal>, calendar_start: i64, calendar_end: i64) -> (r: Vec<Goal>)
    requires
        fillable(goals@),
    ensures
        records(r@) == manipulated_spec(goals@, calendar_start, calendar_end),
{
    let ghost g_in = goals@;
    let ghost d = g_in.map_values(|g: Goal| dated(g, calendar_start, calendar_end));
    let mut goals = populate_goal_dates(goals, calendar_start, calendar_end);
    proof {
        assert(goals@ =~= d);
        lemma_dated_fillable(g_in, calendar_start, calendar_end);
    }
    add_filler_goals(&mut goals);
    proof {
        assert(records(goals@) =~= Seq::new(d.len(), |i: int| filled(d, d[i])));
    }
    generate_flex_weekly_goals(&mut goals);
    goals
}

} // verus!
