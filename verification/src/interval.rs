use vstd::prelude::*;

verus! {

/// A half-open range `[start, end)` of hour positions on a calendar.
#[derive(PartialEq, Eq, Structural, Clone, Copy, Debug)]
pub struct Interval {
    pub start: usize,
    pub end: usize,
}

/// Does the interval hold the position `k`?
pub open spec fn in_interval(i: Interval, k: int) -> bool {
    i.start <= k < i.end
}

/// Does some interval of `s` hold the position `k`?
pub open spec fn covers(s: Seq<Interval>, k: int) -> bool {
    exists|i: int| 0 <= i < s.len() && in_interval(#[trigger] s[i], k)
}

/// `r` lists, in order, the maximal runs of `true` in `hours`.
pub open spec fn is_runs_of(r: Seq<Interval>, hours: Seq<bool>) -> bool {
    &&& forall|i: int|
        #![trigger r[i]]
        0 <= i < r.len() ==> {
            &&& r[i].start < r[i].end <= hours.len()
            &&& forall|k: int| r[i].start <= k < r[i].end ==> hours[k]
            &&& r[i].start == 0 || !hours[r[i].start - 1]
            &&& r[i].end == hours.len() || !hours[r[i].end as int]
        }
    &&& forall|i: int, j: int| 0 <= i < j < r.len() ==> r[i].end < r[j].start
    &&& forall|k: int| 0 <= k < hours.len() && hours[k] ==> covers(r, k)
}

/// No hour before the start of run `i` and after the run before it is compatible.
proof fn lemma_nothing_before_run(r: Seq<Interval>, hours: Seq<bool>, i: int, k: int)
    requires
        is_runs_of(r, hours),
        0 <= i < r.len(),
        0 <= k < hours.len(),
        i == 0 || k >= r[i - 1].end,
        k < r[i].start,
    ensures
        !hours[k],
{
    if hours[k] {
        assert(covers(r, k));
        let j = choose|j: int| 0 <= j < r.len() && in_interval(#[trigger] r[j], k);
        if j < i {
            if j < i - 1 {
                assert(r[j].end < r[i - 1].start);
                assert(r[i - 1].start < r[i - 1].end);
            }
        } else if j > i {
            assert(r[i].end < r[j].start);
            assert(r[i].start < r[i].end);
        }
    }
}

proof fn lemma_runs_agree_upto(a: Seq<Interval>, b: Seq<Interval>, hours: Seq<bool>, n: int)
    requires
        is_runs_of(a, hours),
        is_runs_of(b, hours),
        0 <= n <= a.len(),
        n <= b.len(),
    ensures
        forall|i: int| 0 <= i < n ==> a[i] == b[i],
    decreases n,
{
    if n > 0 {
        lemma_runs_agree_upto(a, b, hours, n - 1);
        let p = n - 1;
        assert(a[p].start < a[p].end && b[p].start < b[p].end);
        if p > 0 {
            assert(a[p - 1] == b[p - 1]);
            assert(a[p - 1].end < a[p].start);
            assert(b[p - 1].end < b[p].start);
        }
        if a[p].start < b[p].start {
            assert(hours[a[p].start as int]);
            lemma_nothing_before_run(b, hours, p, a[p].start as int);
        }
        if b[p].start < a[p].start {
            assert(hours[b[p].start as int]);
            lemma_nothing_before_run(a, hours, p, b[p].start as int);
        }
        if a[p].end < b[p].end {
            assert(hours[a[p].end as int]);
        }
        if b[p].end < a[p].end {
            assert(hours[b[p].end as int]);
        }
    }
}

/// No compatible hour lies after the last run.
proof fn lemma_nothing_after_runs(r: Seq<Interval>, hours: Seq<bool>, k: int)
    requires
        is_runs_of(r, hours),
        0 <= k < hours.len(),
        r.len() > 0 ==> k >= r[r.len() - 1].end,
    ensures
        !hours[k],
{
    if hours[k] {
        assert(covers(r, k));
        let j = choose|j: int| 0 <= j < r.len() && in_interval(#[trigger] r[j], k);
        let l = r.len() - 1;
        if j < l {
            assert(r[j].end < r[l].start);
            assert(r[l].start < r[l].end);
        }
    }
}

/// The maximal runs of compatible hours are determined by the hours: two lists of runs
/// of the same hours are equal, so `reduce` gives one answer for each list of hours.
pub proof fn lemma_runs_unique(a: Seq<Interval>, b: Seq<Interval>, hours: Seq<bool>)
    requires
        is_runs_of(a, hours),
        is_runs_of(b, hours),
    ensures
        a == b,
{
    let m = if a.len() <= b.len() {
        a.len() as int
    } else {
        b.len() as int
    };
    lemma_runs_agree_upto(a, b, hours, m);
    if a.len() > b.len() {
        assert(a[m].start < a[m].end);
        assert(hours[a[m].start as int]);
        if m > 0 {
            assert(a[m - 1] == b[m - 1]);
            assert(a[m - 1].end < a[m].start);
        }
        lemma_nothing_after_runs(b, hours, a[m].start as int);
    }
    if b.len() > a.len() {
        assert(b[m].start < b[m].end);
        assert(hours[b[m].start as int]);
        if m > 0 {
            assert(a[m - 1] == b[m - 1]);
            assert(b[m - 1].end < b[m].start);
        }
        lemma_nothing_after_runs(a, hours, b[m].start as int);
    }
    assert(a =~= b);
}

/// Reduces a list of compatible hours to the intervals of consecutive compatible hours.
pub fn reduce(compatible_hours: &[bool]) -> (result: Vec<Interval>)
    ensures
        is_runs_of(result@, compatible_hours@),
{
    let mut result: Vec<Interval> = vec![];
    let mut start: Option<usize> = None;
    let n = compatible_hours.len();
    let mut index: usize = 0;
    while index < n
        invariant
            n == compatible_hours@.len(),
            index <= n,
            forall|i: int|
                #![trigger result@[i]]
                0 <= i < result@.len() ==> {
                    &&& result@[i].start < result@[i].end < index
                    &&& forall|k: int|
                        result@[i].start <= k < result@[i].end ==> compatible_hours@[k]
                    &&& result@[i].start == 0 || !compatible_hours@[result@[i].start - 1]
                    &&& !compatible_hours@[result@[i].end as int]
                },
            forall|i: int, j: int|
                0 <= i < j < result@.len() ==> result@[i].end < result@[j].start,
            match start {
                Some(s) => {
                    &&& s < index
                    &&& forall|k: int| s <= k < index ==> compatible_hours@[k]
                    &&& s == 0 || !compatible_hours@[s - 1]
                    &&& forall|i: int|
                        0 <= i < result@.len() ==> #[trigger] result@[i].end < s
                },
                None => index == 0 || !compatible_hours@[index - 1],
            },
            forall|k: int|
                0 <= k < index && compatible_hours@[k] ==> covers(result@, k) || (
                start matches Some(s) && s <= k),
        decreases n - index,
    {
        if compatible_hours[index] {
            if start.is_none() {
                start = Some(index);
            }
        } else if let Some(s) = start {
            let ghost old_result = result@;
            result.push(Interval { start: s, end: index });
            assert forall|k: int|
                0 <= k < index + 1 && compatible_hours@[k] implies covers(result@, k) by {
                if covers(old_result, k) {
                    let i = choose|i: int| 0 <= i < old_result.len() && in_interval(
                        #[trigger] old_result[i],
                        k,
                    );
                    assert(result@[i] == old_result[i]);
                } else {
                    assert(in_interval(result@[old_result.len() as int], k));
                }
            }
            start = None;
        }
        index += 1;
    }
    if let Some(s) = start {
        let ghost old_result = result@;
        result.push(Interval { start: s, end: n });
        assert forall|k: int| 0 <= k < n && compatible_hours@[k] implies covers(result@, k) by {
            if covers(old_result, k) {
                let i = choose|i: int| 0 <= i < old_result.len() && in_interval(
                    #[trigger] old_result[i],
                    k,
                );
                assert(result@[i] == old_result[i]);
            } else {
                assert(in_interval(result@[old_result.len() as int], k));
            }
        }
    }
    result
}


/// What is left of `cur` after cutting away, in order, each interval of `b` that overlaps it.
pub open spec fn cut(cur: Interval, b: Seq<Interval>) -> Seq<Interval>
    decreases b.len(),
{
    if b.len() == 0 {
        if cur.start < cur.end {
            seq![cur]
        } else {
            seq![]
        }
    } else {
        let o = b[0];
        if o.start < cur.end && o.end > cur.start {
            let before: Seq<Interval> = if o.start > cur.start {
                seq![Interval { start: cur.start, end: o.start }]
            } else {
                seq![]
            };
            if o.end < cur.end {
                before + cut(Interval { start: o.end, end: cur.end }, b.drop_first())
            } else {
                before
            }
        } else {
            cut(cur, b.drop_first())
        }
    }
}

/// Each interval of `a`, in order, with the intervals of `b` cut away.
pub open spec fn subtract_spec(a: Seq<Interval>, b: Seq<Interval>) -> Seq<Interval>
    decreases a.len(),
{
    if a.len() == 0 {
        seq![]
    } else {
        subtract_spec(a.drop_last(), b) + cut(a.last(), b)
    }
}

/// The intervals are ordered by their start.
pub open spec fn sorted_by_start(b: Seq<Interval>) -> bool {
    forall|i: int, j: int| 0 <= i < j < b.len() ==> b[i].start <= b[j].start
}

/// No interval ends before it starts.
pub open spec fn all_ordered(b: Seq<Interval>) -> bool {
    forall|i: int| 0 <= i < b.len() ==> #[trigger] b[i].start <= b[i].end
}

/// Subtracts every interval of `b` from every interval of `a`.
pub fn subtract_intervals(a: Vec<Interval>, b: &Vec<Interval>) -> (result: Vec<Interval>)
    ensures
        result@ == subtract_spec(a@, b@),
{
    let mut result: Vec<Interval> = Vec::new();
    let mut ai: usize = 0;
    while ai < a.len()
        invariant
            ai <= a@.len(),
            result@ == subtract_spec(a@.take(ai as int), b@),
        decreases a@.len() - ai,
    {
        let interval = a[ai];
        let ghost before = result@;
        let mut current = interval;
        let mut bi: usize = 0;
        let mut done = false;
        proof {
            assert(b@.skip(0) =~= b@);
        }
        while bi < b.len() && !done
            invariant
                bi <= b@.len(),
                before + cut(interval, b@) == if done {
                    result@
                } else {
                    result@ + cut(current, b@.skip(bi as int))
                },
            decreases b@.len() - bi + (if done { 0int } else { 1int }),
        {
            let other_interval = b[bi];
            proof {
                assert(b@.skip(bi as int).drop_first() =~= b@.skip(bi + 1));
                assert(b@.skip(bi as int)[0] == other_interval);
            }
            if other_interval.start < current.end && other_interval.end > current.start {
                if other_interval.start > current.start {
                    result.push(Interval { start: current.start, end: other_interval.start });
                }
                if other_interval.end < current.end {
                    current.start = other_interval.end;
                } else {
                    current.start = current.end;
                    done = true;
                }
            }
            bi += 1;
        }
        if !done {
            proof {
                assert(b@.skip(bi as int).len() == 0);
            }
            if current.start < current.end {
                result.push(current);
            }
        }
        proof {
            assert(a@.take(ai + 1).drop_last() =~= a@.take(ai as int));
            assert(a@.take(ai + 1).last() == interval);
        }
        ai += 1;
    }
    proof {
        assert(a@.take(a@.len() as int) =~= a@);
    }
    result
}


/// A position lies in a concatenation exactly when it lies in one of its parts.
pub proof fn lemma_covers_concat(s1: Seq<Interval>, s2: Seq<Interval>, k: int)
    ensures
        covers(s1 + s2, k) <==> (covers(s1, k) || covers(s2, k)),
{
    let s = s1 + s2;
    if covers(s, k) {
        let i = choose|i: int| 0 <= i < s.len() && in_interval(#[trigger] s[i], k);
        if i < s1.len() {
            assert(s1[i] == s[i]);
        } else {
            assert(s2[i - s1.len()] == s[i]);
        }
    }
    if covers(s1, k) {
        let i = choose|i: int| 0 <= i < s1.len() && in_interval(#[trigger] s1[i], k);
        assert(s[i] == s1[i]);
    }
    if covers(s2, k) {
        let i = choose|i: int| 0 <= i < s2.len() && in_interval(#[trigger] s2[i], k);
        assert(s[i + s1.len()] == s2[i]);
    }
}

/// A position lies in a sequence exactly when it lies in its first element or in the rest.
pub proof fn lemma_covers_first(b: Seq<Interval>, k: int)
    requires
        b.len() > 0,
    ensures
        covers(b, k) <==> (in_interval(b[0], k) || covers(b.drop_first(), k)),
{
    assert(b =~= seq![b[0]] + b.drop_first());
    lemma_covers_concat(seq![b[0]], b.drop_first(), k);
    if covers(seq![b[0]], k) {
        let i = choose|i: int| 0 <= i < 1 && in_interval(#[trigger] seq![b[0]][i], k);
    }
    if in_interval(b[0], k) {
        assert(in_interval(seq![b[0]][0], k));
    }
}

/// Cutting the intervals of `b`, sorted by start, out of `cur` leaves exactly the
/// positions of `cur` that no interval of `b` holds.
pub proof fn lemma_cut_is_difference(cur: Interval, b: Seq<Interval>, k: int)
    requires
        sorted_by_start(b),
        all_ordered(b),
    ensures
        covers(cut(cur, b), k) <==> (in_interval(cur, k) && !covers(b, k)),
    decreases b.len(),
{
    if b.len() == 0 {
        if cur.start < cur.end {
            if in_interval(cur, k) {
                assert(in_interval(seq![cur][0], k));
            }
        }
    } else {
        let o = b[0];
        let rest = b.drop_first();
        assert(sorted_by_start(rest));
        assert(all_ordered(rest)) by {
            assert forall|i: int| 0 <= i < rest.len() implies #[trigger] rest[i].start <= rest[i].end by {
                assert(rest[i] == b[i + 1]);
            }
        }
        lemma_covers_first(b, k);
        if o.start < cur.end && o.end > cur.start {
            let before: Seq<Interval> = if o.start > cur.start {
                seq![Interval { start: cur.start, end: o.start }]
            } else {
                seq![]
            };
            assert(covers(before, k) <==> (o.start > cur.start && cur.start <= k < o.start)) by {
                if covers(before, k) {
                    let i = choose|i: int| 0 <= i < before.len() && in_interval(#[trigger] before[i], k);
                }
                if o.start > cur.start && cur.start <= k < o.start {
                    assert(in_interval(before[0], k));
                }
            }
            if k < o.start {
                assert(!covers(rest, k)) by {
                    if covers(rest, k) {
                        let i = choose|i: int| 0 <= i < rest.len() && in_interval(#[trigger] rest[i], k);
                        assert(rest[i] == b[i + 1]);
                    }
                }
            }
            if o.end < cur.end {
                let next = Interval { start: o.end, end: cur.end };
                lemma_cut_is_difference(next, rest, k);
                lemma_covers_concat(before, cut(next, rest), k);
            }
        } else {
            lemma_cut_is_difference(cur, rest, k);
        }
    }
}

/// Subtracting intervals sorted by start leaves exactly the positions of `a` that
/// no interval of `b` holds.
pub proof fn lemma_subtract_is_difference(a: Seq<Interval>, b: Seq<Interval>, k: int)
    requires
        sorted_by_start(b),
        all_ordered(b),
    ensures
        covers(subtract_spec(a, b), k) <==> (covers(a, k) && !covers(b, k)),
    decreases a.len(),
{
    if a.len() > 0 {
        lemma_subtract_is_difference(a.drop_last(), b, k);
        lemma_cut_is_difference(a.last(), b, k);
        lemma_covers_concat(subtract_spec(a.drop_last(), b), cut(a.last(), b), k);
        assert(a =~= a.drop_last() + seq![a.last()]);
        lemma_covers_concat(a.drop_last(), seq![a.last()], k);
        if covers(seq![a.last()], k) {
            let i = choose|i: int| 0 <= i < 1 && in_interval(#[trigger] seq![a.last()][i], k);
        }
        if in_interval(a.last(), k) {
            assert(in_interval(seq![a.last()][0], k));
        }
    }
}


/// `x` placed into `s` after every interval whose start is not greater than its own.
pub open spec fn stable_insert(s: Seq<Interval>, x: Interval) -> Seq<Interval>
    decreases s.len(),
{
    if s.len() == 0 {
        seq![x]
    } else if s.last().start <= x.start {
        s.push(x)
    } else {
        stable_insert(s.drop_last(), x).push(s.last())
    }
}

/// The intervals of `s` ordered by start, intervals with equal starts keeping their order.
pub open spec fn stable_sort_spec(s: Seq<Interval>) -> Seq<Interval>
    decreases s.len(),
{
    if s.len() == 0 {
        seq![]
    } else {
        stable_insert(stable_sort_spec(s.drop_last()), s.last())
    }
}

/// Merges `cur` with the following intervals of `rest` that start no later than it ends.
pub open spec fn merge_from(cur: Interval, rest: Seq<Interval>) -> Seq<Interval>
    decreases rest.len(),
{
    if rest.len() == 0 {
        seq![cur]
    } else if rest[0].start <= cur.end {
        let end = if rest[0].end > cur.end { rest[0].end } else { cur.end };
        merge_from(Interval { start: cur.start, end }, rest.drop_first())
    } else {
        seq![cur] + merge_from(rest[0], rest.drop_first())
    }
}

/// Merges each run of overlapping or touching intervals of `s`, taken in order.
pub open spec fn merge_spec(s: Seq<Interval>) -> Seq<Interval> {
    if s.len() == 0 {
        seq![]
    } else {
        merge_from(s[0], s.drop_first())
    }
}

/// Sorts the intervals by start; intervals with equal starts keep their order.
pub fn sort_by_start(v: &mut Vec<Interval>)
    ensures
        final(v)@ == stable_sort_spec(old(v)@),
{
    let ghost initial = v@;
    let mut sorted: Vec<Interval> = Vec::new();
    let mut i: usize = 0;
    while i < v.len()
        invariant
            v@ == initial,
            i <= v@.len(),
            sorted@ == stable_sort_spec(initial.take(i as int)),
        decreases v@.len() - i,
    {
        let x = v[i];
        let mut tail: Vec<Interval> = Vec::new();
        while sorted.len() > 0 && sorted[sorted.len() - 1].start > x.start
            invariant
                stable_insert(stable_sort_spec(initial.take(i as int)), x)
                    == stable_insert(sorted@, x) + tail@.reverse(),
            decreases sorted@.len(),
        {
            let ghost s0 = sorted@;
            let last = sorted.pop().unwrap();
            proof {
                assert(s0.drop_last() == sorted@);
                assert(stable_insert(s0, x) == stable_insert(sorted@, x).push(last));
            }
            let ghost t0 = tail@;
            tail.push(last);
            proof {
                assert(tail@.reverse() =~= seq![last] + t0.reverse());
                assert(stable_insert(sorted@, x).push(last) + t0.reverse()
                    =~= stable_insert(sorted@, x) + (seq![last] + t0.reverse()));
            }
        }
        proof {
            assert(stable_insert(sorted@, x) == sorted@.push(x));
        }
        sorted.push(x);
        while tail.len() > 0
            invariant
                stable_insert(stable_sort_spec(initial.take(i as int)), x)
                    == sorted@ + tail@.reverse(),
            decreases tail@.len(),
        {
            let ghost t0 = tail@;
            let y = tail.pop().unwrap();
            proof {
                assert(t0.reverse() =~= seq![y] + tail@.reverse());
                assert(sorted@ + t0.reverse() =~= sorted@.push(y) + tail@.reverse());
            }
            sorted.push(y);
        }
        proof {
            assert(sorted@ + tail@.reverse() =~= sorted@);
            assert(initial.take(i + 1).drop_last() =~= initial.take(i as int));
            assert(initial.take(i + 1).last() == x);
        }
        i += 1;
    }
    proof {
        assert(initial.take(initial.len() as int) =~= initial);
    }
    *v = sorted;
}

/// Sorts the intervals by start and merges those that overlap or touch.
pub fn normalize(intervals: &mut Vec<Interval>)
    ensures
        final(intervals)@ == merge_spec(stable_sort_spec(old(intervals)@)),
{
    sort_by_start(intervals);
    let ghost sorted = intervals@;
    let mut result: Vec<Interval> = Vec::new();
    if intervals.len() > 0 {
        let mut current = intervals[0];
        let mut idx: usize = 1;
        while idx < intervals.len()
            invariant
                intervals@ == sorted,
                1 <= idx <= sorted.len(),
                result@ + merge_from(current, sorted.skip(idx as int)) == merge_spec(sorted),
            decreases sorted.len() - idx,
        {
            let interval = intervals[idx];
            let ghost rest = sorted.skip(idx as int);
            proof {
                assert(rest[0] == interval);
                assert(rest.drop_first() =~= sorted.skip(idx + 1));
            }
            if interval.start <= current.end {
                if interval.end > current.end {
                    current.end = interval.end;
                }
            } else {
                proof {
                    assert(result@ + (seq![current] + merge_from(interval, rest.drop_first()))
                        =~= result@.push(current) + merge_from(interval, rest.drop_first()));
                }
                result.push(current);
                current = interval;
            }
            idx += 1;
        }
        proof {
            assert(sorted.skip(idx as int).len() == 0);
            assert(sorted.skip(1) =~= sorted.drop_first());
        }
        result.push(current);
    }
    *intervals = result;
}

/// Joins the intervals of `b` to those of `a`, then normalizes the whole.
pub fn add_intervals(a: Vec<Interval>, b: Vec<Interval>) -> (result: Vec<Interval>)
    ensures
        result@ == merge_spec(stable_sort_spec(a@ + b@)),
{
    let mut a = a;
    let mut b = b;
    a.append(&mut b);
    normalize(&mut a);
    a
}


/// Each interval ends strictly before the next one starts.
pub open spec fn separated(r: Seq<Interval>) -> bool {
    forall|i: int, j: int| 0 <= i < j < r.len() ==> r[i].end < r[j].start
}

proof fn lemma_insert_keeps(s: Seq<Interval>, x: Interval, p: spec_fn(Interval) -> bool)
    requires
        forall|i: int| 0 <= i < s.len() ==> p(#[trigger] s[i]),
        p(x),
    ensures
        forall|i: int|
            0 <= i < stable_insert(s, x).len() ==> p(#[trigger] stable_insert(s, x)[i]),
        stable_insert(s, x).len() == s.len() + 1,
    decreases s.len(),
{
    if s.len() > 0 && s.last().start > x.start {
        lemma_insert_keeps(s.drop_last(), x, p);
        let r = stable_insert(s.drop_last(), x).push(s.last());
        assert forall|i: int| 0 <= i < r.len() implies p(#[trigger] r[i]) by {
            if i < r.len() - 1 {
                assert(r[i] == stable_insert(s.drop_last(), x)[i]);
            }
        }
    }
}

proof fn lemma_sort_keeps(s: Seq<Interval>, p: spec_fn(Interval) -> bool)
    requires
        forall|i: int| 0 <= i < s.len() ==> p(#[trigger] s[i]),
    ensures
        forall|i: int| 0 <= i < stable_sort_spec(s).len() ==> p(#[trigger] stable_sort_spec(s)[i]),
        stable_sort_spec(s).len() == s.len(),
    decreases s.len(),
{
    if s.len() > 0 {
        assert forall|i: int| 0 <= i < s.drop_last().len() implies p(#[trigger] s.drop_last()[i]) by {
            assert(s.drop_last()[i] == s[i]);
        }
        lemma_sort_keeps(s.drop_last(), p);
        lemma_insert_keeps(stable_sort_spec(s.drop_last()), s.last(), p);
    }
}

proof fn lemma_insert_sorted(s: Seq<Interval>, x: Interval)
    requires
        sorted_by_start(s),
    ensures
        sorted_by_start(stable_insert(s, x)),
    decreases s.len(),
{
    if s.len() > 0 && s.last().start > x.start {
        let t = stable_insert(s.drop_last(), x);
        let b = s.last().start;
        lemma_insert_sorted(s.drop_last(), x);
        lemma_insert_keeps(s.drop_last(), x, |y: Interval| y.start <= b);
        let r = t.push(s.last());
        assert forall|i: int, j: int| 0 <= i < j < r.len() implies r[i].start <= r[j].start by {
            if j == r.len() - 1 {
                assert(r[i] == t[i]);
            } else {
                assert(r[i] == t[i] && r[j] == t[j]);
            }
        }
    }
}

proof fn lemma_sort_sorted(s: Seq<Interval>)
    ensures
        sorted_by_start(stable_sort_spec(s)),
    decreases s.len(),
{
    if s.len() > 0 {
        lemma_sort_sorted(s.drop_last());
        lemma_insert_sorted(stable_sort_spec(s.drop_last()), s.last());
    }
}

proof fn lemma_covers_push(s: Seq<Interval>, x: Interval, k: int)
    ensures
        covers(s.push(x), k) <==> (covers(s, k) || in_interval(x, k)),
{
    assert(s.push(x) =~= s + seq![x]);
    lemma_covers_concat(s, seq![x], k);
    if covers(seq![x], k) {
        let i = choose|i: int| 0 <= i < 1 && in_interval(#[trigger] seq![x][i], k);
    }
    if in_interval(x, k) {
        assert(in_interval(seq![x][0], k));
    }
}

proof fn lemma_insert_covers(s: Seq<Interval>, x: Interval, k: int)
    ensures
        covers(stable_insert(s, x), k) <==> (covers(s, k) || in_interval(x, k)),
    decreases s.len(),
{
    if s.len() == 0 {
        lemma_covers_push(s, x, k);
        assert(s.push(x) =~= seq![x]);
    } else if s.last().start <= x.start {
        lemma_covers_push(s, x, k);
    } else {
        lemma_insert_covers(s.drop_last(), x, k);
        lemma_covers_push(stable_insert(s.drop_last(), x), s.last(), k);
        lemma_covers_push(s.drop_last(), s.last(), k);
        assert(s.drop_last().push(s.last()) =~= s);
    }
}

proof fn lemma_sort_covers(s: Seq<Interval>, k: int)
    ensures
        covers(stable_sort_spec(s), k) <==> covers(s, k),
    decreases s.len(),
{
    if s.len() > 0 {
        lemma_sort_covers(s.drop_last(), k);
        lemma_insert_covers(stable_sort_spec(s.drop_last()), s.last(), k);
        lemma_covers_push(s.drop_last(), s.last(), k);
        assert(s.drop_last().push(s.last()) =~= s);
    }
}

proof fn lemma_merge_from(cur: Interval, rest: Seq<Interval>, k: int)
    requires
        sorted_by_start(rest),
        all_ordered(rest),
        cur.start <= cur.end,
        forall|i: int| 0 <= i < rest.len() ==> cur.start <= #[trigger] rest[i].start,
    ensures
        covers(merge_from(cur, rest), k) <==> (in_interval(cur, k) || covers(rest, k)),
        separated(merge_from(cur, rest)),
        all_ordered(merge_from(cur, rest)),
        merge_from(cur, rest).len() > 0,
        merge_from(cur, rest)[0].start == cur.start,
        forall|i: int|
            0 <= i < merge_from(cur, rest).len() ==> cur.start <= #[trigger] merge_from(
                cur,
                rest,
            )[i].start,
    decreases rest.len(),
{
    if rest.len() == 0 {
        if covers(seq![cur], k) {
            let i = choose|i: int| 0 <= i < 1 && in_interval(#[trigger] seq![cur][i], k);
        }
        if in_interval(cur, k) {
            assert(in_interval(seq![cur][0], k));
        }
    } else {
        let r0 = rest[0];
        let tail = rest.drop_first();
        assert(sorted_by_start(tail));
        assert(all_ordered(tail)) by {
            assert forall|i: int| 0 <= i < tail.len() implies #[trigger] tail[i].start <= tail[i].end by {
                assert(tail[i] == rest[i + 1]);
            }
        }
        assert(r0.start <= r0.end);
        lemma_covers_first(rest, k);
        if r0.start <= cur.end {
            let end = if r0.end > cur.end { r0.end } else { cur.end };
            let merged = Interval { start: cur.start, end };
            assert forall|i: int| 0 <= i < tail.len() implies merged.start <= #[trigger] tail[i].start by {
                assert(tail[i] == rest[i + 1]);
            }
            lemma_merge_from(merged, tail, k);
        } else {
            assert forall|i: int| 0 <= i < tail.len() implies r0.start <= #[trigger] tail[i].start by {
                assert(tail[i] == rest[i + 1]);
            }
            lemma_merge_from(r0, tail, k);
            let m = merge_from(r0, tail);
            let out = seq![cur] + m;
            lemma_covers_concat(seq![cur], m, k);
            if covers(seq![cur], k) {
                let i = choose|i: int| 0 <= i < 1 && in_interval(#[trigger] seq![cur][i], k);
            }
            if in_interval(cur, k) {
                assert(in_interval(seq![cur][0], k));
            }
            assert forall|i: int, j: int| 0 <= i < j < out.len() implies out[i].end < out[j].start by {
                assert(out[j] == m[j - 1]);
                if i > 0 {
                    assert(out[i] == m[i - 1]);
                }
            }
            assert forall|i: int| 0 <= i < out.len() implies #[trigger] out[i].start <= out[i].end by {
                if i > 0 {
                    assert(out[i] == m[i - 1]);
                }
            }
            assert forall|i: int| 0 <= i < out.len() implies cur.start <= #[trigger] out[i].start by {
                if i > 0 {
                    assert(out[i] == m[i - 1]);
                }
            }
        }
    }
}

/// Normalizing intervals that do not end before they start keeps exactly the
/// positions they hold, and yields intervals each ending strictly before the next starts.
pub proof fn lemma_normalize_keeps_positions(s: Seq<Interval>, k: int)
    requires
        all_ordered(s),
    ensures
        covers(merge_spec(stable_sort_spec(s)), k) <==> covers(s, k),
        separated(merge_spec(stable_sort_spec(s))),
        all_ordered(merge_spec(stable_sort_spec(s))),
{
    let t = stable_sort_spec(s);
    lemma_sort_covers(s, k);
    lemma_sort_sorted(s);
    lemma_sort_keeps(s, |y: Interval| y.start <= y.end);
    if t.len() > 0 {
        let rest = t.drop_first();
        assert(sorted_by_start(rest));
        assert(all_ordered(rest)) by {
            assert forall|i: int| 0 <= i < rest.len() implies #[trigger] rest[i].start <= rest[i].end by {
                assert(rest[i] == t[i + 1]);
            }
        }
        assert(t[0].start <= t[0].end);
        assert forall|i: int| 0 <= i < rest.len() implies t[0].start <= #[trigger] rest[i].start by {
            assert(rest[i] == t[i + 1]);
        }
        lemma_merge_from(t[0], rest, k);
        lemma_covers_first(t, k);
    }
}

} // verus!
