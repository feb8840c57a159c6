use vstd::prelude::*;
use crate::slot::{add_spec, covered_by, in_slot, sub_spec, Slot};
use crate::time::{day_start, day_start_of, time_ok, SECS_PER_DAY, TIME_LIMIT};

verus! {

/// Order of slots: by start, then by end.
pub open spec fn slot_lt(a: Slot, b: Slot) -> bool {
    a.start < b.start || (a.start == b.start && a.end < b.end)
}

/// The slots are in strictly increasing order, so none occurs twice.
pub open spec fn strictly_sorted(s: Seq<Slot>) -> bool {
    forall|i: int, j: int| 0 <= i < j < s.len() ==> slot_lt(#[trigger] s[i], #[trigger] s[j])
}

/// Is `a` ordered before `b`?
pub fn slot_less(a: &Slot, b: &Slot) -> (r: bool)
    ensures
        r == slot_lt(*a, *b),
{
    a.start < b.start || (a.start == b.start && a.end < b.end)
}

/// Inserts `s` into the ordered set `slots`; returns whether it was not there yet.
pub fn insert_slot(slots: &mut Vec<Slot>, s: Slot) -> (inserted: bool)
    requires
        strictly_sorted(old(slots)@),
    ensures
        strictly_sorted(final(slots)@),
        forall|x: Slot| final(slots)@.contains(x) <==> (old(slots)@.contains(x) || x == s),
        inserted == !old(slots)@.contains(s),
{
    let mut idx: usize = 0;
    while idx < slots.len() && slot_less(&slots[idx], &s)
        invariant
            idx <= slots@.len(),
            forall|k: int| 0 <= k < idx ==> slot_lt(#[trigger] slots@[k], s),
        decreases slots@.len() - idx,
    {
        idx += 1;
    }
    if idx < slots.len() && slots[idx] == s {
        return false;
    }
    let ghost before = slots@;
    proof {
        assert(!before.contains(s)) by {
            if before.contains(s) {
                let k = choose|k: int| 0 <= k < before.len() && before[k] == s;
                if k < idx {
                    assert(slot_lt(before[k], s));
                } else if k > idx {
                    assert(slot_lt(before[idx as int], before[k]));
                }
            }
        }
    }
    slots.insert(idx, s);
    proof {
        let after = slots@;
        assert forall|i: int, j: int| 0 <= i < j < after.len() implies slot_lt(
            #[trigger] after[i],
            #[trigger] after[j],
        ) by {
            if j < idx {
                assert(after[i] == before[i] && after[j] == before[j]);
            } else if j == idx {
                assert(after[i] == before[i]);
            } else if i == idx {
                assert(after[j] == before[j - 1]);
                if j - 1 > idx {
                    assert(slot_lt(before[idx as int], before[j - 1]));
                }
            } else if i < idx {
                assert(after[i] == before[i] && after[j] == before[j - 1]);
            } else {
                assert(after[i] == before[i - 1] && after[j] == before[j - 1]);
            }
        }
        assert forall|x: Slot| after.contains(x) <==> (before.contains(x) || x == s) by {
            if after.contains(x) {
                let k = choose|k: int| 0 <= k < after.len() && after[k] == x;
                if k < idx {
                    assert(before[k] == x);
                } else if k > idx {
                    assert(before[k - 1] == x);
                }
            }
            if before.contains(x) {
                let k = choose|k: int| 0 <= k < before.len() && before[k] == x;
                if k < idx {
                    assert(after[k] == x);
                } else {
                    assert(after[k + 1] == x);
                }
            }
            if x == s {
                assert(after[idx as int] == x);
            }
        }
    }
    true
}

/// A set of slots, kept in order of start then end.
#[derive(PartialEq, Eq, Clone, Debug, Default)]
pub struct Timeline {
    pub slots: Vec<Slot>,
}

impl View for Timeline {
    type V = Set<Slot>;

    open spec fn view(&self) -> Set<Slot> {
        self.slots@.to_set()
    }
}

impl Timeline {
    /// The slots are ordered, unique, and within the supported range of timestamps.
    pub open spec fn wf(&self) -> bool {
        &&& strictly_sorted(self.slots@)
        &&& forall|i: int| 0 <= i < self.slots@.len() ==> (#[trigger] self.slots@[i]).wf()
    }

    /// Creates a new empty timeline.
    pub fn new() -> (t: Timeline)
        ensures
            t.wf(),
            t.slots@ == Seq::<Slot>::empty(),
    {
        Timeline { slots: Vec::new() }
    }

    /// Initializes a timeline holding the one slot `[start, end)`.
    pub fn initialize(start: i64, end: i64) -> (t: Option<Timeline>)
        ensures
            t matches Some(tl) && tl.slots@ == seq![Slot { start, end }],
    {
        let mut slots: Vec<Slot> = Vec::new();
        if insert_slot(&mut slots, Slot { start, end }) {
            proof {
                assert(slots@.len() == 1) by {
                    let x = slots@[0];
                    assert(slots@.contains(x));
                    if slots@.len() > 1 {
                        assert(slot_lt(slots@[0], slots@[1]));
                        assert(slots@.contains(slots@[1]));
                    }
                }
                assert(slots@.contains(slots@[0]));
                assert(slots@ =~= seq![Slot { start, end }]);
            }
            Some(Timeline { slots })
        } else {
            None
        }
    }

    /// The slot at position `index` in order, if there is one.
    pub fn get_slot(&self, index: usize) -> (r: Option<Slot>)
        requires
            strictly_sorted(self.slots@),
        ensures
            r == (if index < self.slots@.len() {
                Some(self.slots@[index as int])
            } else {
                None
            }),
    {
        if index < self.slots.len() {
            Some(self.slots[index])
        } else {
            None
        }
    }
}

/// Collects slots into a timeline: ordered, each slot once.
pub fn collect_slots(slots: Vec<Slot>) -> (t: Timeline)
    ensures
        strictly_sorted(t.slots@),
        forall|x: Slot| t.slots@.contains(x) <==> slots@.contains(x),
{
    let mut out: Vec<Slot> = Vec::new();
    let mut i: usize = 0;
    while i < slots.len()
        invariant
            i <= slots@.len(),
            strictly_sorted(out@),
            forall|x: Slot| out@.contains(x) <==> slots@.take(i as int).contains(x),
        decreases slots@.len() - i,
    {
        let s = slots[i];
        insert_slot(&mut out, s);
        proof {
            let t0 = slots@.take(i as int);
            let t1 = slots@.take(i + 1);
            assert forall|x: Slot| t1.contains(x) <==> (t0.contains(x) || x == s) by {
                if t1.contains(x) {
                    let k = choose|k: int| 0 <= k < t1.len() && t1[k] == x;
                    if k < i {
                        assert(t0[k] == x);
                    }
                }
                if t0.contains(x) {
                    let k = choose|k: int| 0 <= k < t0.len() && t0[k] == x;
                    assert(t1[k] == x);
                }
                if x == s {
                    assert(t1[i as int] == x);
                }
            }
        }
        i += 1;
    }
    proof {
        assert(slots@.take(slots@.len() as int) =~= slots@);
    }
    Timeline { slots: out }
}


/// The slots of `s`, left to right, with each slot that touches the last slot kept so
/// far joined to it by slot addition, and every other slot kept as it is.
pub open spec fn merge_spec(s: Seq<Slot>) -> Seq<Slot>
    decreases s.len(),
{
    if s.len() == 0 {
        s
    } else {
        let r = merge_spec(s.drop_last());
        if r.len() == 0 {
            seq![s.last()]
        } else if add_spec(r.last(), s.last()) != r.last() {
            r.update(r.len() - 1, add_spec(r.last(), s.last()))
        } else {
            r.push(s.last())
        }
    }
}

impl Timeline {
    /// The timeline with each run of consecutive touching slots merged into one slot.
    pub fn get_merged_slots(&self) -> (t: Timeline)
        requires
            strictly_sorted(self.slots@),
        ensures
            t.slots@ == merge_spec(self.slots@),
            strictly_sorted(t.slots@),
    {
        let ghost s = self.slots@;
        let mut merged: Vec<Slot> = Vec::new();
        let mut i: usize = 0;
        while i < self.slots.len()
            invariant
                s == self.slots@,
                strictly_sorted(s),
                i <= s.len(),
                merged@ == merge_spec(s.take(i as int)),
                strictly_sorted(merged@),
                i > 0 ==> merged@.len() > 0 && merged@.last().end == s[i - 1].end
                    && merged@.last().start <= s[i - 1].start,
            decreases s.len() - i,
        {
            let t = self.slots[i];
            let ghost before = merged@;
            proof {
                assert(s.take(i + 1).drop_last() =~= s.take(i as int));
                assert(s.take(i + 1).last() == t);
            }
            if merged.len() == 0 {
                merged.push(t);
                proof {
                    assert(merged@ =~= seq![t]);
                }
            } else {
                let last_index = merged.len() - 1;
                let last = merged[last_index];
                let m = last.add(t);
                proof {
                    assert(i > 0);
                    assert(slot_lt(s[i - 1], t));
                }
                if m != last {
                    merged.set(last_index, m);
                    proof {
                        assert(m == Slot { start: last.start, end: t.end });
                        assert forall|a: int, b: int| 0 <= a < b < merged@.len() implies slot_lt(
                            #[trigger] merged@[a],
                            #[trigger] merged@[b],
                        ) by {
                            assert(merged@[a] == before[a]);
                            if b < last_index {
                                assert(merged@[b] == before[b]);
                            } else {
                                assert(slot_lt(before[a], before[last_index as int]));
                            }
                        }
                    }
                } else {
                    merged.push(t);
                    proof {
                        assert forall|a: int, b: int| 0 <= a < b < merged@.len() implies slot_lt(
                            #[trigger] merged@[a],
                            #[trigger] merged@[b],
                        ) by {
                            assert(merged@[a] == before[a]);
                            if b < before.len() {
                                assert(merged@[b] == before[b]);
                            } else if a < last_index {
                                assert(slot_lt(before[a], before[last_index as int]));
                            }
                        }
                    }
                }
            }
            i = i + 1;
        }
        proof {
            assert(s.take(s.len() as int) =~= s);
        }
        Timeline { slots: merged }
    }
}

proof fn lemma_covered_push(r: Seq<Slot>, t: Slot, x: int)
    ensures
        covered_by(r.push(t), x) <==> (covered_by(r, x) || in_slot(t, x)),
{
    let p = r.push(t);
    if covered_by(p, x) {
        let k = choose|k: int| 0 <= k < p.len() && in_slot(#[trigger] p[k], x);
        if k < r.len() {
            assert(in_slot(r[k], x));
        }
    }
    if covered_by(r, x) {
        let k = choose|k: int| 0 <= k < r.len() && in_slot(#[trigger] r[k], x);
        assert(in_slot(p[k], x));
    }
    if in_slot(t, x) {
        assert(in_slot(p[r.len() as int], x));
    }
}

/// Merging the slots of a timeline keeps every instant it holds and adds none, given
/// slots that do not end before they start.
pub proof fn lemma_merge_keeps_instants(s: Seq<Slot>, x: int)
    requires
        forall|k: int| 0 <= k < s.len() ==> (#[trigger] s[k]).ordered(),
    ensures
        covered_by(merge_spec(s), x) <==> covered_by(s, x),
        forall|k: int| 0 <= k < merge_spec(s).len() ==> (#[trigger] merge_spec(s)[k]).ordered(),
    decreases s.len(),
{
    if s.len() > 0 {
        let s0 = s.drop_last();
        let t = s.last();
        assert forall|k: int| 0 <= k < s0.len() implies (#[trigger] s0[k]).ordered() by {
            assert(s0[k] == s[k]);
        }
        assert(t.ordered()) by {
            assert(t == s[s.len() - 1]);
        }
        lemma_merge_keeps_instants(s0, x);
        assert(s0.push(t) =~= s);
        lemma_covered_push(s0, t, x);
        let r = merge_spec(s0);
        let res = merge_spec(s);
        if r.len() == 0 {
            assert(res =~= Seq::<Slot>::empty().push(t));
            lemma_covered_push(Seq::<Slot>::empty(), t, x);
        } else if add_spec(r.last(), t) != r.last() {
            let h = r.last();
            let m = add_spec(h, t);
            let r0 = r.drop_last();
            assert(h == r[r.len() - 1]);
            assert(r0.push(h) =~= r);
            assert(r0.push(m) =~= res);
            lemma_covered_push(r0, h, x);
            lemma_covered_push(r0, m, x);
            crate::slot::lemma_add_is_union_of_touching(h, t, x);
            assert forall|k: int| 0 <= k < res.len() implies (#[trigger] res[k]).ordered() by {
                if k < r0.len() {
                    assert(res[k] == r[k]);
                }
            }
        } else {
            lemma_covered_push(r, t, x);
            assert forall|k: int| 0 <= k < res.len() implies (#[trigger] res[k]).ordered() by {
                if k < r.len() {
                    assert(res[k] == r[k]);
                }
            }
        }
    }
}

/// Consecutive pieces `[t, t + step)` for `t = start, start + step, ...` while `t < end`;
/// the last piece may reach past `end`.
pub open spec fn pieces(start: int, end: int, step: int) -> Seq<Slot>
    decreases end - start,
{
    if step <= 0 || start >= end {
        seq![]
    } else if start + step >= end {
        seq![Slot { start: start as i64, end: (start + step) as i64 }]
    } else {
        seq![Slot { start: start as i64, end: (start + step) as i64 }] + pieces(
            start + step,
            end,
            step,
        )
    }
}

/// The step used to walk a slot: the interval, or the slot's own length when shorter.
pub open spec fn walk_step(s: Slot, interval: int) -> int {
    if interval > s.end - s.start {
        s.end - s.start
    } else {
        interval
    }
}

/// The pieces of one slot walked by `interval`.
pub open spec fn walk_of(s: Slot, interval: int) -> Seq<Slot> {
    pieces(s.start as int, s.end as int, walk_step(s, interval))
}

/// Walks the slot in steps of `step`.
pub fn walk_slot(slot: Slot, step: i64) -> (r: Vec<Slot>)
    requires
        slot.wf(),
        step <= TIME_LIMIT,
    ensures
        r@ == pieces(slot.start as int, slot.end as int, step as int),
{
    let mut r: Vec<Slot> = Vec::new();
    if step <= 0 {
        return r;
    }
    let mut s = slot.start;
    while s < slot.end
        invariant
            step > 0,
            slot.wf(),
            step <= TIME_LIMIT,
            slot.start <= s,
            s <= slot.end || s == slot.start,
            r@ + pieces(s as int, slot.end as int, step as int) == pieces(
                slot.start as int,
                slot.end as int,
                step as int,
            ),
        decreases slot.end - s,
    {
        let ghost s0 = s;
        r.push(Slot { start: s, end: s + step });
        if s + step >= slot.end {
            proof {
                assert(pieces(s0 as int, slot.end as int, step as int) == seq![
                    Slot { start: s0, end: (s0 + step) as i64 },
                ]);
                assert(pieces(slot.end as int, slot.end as int, step as int) =~= seq![]);
            }
            s = slot.end;
        } else {
            s = s + step;
        }
    }
    proof {
        assert(r@ + seq![] =~= r@);
    }
    r
}

/// Walks the slots of a timeline, one timeline slot at a time, in pieces of
/// the iterator's interval (or of the slot's own length when that is shorter).
#[derive(Debug, Clone)]
pub struct TimelineIterator {
    timeline: Timeline,
    interval: i64,
}

impl TimelineIterator {
    /// The slots still to walk.
    pub closed spec fn remaining(&self) -> Seq<Slot> {
        self.timeline.slots@
    }

    /// The walking interval in seconds.
    pub closed spec fn step(&self) -> int {
        self.interval as int
    }

    /// Iterator over a non-empty timeline with a one-day interval.
    pub fn initialize(timeline: Timeline) -> (it: TimelineIterator)
        requires
            timeline.slots@.len() > 0,
        ensures
            it.remaining() == timeline.slots@,
            it.step() == SECS_PER_DAY,
    {
        TimelineIterator { timeline, interval: SECS_PER_DAY }
    }

    /// Iterator over a non-empty timeline with a custom interval (in seconds).
    pub fn new(timeline: Timeline, interval_duration: i64) -> (it: TimelineIterator)
        requires
            timeline.slots@.len() > 0,
        ensures
            it.remaining() == timeline.slots@,
            it.step() == interval_duration,
    {
        TimelineIterator { timeline, interval: interval_duration }
    }

    /// Iterator over whole calendar days: one slot from the midnight starting the day of
    /// the first slot up to the end of the last slot, walked by one day.
    pub fn new_calendar_day(timeline: Timeline) -> (it: TimelineIterator)
        requires
            timeline.wf(),
            timeline.slots@.len() > 0,
        ensures
            it.remaining() == seq![
                Slot {
                    start: day_start_of(timeline.slots@[0].start as int) as i64,
                    end: timeline.slots@.last().end,
                },
            ],
            it.step() == SECS_PER_DAY,
    {
        let first_slot = timeline.slots[0];
        assert(first_slot.wf());
        let start_date = day_start(first_slot.start);
        let end_date = if timeline.slots.len() == 1 {
            first_slot.end
        } else {
            timeline.slots[timeline.slots.len() - 1].end
        };
        match Timeline::initialize(start_date, end_date) {
            Some(custom_timeline) => TimelineIterator::initialize(custom_timeline),
            None => TimelineIterator::initialize(
                Timeline { slots: vec![Slot { start: start_date, end: end_date }] },
            ),
        }
    }

    /// Takes the first remaining timeline slot and returns its pieces.
    pub fn next(&mut self) -> (r: Option<Vec<Slot>>)
        requires
            forall|i: int|
                0 <= i < old(self).remaining().len() ==> (#[trigger] old(self).remaining()[i]).wf(),
            old(self).step() <= TIME_LIMIT,
        ensures
            final(self).step() == old(self).step(),
            old(self).remaining().len() == 0 ==> r is None && final(self).remaining() == old(
                self,
            ).remaining(),
            old(self).remaining().len() > 0 ==> (r matches Some(w) && w@ == walk_of(
                old(self).remaining()[0],
                old(self).step(),
            ) && final(self).remaining() == old(self).remaining().drop_first()),
    {
        if self.timeline.slots.len() == 0 {
            return None;
        }
        assert(old(self).remaining()[0].wf());
        let slot = self.timeline.slots.remove(0);
        let slot_duration = slot.end - slot.start;
        let step = if self.interval > slot_duration {
            slot_duration
        } else {
            self.interval
        };
        Some(walk_slot(slot, step))
    }
}


/// Does `v` hold the slot `s`?
pub fn contains_slot(v: &Vec<Slot>, s: &Slot) -> (found: bool)
    ensures
        found == v@.contains(*s),
{
    let mut j: usize = 0;
    while j < v.len()
        invariant
            j <= v@.len(),
            forall|k: int| 0 <= k < j ==> v@[k] != *s,
        decreases v@.len() - j,
    {
        if v[j] == *s {
            assert(v@[j as int] == *s);
            return true;
        }
        j += 1;
    }
    false
}

/// The ordered sequence, each slot once, of the slots of a set.
pub open spec fn sorted_of_set(s: Set<Slot>) -> Seq<Slot> {
    choose|q: Seq<Slot>| strictly_sorted(q) && q.to_set() == s
}

/// Two ordered sequences without repetition that hold the same slots are equal.
pub proof fn lemma_sorted_unique(a: Seq<Slot>, b: Seq<Slot>)
    requires
        strictly_sorted(a),
        strictly_sorted(b),
        forall|x: Slot| a.contains(x) <==> b.contains(x),
    ensures
        a == b,
    decreases a.len(),
{
    if a.len() == 0 {
        if b.len() > 0 {
            assert(b.contains(b[0]));
        }
        assert(a =~= b);
    } else if b.len() == 0 {
        assert(a.contains(a[0]));
    } else {
        assert(a.contains(a[0]));
        assert(b.contains(b[0]));
        let ia = choose|i: int| 0 <= i < a.len() && a[i] == b[0];
        let ib = choose|i: int| 0 <= i < b.len() && b[i] == a[0];
        if ia > 0 {
            assert(slot_lt(a[0], a[ia]));
            if ib > 0 {
                assert(slot_lt(b[0], b[ib]));
            }
        }
        assert(a[0] == b[0]);
        let ta = a.drop_first();
        let tb = b.drop_first();
        assert forall|x: Slot| ta.contains(x) <==> tb.contains(x) by {
            if ta.contains(x) {
                let i = choose|i: int| 0 <= i < ta.len() && ta[i] == x;
                assert(a[i + 1] == x);
                assert(slot_lt(a[0], a[i + 1]));
                assert(b.contains(x));
                let j = choose|j: int| 0 <= j < b.len() && b[j] == x;
                assert(j != 0);
                assert(tb[j - 1] == x);
            }
            if tb.contains(x) {
                let i = choose|i: int| 0 <= i < tb.len() && tb[i] == x;
                assert(b[i + 1] == x);
                assert(slot_lt(b[0], b[i + 1]));
                assert(a.contains(x));
                let j = choose|j: int| 0 <= j < a.len() && a[j] == x;
                assert(j != 0);
                assert(ta[j - 1] == x);
            }
        }
        lemma_sorted_unique(ta, tb);
        assert(a =~= seq![a[0]] + ta);
        assert(b =~= seq![b[0]] + tb);
    }
}

/// An ordered sequence without repetition is the ordered form of its own set.
pub proof fn lemma_is_sorted_of_set(q: Seq<Slot>)
    requires
        strictly_sorted(q),
    ensures
        sorted_of_set(q.to_set()) == q,
{
    let c = sorted_of_set(q.to_set());
    assert(strictly_sorted(c) && c.to_set() == q.to_set());
    assert forall|x: Slot| c.contains(x) <==> q.contains(x) by {
        assert(c.to_set().contains(x) == c.contains(x));
        assert(q.to_set().contains(x) == q.contains(x));
    }
    lemma_sorted_unique(c, q);
}

/// `x` placed into the ordered sequence `q` after every slot that comes before it.
pub open spec fn insert_in_order(q: Seq<Slot>, x: Slot) -> Seq<Slot>
    decreases q.len(),
{
    if q.len() == 0 {
        seq![x]
    } else if slot_lt(q.last(), x) {
        q.push(x)
    } else {
        insert_in_order(q.drop_last(), x).push(q.last())
    }
}

proof fn lemma_insert_in_order(q: Seq<Slot>, x: Slot)
    requires
        strictly_sorted(q),
        !q.contains(x),
    ensures
        strictly_sorted(insert_in_order(q, x)),
        insert_in_order(q, x).to_set() == q.to_set().insert(x),
        forall|y: Slot| #[trigger] insert_in_order(q, x).contains(y) <==> (q.contains(y) || y == x),
    decreases q.len(),
{
    let r = insert_in_order(q, x);
    if q.len() == 0 {
        assert(r =~= seq![x]);
        assert(r.to_set() =~= q.to_set().insert(x)) by {
            assert forall|y: Slot| r.to_set().contains(y) <==> q.to_set().insert(x).contains(y) by {
                if r.contains(y) {
                    assert(r[0] == y);
                }
                if y == x {
                    assert(r[0] == x);
                }
            }
        }
    } else if slot_lt(q.last(), x) {
        assert forall|i: int, j: int| 0 <= i < j < r.len() implies slot_lt(#[trigger] r[i], #[trigger] r[j]) by {
            if j == q.len() {
                if i < q.len() - 1 {
                    assert(slot_lt(q[i], q[q.len() - 1]));
                }
            } else {
                assert(r[i] == q[i] && r[j] == q[j]);
            }
        }
        assert forall|y: Slot| r.contains(y) <==> (q.contains(y) || y == x) by {
            if r.contains(y) {
                let k = choose|k: int| 0 <= k < r.len() && r[k] == y;
                if k < q.len() {
                    assert(q[k] == y);
                }
            }
            if q.contains(y) {
                let k = choose|k: int| 0 <= k < q.len() && q[k] == y;
                assert(r[k] == y);
            }
            if y == x {
                assert(r[q.len() as int] == x);
            }
        }
        assert(r.to_set() =~= q.to_set().insert(x));
    } else {
        let l = q.last();
        let q0 = q.drop_last();
        assert(strictly_sorted(q0)) by {
            assert forall|i: int, j: int| 0 <= i < j < q0.len() implies slot_lt(#[trigger] q0[i], #[trigger] q0[j]) by {
                assert(q0[i] == q[i] && q0[j] == q[j]);
            }
        }
        assert(!q0.contains(x)) by {
            if q0.contains(x) {
                let k = choose|k: int| 0 <= k < q0.len() && q0[k] == x;
                assert(q[k] == x);
            }
        }
        assert(l == q[q.len() - 1]);
        assert(l != x) by {
            assert(q.contains(l));
        }
        assert(slot_lt(x, l));
        lemma_insert_in_order(q0, x);
        let m = insert_in_order(q0, x);
        assert(r == m.push(l));
        assert forall|y: Slot| m.contains(y) implies slot_lt(y, l) by {
            if q0.contains(y) {
                let k = choose|k: int| 0 <= k < q0.len() && q0[k] == y;
                assert(q[k] == y);
                assert(slot_lt(q[k], q[q.len() - 1]));
            }
        }
        assert forall|i: int, j: int| 0 <= i < j < r.len() implies slot_lt(#[trigger] r[i], #[trigger] r[j]) by {
            if j == m.len() {
                assert(m.contains(m[i]));
            } else {
                assert(r[i] == m[i] && r[j] == m[j]);
            }
        }
        assert forall|y: Slot| r.contains(y) <==> (q.contains(y) || y == x) by {
            if r.contains(y) {
                let k = choose|k: int| 0 <= k < r.len() && r[k] == y;
                if k < m.len() {
                    assert(m[k] == y);
                    assert(m.contains(y));
                    if q0.contains(y) {
                        let k2 = choose|k2: int| 0 <= k2 < q0.len() && q0[k2] == y;
                        assert(q[k2] == y);
                    }
                } else {
                    assert(y == l);
                    assert(q.contains(l));
                }
            }
            if q.contains(y) {
                let k = choose|k: int| 0 <= k < q.len() && q[k] == y;
                if k < q.len() - 1 {
                    assert(q0[k] == y);
                    assert(m.contains(y));
                    let k2 = choose|k2: int| 0 <= k2 < m.len() && m[k2] == y;
                    assert(r[k2] == y);
                } else {
                    assert(r[m.len() as int] == y);
                }
            }
            if y == x {
                assert(m.contains(x));
                let k2 = choose|k2: int| 0 <= k2 < m.len() && m[k2] == x;
                assert(r[k2] == x);
            }
        }
        assert(r.to_set() =~= q.to_set().insert(x));
    }
}

/// Every finite set of slots has its ordered form: `sorted_of_set` gives an ordered
/// sequence, each slot once, holding exactly the slots of the set.
pub proof fn lemma_sorted_of_set(s: Set<Slot>)
    requires
        s.finite(),
    ensures
        strictly_sorted(sorted_of_set(s)),
        sorted_of_set(s).to_set() == s,
        forall|y: Slot| #[trigger] sorted_of_set(s).contains(y) <==> s.contains(y),
    decreases s.len(),
{
    if s.len() == 0 {
        assert(s =~= Set::<Slot>::empty());
        let e = Seq::<Slot>::empty();
        assert(e.to_set() =~= s);
        assert(strictly_sorted(e));
    } else {
        let x = s.choose();
        let s0 = s.remove(x);
        lemma_sorted_of_set(s0);
        let q0 = sorted_of_set(s0);
        assert(!q0.contains(x));
        lemma_insert_in_order(q0, x);
        assert(insert_in_order(q0, x).to_set() =~= s);
    }
    let q = sorted_of_set(s);
    assert forall|y: Slot| q.contains(y) <==> s.contains(y) by {
        assert(q.to_set().contains(y) == q.contains(y));
    }
}

/// The first slot of `s` that contains `f`, if any.
pub open spec fn first_container(s: Seq<Slot>, f: Slot) -> Option<Slot>
    decreases s.len(),
{
    if s.len() == 0 {
        None
    } else if s[0].start <= f.start && f.end <= s[0].end {
        Some(s[0])
    } else {
        first_container(s.drop_first(), f)
    }
}

/// The slots of `s` after cutting `f` out of the first slot that contains it.
pub open spec fn cut_out(s: Seq<Slot>, f: Slot) -> Seq<Slot> {
    match first_container(s, f) {
        None => s,
        Some(m) => sorted_of_set(s.to_set().remove(m).union(sub_spec(m, f).to_set())),
    }
}

/// The slots of `s` after cutting out each slot of `r` in turn.
pub open spec fn cut_out_all(s: Seq<Slot>, r: Seq<Slot>) -> Seq<Slot>
    decreases r.len(),
{
    if r.len() == 0 {
        s
    } else {
        cut_out_all(cut_out(s, r[0]), r.drop_first())
    }
}

/// No two different slots of `s` share an instant: one ends before the other starts.
pub open spec fn apart(s: Seq<Slot>) -> bool {
    forall|a: Slot, b: Slot|
        #[trigger] s.contains(a) && #[trigger] s.contains(b) && a != b ==> a.end <= b.start || b.end
            <= a.start
}

/// No slot of `s` ends before it starts.
pub open spec fn all_ordered(s: Seq<Slot>) -> bool {
    forall|a: Slot| #[trigger] s.contains(a) ==> a.start <= a.end
}

/// Some slot of `s` holds all of `g`.
pub open spec fn lies_within(g: Slot, s: Seq<Slot>) -> bool {
    exists|a: Slot| #[trigger] s.contains(a) && a.start <= g.start && g.end <= a.end
}

/// No instant of `g` is held by a slot of `s`.
pub open spec fn untouched(g: Slot, s: Seq<Slot>) -> bool {
    forall|x: int| in_slot(g, x) ==> !covered_by(s, x)
}

proof fn lemma_covered_contains(s: Seq<Slot>, x: int)
    ensures
        covered_by(s, x) <==> exists|a: Slot| #[trigger] s.contains(a) && in_slot(a, x),
{
    if covered_by(s, x) {
        let i = choose|i: int| 0 <= i < s.len() && in_slot(#[trigger] s[i], x);
        assert(s.contains(s[i]));
    }
    if exists|a: Slot| #[trigger] s.contains(a) && in_slot(a, x) {
        let a = choose|a: Slot| #[trigger] s.contains(a) && in_slot(a, x);
        let i = choose|i: int| 0 <= i < s.len() && s[i] == a;
        assert(in_slot(s[i], x));
    }
}

proof fn lemma_first_container_found(s: Seq<Slot>, f: Slot)
    requires
        lies_within(f, s),
    ensures
        first_container(s, f) matches Some(m) && s.contains(m) && m.start <= f.start && f.end <= m.end,
    decreases s.len(),
{
    let a = choose|a: Slot| #[trigger] s.contains(a) && a.start <= f.start && f.end <= a.end;
    let i = choose|i: int| 0 <= i < s.len() && s[i] == a;
    if !(s[0].start <= f.start && f.end <= s[0].end) {
        let t = s.drop_first();
        assert(i > 0);
        assert(t[i - 1] == a);
        assert(t.contains(a));
        lemma_first_container_found(t, f);
        let m = first_container(t, f)->0;
        let j = choose|j: int| 0 <= j < t.len() && t[j] == m;
        assert(s[j + 1] == m);
    } else {
        assert(s.contains(s[0]));
    }
}

proof fn lemma_first_container_in(s: Seq<Slot>, f: Slot)
    ensures
        first_container(s, f) matches Some(m) ==> s.contains(m) && m.start <= f.start && f.end <= m.end,
    decreases s.len(),
{
    if s.len() > 0 {
        if s[0].start <= f.start && f.end <= s[0].end {
            assert(s.contains(s[0]));
        } else {
            let t = s.drop_first();
            lemma_first_container_in(t, f);
            if let Some(m) = first_container(t, f) {
                let j = choose|j: int| 0 <= j < t.len() && t[j] == m;
                assert(s[j + 1] == m);
            }
        }
    }
}

/// Cutting one nonempty slot out of an ordered timeline of apart, ordered slots keeps the
/// timeline so, holds no instant it did not hold, and, when a slot holds the cut slot,
/// holds exactly its instants but those of the cut slot. A nonempty slot apart from the
/// cut one that some slot held is still held by some slot.
proof fn lemma_cut_out_effect(s: Seq<Slot>, f: Slot)
    requires
        strictly_sorted(s),
        apart(s),
        all_ordered(s),
        f.start < f.end,
    ensures
        strictly_sorted(cut_out(s, f)),
        apart(cut_out(s, f)),
        all_ordered(cut_out(s, f)),
        forall|x: int| covered_by(cut_out(s, f), x) ==> covered_by(s, x),
        lies_within(f, s) ==> forall|x: int|
            covered_by(cut_out(s, f), x) <==> (covered_by(s, x) && !in_slot(f, x)),
        !lies_within(f, s) ==> cut_out(s, f) == s,
        forall|g: Slot|
            g.start < g.end && (g.end <= f.start || f.end <= g.start) && lies_within(g, s)
                ==> lies_within(g, cut_out(s, f)),
{
    match first_container(s, f) {
        None => {
            if lies_within(f, s) {
                lemma_first_container_found(s, f);
            }
        },
        Some(m) => {
            lemma_first_container_in(s, f);
            assert(lies_within(f, s));
            let pieces = sub_spec(m, f);
            let set = s.to_set().remove(m).union(pieces.to_set());
            vstd::seq_lib::seq_to_set_is_finite(s);
            vstd::seq_lib::seq_to_set_is_finite(pieces);
            lemma_sorted_of_set(set);
            let r = cut_out(s, f);
            assert(r == sorted_of_set(set));
            assert(m.start <= f.start && f.end <= m.end);
            assert(m.start <= m.end);
            assert(forall|y: Slot| #[trigger] r.contains(y) <==> ((s.contains(y) && y != m) || pieces.contains(y))) by {
                assert forall|y: Slot| #[trigger] r.contains(y) <==> ((s.contains(y) && y != m) || pieces.contains(y)) by {
                    assert(s.to_set().contains(y) == s.contains(y));
                    assert(pieces.to_set().contains(y) == pieces.contains(y));
                }
            }
            assert forall|p: Slot| #[trigger] pieces.contains(p) implies m.start <= p.start && p.start <= p.end && p.end <= m.end
                && (p.end <= f.start || f.end <= p.start) by {
                let k = choose|k: int| 0 <= k < pieces.len() && pieces[k] == p;
            }
            assert(all_ordered(r));
            assert forall|a: Slot, b: Slot|
                #[trigger] r.contains(a) && #[trigger] r.contains(b) && a != b implies a.end <= b.start || b.end <= a.start by {
                if pieces.contains(a) && pieces.contains(b) {
                    let ka = choose|k: int| 0 <= k < pieces.len() && pieces[k] == a;
                    let kb = choose|k: int| 0 <= k < pieces.len() && pieces[k] == b;
                } else if pieces.contains(a) {
                    assert(s.contains(b) && b != m);
                    assert(s.contains(m));
                } else if pieces.contains(b) {
                    assert(s.contains(a) && a != m);
                    assert(s.contains(m));
                }
            }
            assert forall|x: int| covered_by(r, x) <==> (covered_by(s, x) && !in_slot(f, x)) by {
                lemma_covered_contains(r, x);
                lemma_covered_contains(s, x);
                crate::slot::lemma_sub_is_difference(m, f, x);
                lemma_covered_contains(pieces, x);
                if covered_by(r, x) {
                    let a = choose|a: Slot| #[trigger] r.contains(a) && in_slot(a, x);
                    if !pieces.contains(a) {
                        assert(s.contains(a) && a != m);
                        assert(s.contains(m));
                    }
                }
                if covered_by(s, x) && !in_slot(f, x) {
                    let a = choose|a: Slot| #[trigger] s.contains(a) && in_slot(a, x);
                    if a == m {
                        let p = choose|p: Slot| #[trigger] pieces.contains(p) && in_slot(p, x);
                        assert(r.contains(p));
                    } else {
                        assert(r.contains(a));
                    }
                }
            }
            assert forall|g: Slot|
                g.start < g.end && (g.end <= f.start || f.end <= g.start) && lies_within(g, s) implies lies_within(g, r) by {
                let c = choose|c: Slot| #[trigger] s.contains(c) && c.start <= g.start && g.end <= c.end;
                if c != m {
                    assert(r.contains(c));
                } else {
                    if g.end <= f.start {
                        let p = Slot { start: m.start, end: f.start };
                        assert(pieces.contains(p)) by {
                            if f.start == m.start {
                            } else if f.end < m.end {
                                assert(pieces[0] == p);
                            } else {
                                assert(pieces[0] == p);
                            }
                        }
                        assert(r.contains(p));
                    } else {
                        let p = Slot { start: f.end, end: m.end };
                        assert(pieces.contains(p)) by {
                            if f.start == m.start {
                                assert(pieces[0] == p);
                            } else if f.end < m.end {
                                assert(pieces[1] == p);
                            } else {
                            }
                        }
                        assert(r.contains(p));
                    }
                }
            }
        },
    }
}

/// Cutting nonempty, mutually apart slots out of an ordered timeline of apart, ordered
/// slots, where each cut slot lies within a slot of the timeline or shares no instant
/// with it, leaves exactly the instants of the timeline that no cut slot holds.
proof fn lemma_cut_out_all_effect(s: Seq<Slot>, rs: Seq<Slot>)
    requires
        strictly_sorted(s),
        apart(s),
        all_ordered(s),
        forall|g: Slot| #[trigger] rs.contains(g) ==> g.start < g.end,
        apart(rs),
        forall|g: Slot| #[trigger] rs.contains(g) ==> lies_within(g, s) || untouched(g, s),
    ensures
        strictly_sorted(cut_out_all(s, rs)),
        apart(cut_out_all(s, rs)),
        all_ordered(cut_out_all(s, rs)),
        forall|x: int|
            covered_by(cut_out_all(s, rs), x) <==> (covered_by(s, x) && forall|g: Slot|
                #[trigger] rs.contains(g) ==> !in_slot(g, x)),
    decreases rs.len(),
{
    if rs.len() > 0 {
        let f = rs[0];
        let t = rs.drop_first();
        assert(rs.contains(f));
        lemma_cut_out_effect(s, f);
        let r1 = cut_out(s, f);
        assert forall|g: Slot| #[trigger] t.contains(g) implies rs.contains(g) by {
            let k = choose|k: int| 0 <= k < t.len() && t[k] == g;
            assert(rs[k + 1] == g);
        }
        assert forall|g: Slot| #[trigger] t.contains(g) implies lies_within(g, r1) || untouched(g, r1) by {
            assert(rs.contains(g));
            if g == f {
                if lies_within(f, s) {
                    assert forall|x: int| in_slot(g, x) implies !covered_by(r1, x) by {}
                } else {
                    assert(untouched(f, s));
                }
            } else if lies_within(g, s) {
                assert(g.end <= f.start || f.end <= g.start);
            } else {
                assert(untouched(g, s));
                assert forall|x: int| in_slot(g, x) implies !covered_by(r1, x) by {}
            }
        }
        assert(apart(t)) by {
            assert forall|a: Slot, b: Slot|
                #[trigger] t.contains(a) && #[trigger] t.contains(b) && a != b implies a.end <= b.start || b.end <= a.start by {
                assert(rs.contains(a) && rs.contains(b));
            }
        }
        lemma_cut_out_all_effect(r1, t);
        assert(cut_out_all(s, rs) == cut_out_all(r1, t));
        assert forall|x: int|
            covered_by(cut_out_all(s, rs), x) <==> (covered_by(s, x) && forall|g: Slot|
                #[trigger] rs.contains(g) ==> !in_slot(g, x)) by {
            if covered_by(cut_out_all(s, rs), x) {
                assert(covered_by(r1, x));
                assert(covered_by(s, x));
                assert(!in_slot(f, x)) by {
                    if !lies_within(f, s) {
                        assert(untouched(f, s));
                    }
                }
                assert forall|g: Slot| #[trigger] rs.contains(g) implies !in_slot(g, x) by {
                    let k = choose|k: int| 0 <= k < rs.len() && rs[k] == g;
                    if k > 0 {
                        assert(t[k - 1] == g);
                        assert(t.contains(g));
                    }
                }
            }
            if covered_by(s, x) && forall|g: Slot| #[trigger] rs.contains(g) ==> !in_slot(g, x) {
                assert(!in_slot(f, x));
                assert(covered_by(r1, x));
                assert forall|g: Slot| #[trigger] t.contains(g) implies !in_slot(g, x) by {
                    assert(rs.contains(g));
                }
            }
        }
    } else {
        assert forall|x: int|
            covered_by(cut_out_all(s, rs), x) <==> (covered_by(s, x) && forall|g: Slot|
                #[trigger] rs.contains(g) ==> !in_slot(g, x)) by {}
    }
}

/// Removing slots from a timeline of apart, ordered slots (as `Timeline::remove_slots`
/// does), where the removed slots are nonempty, apart from one another, and each lies
/// within a slot of the timeline, leaves exactly the instants of the timeline that no
/// removed slot holds.
pub proof fn lemma_removal_leaves_out(tl: Seq<Slot>, rm: Seq<Slot>, x: int)
    requires
        strictly_sorted(tl),
        apart(tl),
        all_ordered(tl),
        forall|g: Slot| #[trigger] rm.contains(g) ==> g.start < g.end && lies_within(g, tl),
        apart(rm),
    ensures
        covered_by(
            cut_out_all(sorted_of_set(tl.to_set().difference(rm.to_set())), sorted_of_set(rm.to_set())),
            x,
        ) <==> (covered_by(tl, x) && forall|g: Slot| #[trigger] rm.contains(g) ==> !in_slot(g, x)),
{
    let d = tl.to_set().difference(rm.to_set());
    vstd::seq_lib::seq_to_set_is_finite(tl);
    vstd::seq_lib::seq_to_set_is_finite(rm);
    lemma_sorted_of_set(d);
    lemma_sorted_of_set(rm.to_set());
    let s0 = sorted_of_set(d);
    let rs = sorted_of_set(rm.to_set());
    assert forall|y: Slot| #[trigger] s0.contains(y) <==> (tl.contains(y) && !rm.contains(y)) by {
        assert(d.contains(y) == (tl.to_set().contains(y) && !rm.to_set().contains(y)));
    }
    assert forall|y: Slot| #[trigger] rs.contains(y) <==> rm.contains(y) by {
        assert(rm.to_set().contains(y) == rm.contains(y));
    }
    assert(apart(s0)) by {
        assert forall|a: Slot, b: Slot|
            #[trigger] s0.contains(a) && #[trigger] s0.contains(b) && a != b implies a.end <= b.start || b.end <= a.start by {
            assert(tl.contains(a) && tl.contains(b));
        }
    }
    assert(all_ordered(s0)) by {
        assert forall|a: Slot| #[trigger] s0.contains(a) implies a.start <= a.end by {
            assert(tl.contains(a));
        }
    }
    assert(apart(rs)) by {
        assert forall|a: Slot, b: Slot|
            #[trigger] rs.contains(a) && #[trigger] rs.contains(b) && a != b implies a.end <= b.start || b.end <= a.start by {
            assert(rm.contains(a) && rm.contains(b));
        }
    }
    assert forall|g: Slot| #[trigger] rs.contains(g) implies g.start < g.end by {
        assert(rm.contains(g));
    }
    assert forall|g: Slot| #[trigger] rs.contains(g) implies lies_within(g, s0) || untouched(g, s0) by {
        assert(rm.contains(g));
        let c = choose|c: Slot| #[trigger] tl.contains(c) && c.start <= g.start && g.end <= c.end;
        if !rm.contains(c) {
            assert(s0.contains(c));
        } else {
            assert(c == g) by {
                if c != g {
                    assert(rm.contains(c) && rm.contains(g));
                }
            }
            assert forall|z: int| in_slot(g, z) implies !covered_by(s0, z) by {
                lemma_covered_contains(s0, z);
                if covered_by(s0, z) {
                    let y = choose|y: Slot| #[trigger] s0.contains(y) && in_slot(y, z);
                    assert(tl.contains(y) && y != g);
                    assert(tl.contains(g));
                }
            }
        }
    }
    lemma_cut_out_all_effect(s0, rs);
    lemma_covered_contains(s0, x);
    lemma_covered_contains(tl, x);
    if covered_by(tl, x) && forall|g: Slot| #[trigger] rm.contains(g) ==> !in_slot(g, x) {
        let y = choose|y: Slot| #[trigger] tl.contains(y) && in_slot(y, x);
        assert(!rm.contains(y));
        assert(s0.contains(y));
    }
    if covered_by(s0, x) {
        let y = choose|y: Slot| #[trigger] s0.contains(y) && in_slot(y, x);
        assert(tl.contains(y));
    }
    assert((forall|g: Slot| #[trigger] rs.contains(g) ==> !in_slot(g, x)) <==> (forall|g: Slot|
        #[trigger] rm.contains(g) ==> !in_slot(g, x))) by {
        if forall|g: Slot| #[trigger] rs.contains(g) ==> !in_slot(g, x) {
            assert forall|g: Slot| #[trigger] rm.contains(g) implies !in_slot(g, x) by {
                assert(rs.contains(g));
            }
        }
        if forall|g: Slot| #[trigger] rm.contains(g) ==> !in_slot(g, x) {
            assert forall|g: Slot| #[trigger] rs.contains(g) implies !in_slot(g, x) by {
                assert(rm.contains(g));
            }
        }
    }
}

proof fn lemma_sub_within(m: Slot, f: Slot, x: int)
    requires
        m.start <= f.start,
        f.start <= f.end,
        f.end <= m.end,
    ensures
        covered_by(sub_spec(m, f), x) ==> in_slot(m, x),
{
    crate::slot::lemma_sub_is_difference(m, f, x);
}

/// Cutting an ordered slot out of a timeline holds no instant the timeline did not.
pub proof fn lemma_cut_out_subset(s: Seq<Slot>, f: Slot, x: int)
    requires
        f.start <= f.end,
    ensures
        covered_by(cut_out(s, f), x) ==> covered_by(s, x),
{
    lemma_first_container_in(s, f);
    match first_container(s, f) {
        None => {},
        Some(m) => {
            let pieces = sub_spec(m, f);
            let set = s.to_set().remove(m).union(pieces.to_set());
            vstd::seq_lib::seq_to_set_is_finite(s);
            vstd::seq_lib::seq_to_set_is_finite(pieces);
            lemma_sorted_of_set(set);
            let r = cut_out(s, f);
            lemma_covered_contains(r, x);
            lemma_covered_contains(s, x);
            lemma_covered_contains(pieces, x);
            lemma_sub_within(m, f, x);
            if covered_by(r, x) {
                let a = choose|a: Slot| #[trigger] r.contains(a) && in_slot(a, x);
                assert(set.contains(a));
                assert(s.to_set().contains(a) == s.contains(a));
                assert(pieces.to_set().contains(a) == pieces.contains(a));
                if !pieces.contains(a) {
                    assert(s.contains(a));
                }
            }
        },
    }
}

/// Cutting ordered slots out of a timeline holds no instant the timeline did not.
pub proof fn lemma_cut_out_all_subset(s: Seq<Slot>, rs: Seq<Slot>, x: int)
    requires
        forall|k: int| 0 <= k < rs.len() ==> (#[trigger] rs[k]).start <= rs[k].end,
    ensures
        covered_by(cut_out_all(s, rs), x) ==> covered_by(s, x),
    decreases rs.len(),
{
    if rs.len() > 0 {
        let t = rs.drop_first();
        assert forall|k: int| 0 <= k < t.len() implies (#[trigger] t[k]).start <= t[k].end by {
            assert(t[k] == rs[k + 1]);
        }
        lemma_cut_out_all_subset(cut_out(s, rs[0]), t, x);
        lemma_cut_out_subset(s, rs[0], x);
    }
}

/// The ordered form of the slots of a timeline but some holds no instant the timeline
/// did not.
pub proof fn lemma_difference_subset(s: Seq<Slot>, rm: Set<Slot>, x: int)
    ensures
        covered_by(sorted_of_set(s.to_set().difference(rm)), x) ==> covered_by(s, x),
{
    vstd::seq_lib::seq_to_set_is_finite(s);
    lemma_sorted_of_set(s.to_set().difference(rm));
    let q = sorted_of_set(s.to_set().difference(rm));
    lemma_covered_contains(q, x);
    lemma_covered_contains(s, x);
    if covered_by(q, x) {
        let a = choose|a: Slot| #[trigger] q.contains(a) && in_slot(a, x);
        assert(s.to_set().contains(a) == s.contains(a));
    }
}

/// The ordered form of a sequence's slots holds the same instants.
pub proof fn lemma_sorted_of_seq_covers(s: Seq<Slot>, x: int)
    ensures
        covered_by(sorted_of_set(s.to_set()), x) <==> covered_by(s, x),
{
    vstd::seq_lib::seq_to_set_is_finite(s);
    lemma_sorted_of_set(s.to_set());
    let q = sorted_of_set(s.to_set());
    lemma_covered_contains(q, x);
    lemma_covered_contains(s, x);
    if covered_by(q, x) {
        let a = choose|a: Slot| #[trigger] q.contains(a) && in_slot(a, x);
        assert(s.to_set().contains(a) == s.contains(a));
    }
    if covered_by(s, x) {
        let a = choose|a: Slot| #[trigger] s.contains(a) && in_slot(a, x);
        assert(s.to_set().contains(a) == s.contains(a));
        assert(q.contains(a));
    }
}

impl Timeline {
    /// Removes slots from the timeline: first the timeline slots equal to one of them, then,
    /// for each slot to remove in order, its part of the first timeline slot containing it.
    pub fn remove_slots(&mut self, slots_to_remove: Vec<Slot>)
        requires
            strictly_sorted(old(self).slots@),
        ensures
            final(self).slots@ == cut_out_all(
                sorted_of_set(old(self).slots@.to_set().difference(slots_to_remove@.to_set())),
                sorted_of_set(slots_to_remove@.to_set()),
            ),
            strictly_sorted(final(self).slots@),
    {
        let to_remove = collect_slots(slots_to_remove);
        let ghost rm = to_remove.slots@;
        proof {
            lemma_is_sorted_of_set(rm);
            assert(rm.to_set() =~= slots_to_remove@.to_set());
        }
        let mut kept: Vec<Slot> = Vec::new();
        let mut i: usize = 0;
        while i < self.slots.len()
            invariant
                to_remove.slots@ == rm,
                strictly_sorted(self.slots@),
                i <= self.slots@.len(),
                strictly_sorted(kept@),
                forall|k: int| #![trigger kept@[k]] 0 <= k < kept@.len() ==> (exists|j: int| 0 <= j < i && #[trigger] self.slots@[j] == kept@[k]),
                forall|x: Slot|
                    #[trigger] kept@.contains(x) <==> (self.slots@.take(i as int).contains(x)
                        && !rm.contains(x)),
            decreases self.slots@.len() - i,
        {
            let s = self.slots[i];
            let found = contains_slot(&to_remove.slots, &s);
            let ghost before = kept@;
            if !found {
                kept.push(s);
                assert(kept@[kept@.len() - 1] == s);
            }
            proof {
                let t0 = self.slots@.take(i as int);
                let t1 = self.slots@.take(i + 1);
                assert(t1 =~= t0.push(s));
                assert(found == rm.contains(s));
                assert(forall|x: Slot| before.contains(x) <==> (t0.contains(x) && !rm.contains(x)));
                assert forall|x: Slot| kept@.contains(x) <==> (t1.contains(x) && !rm.contains(x)) by {
                    assert(before.contains(x) <==> (t0.contains(x) && !rm.contains(x)));
                    if t1.contains(x) && x != s {
                        let k = choose|k: int| 0 <= k < t1.len() && t1[k] == x;
                        assert(t0[k] == x);
                    }
                    if t0.contains(x) {
                        let k = choose|k: int| 0 <= k < t0.len() && t0[k] == x;
                        assert(t1[k] == x);
                    }
                    if kept@.contains(x) && !before.contains(x) {
                        assert(x == s);
                        assert(t1[i as int] == x);
                    }
                    if before.contains(x) {
                        let k = choose|k: int| 0 <= k < before.len() && before[k] == x;
                        assert(kept@[k] == x);
                    }
                }
                if !found {
                    assert forall|a: int, b: int| 0 <= a < b < kept@.len() implies slot_lt(
                        #[trigger] kept@[a],
                        #[trigger] kept@[b],
                    ) by {
                        if b == kept@.len() - 1 {
                            let ja = choose|jj: int| 0 <= jj < i && #[trigger] self.slots@[jj] == before[a];
                            assert(slot_lt(self.slots@[ja], self.slots@[i as int]));
                        }
                    }
                    assert forall|k: int| #![trigger kept@[k]] 0 <= k < kept@.len() implies (exists|jj: int| 0 <= jj < i + 1 && #[trigger] self.slots@[jj] == kept@[k]) by {
                        if k == kept@.len() - 1 {
                            assert(self.slots@[i as int] == kept@[k]);
                        } else {
                            let jj = choose|jj: int| 0 <= jj < i && #[trigger] self.slots@[jj] == before[k];
                        }
                    }
                }
            }
            i += 1;
        }
        proof {
            assert(self.slots@.take(self.slots@.len() as int) =~= self.slots@);
            let target = old(self).slots@.to_set().difference(slots_to_remove@.to_set());
            assert(kept@.to_set() =~= target);
            lemma_is_sorted_of_set(kept@);
            assert(rm.skip(0) =~= rm);
        }
        self.slots = kept;
        let mut r: usize = 0;
        while r < to_remove.slots.len()
            invariant
                to_remove.slots@ == rm,
                r <= rm.len(),
                strictly_sorted(self.slots@),
                cut_out_all(
                    sorted_of_set(old(self).slots@.to_set().difference(slots_to_remove@.to_set())),
                    rm,
                ) == cut_out_all(self.slots@, rm.skip(r as int)),
            decreases rm.len() - r,
        {
            let slot_to_filter = to_remove.slots[r];
            let ghost cur = self.slots@;
            proof {
                assert(rm.skip(r as int)[0] == slot_to_filter);
                assert(rm.skip(r as int).drop_first() =~= rm.skip(r + 1));
            }
            let mut k: usize = 0;
            let mut hit: Option<usize> = None;
            proof {
                assert(cur.skip(0) =~= cur);
            }
            while k < self.slots.len() && hit.is_none()
                invariant
                    self.slots@ == cur,
                    k <= cur.len(),
                    hit is None ==> first_container(cur, slot_to_filter) == first_container(
                        cur.skip(k as int),
                        slot_to_filter,
                    ),
                    hit matches Some(h) ==> h < cur.len() && first_container(cur, slot_to_filter)
                        == Some(cur[h as int]),
                decreases cur.len() - k + (if hit is None { 1int } else { 0int }),
            {
                let s = self.slots[k];
                proof {
                    assert(cur.skip(k as int)[0] == s);
                    assert(cur.skip(k as int).drop_first() =~= cur.skip(k + 1));
                }
                if s.start <= slot_to_filter.start && slot_to_filter.end <= s.end {
                    hit = Some(k);
                }
                k += 1;
            }
            match hit {
                None => {
                    proof {
                        assert(cur.skip(k as int).len() == 0);
                    }
                },
                Some(h) => {
                    let overlapped = self.slots[h];
                    let after_subtraction = overlapped.sub(slot_to_filter);
                    let mut next: Vec<Slot> = Vec::new();
                    let mut m: usize = 0;
                    while m < self.slots.len()
                        invariant
                            self.slots@ == cur,
                            strictly_sorted(cur),
                            m <= cur.len(),
                            strictly_sorted(next@),
                            forall|x: Slot|
                                next@.contains(x) <==> (cur.take(m as int).contains(x) && x
                                    != overlapped),
                            forall|q: int| #![trigger next@[q]] 0 <= q < next@.len() ==> (exists|jj: int| 0 <= jj < m && #[trigger] cur[jj] == next@[q]),
                        decreases cur.len() - m,
                    {
                        let s = self.slots[m];
                        let ghost before = next@;
                        if s != overlapped {
                            next.push(s);
                            assert(next@[next@.len() - 1] == s);
                        }
                        proof {
                            let t0 = cur.take(m as int);
                            let t1 = cur.take(m + 1);
                            assert(t1 =~= t0.push(s));
                            assert forall|x: Slot| next@.contains(x) <==> (t1.contains(x) && x != overlapped) by {
                                if t1.contains(x) && x != s {
                                    let q = choose|q: int| 0 <= q < t1.len() && t1[q] == x;
                                    assert(t0[q] == x);
                                }
                                if t0.contains(x) {
                                    let q = choose|q: int| 0 <= q < t0.len() && t0[q] == x;
                                    assert(t1[q] == x);
                                }
                                if next@.contains(x) && !before.contains(x) {
                                    assert(t1[m as int] == x);
                                }
                                if before.contains(x) {
                                    let q = choose|q: int| 0 <= q < before.len() && before[q] == x;
                                    assert(next@[q] == x);
                                }
                            }
                            if s != overlapped {
                                assert forall|a: int, b: int| 0 <= a < b < next@.len() implies slot_lt(
                                    #[trigger] next@[a],
                                    #[trigger] next@[b],
                                ) by {
                                    if b == next@.len() - 1 {
                                        let ja = choose|jj: int| 0 <= jj < m && #[trigger] cur[jj] == before[a];
                                        assert(slot_lt(cur[ja], cur[m as int]));
                                    }
                                }
                                assert forall|q: int| #![trigger next@[q]] 0 <= q < next@.len() implies (exists|jj: int| 0 <= jj < m + 1 && #[trigger] cur[jj] == next@[q]) by {
                                    if q == next@.len() - 1 {
                                        assert(cur[m as int] == next@[q]);
                                    } else {
                                        let jj = choose|jj: int| 0 <= jj < m && #[trigger] cur[jj] == before[q];
                                    }
                                }
                            }
                        }
                        m += 1;
                    }
                    proof {
                        assert(cur.take(cur.len() as int) =~= cur);
                    }
                    let ghost base = next@;
                    let mut a: usize = 0;
                    while a < after_subtraction.len()
                        invariant
                            a <= after_subtraction@.len(),
                            strictly_sorted(next@),
                            forall|x: Slot|
                                next@.contains(x) <==> (base.contains(x)
                                    || after_subtraction@.take(a as int).contains(x)),
                        decreases after_subtraction@.len() - a,
                    {
                        let ghost prev = next@;
                        let ghost a0 = a;
                        assert(forall|x: Slot| prev.contains(x) <==> (base.contains(x) || after_subtraction@.take(a0 as int).contains(x)));
                        let item = after_subtraction[a];
                        insert_slot(&mut next, item);
                        a += 1;
                        proof {
                            let t0 = after_subtraction@.take(a0 as int);
                            let t1 = after_subtraction@.take(a as int);
                            assert(t1 =~= t0.push(item));
                            assert forall|x: Slot| next@.contains(x) <==> (base.contains(x) || t1.contains(x)) by {
                                if t1.contains(x) && x != item {
                                    let q = choose|q: int| 0 <= q < t1.len() && t1[q] == x;
                                    assert(t0[q] == x);
                                }
                                if t0.contains(x) {
                                    let q = choose|q: int| 0 <= q < t0.len() && t0[q] == x;
                                    assert(t1[q] == x);
                                }
                                if x == item {
                                    assert(t1[a0 as int] == x);
                                }
                                assert(prev.contains(x) <==> (base.contains(x) || t0.contains(x)));
                            }
                        }
                    }
                    proof {
                        assert(after_subtraction@.take(after_subtraction@.len() as int) =~= after_subtraction@);
                        let target = cur.to_set().remove(overlapped).union(
                            sub_spec(overlapped, slot_to_filter).to_set(),
                        );
                        assert(forall|x: Slot| base.contains(x) <==> (cur.contains(x) && x != overlapped));
                        assert(forall|x: Slot| next@.contains(x) <==> (base.contains(x) || after_subtraction@.contains(x)));
                        assert forall|x: Slot| next@.to_set().contains(x) <==> target.contains(x) by {
                            assert(next@.to_set().contains(x) == next@.contains(x));
                            assert(cur.to_set().contains(x) == cur.contains(x));
                            assert(sub_spec(overlapped, slot_to_filter).to_set().contains(x) == after_subtraction@.contains(x));
                        }
                        assert(next@.to_set() =~= target);
                        lemma_is_sorted_of_set(next@);
                    }
                    self.slots = next;
                },
            }
            r += 1;
        }
        proof {
            assert(rm.skip(r as int).len() == 0);
        }
    }
}

} // verus!
