use vstd::prelude::*;
use crate::slot::Slot;
use crate::time::{
    hour, hour_of, time_ok, with_hour, with_hour_of, SECS_PER_DAY, TIME_LIMIT,
};
use crate::timeline::{
    collect_slots, pieces, strictly_sorted, walk_of, walk_step, Timeline, TimelineIterator,
};
use crate::timing::{
    day_of_index, determine_timing_scenario, scenario_of, valid_time, validate_time, Day,
    TimingScenario,
};
use crate::time::{weekday, weekday_of};
use crate::timeline::{cut_out_all, sorted_of_set};

verus! {

/// The sequences of `ss`, one after the other.
pub open spec fn concat_all(ss: Seq<Seq<Slot>>) -> Seq<Slot>
    decreases ss.len(),
{
    if ss.len() == 0 {
        seq![]
    } else {
        concat_all(ss.drop_last()) + ss.last()
    }
}

/// A piece of a day with its start moved to `after` o'clock, unless the piece
/// already starts later in the day.
pub open spec fn after_only_slot(p: Slot, after: int) -> Slot {
    let h = hour_of(p.start as int);
    if after < h {
        Slot { start: with_hour_of(p.start as int, h) as i64, end: p.end }
    } else {
        Slot { start: with_hour_of(p.start as int, after) as i64, end: p.end }
    }
}

/// A piece of a day ending at `before` o'clock of the day its end falls on, one day back.
pub open spec fn before_only_slot(p: Slot, before: int) -> Slot {
    Slot { start: p.start, end: (with_hour_of(p.end as int, before) - SECS_PER_DAY) as i64 }
}

/// A piece of a day running from `after` o'clock to `before` o'clock.
pub open spec fn bounded_slot(p: Slot, after: int, before: int) -> Slot {
    Slot {
        start: with_hour_of(p.start as int, after) as i64,
        end: (with_hour_of(p.end as int, before) - SECS_PER_DAY) as i64,
    }
}

/// What the timing filter makes of piece `j` (of `n`) of timeline slot `i`.
pub open spec fn piece_output(
    i: int,
    j: int,
    n: int,
    p: Slot,
    after_time: Option<usize>,
    before_time: Option<usize>,
) -> Seq<Slot> {
    let a = after_time.unwrap() as int;
    let b = before_time.unwrap() as int;
    match scenario_of(after_time, before_time) {
        TimingScenario::Unbounded => seq![p],
        TimingScenario::AfterOnly => seq![after_only_slot(p, a)],
        TimingScenario::BeforeOnly => seq![before_only_slot(p, b)],
        TimingScenario::Bounded => seq![bounded_slot(p, a, b)],
        TimingScenario::Overflow => {
            let general = Slot {
                start: with_hour_of(p.start as int, a) as i64,
                end: with_hour_of(p.end as int, b) as i64,
            };
            if i == 0 && j == 0 {
                seq![Slot { start: p.start, end: with_hour_of(p.end as int, b) as i64 }, general]
            } else if j == n - 1 {
                seq![Slot { start: with_hour_of(p.start as int, a) as i64, end: p.end }]
            } else {
                seq![general]
            }
        },
    }
}

/// What the timing filter makes of the day pieces `w` of timeline slot `i`.
pub open spec fn slot_output(
    i: int,
    w: Seq<Slot>,
    after_time: Option<usize>,
    before_time: Option<usize>,
) -> Seq<Slot> {
    concat_all(
        Seq::new(w.len(), |j: int| piece_output(i, j, w.len() as int, w[j], after_time, before_time)),
    )
}

/// All slots the timing filter makes of the timeline slots `tl`, walked day by day.
pub open spec fn timing_output(
    tl: Seq<Slot>,
    after_time: Option<usize>,
    before_time: Option<usize>,
) -> Seq<Slot> {
    concat_all(
        Seq::new(
            tl.len(),
            |i: int| slot_output(i, walk_of(tl[i], SECS_PER_DAY as int), after_time, before_time),
        ),
    )
}

proof fn lemma_concat_new_step(n: int, f: spec_fn(int) -> Seq<Slot>)
    requires
        0 <= n,
    ensures
        concat_all(Seq::new((n + 1) as nat, f)) == concat_all(Seq::new(n as nat, f)) + f(n),
{
    assert(Seq::new((n + 1) as nat, f).drop_last() =~= Seq::new(n as nat, f));
}

/// Every piece starts within `[start, end)` and lasts `step`.
pub proof fn lemma_pieces_bounds(start: int, end: int, step: int)
    requires
        time_ok(start),
        time_ok(end),
        step <= TIME_LIMIT,
    ensures
        forall|k: int|
            0 <= k < pieces(start, end, step).len() ==> {
                &&& start <= (#[trigger] pieces(start, end, step)[k]).start < end
                &&& pieces(start, end, step)[k].end == pieces(start, end, step)[k].start + step
                &&& step > 0
            },
    decreases end - start,
{
    if step > 0 && start < end && start + step < end {
        lemma_pieces_bounds(start + step, end, step);
        assert(time_ok(start + step));
        let r = pieces(start, end, step);
        let t = pieces(start + step, end, step);
        assert forall|k: int| 0 <= k < r.len() implies {
            &&& start <= (#[trigger] r[k]).start < end
            &&& r[k].end == r[k].start + step
            &&& step > 0
        } by {
            if k > 0 {
                assert(r[k] == t[k - 1]);
            }
        }
    }
}

/// Keeps, of each day of the timeline, the hours between `after_time` and `before_time`:
/// each timeline slot is walked day by day, and each day piece is cut to the bounds
/// that the timing scenario of the two values calls for.
pub fn filter_timing(timeline: Timeline, after_time: Option<usize>, before_time: Option<usize>) -> (result:
    Timeline)
    requires
        timeline.wf(),
        valid_time(after_time),
        valid_time(before_time),
        timeline.slots@.len() > 0 ==> (after_time matches Some(a) ==> a < 24),
        timeline.slots@.len() > 0 ==> (before_time matches Some(b) ==> b < 24),
        forall|i: int|
            0 <= i < timeline.slots@.len() ==> #[trigger] timeline.slots@[i].end <= TIME_LIMIT
                - SECS_PER_DAY,
    ensures
        (timeline.slots@.len() == 0 || (after_time is None && before_time is None)) ==> result
            == timeline,
        !(timeline.slots@.len() == 0 || (after_time is None && before_time is None)) ==> {
            &&& strictly_sorted(result.slots@)
            &&& forall|x: Slot|
                result.slots@.contains(x) <==> timing_output(
                    timeline.slots@,
                    after_time,
                    before_time,
                ).contains(x)
        },
{
    if timeline.slots.len() == 0 || (after_time.is_none() && before_time.is_none()) {
        return timeline;
    }
    validate_time(after_time, "after_time");
    validate_time(before_time, "before_time");

    let timing_scenario = determine_timing_scenario(after_time, before_time);
    let ghost tl = timeline.slots@;
    let n = timeline.slots.len();
    let ghost outer = |i: int|
        slot_output(i, walk_of(tl[i], SECS_PER_DAY as int), after_time, before_time);
    let mut timeline_iterator = TimelineIterator::new(timeline, SECS_PER_DAY);
    let mut slots: Vec<Slot> = vec![];
    let mut iterator_index: usize = 0;
    while iterator_index < n
        invariant
            n == tl.len(),
            timeline_iterator.remaining() == tl.skip(iterator_index as int),
            timeline_iterator.step() == SECS_PER_DAY,
            iterator_index <= tl.len(),
            forall|i: int| 0 <= i < tl.len() ==> (#[trigger] tl[i]).wf(),
            forall|i: int| 0 <= i < tl.len() ==> #[trigger] tl[i].end <= TIME_LIMIT - SECS_PER_DAY,
            timing_scenario == scenario_of(after_time, before_time),
            after_time matches Some(a) ==> a < 24,
            before_time matches Some(b) ==> b < 24,
            slots@ == concat_all(Seq::new(iterator_index as nat, outer)),
            outer == (|i: int|
                slot_output(i, walk_of(tl[i], SECS_PER_DAY as int), after_time, before_time)),
        decreases tl.len() - iterator_index,
    {
        proof {
            assert forall|i: int|
                0 <= i < timeline_iterator.remaining().len() implies (
                #[trigger] timeline_iterator.remaining()[i]).wf() by {
                assert(timeline_iterator.remaining()[i] == tl[i + iterator_index]);
            }
            assert(timeline_iterator.remaining()[0] == tl[iterator_index as int]);
        }
        let walking = timeline_iterator.next();
        let walking_slots = match walking {
            Some(w) => w,
            None => Vec::new(),
        };
        let ghost cur = tl[iterator_index as int];
        let ghost w = walking_slots@;
        proof {
            assert(w == walk_of(cur, SECS_PER_DAY as int));
            assert(tl.skip(iterator_index as int).drop_first() =~= tl.skip(iterator_index + 1));
            lemma_pieces_bounds(cur.start as int, cur.end as int, walk_step(cur, SECS_PER_DAY as int));
        }
        let ghost prefix = slots@;
        let ghost inner = |j: int|
            piece_output(iterator_index as int, j, w.len() as int, w[j], after_time, before_time);
        let walking_slots_len = walking_slots.len();
        let mut walking_index: usize = 0;
        while walking_index < walking_slots_len
            invariant
                walking_slots@ == w,
                walking_slots_len == w.len(),
                walking_index <= w.len(),
                cur.wf(),
                cur.end <= TIME_LIMIT - SECS_PER_DAY,
                w == pieces(cur.start as int, cur.end as int, walk_step(cur, SECS_PER_DAY as int)),
                forall|k: int|
                    0 <= k < w.len() ==> {
                        &&& cur.start <= (#[trigger] w[k]).start < cur.end
                        &&& w[k].end == w[k].start + walk_step(cur, SECS_PER_DAY as int)
                        &&& walk_step(cur, SECS_PER_DAY as int) > 0
                    },
                timing_scenario == scenario_of(after_time, before_time),
                after_time matches Some(a) ==> a < 24,
                before_time matches Some(b) ==> b < 24,
                slots@ == prefix + concat_all(Seq::new(walking_index as nat, inner)),
                inner == (|j: int|
                    piece_output(
                        iterator_index as int,
                        j,
                        w.len() as int,
                        w[j],
                        after_time,
                        before_time,
                    )),
            decreases walking_slots_len - walking_index,
        {
            let slot = walking_slots[walking_index];
            let ghost before_len = slots@;
            proof {
                assert(time_ok(slot.start as int));
                assert(time_ok(slot.end as int));
                lemma_concat_new_step(walking_index as int, inner);
            }
            match timing_scenario {
                TimingScenario::Unbounded => {
                    slots.push(slot);
                },
                TimingScenario::AfterOnly => {
                    let after = after_time.unwrap();
                    let slot_start_hour = hour(slot.start);
                    let start = if after < slot_start_hour {
                        with_hour(slot.start, slot_start_hour)
                    } else {
                        with_hour(slot.start, after)
                    };
                    slots.push(Slot { start, end: slot.end });
                },
                TimingScenario::BeforeOnly => {
                    let before = before_time.unwrap();
                    let end = with_hour(slot.end, before) - SECS_PER_DAY;
                    slots.push(Slot { start: slot.start, end });
                },
                TimingScenario::Bounded => {
                    let after = after_time.unwrap();
                    let before = before_time.unwrap();
                    let start = with_hour(slot.start, after);
                    let end = with_hour(slot.end, before) - SECS_PER_DAY;
                    slots.push(Slot { start, end });
                },
                TimingScenario::Overflow => {
                    let after = after_time.unwrap();
                    let before = before_time.unwrap();
                    if iterator_index == 0 && walking_index == 0 {
                        slots.push(Slot { start: slot.start, end: with_hour(slot.end, before) });
                        let start = with_hour(slot.start, after);
                        let end = with_hour(slot.end, before);
                        slots.push(Slot { start, end });
                    } else if walking_index == walking_slots_len - 1 {
                        slots.push(Slot { start: with_hour(slot.start, after), end: slot.end });
                    } else {
                        let start = with_hour(slot.start, after);
                        let end = with_hour(slot.end, before);
                        slots.push(Slot { start, end });
                    }
                },
            }
            proof {
                assert(slots@ =~= prefix + concat_all(Seq::new((walking_index + 1) as nat, inner)));
            }
            walking_index += 1;
        }
        proof {
            assert(Seq::new(w.len(), inner) =~= Seq::new(
                w.len(),
                |j: int| piece_output(iterator_index as int, j, w.len() as int, w[j], after_time, before_time),
            ));
            assert(outer(iterator_index as int) == concat_all(Seq::new(w.len(), inner)));
            lemma_concat_new_step(iterator_index as int, outer);
        }
        iterator_index += 1;
    }
    proof {
        assert(Seq::new(tl.len(), outer) =~= Seq::new(
            tl.len(),
            |i: int| slot_output(i, walk_of(tl[i], SECS_PER_DAY as int), after_time, before_time),
        ));
    }
    collect_slots(slots)
}


/// Removes from the timeline the slots of `slots_to_filter`.
pub fn filter_not_on(timeline: Timeline, slots_to_filter: &Vec<Slot>) -> (result: Timeline)
    requires
        strictly_sorted(timeline.slots@),
    ensures
        (timeline.slots@.len() == 0 || slots_to_filter@.len() == 0) ==> result == timeline,
        !(timeline.slots@.len() == 0 || slots_to_filter@.len() == 0) ==> result.slots@
            == cut_out_all(
            sorted_of_set(timeline.slots@.to_set().difference(slots_to_filter@.to_set())),
            sorted_of_set(slots_to_filter@.to_set()),
        ),
        strictly_sorted(result.slots@),
{
    if timeline.slots.len() == 0 || slots_to_filter.len() == 0 {
        return timeline;
    }
    let mut timeline = timeline;
    timeline.remove_slots(slots_to_filter.clone());
    timeline
}

/// All day pieces of the timeline slots `tl`, walked one day at a time.
pub open spec fn day_pieces(tl: Seq<Slot>) -> Seq<Slot> {
    concat_all(Seq::new(tl.len(), |i: int| walk_of(tl[i], SECS_PER_DAY as int)))
}

/// The pieces of `ps` that start on a day of the week that `days` does not hold.
pub open spec fn off_days(ps: Seq<Slot>, days: Seq<Day>) -> Seq<Slot>
    decreases ps.len(),
{
    if ps.len() == 0 {
        seq![]
    } else if days.contains(day_of_index(weekday_of(ps.last().start as int))) {
        off_days(ps.drop_last(), days)
    } else {
        off_days(ps.drop_last(), days).push(ps.last())
    }
}

/// Walks the timeline one day at a time and returns all the pieces in order.
pub fn walk_days(timeline: Timeline) -> (r: Vec<Slot>)
    requires
        timeline.wf(),
    ensures
        r@ == day_pieces(timeline.slots@),
{
    let ghost tl = timeline.slots@;
    let ghost f = |i: int| walk_of(tl[i], SECS_PER_DAY as int);
    let n = timeline.slots.len();
    let mut r: Vec<Slot> = Vec::new();
    if n == 0 {
        proof {
            assert(Seq::new(0, f) =~= Seq::<Seq<Slot>>::empty());
        }
        return r;
    }
    let mut it = TimelineIterator::new(timeline, SECS_PER_DAY);
    let mut i: usize = 0;
    while i < n
        invariant
            n == tl.len(),
            i <= n,
            it.remaining() == tl.skip(i as int),
            it.step() == SECS_PER_DAY,
            forall|k: int| 0 <= k < tl.len() ==> (#[trigger] tl[k]).wf(),
            r@ == concat_all(Seq::new(i as nat, f)),
            f == (|k: int| walk_of(tl[k], SECS_PER_DAY as int)),
        decreases n - i,
    {
        proof {
            assert forall|k: int|
                0 <= k < it.remaining().len() implies (#[trigger] it.remaining()[k]).wf() by {
                assert(it.remaining()[k] == tl[k + i]);
            }
            assert(it.remaining()[0] == tl[i as int]);
            assert(tl.skip(i as int).drop_first() =~= tl.skip(i + 1));
            lemma_concat_new_step(i as int, f);
        }
        let w = match it.next() {
            Some(w) => w,
            None => Vec::new(),
        };
        let mut w = w;
        r.append(&mut w);
        i += 1;
    }
    proof {
        assert(Seq::new(tl.len(), f) =~= Seq::new(
            tl.len(),
            |k: int| walk_of(tl[k], SECS_PER_DAY as int),
        ));
    }
    r
}

/// Every slot of the concatenation satisfies what every slot of the parts satisfies.
pub proof fn lemma_concat_all_keeps(ss: Seq<Seq<Slot>>, p: spec_fn(Slot) -> bool)
    requires
        forall|i: int, j: int| 0 <= i < ss.len() && 0 <= j < ss[i].len() ==> p(#[trigger] ss[i][j]),
    ensures
        forall|k: int| 0 <= k < concat_all(ss).len() ==> p(#[trigger] concat_all(ss)[k]),
    decreases ss.len(),
{
    if ss.len() > 0 {
        let init = ss.drop_last();
        assert forall|i: int, j: int| 0 <= i < init.len() && 0 <= j < init[i].len() implies p(#[trigger] init[i][j]) by {
            assert(init[i] == ss[i]);
        }
        lemma_concat_all_keeps(init, p);
        let c = concat_all(ss);
        assert forall|k: int| 0 <= k < c.len() implies p(#[trigger] c[k]) by {
            if k >= concat_all(init).len() {
                assert(c[k] == ss.last()[k - concat_all(init).len()]);
                assert(ss.last() == ss[ss.len() - 1]);
            } else {
                assert(c[k] == concat_all(init)[k]);
            }
        }
    }
}

/// Every day piece of well-formed slots starts within the supported range.
pub proof fn lemma_day_pieces_start_ok(tl: Seq<Slot>)
    requires
        forall|k: int| 0 <= k < tl.len() ==> (#[trigger] tl[k]).wf(),
    ensures
        forall|k: int| 0 <= k < day_pieces(tl).len() ==> time_ok(#[trigger] day_pieces(tl)[k].start as int),
{
    let ss = Seq::new(tl.len(), |i: int| walk_of(tl[i], SECS_PER_DAY as int));
    assert forall|i: int, j: int| 0 <= i < ss.len() && 0 <= j < ss[i].len() implies time_ok(#[trigger] ss[i][j].start as int) by {
        let s = tl[i];
        assert(s.wf());
        lemma_pieces_bounds(s.start as int, s.end as int, walk_step(s, SECS_PER_DAY as int));
    }
    lemma_concat_all_keeps(ss, |x: Slot| time_ok(x.start as int));
}

/// Does `days` hold the day `d`?
pub fn contains_day(days: &Vec<Day>, d: Day) -> (r: bool)
    ensures
        r == days@.contains(d),
{
    let mut j: usize = 0;
    while j < days.len()
        invariant
            j <= days@.len(),
            forall|k: int| 0 <= k < j ==> days@[k] != d,
        decreases days@.len() - j,
    {
        if days[j] == d {
            assert(days@[j as int] == d);
            return true;
        }
        j += 1;
    }
    false
}

/// Keeps only the days of the timeline that fall on one of `days_to_filter`: the
/// timeline is walked day by day and the day pieces starting on another day of the
/// week are removed.
pub fn filter_on_days(timeline: Timeline, days_to_filter: &Vec<Day>) -> (result: Timeline)
    requires
        timeline.wf(),
    ensures
        (timeline.slots@.len() == 0 || days_to_filter@.len() == 0) ==> result == timeline,
        !(timeline.slots@.len() == 0 || days_to_filter@.len() == 0) ==> result.slots@
            == cut_out_all(
            sorted_of_set(
                day_pieces(timeline.slots@).to_set().difference(
                    off_days(day_pieces(timeline.slots@), days_to_filter@).to_set(),
                ),
            ),
            sorted_of_set(off_days(day_pieces(timeline.slots@), days_to_filter@).to_set()),
        ),
        strictly_sorted(result.slots@),
{
    if timeline.slots.len() == 0 || days_to_filter.len() == 0 {
        return timeline;
    }
    let ghost tl = timeline.slots@;
    proof {
        assert forall|k: int| 0 <= k < tl.len() implies (#[trigger] tl[k]).wf() by {}
    }
    let slots_from_iter = walk_days(timeline);
    let ghost ps = slots_from_iter@;
    let mut days_to_remove: Vec<Slot> = Vec::new();
    let mut i: usize = 0;
    while i < slots_from_iter.len()
        invariant
            slots_from_iter@ == ps,
            ps == day_pieces(tl),
            forall|k: int| 0 <= k < tl.len() ==> (#[trigger] tl[k]).wf(),
            i <= ps.len(),
            days_to_remove@ == off_days(ps.take(i as int), days_to_filter@),
        decreases ps.len() - i,
    {
        let slot = slots_from_iter[i];
        proof {
            assert(ps.take(i + 1).drop_last() =~= ps.take(i as int));
            assert(ps.take(i + 1).last() == slot);
        }
        proof {
            lemma_day_pieces_start_ok(tl);
            assert(time_ok(ps[i as int].start as int));
        }
        let day = Day::from_index(weekday(slot.start));
        if !contains_day(days_to_filter, day) {
            days_to_remove.push(slot);
        }
        i += 1;
    }
    proof {
        assert(ps.take(ps.len() as int) =~= ps);
    }
    let mut expected_timeline = collect_slots(slots_from_iter);
    proof {
        assert(expected_timeline.slots@.to_set() =~= ps.to_set());
    }
    expected_timeline.remove_slots(days_to_remove);
    expected_timeline
}

} // verus!
