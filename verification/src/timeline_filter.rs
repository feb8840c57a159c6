use vstd::prelude::*;
use crate::filter::{contains_day, off_days};
use crate::slot::Slot;
use crate::splitters::{
    all_day_cuts, days_cuttable, day_cuts, lemma_all_day_cuts_within, lemma_day_cuts_range, starts_on_hours,
};
use crate::step::clone_slots;
use crate::time::{time_ok, weekday, with_hour, with_hour_of, SECS_PER_DAY, TIME_LIMIT};
use crate::timeline::{
    all_ordered, apart, collect_slots, cut_out_all, lemma_cut_out_all_subset, lemma_difference_subset,
    lemma_is_sorted_of_set, lemma_removal_leaves_out, lemma_sorted_of_seq_covers, lemma_sorted_of_set, lies_within, sorted_of_set,
    strictly_sorted, Timeline,
};
use crate::slot::{covered_by, in_slot};
use crate::timing::{valid_time, Day, TimeFilter};

verus! {

/// What the day-by-day timing filter keeps of a day slot `d`: from the `after` hour
/// of its day on, up to the `before` hour; when `before` comes earlier in the day than
/// `after`, also the part of the slot up to `before`, first.
pub open spec fn timing_pieces(d: Slot, after: Option<usize>, before: Option<usize>) -> Seq<Slot> {
    let s1 = match after {
        Some(a) => {
            let adt = with_hour_of(d.start as int, a as int);
            if d.start < adt {
                Slot { start: adt as i64, end: d.end }
            } else {
                d
            }
        },
        None => d,
    };
    match before {
        Some(b) => {
            let bdt = with_hour_of(d.start as int, b as int);
            if d.end > bdt {
                if after is Some && b < after->0 {
                    seq![Slot { start: d.start, end: bdt as i64 }, s1]
                } else {
                    seq![Slot { start: s1.start, end: bdt as i64 }]
                }
            } else {
                seq![s1]
            }
        },
        None => seq![s1],
    }
}

/// The timing filter's pieces of each day slot, in order.
pub open spec fn timing_all(ds: Seq<Slot>, after: Option<usize>, before: Option<usize>) -> Seq<Slot>
    decreases ds.len(),
{
    if ds.len() == 0 {
        Seq::empty()
    } else {
        timing_all(ds.drop_last(), after, before) + timing_pieces(ds.last(), after, before)
    }
}

/// An hour bound that a day's time can be set to.
pub open spec fn hour_bound(t: Option<usize>) -> bool {
    t matches Some(h) ==> h < 24
}

/// The day slots of a timeline: its slots cut at each day, in order.
pub open spec fn daily_slots(tl: Seq<Slot>) -> Seq<Slot> {
    sorted_of_set(all_day_cuts(tl).to_set())
}

/// Keeps of each day of the timeline the hours between `after_time` and
/// `before_time` (see `timing_pieces`).
pub fn filter_timing(timeline: &Timeline, before_time: Option<usize>, after_time: Option<usize>) -> (r: Timeline)
    requires
        days_cuttable(timeline.slots@),
        hour_bound(before_time),
        hour_bound(after_time),
    ensures
        strictly_sorted(r.slots@),
        r@ == timing_all(daily_slots(timeline.slots@), after_time, before_time).to_set(),
{
    let daily_timeline = timeline.split_into_days();
    proof {
        lemma_is_sorted_of_set(daily_timeline.slots@);
        assert(daily_timeline.slots@.to_set() == all_day_cuts(timeline.slots@).to_set());
        lemma_daily_range(daily_timeline.slots@, timeline.slots@);
    }
    let ghost ds = daily_timeline.slots@;
    let mut filtered_slots: Vec<Slot> = Vec::new();
    let mut i: usize = 0;
    while i < daily_timeline.slots.len()
        invariant
            i <= ds.len(),
            ds == daily_timeline.slots@,
            ds == daily_slots(timeline.slots@),
            hour_bound(before_time),
            hour_bound(after_time),
            forall|k: int| 0 <= k < ds.len() ==> time_ok((#[trigger] ds[k]).start as int),
            filtered_slots@ == timing_all(ds.take(i as int), after_time, before_time),
        decreases ds.len() - i,
    {
        let daily_slot = daily_timeline.slots[i];
        let ghost before = filtered_slots@;
        let mut slot_filtered = daily_slot;
        match after_time {
            Some(a) => {
                let after_datetime = with_hour(daily_slot.start, a);
                if daily_slot.start < after_datetime {
                    slot_filtered.start = after_datetime;
                }
            },
            None => {},
        }
        match before_time {
            Some(b) => {
                let before_datetime = with_hour(daily_slot.start, b);
                if daily_slot.end > before_datetime {
                    let overflow = match after_time {
                        Some(a) => b < a,
                        None => false,
                    };
                    if overflow {
                        filtered_slots.push(Slot { start: daily_slot.start, end: before_datetime });
                    } else {
                        slot_filtered.end = before_datetime;
                    }
                }
            },
            None => {},
        }
        filtered_slots.push(slot_filtered);
        proof {
            assert(ds.take(i + 1).drop_last() =~= ds.take(i as int));
            assert(ds.take(i + 1).last() == daily_slot);
            assert(filtered_slots@ =~= before + timing_pieces(daily_slot, after_time, before_time));
        }
        i = i + 1;
    }
    proof {
        assert(ds.take(ds.len() as int) =~= ds);
    }
    let ghost all = filtered_slots@;
    let t = collect_slots(filtered_slots);
    proof {
        assert forall|x: Slot| t@.contains(x) <==> all.to_set().contains(x) by {
            assert(t.slots@.contains(x) <==> all.contains(x));
        }
        assert(t@ =~= all.to_set());
    }
    t
}

proof fn lemma_all_day_cuts_range(tl: Seq<Slot>)
    requires
        days_cuttable(tl),
    ensures
        forall|k: int| 0 <= k < all_day_cuts(tl).len() ==> time_ok((#[trigger] all_day_cuts(tl)[k]).start as int),
    decreases tl.len(),
{
    if tl.len() > 0 {
        lemma_all_day_cuts_range(tl.drop_last());
        let last = tl.last();
        assert(last == tl[tl.len() - 1]);
        lemma_day_cuts_range(last.start as int, last.end as int);
        let a = all_day_cuts(tl.drop_last());
        let b = day_cuts(last.start as int, last.end as int);
        assert forall|k: int| 0 <= k < all_day_cuts(tl).len() implies time_ok((#[trigger] all_day_cuts(tl)[k]).start as int) by {
            if k < a.len() {
                assert(all_day_cuts(tl)[k] == a[k]);
            } else {
                assert(all_day_cuts(tl)[k] == b[k - a.len()]);
            }
        }
    }
}

proof fn lemma_daily_range(ds: Seq<Slot>, tl: Seq<Slot>)
    requires
        days_cuttable(tl),
        ds.to_set() == all_day_cuts(tl).to_set(),
    ensures
        forall|k: int| 0 <= k < ds.len() ==> time_ok((#[trigger] ds[k]).start as int),
{
    lemma_all_day_cuts_range(tl);
    let c = all_day_cuts(tl);
    assert forall|k: int| 0 <= k < ds.len() implies time_ok((#[trigger] ds[k]).start as int) by {
        assert(ds.to_set().contains(ds[k]));
        assert(c.to_set().contains(ds[k]));
        let w = choose|w: int| 0 <= w < c.len() && c[w] == ds[k];
        assert(time_ok(c[w].start as int));
    }
}

/// Removes from the timeline, cut into days, the days that fall on no day of `days_to_filter`.
pub fn filter_on_days(timeline: &Timeline, days_to_filter: &Vec<Day>) -> (r: Timeline)
    requires
        days_cuttable(timeline.slots@),
    ensures
        strictly_sorted(r.slots@),
        r.slots@ == cut_out_all(
            sorted_of_set(
                daily_slots(timeline.slots@).to_set().difference(
                    off_days(daily_slots(timeline.slots@), days_to_filter@).to_set(),
                ),
            ),
            sorted_of_set(off_days(daily_slots(timeline.slots@), days_to_filter@).to_set()),
        ),
{
    let mut daily = timeline.split_into_days();
    proof {
        lemma_is_sorted_of_set(daily.slots@);
        assert(daily.slots@.to_set() == all_day_cuts(timeline.slots@).to_set());
        lemma_daily_range(daily.slots@, timeline.slots@);
    }
    let ghost ds = daily.slots@;
    let mut days_to_remove: Vec<Slot> = Vec::new();
    let mut i: usize = 0;
    while i < daily.slots.len()
        invariant
            i <= ds.len(),
            ds == daily.slots@,
            ds == daily_slots(timeline.slots@),
            forall|k: int| 0 <= k < ds.len() ==> time_ok((#[trigger] ds[k]).start as int),
            days_to_remove@ == off_days(ds.take(i as int), days_to_filter@),
        decreases ds.len() - i,
    {
        let slot = daily.slots[i];
        proof {
            assert(ds.take(i + 1).drop_last() =~= ds.take(i as int));
            assert(ds.take(i + 1).last() == slot);
        }
        let day = Day::from_index(weekday(slot.start));
        if !contains_day(days_to_filter, day) {
            days_to_remove.push(slot);
        }
        i = i + 1;
    }
    proof {
        assert(ds.take(ds.len() as int) =~= ds);
        lemma_is_sorted_of_set(ds);
    }
    daily.remove_slots(days_to_remove);
    daily
}

/// The timeline with the slots of `slots_to_filter` removed.
pub fn filter_not_on(timeline: &Timeline, slots_to_filter: &Vec<Slot>) -> (r: Timeline)
    requires
        strictly_sorted(timeline.slots@),
    ensures
        strictly_sorted(r.slots@),
        r.slots@ == cut_out_all(
            sorted_of_set(timeline.slots@.to_set().difference(slots_to_filter@.to_set())),
            sorted_of_set(slots_to_filter@.to_set()),
        ),
{
    let mut t = Timeline { slots: clone_slots(&timeline.slots) };
    t.remove_slots(clone_slots(slots_to_filter));
    t
}

/// The timeline after the timing filter, when the filter has an hour bound.
pub open spec fn after_timing(tl: Seq<Slot>, f: TimeFilter) -> Seq<Slot> {
    if f.after_time is Some || f.before_time is Some {
        sorted_of_set(timing_all(daily_slots(tl), f.after_time, f.before_time).to_set())
    } else {
        tl
    }
}

/// The timeline after the day filter, when the filter names days.
pub open spec fn after_days(tl: Seq<Slot>, f: TimeFilter) -> Seq<Slot> {
    match f.on_days {
        Some(days) => cut_out_all(
            sorted_of_set(daily_slots(tl).to_set().difference(off_days(daily_slots(tl), days@).to_set())),
            sorted_of_set(off_days(daily_slots(tl), days@).to_set()),
        ),
        None => tl,
    }
}

/// The timeline after the slot filter, when the filter names slots.
pub open spec fn after_not_on(tl: Seq<Slot>, f: TimeFilter) -> Seq<Slot> {
    match f.not_on {
        Some(slots) => cut_out_all(
            sorted_of_set(tl.to_set().difference(slots@.to_set())),
            sorted_of_set(slots@.to_set()),
        ),
        None => tl,
    }
}

/// The timeline that the hour and day parts of a filter leave, which its slot part
/// works on.
pub open spec fn before_not_on(tl: Seq<Slot>, f: TimeFilter) -> Seq<Slot> {
    after_days(after_timing(tl, f), f)
}

/// What the slot part of a filter does. Where the hour and day parts leave a timeline of
/// apart, ordered slots, and the slots the filter leaves out are nonempty, apart from one
/// another, and each lies within a slot of that timeline, the filtered timeline (as
/// `apply_filter` gives it) holds exactly the instants of that timeline that no left-out
/// slot holds; without slots to leave out it holds just that timeline's.
pub proof fn lemma_filter_leaves_out_slots(tl: Seq<Slot>, f: TimeFilter, x: int)
    requires
        strictly_sorted(before_not_on(tl, f)),
        apart(before_not_on(tl, f)),
        all_ordered(before_not_on(tl, f)),
        f.not_on matches Some(v) ==> {
            &&& apart(v@)
            &&& forall|g: Slot|
                #[trigger] v@.contains(g) ==> g.start < g.end && lies_within(g, before_not_on(tl, f))
        },
    ensures
        covered_by(after_not_on(before_not_on(tl, f), f), x) <==> (covered_by(before_not_on(tl, f), x)
            && (f.not_on matches Some(v) ==> forall|g: Slot| #[trigger] v@.contains(g) ==> !in_slot(g, x))),
{
    match f.not_on {
        Some(v) => {
            lemma_removal_leaves_out(before_not_on(tl, f), v@, x);
        },
        None => {},
    }
}

/// A filter with only slots to leave out cuts exactly those slots out of the timeline:
/// for a timeline of apart, ordered slots and slots to leave out that are nonempty, apart
/// from one another and each within a slot of the timeline, the filtered timeline (as
/// `apply_filter` gives it) holds an instant exactly when the timeline does and no
/// left-out slot holds it.
pub proof fn lemma_not_on_filter_cuts(tl: Seq<Slot>, f: TimeFilter, x: int)
    requires
        f.after_time is None,
        f.before_time is None,
        f.on_days is None,
        f.not_on is Some,
        strictly_sorted(tl),
        apart(tl),
        all_ordered(tl),
        apart(f.not_on->0@),
        forall|g: Slot| #[trigger] f.not_on->0@.contains(g) ==> g.start < g.end && lies_within(g, tl),
    ensures
        covered_by(after_not_on(after_days(after_timing(tl, f), f), f), x) <==> (covered_by(tl, x)
            && forall|g: Slot| #[trigger] f.not_on->0@.contains(g) ==> !in_slot(g, x)),
{
    assert(before_not_on(tl, f) == tl);
    lemma_filter_leaves_out_slots(tl, f, x);
}

/// The slot part of a filter only takes away: whatever slots it names (none ending
/// before it starts), the timeline it gives holds no instant that the timeline it is
/// given does not hold.
pub proof fn lemma_not_on_takes_away(tl: Seq<Slot>, f: TimeFilter, x: int)
    requires
        f.not_on matches Some(v) ==> all_ordered(v@),
    ensures
        covered_by(after_not_on(tl, f), x) ==> covered_by(tl, x),
{
    match f.not_on {
        Some(v) => {
            let rm = v@.to_set();
            vstd::seq_lib::seq_to_set_is_finite(v@);
            lemma_sorted_of_set(rm);
            let rs = sorted_of_set(rm);
            assert forall|k: int| 0 <= k < rs.len() implies (#[trigger] rs[k]).start <= rs[k].end by {
                assert(rs.contains(rs[k]));
                assert(rm.contains(rs[k]));
                assert(v@.contains(rs[k]));
            }
            lemma_cut_out_all_subset(sorted_of_set(tl.to_set().difference(rm)), rs, x);
            lemma_difference_subset(tl, rm, x);
        },
        None => {},
    }
}

/// A filter with only slots to leave out gives a part of the timeline: whatever
/// slots it names (none ending before it starts), the filtered timeline (as
/// `apply_filter` gives it) holds no instant that the timeline does not.
pub proof fn lemma_not_on_filter_within(tl: Seq<Slot>, f: TimeFilter, x: int)
    requires
        f.after_time is None,
        f.before_time is None,
        f.on_days is None,
        f.not_on matches Some(v) ==> all_ordered(v@),
    ensures
        covered_by(after_not_on(after_days(after_timing(tl, f), f), f), x) ==> covered_by(tl, x),
{
    assert(after_days(after_timing(tl, f), f) == tl);
    lemma_not_on_takes_away(tl, f, x);
}

/// The day slots of a timeline whose slots start on the hour start on the hour, do not end
/// before they start, and hold only instants of the timeline.
proof fn lemma_daily_within(tl: Seq<Slot>, x: int)
    requires
        days_cuttable(tl),
        starts_on_hours(tl),
    ensures
        forall|g: Slot| #[trigger] daily_slots(tl).contains(g) ==> g.start % 3600 == 0 && g.start <= g.end,
        covered_by(daily_slots(tl), x) ==> covered_by(tl, x),
{
    let c = all_day_cuts(tl);
    lemma_all_day_cuts_within(tl, x);
    vstd::seq_lib::seq_to_set_is_finite(c);
    lemma_sorted_of_set(c.to_set());
    lemma_sorted_of_seq_covers(c, x);
    assert forall|g: Slot| #[trigger] daily_slots(tl).contains(g) implies g.start % 3600 == 0 && g.start
        <= g.end by {
        assert(c.to_set().contains(g));
        assert(c.contains(g));
    }
}

proof fn lemma_with_hour_on_hour(t: int, h: int)
    requires
        t % 3600 == 0,
        0 <= h < 24,
    ensures
        with_hour_of(t, h) % 3600 == 0,
        t - 86400 < with_hour_of(t, h) < t + 86400,
{
    let q = t / 86400;
    let r = t % 86400;
    vstd::arithmetic::div_mod::lemma_fundamental_div_mod(t, 86400);
    assert(with_hour_of(t, h) == 86400 * q + h * 3600);
    assert((86400 * q + h * 3600) % 3600 == 0) by (nonlinear_arith) {
        assert(86400 * q + h * 3600 == (24 * q + h) * 3600);
        vstd::arithmetic::div_mod::lemma_mod_multiples_basic(24 * q + h, 3600);
    }
}

/// The timing pieces of a day slot that starts on the hour start on the hour and hold only
/// instants of the day slot.
proof fn lemma_timing_pieces_within(d: Slot, after: Option<usize>, before: Option<usize>, x: int)
    requires
        hour_bound(after),
        hour_bound(before),
        time_ok(d.start as int),
        d.start % 3600 == 0,
    ensures
        forall|g: Slot| #[trigger] timing_pieces(d, after, before).contains(g) ==> g.start % 3600 == 0,
        covered_by(timing_pieces(d, after, before), x) ==> in_slot(d, x),
{
    match after {
        Some(a) => {
            lemma_with_hour_on_hour(d.start as int, a as int);
        },
        None => {},
    }
    match before {
        Some(b) => {
            lemma_with_hour_on_hour(d.start as int, b as int);
        },
        None => {},
    }
    let p = timing_pieces(d, after, before);
    assert forall|g: Slot| #[trigger] p.contains(g) implies g.start % 3600 == 0 by {
        let k = choose|k: int| 0 <= k < p.len() && p[k] == g;
    }
    if covered_by(p, x) {
        let k = choose|k: int| 0 <= k < p.len() && in_slot(#[trigger] p[k], x);
    }
}

/// The timing pieces of day slots that start on the hour start on the hour and hold only
/// instants of the day slots.
proof fn lemma_timing_all_within(ds: Seq<Slot>, after: Option<usize>, before: Option<usize>, x: int)
    requires
        hour_bound(after),
        hour_bound(before),
        forall|g: Slot| #[trigger] ds.contains(g) ==> time_ok(g.start as int) && g.start % 3600 == 0,
    ensures
        forall|g: Slot| #[trigger] timing_all(ds, after, before).contains(g) ==> g.start % 3600 == 0,
        covered_by(timing_all(ds, after, before), x) ==> covered_by(ds, x),
    decreases ds.len(),
{
    if ds.len() > 0 {
        let init = ds.drop_last();
        let last = ds.last();
        assert(last == ds[ds.len() - 1]);
        assert(ds.contains(last));
        assert forall|g: Slot| #[trigger] init.contains(g) implies time_ok(g.start as int) && g.start % 3600
            == 0 by {
            let k = choose|k: int| 0 <= k < init.len() && init[k] == g;
            assert(ds[k] == g);
            assert(ds.contains(g));
        }
        lemma_timing_all_within(init, after, before, x);
        lemma_timing_pieces_within(last, after, before, x);
        let a = timing_all(init, after, before);
        let b = timing_pieces(last, after, before);
        let c = timing_all(ds, after, before);
        assert(c == a + b);
        assert forall|g: Slot| #[trigger] c.contains(g) implies g.start % 3600 == 0 by {
            let k = choose|k: int| 0 <= k < c.len() && c[k] == g;
            if k < a.len() {
                assert(a[k] == g);
                assert(a.contains(g));
            } else {
                assert(b[k - a.len()] == g);
                assert(b.contains(g));
            }
        }
        if covered_by(c, x) {
            let k = choose|k: int| 0 <= k < c.len() && in_slot(#[trigger] c[k], x);
            if k < a.len() {
                assert(in_slot(a[k], x));
                let j = choose|j: int| 0 <= j < init.len() && in_slot(#[trigger] init[j], x);
                assert(init[j] == ds[j]);
                assert(in_slot(ds[j], x));
            } else {
                assert(in_slot(b[k - a.len()], x));
                assert(in_slot(ds[ds.len() - 1], x));
            }
        }
    }
}

/// The hour part of a filter, on a timeline whose slots start on the hour, keeps slots that
/// start on the hour and takes away only.
proof fn lemma_after_timing_within(tl: Seq<Slot>, f: TimeFilter, x: int)
    requires
        hour_bound(f.after_time),
        hour_bound(f.before_time),
        (f.after_time is Some || f.before_time is Some) ==> days_cuttable(tl),
        starts_on_hours(tl),
    ensures
        starts_on_hours(after_timing(tl, f)),
        covered_by(after_timing(tl, f), x) ==> covered_by(tl, x),
{
    if f.after_time is Some || f.before_time is Some {
        let ds = daily_slots(tl);
        lemma_daily_within(tl, x);
        vstd::seq_lib::seq_to_set_is_finite(all_day_cuts(tl));
        lemma_sorted_of_set(all_day_cuts(tl).to_set());
        lemma_daily_range(ds, tl);
        assert forall|g: Slot| #[trigger] ds.contains(g) implies time_ok(g.start as int) && g.start % 3600
            == 0 by {
            let k = choose|k: int| 0 <= k < ds.len() && ds[k] == g;
            assert(time_ok(ds[k].start as int));
        }
        let ta = timing_all(ds, f.after_time, f.before_time);
        lemma_timing_all_within(ds, f.after_time, f.before_time, x);
        vstd::seq_lib::seq_to_set_is_finite(ta);
        lemma_sorted_of_set(ta.to_set());
        lemma_sorted_of_seq_covers(ta, x);
        assert forall|g: Slot| #[trigger] after_timing(tl, f).contains(g) implies g.start % 3600 == 0 by {
            assert(ta.to_set().contains(g));
            assert(ta.contains(g));
        }
    }
}

proof fn lemma_off_days_in(ps: Seq<Slot>, days: Seq<Day>, g: Slot)
    ensures
        off_days(ps, days).contains(g) ==> ps.contains(g),
    decreases ps.len(),
{
    if ps.len() > 0 {
        let init = ps.drop_last();
        lemma_off_days_in(init, days, g);
        let o = off_days(ps, days);
        if o.contains(g) {
            let k = choose|k: int| 0 <= k < o.len() && o[k] == g;
            let oi = off_days(init, days);
            if k < oi.len() {
                assert(oi[k] == g);
                assert(oi.contains(g));
                let j = choose|j: int| 0 <= j < init.len() && init[j] == g;
                assert(ps[j] == g);
            } else {
                assert(g == ps.last());
                assert(ps[ps.len() - 1] == g);
            }
        }
    }
}

/// The day part of a filter, on a timeline whose slots start on the hour, takes away only.
proof fn lemma_after_days_within(tl: Seq<Slot>, f: TimeFilter, x: int)
    requires
        f.on_days is Some ==> days_cuttable(tl),
        starts_on_hours(tl),
    ensures
        covered_by(after_days(tl, f), x) ==> covered_by(tl, x),
{
    match f.on_days {
        Some(days) => {
            let ds = daily_slots(tl);
            lemma_daily_within(tl, x);
            let off = off_days(ds, days@);
            let rm = off.to_set();
            vstd::seq_lib::seq_to_set_is_finite(off);
            lemma_sorted_of_set(rm);
            let rs = sorted_of_set(rm);
            assert forall|k: int| 0 <= k < rs.len() implies (#[trigger] rs[k]).start <= rs[k].end by {
                assert(rs.contains(rs[k]));
                assert(rm.contains(rs[k]));
                assert(off.contains(rs[k]));
                lemma_off_days_in(ds, days@, rs[k]);
            }
            lemma_cut_out_all_subset(sorted_of_set(ds.to_set().difference(rm)), rs, x);
            lemma_difference_subset(ds, rm, x);
        },
        None => {},
    }
}

/// Filtering only takes away: for a timeline whose slots start on the hour and a filter
/// that can be applied to it, whose slots to leave out (if any) do not end before they
/// start, the filtered timeline (as `apply_filter` gives it) holds no instant that the
/// timeline does not.
pub proof fn lemma_filter_within(tl: Seq<Slot>, f: TimeFilter, x: int)
    requires
        filter_applicable(tl, f),
        starts_on_hours(tl),
        f.not_on matches Some(v) ==> all_ordered(v@),
    ensures
        covered_by(after_not_on(after_days(after_timing(tl, f), f), f), x) ==> covered_by(tl, x),
{
    lemma_after_timing_within(tl, f, x);
    let t = after_timing(tl, f);
    lemma_after_days_within(t, f, x);
    lemma_not_on_takes_away(after_days(t, f), f, x);
}

/// A filter that can be applied to the timeline: hour bounds a day's time can be set
/// to, and slots that can be cut into days where they are.
pub open spec fn filter_applicable(tl: Seq<Slot>, f: TimeFilter) -> bool {
    &&& strictly_sorted(tl)
    &&& hour_bound(f.after_time)
    &&& hour_bound(f.before_time)
    &&& (f.after_time is Some || f.before_time is Some) ==> days_cuttable(tl)
    &&& f.on_days is Some ==> days_cuttable(after_timing(tl, f))
}

/// Applies the filter to the timeline: first its hour bounds, then its days, then
/// the slots it leaves out.
pub fn apply_filter(timeline: &Timeline, filter: &TimeFilter) -> (r: Timeline)
    requires
        filter_applicable(timeline.slots@, *filter),
    ensures
        strictly_sorted(r.slots@),
        r.slots@ == after_not_on(after_days(after_timing(timeline.slots@, *filter), *filter), *filter),
{
    let mut filtered_timeline = Timeline { slots: clone_slots(&timeline.slots) };
    if filter.after_time.is_some() || filter.before_time.is_some() {
        filtered_timeline = filter_timing(&filtered_timeline, filter.before_time, filter.after_time);
        proof {
            lemma_is_sorted_of_set(filtered_timeline.slots@);
        }
    }
    assert(filtered_timeline.slots@ == after_timing(timeline.slots@, *filter));
    match &filter.on_days {
        Some(days) => {
            filtered_timeline = filter_on_days(&filtered_timeline, days);
        },
        None => {},
    }
    assert(filtered_timeline.slots@ == after_days(after_timing(timeline.slots@, *filter), *filter));
    match &filter.not_on {
        Some(not_on) => {
            filtered_timeline = filter_not_on(&filtered_timeline, not_on);
        },
        None => {},
    }
    filtered_timeline
}

} // verus!
