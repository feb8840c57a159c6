use vstd::prelude::*;
use crate::slot::{slot_hours, slot_ok, Slot};
use crate::time::{day_number, day_number_of, time_ok, with_hour, with_hour_of, SECS_PER_DAY, SECS_PER_HOUR, TIME_LIMIT};
use crate::timeline::{collect_slots, strictly_sorted, Timeline};

verus! {

/// The one-hour slots that fill `s` from its start, one for each whole hour.
pub open spec fn hour_pieces(s: Slot) -> Seq<Slot> {
    Seq::new(
        slot_hours(s) as nat,
        |h: int|
            Slot {
                start: (s.start + h * SECS_PER_HOUR) as i64,
                end: (s.start + (h + 1) * SECS_PER_HOUR) as i64,
            },
    )
}

/// The pieces of `threshold` hours that `s` is cut into from its start: one starting
/// at each multiple of `threshold` hours within its whole hours, the piece starting at
/// its last whole hour ending where `s` ends.
pub open spec fn custom_pieces(s: Slot, threshold: int) -> Seq<Slot> {
    let d = slot_hours(s);
    if threshold == 0 || threshold > d {
        seq![s]
    } else {
        Seq::new(
            ((d + threshold - 1) / threshold) as nat,
            |k: int|
                if k * threshold == d - 1 {
                    Slot { start: (s.start + k * threshold * SECS_PER_HOUR) as i64, end: s.end }
                } else {
                    Slot {
                        start: (s.start + k * threshold * SECS_PER_HOUR) as i64,
                        end: (s.start + (k + 1) * threshold * SECS_PER_HOUR) as i64,
                    }
                },
        )
    }
}

/// The point where the day after that of `t` starts, at the minutes and seconds of `t`.
#[verifier::opaque]
pub open spec fn next_day_of(t: int) -> int {
    with_hour_of(t, 0) + SECS_PER_DAY
}

/// The pieces of `[slider, end)` cut at each next day: up to the next day while `end`
/// lies on a later day, then up to `end`.
pub open spec fn day_cuts(slider: int, end: int) -> Seq<Slot>
    decreases end - slider,
{
    if slider >= end {
        Seq::empty()
    } else {
        let next = next_day_of(slider);
        let piece = if day_number_of(slider) == day_number_of(end) {
            Slot { start: slider as i64, end: end as i64 }
        } else {
            Slot { start: slider as i64, end: next as i64 }
        };
        if next <= slider || next >= end {
            seq![piece]
        } else {
            seq![piece] + day_cuts(next, end)
        }
    }
}

proof fn lemma_next_day(t: int)
    ensures
        next_day_of(t) >= t + SECS_PER_HOUR,
        next_day_of(t) <= t + SECS_PER_DAY,
        next_day_of(t) == with_hour_of(t, 0) + SECS_PER_DAY,
{
    reveal(next_day_of);
    let s86 = t % 86400;
    let s36 = t % 3600;
    assert(s36 <= s86) by (nonlinear_arith)
        requires
            s86 == t % 86400,
            s36 == t % 3600,
    {
        vstd::arithmetic::div_mod::lemma_fundamental_div_mod(t, 86400);
        vstd::arithmetic::div_mod::lemma_fundamental_div_mod(t, 3600);
    }
    assert(s86 - s36 <= 82800) by (nonlinear_arith)
        requires
            s86 == t % 86400,
            s36 == t % 3600,
            0 <= s86 < 86400,
            0 <= s36 < 3600,
    {
        vstd::arithmetic::div_mod::lemma_fundamental_div_mod(t, 86400);
        vstd::arithmetic::div_mod::lemma_fundamental_div_mod(t, 3600);
        vstd::arithmetic::div_mod::lemma_fundamental_div_mod(s86, 3600);
        assert(s86 % 3600 == s36) by {
            vstd::arithmetic::div_mod::lemma_mod_mod(t, 3600, 24);
        }
    }
}

/// Every day piece of `[slider, end)` starts within it.
pub proof fn lemma_day_cuts_range(slider: int, end: int)
    requires
        -TIME_LIMIT <= slider,
        end <= TIME_LIMIT,
    ensures
        forall|k: int|
            0 <= k < day_cuts(slider, end).len() ==> slider <= (#[trigger] day_cuts(slider, end)[k]).start
                < end,
    decreases end - slider,
{
    if slider < end {
        let next = next_day_of(slider);
        if !(next <= slider || next >= end) {
            lemma_day_cuts_range(next, end);
            let rest = day_cuts(next, end);
            assert forall|k: int| 0 <= k < day_cuts(slider, end).len() implies slider <= (
            #[trigger] day_cuts(slider, end)[k]).start < end by {
                if k > 0 {
                    assert(day_cuts(slider, end)[k] == rest[k - 1]);
                } else {
                    assert(day_cuts(slider, end)[0].start == slider as i64);
                }
            }
        } else {
            assert(day_cuts(slider, end).len() == 1);
            assert(day_cuts(slider, end)[0].start == slider as i64);
        }
    }
}

proof fn lemma_next_day_on_hour(t: int)
    requires
        t % 3600 == 0,
    ensures
        next_day_of(t) == (t / 86400 + 1) * 86400,
        next_day_of(t) % 3600 == 0,
{
    reveal(next_day_of);
    let q = t / 86400;
    vstd::arithmetic::div_mod::lemma_fundamental_div_mod(t, 86400);
    assert((q + 1) * 86400 == 86400 * q + 86400) by (nonlinear_arith);
    assert(((q + 1) * 86400) % 3600 == 0) by (nonlinear_arith) {
        assert((q + 1) * 86400 == ((q + 1) * 24) * 3600);
        vstd::arithmetic::div_mod::lemma_mod_multiples_basic((q + 1) * 24, 3600);
    }
}

proof fn lemma_later_day(a: int, b: int)
    requires
        a < b,
        a / 86400 != b / 86400,
    ensures
        (a / 86400 + 1) * 86400 <= b,
{
    vstd::arithmetic::div_mod::lemma_div_is_ordered(a, b, 86400);
    vstd::arithmetic::div_mod::lemma_fundamental_div_mod(b, 86400);
    let qa = a / 86400;
    let qb = b / 86400;
    assert((qa + 1) * 86400 <= qb * 86400) by (nonlinear_arith)
        requires
            qa + 1 <= qb,
    ;
}

proof fn lemma_same_day(b: int)
    ensures
        b < (b / 86400 + 1) * 86400,
{
    vstd::arithmetic::div_mod::lemma_fundamental_div_mod(b, 86400);
    let qb = b / 86400;
    assert((qb + 1) * 86400 == 86400 * qb + 86400) by (nonlinear_arith);
}

/// Cutting `[slider, end)` at the days, from a slider on the hour, gives pieces that
/// start on the hour, do not end before they start, and hold only instants of
/// `[slider, end)`.
pub proof fn lemma_day_cuts_within(slider: int, end: int, x: int)
    requires
        slider % 3600 == 0,
        -TIME_LIMIT <= slider,
        end <= TIME_LIMIT,
    ensures
        forall|g: Slot|
            #[trigger] day_cuts(slider, end).contains(g) ==> g.start % 3600 == 0 && g.start <= g.end
                && slider <= g.start && g.end <= end,
        crate::slot::covered_by(day_cuts(slider, end), x) ==> slider <= x < end,
    decreases end - slider,
{
    let c = day_cuts(slider, end);
    if slider < end {
        let next = next_day_of(slider);
        lemma_next_day_on_hour(slider);
        lemma_same_day(end);
        if day_number_of(slider) != day_number_of(end) {
            lemma_later_day(slider, end);
        }
        let piece = c[0];
        assert(piece.start == slider && piece.start <= piece.end && piece.end <= end);
        if !(next <= slider || next >= end) {
            lemma_day_cuts_within(next, end, x);
            let rest = day_cuts(next, end);
            assert(c == seq![piece] + rest);
            assert forall|g: Slot| #[trigger] c.contains(g) implies g.start % 3600 == 0 && g.start <= g.end
                && slider <= g.start && g.end <= end by {
                let k = choose|k: int| 0 <= k < c.len() && c[k] == g;
                if k > 0 {
                    assert(rest[k - 1] == g);
                    assert(rest.contains(g));
                }
            }
            if crate::slot::covered_by(c, x) {
                let k = choose|k: int| 0 <= k < c.len() && crate::slot::in_slot(#[trigger] c[k], x);
                if k > 0 {
                    assert(crate::slot::in_slot(rest[k - 1], x));
                }
            }
        } else {
            assert(c == seq![piece]);
            assert forall|g: Slot| #[trigger] c.contains(g) implies g.start % 3600 == 0 && g.start <= g.end
                && slider <= g.start && g.end <= end by {
                let k = choose|k: int| 0 <= k < c.len() && c[k] == g;
                assert(k == 0);
            }
        }
    }
}

impl Slot {
    /// The one-hour slots that fill this slot from its start, one for each whole hour.
    pub fn split_into_1h_slots(&self) -> (r: Vec<Slot>)
        requires
            slot_ok(*self),
        ensures
            r@ == hour_pieces(*self),
    {
        let duration = self.span();
        let mut result: Vec<Slot> = Vec::new();
        let mut hour: usize = 0;
        while hour < duration
            invariant
                slot_ok(*self),
                duration == slot_hours(*self),
                hour <= duration,
                result@ =~= hour_pieces(*self).take(hour as int),
            decreases duration - hour,
        {
            proof {
                assert(self.start + (hour + 1) * 3600 <= self.end) by (nonlinear_arith)
                    requires
                        hour + 1 <= duration,
                        duration == (self.end - self.start) / 3600,
                        self.start <= self.end,
                ;
            }
            result.push(Slot {
                start: self.start + (hour as i64) * SECS_PER_HOUR,
                end: self.start + ((hour + 1) as i64) * SECS_PER_HOUR,
            });
            hour = hour + 1;
        }
        result
    }

    /// The pieces of `threshold` hours that this slot is cut into from its start (see
    /// `custom_pieces`); the slot itself when the threshold is 0 or longer than it.
    pub fn split_into_custom_hours(&self, threshold: usize) -> (r: Vec<Slot>)
        requires
            slot_ok(*self),
            self.start + (slot_hours(*self) + threshold) * SECS_PER_HOUR <= TIME_LIMIT,
            slot_hours(*self) + threshold <= usize::MAX,
        ensures
            r@ == custom_pieces(*self, threshold as int),
    {
        let given_slot = *self;
        let duration = given_slot.span();
        if threshold == 0 || threshold > duration {
            return vec![given_slot];
        }
        let mut result: Vec<Slot> = Vec::new();
        let ghost count = (duration + threshold - 1) as int / threshold as int;
        let mut hour: usize = 0;
        let ghost mut k: int = 0;
        proof {
            assert(count >= 1) by (nonlinear_arith)
                requires
                    count == (duration + threshold - 1) as int / threshold as int,
                    1 <= threshold <= duration,
            ;
        }
        while hour < duration
            invariant
                slot_ok(*self),
                self.start + (slot_hours(*self) + threshold) * SECS_PER_HOUR <= TIME_LIMIT,
                duration == slot_hours(*self),
                duration + threshold <= usize::MAX,
                1 <= threshold <= duration,
                count == (duration + threshold - 1) as int / threshold as int,
                hour == k * threshold,
                0 <= k <= count,
                hour < duration ==> k < count,
                hour >= duration ==> k == count,
                result@ =~= custom_pieces(*self, threshold as int).take(k),
            decreases duration + threshold - hour,
        {
            proof {
                assert(k < count);
                assert(hour + threshold <= duration + threshold);
                assert((k + 1) * threshold == hour + threshold) by (nonlinear_arith)
                    requires
                        hour == k * threshold,
                ;
            }
            if hour == duration - 1 {
                result.push(Slot { start: self.start + (hour as i64) * SECS_PER_HOUR, end: self.end });
                proof {
                    assert(k + 1 == count) by (nonlinear_arith)
                        requires
                            hour == k * threshold,
                            hour == duration - 1,
                            count == (duration + threshold - 1) as int / threshold as int,
                            threshold >= 1,
                    ;
                    assert(result@ =~= custom_pieces(*self, threshold as int).take(k + 1));
                    assert(custom_pieces(*self, threshold as int).take(k + 1) =~= custom_pieces(*self, threshold as int));
                }
                return result;
            }
            result.push(Slot {
                start: self.start + (hour as i64) * SECS_PER_HOUR,
                end: self.start + ((hour + threshold) as i64) * SECS_PER_HOUR,
            });
            proof {
                assert(result@ =~= custom_pieces(*self, threshold as int).take(k + 1));
                assert((hour + threshold < duration) == (k + 1 < count)) by (nonlinear_arith)
                    requires
                        hour == k * threshold,
                        count == (duration + threshold - 1) as int / threshold as int,
                        threshold >= 1,
                        duration >= 1,
                        k >= 0,
                ;
                k = k + 1;
            }
            hour = hour + threshold;
        }
        proof {
            assert(custom_pieces(*self, threshold as int).take(k) =~= custom_pieces(*self, threshold as int));
        }
        result
    }

    /// This slot cut at the start of each following day (at the minutes and seconds of
    /// its start), the last piece ending where the slot ends.
    pub fn split_into_days(&self) -> (r: Vec<Slot>)
        requires
            self.wf(),
            self.end + SECS_PER_DAY <= TIME_LIMIT,
            self.start + SECS_PER_DAY <= TIME_LIMIT,
        ensures
            r@ == day_cuts(self.start as int, self.end as int),
    {
        let mut result: Vec<Slot> = Vec::new();
        let mut start_slider = self.start;
        while start_slider < self.end
            invariant
                self.wf(),
                self.end + SECS_PER_DAY <= TIME_LIMIT,
                time_ok(start_slider as int),
                start_slider >= self.start,
                start_slider < self.end ==> start_slider + SECS_PER_DAY <= TIME_LIMIT,
                result@ + day_cuts(start_slider as int, self.end as int) =~= day_cuts(self.start as int, self.end as int),
            decreases self.end + SECS_PER_DAY - start_slider,
        {
            proof {
                lemma_next_day(start_slider as int);
            }
            let next = with_hour(start_slider, 0) + SECS_PER_DAY;
            let ghost rest = day_cuts(start_slider as int, self.end as int);
            if day_number(start_slider) == day_number(self.end) {
                result.push(Slot { start: start_slider, end: self.end });
            } else {
                result.push(Slot { start: start_slider, end: next });
            }
            proof {
                assert(rest =~= seq![result@.last()] + day_cuts(next as int, self.end as int));
            }
            start_slider = next;
        }
        proof {
            assert(day_cuts(start_slider as int, self.end as int) =~= Seq::<Slot>::empty());
            assert(result@ + Seq::<Slot>::empty() =~= result@);
        }
        result
    }
}

/// The one-hour slots of each slot, slot after slot.
pub open spec fn all_hour_pieces(slots: Seq<Slot>) -> Seq<Slot>
    decreases slots.len(),
{
    if slots.len() == 0 {
        Seq::empty()
    } else {
        all_hour_pieces(slots.drop_last()) + hour_pieces(slots.last())
    }
}

/// The one-hour slots that fill each slot, slot after slot.
pub fn split_into_1h_slots(slots: Vec<Slot>) -> (r: Vec<Slot>)
    requires
        forall|i: int| 0 <= i < slots.len() ==> slot_ok(#[trigger] slots@[i]),
    ensures
        r@ == all_hour_pieces(slots@),
{
    let mut all_slots: Vec<Slot> = Vec::new();
    let mut i: usize = 0;
    while i < slots.len()
        invariant
            i <= slots.len(),
            forall|k: int| 0 <= k < slots.len() ==> slot_ok(#[trigger] slots@[k]),
            all_slots@ == all_hour_pieces(slots@.take(i as int)),
        decreases slots.len() - i,
    {
        let pieces = slots[i].split_into_1h_slots();
        let ghost before = all_slots@;
        let mut j: usize = 0;
        while j < pieces.len()
            invariant
                j <= pieces.len(),
                all_slots@ == before + pieces@.take(j as int),
            decreases pieces.len() - j,
        {
            all_slots.push(pieces[j]);
            j = j + 1;
            assert(all_slots@ =~= before + pieces@.take(j as int));
        }
        proof {
            assert(pieces@.take(pieces.len() as int) =~= pieces@);
            assert(slots@.take(i + 1).drop_last() =~= slots@.take(i as int));
            assert(slots@.take(i + 1).last() == slots@[i as int]);
        }
        i = i + 1;
    }
    proof {
        assert(slots@.take(slots.len() as int) =~= slots@);
    }
    all_slots
}

/// The day pieces of each slot, slot after slot.
pub open spec fn all_day_cuts(slots: Seq<Slot>) -> Seq<Slot>
    decreases slots.len(),
{
    if slots.len() == 0 {
        Seq::empty()
    } else {
        all_day_cuts(slots.drop_last()) + day_cuts(slots.last().start as int, slots.last().end as int)
    }
}

/// A timeline whose slots can be cut at the days.
pub open spec fn days_cuttable(slots: Seq<Slot>) -> bool {
    forall|i: int|
        0 <= i < slots.len() ==> (#[trigger] slots[i]).wf() && slots[i].end + SECS_PER_DAY <= TIME_LIMIT
            && slots[i].start + SECS_PER_DAY <= TIME_LIMIT
}

/// Slots that all start on the hour.
pub open spec fn starts_on_hours(s: Seq<Slot>) -> bool {
    forall|g: Slot| #[trigger] s.contains(g) ==> g.start % 3600 == 0
}

/// Cutting the slots of a timeline at the days, where each slot starts on the hour, gives
/// pieces that start on the hour and do not end before they start, and that hold only
/// instants of the timeline.
pub proof fn lemma_all_day_cuts_within(tl: Seq<Slot>, x: int)
    requires
        days_cuttable(tl),
        starts_on_hours(tl),
    ensures
        forall|g: Slot| #[trigger] all_day_cuts(tl).contains(g) ==> g.start % 3600 == 0 && g.start <= g.end,
        crate::slot::covered_by(all_day_cuts(tl), x) ==> crate::slot::covered_by(tl, x),
    decreases tl.len(),
{
    if tl.len() > 0 {
        let init = tl.drop_last();
        let last = tl.last();
        assert(last == tl[tl.len() - 1]);
        assert(tl.contains(last));
        assert forall|g: Slot| #[trigger] init.contains(g) implies g.start % 3600 == 0 by {
            let k = choose|k: int| 0 <= k < init.len() && init[k] == g;
            assert(tl[k] == g);
            assert(tl.contains(g));
        }
        assert forall|i: int| 0 <= i < init.len() implies (#[trigger] init[i]).wf() && init[i].end + SECS_PER_DAY
            <= TIME_LIMIT && init[i].start + SECS_PER_DAY <= TIME_LIMIT by {
            assert(init[i] == tl[i]);
        }
        lemma_all_day_cuts_within(init, x);
        lemma_day_cuts_within(last.start as int, last.end as int, x);
        let a = all_day_cuts(init);
        let b = day_cuts(last.start as int, last.end as int);
        let c = all_day_cuts(tl);
        assert(c == a + b);
        assert forall|g: Slot| #[trigger] c.contains(g) implies g.start % 3600 == 0 && g.start <= g.end by {
            let k = choose|k: int| 0 <= k < c.len() && c[k] == g;
            if k < a.len() {
                assert(a[k] == g);
                assert(a.contains(g));
            } else {
                assert(b[k - a.len()] == g);
                assert(b.contains(g));
            }
        }
        if crate::slot::covered_by(c, x) {
            let k = choose|k: int| 0 <= k < c.len() && crate::slot::in_slot(#[trigger] c[k], x);
            if k < a.len() {
                assert(crate::slot::in_slot(a[k], x));
                let j = choose|j: int| 0 <= j < init.len() && crate::slot::in_slot(#[trigger] init[j], x);
                assert(init[j] == tl[j]);
                assert(crate::slot::in_slot(tl[j], x));
            } else {
                assert(crate::slot::in_slot(b[k - a.len()], x));
                assert(crate::slot::in_slot(tl[tl.len() - 1], x));
            }
        }
    }
}

impl Timeline {
    /// The timeline with each slot cut at the start of each following day.
    pub fn split_into_days(&self) -> (t: Timeline)
        requires
            days_cuttable(self.slots@),
        ensures
            strictly_sorted(t.slots@),
            t@ == all_day_cuts(self.slots@).to_set(),
    {
        let mut new_slots: Vec<Slot> = Vec::new();
        let mut i: usize = 0;
        while i < self.slots.len()
            invariant
                i <= self.slots.len(),
                days_cuttable(self.slots@),
                new_slots@ == all_day_cuts(self.slots@.take(i as int)),
            decreases self.slots.len() - i,
        {
            let pieces = self.slots[i].split_into_days();
            let ghost before = new_slots@;
            let mut j: usize = 0;
            while j < pieces.len()
                invariant
                    j <= pieces.len(),
                    new_slots@ == before + pieces@.take(j as int),
                decreases pieces.len() - j,
            {
                new_slots.push(pieces[j]);
                j = j + 1;
                assert(new_slots@ =~= before + pieces@.take(j as int));
            }
            proof {
                assert(pieces@.take(pieces.len() as int) =~= pieces@);
                assert(self.slots@.take(i + 1).drop_last() =~= self.slots@.take(i as int));
                assert(self.slots@.take(i + 1).last() == self.slots@[i as int]);
            }
            i = i + 1;
        }
        proof {
            assert(self.slots@.take(self.slots.len() as int) =~= self.slots@);
        }
        let ghost all = new_slots@;
        let t = collect_slots(new_slots);
        proof {
            assert(t@ =~= all.to_set()) by {
                assert forall|x: Slot| t@.contains(x) <==> all.to_set().contains(x) by {
                    assert(t.slots@.contains(x) <==> all.contains(x));
                }
            }
        }
        t
    }
}

} // verus!
