use vstd::prelude::*;
use crate::time::{time_ok, hours_between, hours_from_to, SECS_PER_HOUR};

verus! {

/// A half-open span of time `[start, end)`, both ends as timestamps
/// (seconds since 1970-01-01T00:00:00).
#[derive(PartialEq, Eq, Structural, Clone, Copy, Debug, PartialOrd, Ord, Hash)]
pub struct Slot {
    pub start: i64,
    pub end: i64,
}

/// Does the slot hold the instant `x`?
pub open spec fn in_slot(s: Slot, x: int) -> bool {
    s.start <= x < s.end
}

/// Does some slot of `slots` hold the instant `x`?
pub open spec fn covered_by(slots: Seq<Slot>, x: int) -> bool {
    exists|i: int| 0 <= i < slots.len() && in_slot(#[trigger] slots[i], x)
}

/// What subtracting `other` from `s` gives, case by case.
pub open spec fn sub_spec(s: Slot, other: Slot) -> Seq<Slot> {
    if (other.start < s.start && other.end <= s.start) || (other.start >= s.end && other.end
        > s.end) {
        seq![s]
    } else if other.start == s.start && other.end < s.end {
        seq![Slot { start: other.end, end: s.end }]
    } else if other.start > s.start && other.end < s.end {
        seq![Slot { start: s.start, end: other.start }, Slot { start: other.end, end: s.end }]
    } else if other.start > s.start && other.end == s.end {
        seq![Slot { start: s.start, end: other.start }]
    } else if other.start <= s.start && other.end >= s.end {
        seq![]
    } else if other.start < s.start && other.end > s.start && other.end <= s.end {
        if other.end != s.end {
            seq![Slot { start: other.end, end: s.end }]
        } else {
            seq![]
        }
    } else {
        if s.start != other.start {
            seq![Slot { start: s.start, end: other.start }]
        } else {
            seq![]
        }
    }
}

/// What adding `other` to `s` gives: the union when they touch, else `s`.
pub open spec fn add_spec(s: Slot, other: Slot) -> Slot {
    if other.start < s.start && other.end == s.start {
        Slot { start: other.start, end: s.end }
    } else if other.start == s.end && other.end > s.end {
        Slot { start: s.start, end: other.end }
    } else {
        s
    }
}

/// Do the two slots conflict?
pub open spec fn conflicts_spec(s: Slot, other: Slot) -> bool {
    !((s.start < other.start && s.end <= other.start) || (s.start >= other.end && s.end
        > other.end))
}

/// The intersection of `s` with `other`, case by case.
pub open spec fn intersection_spec(s: Slot, other: Slot) -> Slot {
    if other.start >= s.start && other.end <= s.end {
        other
    } else if other.start <= s.start && other.end < s.end {
        Slot { start: s.start, end: other.end }
    } else if other.start > s.start && other.end >= s.end {
        Slot { start: other.start, end: s.end }
    } else {
        s
    }
}

/// Whole hours of a slot, truncated.
pub open spec fn slot_hours(s: Slot) -> int {
    (s.end - s.start) / (SECS_PER_HOUR as int)
}

/// Whole hours that two slots have in common, truncated; 0 when they do not meet.
pub open spec fn overlap_hours(a: Slot, b: Slot) -> int {
    let lo = if a.start >= b.start {
        a.start
    } else {
        b.start
    };
    let hi = if a.end <= b.end {
        a.end
    } else {
        b.end
    };
    if lo < hi {
        (hi - lo) / (SECS_PER_HOUR as int)
    } else {
        0
    }
}

/// A slot in range, in order, whose hours fit in a `usize`.
pub open spec fn slot_ok(s: Slot) -> bool {
    s.wf() && s.ordered() && slot_hours(s) <= usize::MAX
}

impl Slot {
    /// Both ends lie within the supported range of timestamps.
    pub open spec fn wf(self) -> bool {
        time_ok(self.start as int) && time_ok(self.end as int)
    }

    /// The slot does not end before it starts.
    pub open spec fn ordered(self) -> bool {
        self.start <= self.end
    }

    /// Subtracts `other` from this slot: the parts of this slot that `other` does not cover.
    pub fn sub(self, other: Slot) -> (result: Vec<Slot>)
        ensures
            result@ == sub_spec(self, other),
    {
        let mut result = Vec::new();
        if (other.start < self.start && other.end <= self.start) || (other.start >= self.end
            && other.end > self.end) {
            result.push(self);
        } else if other.start == self.start && other.end < self.end {
            result.push(Slot { start: other.end, end: self.end });
        } else if other.start > self.start && other.end < self.end {
            result.push(Slot { start: self.start, end: other.start });
            result.push(Slot { start: other.end, end: self.end });
        } else if other.start > self.start && other.end == self.end {
            result.push(Slot { start: self.start, end: other.start });
        } else if other.start <= self.start && other.end >= self.end {
        } else if other.start < self.start && other.end > self.start && other.end <= self.end {
            let slot = Slot { start: other.end, end: self.end };
            if slot.start != slot.end {
                result.push(slot);
            }
        } else {
            let slot = Slot { start: self.start, end: other.start };
            if slot.start != slot.end {
                result.push(slot);
            }
        }
        result
    }

    /// Adds `other` to this slot when it touches it; otherwise returns this slot.
    pub fn add(self, other: Slot) -> (result: Slot)
        ensures
            result == add_spec(self, other),
    {
        if other.start < self.start && other.end == self.start {
            Slot { start: other.start, end: self.end }
        } else if other.start == self.end && other.end > self.end {
            Slot { start: self.start, end: other.end }
        } else {
            self
        }
    }

    /// Whole hours in the slot, truncated toward zero; a slot that ends an hour or
    /// more before it starts gives the negative count wrapped into `usize`.
    pub fn num_hours(&self) -> (result: usize)
        requires
            self.wf(),
        ensures
            result == #[verifier::truncate] (hours_between(self.start as int, self.end as int) as usize),
            self.ordered() && (self.end - self.start) / (SECS_PER_HOUR as int) <= usize::MAX
                ==> result == (self.end - self.start) / (SECS_PER_HOUR as int),
    {
        let h = hours_from_to(self.start, self.end);
        #[verifier::truncate]
        (h as usize)
    }

    /// Whole hours of the slot.
    pub fn span(&self) -> (r: usize)
        requires
            slot_ok(*self),
        ensures
            r == slot_hours(*self),
    {
        ((self.end - self.start) / SECS_PER_HOUR) as usize
    }

    /// Whole hours this slot has in common with `other`.
    pub fn intersection(&self, other: &Slot) -> (r: usize)
        requires
            slot_ok(*self),
            other.wf(),
        ensures
            r == overlap_hours(*self, *other),
    {
        let lo = if self.start >= other.start {
            self.start
        } else {
            other.start
        };
        let hi = if self.end <= other.end {
            self.end
        } else {
            other.end
        };
        if lo < hi {
            proof {
                assert((hi - lo) / 3600 <= (self.end - self.start) / 3600) by (nonlinear_arith)
                    requires
                        0 < hi - lo <= self.end - self.start,
                ;
            }
            ((hi - lo) / SECS_PER_HOUR) as usize
        } else {
            0
        }
    }

    /// Does this slot conflict with `other_slot`?
    pub fn conflicts_with(&self, other_slot: &Slot) -> (result: bool)
        ensures
            result == conflicts_spec(*self, *other_slot),
    {
        !((self.start < other_slot.start && self.end <= other_slot.start) || (self.start
            >= other_slot.end && self.end > other_slot.end))
    }

    /// Does this slot contain `other`?
    pub fn contains_hour_slot(&self, other: &Slot) -> (result: bool)
        ensures
            result == (other.start >= self.start && other.end <= self.end),
    {
        (other.start >= self.start) && (other.end <= self.end)
    }

    /// The intersection of this slot with `other`.
    pub fn get_intersection(&self, other: &Slot) -> (result: Slot)
        ensures
            result == intersection_spec(*self, *other),
    {
        if (other.start >= self.start) && (other.end <= self.end) {
            *other
        } else if (other.start <= self.start) && (other.end < self.end) {
            Slot { start: self.start, end: other.end }
        } else if (other.start > self.start) && (other.end >= self.end) {
            Slot { start: other.start, end: self.end }
        } else {
            *self
        }
    }
}

/// Subtracting one ordered slot from another leaves exactly the instants of the
/// first slot that the second does not hold.
pub proof fn lemma_sub_is_difference(s: Slot, other: Slot, x: int)
    requires
        s.ordered(),
        other.ordered(),
    ensures
        covered_by(sub_spec(s, other), x) <==> (in_slot(s, x) && !in_slot(other, x)),
{
    let r = sub_spec(s, other);
    if in_slot(s, x) && !in_slot(other, x) {
        if r.len() == 1 {
            assert(in_slot(r[0], x));
        } else {
            if in_slot(r[0], x) {
            } else {
                assert(in_slot(r[1], x));
            }
        }
    }
}

/// Adding touching slots gives a slot that holds exactly the instants of both.
pub proof fn lemma_add_is_union_of_touching(s: Slot, other: Slot, x: int)
    requires
        s.ordered(),
        other.ordered(),
        other.end == s.start || other.start == s.end,
        other.start != other.end,
    ensures
        in_slot(add_spec(s, other), x) <==> (in_slot(s, x) || in_slot(other, x)),
{
}

/// Two ordered slots conflict exactly when they share an instant, or when one of
/// them is empty and lies within the other's bounds.
pub proof fn lemma_nonempty_conflict_is_overlap(s: Slot, other: Slot)
    requires
        s.start < s.end,
        other.start < other.end,
    ensures
        conflicts_spec(s, other) <==> (s.start < other.end && other.start < s.end),
{
}

/// The intersection of two overlapping ordered slots holds exactly their common instants.
pub proof fn lemma_intersection_is_common_part(s: Slot, other: Slot, x: int)
    requires
        s.ordered(),
        other.ordered(),
        s.start < other.end,
        other.start < s.end,
    ensures
        in_slot(intersection_spec(s, other), x) <==> (in_slot(s, x) && in_slot(other, x)),
{
}

} // verus!
