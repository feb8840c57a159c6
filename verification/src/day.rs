use vstd::prelude::*;
use vstd::string::StringExecFns;
use crate::date::{range_of, DateTime, DateTimeRange};
use crate::time::{day_start_of, time_ok, SECS_PER_DAY, SECS_PER_HOUR};

verus! {

/// Hours in a calendar day.
pub const HOURS_PER_DAY: usize = 24;

/// One hour of a day: taken or still free.
#[derive(Debug, Clone, Copy, PartialEq, Eq, Structural)]
pub enum Seat {
    Occupied,
    Free,
}

/// The start and end timestamps of a range.
pub open spec fn range_secs(r: DateTimeRange) -> (int, int) {
    (r.start_spec().secs(), r.end_spec().secs())
}

/// The start and end timestamps of each range of a sequence.
pub open spec fn ranges_secs(s: Seq<DateTimeRange>) -> Seq<(int, int)> {
    s.map_values(|r: DateTimeRange| range_secs(r))
}

/// The timestamp of hour `i` of the day starting at `ds`.
pub open spec fn hour_at(ds: int, i: int) -> int {
    ds + i * SECS_PER_HOUR
}

/// The seats of a day after taking the hours of `[rs, re)`, when that range lies
/// within the day `[ds, ds + 1 day)`; the seats are left as they are otherwise.
pub open spec fn occupy_spec(occ: Seq<bool>, ds: int, rs: int, re: int) -> Seq<bool> {
    if ds <= rs && re <= ds + SECS_PER_DAY {
        Seq::new(occ.len(), |i: int| occ[i] || (rs <= hour_at(ds, i) && hour_at(ds, i) < re))
    } else {
        occ
    }
}

/// The seats of a day after taking every hour outside `[rs, re)`: the part of the
/// day before it, and the part after it.
pub open spec fn occupy_inverse_spec(occ: Seq<bool>, ds: int, rs: int, re: int) -> Seq<bool> {
    let first = range_of_secs(ds, rs);
    let second = range_of_secs(re, ds + SECS_PER_DAY);
    occupy_spec(occupy_spec(occ, ds, first.0, first.1), ds, second.0, second.1)
}

/// Are the `span` seats from `idx` on all occupied?
pub open spec fn all_occupied_spec(occ: Seq<bool>, idx: int, span: int) -> bool {
    forall|j: int| idx <= j < idx + span ==> #[trigger] occ[j]
}

/// The ranges of `span` hours that start at each of the first `n` hours of the
/// day starting at `ds` whose seats are all occupied, in order.
pub open spec fn slots_upto(occ: Seq<bool>, ds: int, span: int, n: nat) -> Seq<(int, int)>
    decreases n,
{
    if n == 0 {
        Seq::empty()
    } else {
        let i = n - 1;
        let prev = slots_upto(occ, ds, span, (n - 1) as nat);
        if all_occupied_spec(occ, i, span) {
            prev.push((hour_at(ds, i), hour_at(ds, i + span)))
        } else {
            prev
        }
    }
}

/// The number of the first `n` hours of the day starting at `ds` that lie in
/// `[rs, re)` and are free.
pub open spec fn free_count_upto(occ: Seq<bool>, ds: int, rs: int, re: int, n: nat) -> nat
    decreases n,
{
    if n == 0 {
        0
    } else {
        let i = n - 1;
        free_count_upto(occ, ds, rs, re, (n - 1) as nat) + if rs <= hour_at(ds, i) && hour_at(
            ds,
            i,
        ) < re && !occ[i] {
            1nat
        } else {
            0nat
        }
    }
}

/// The number of the first `n` positions at which two seat plans differ.
pub open spec fn differences_upto(a: Seq<bool>, b: Seq<bool>, n: nat) -> nat
    decreases n,
{
    if n == 0 {
        0
    } else {
        differences_upto(a, b, (n - 1) as nat) + if a[n - 1] != b[n - 1] {
            1nat
        } else {
            0nat
        }
    }
}

/// A calendar day, hour by hour: which hours are taken.
#[derive(Debug, PartialEq)]
pub struct Day {
    range: DateTimeRange,
    seats: Vec<Seat>,
}

impl Day {
    /// The midnight that starts the day.
    pub closed spec fn start(self) -> int {
        self.range.start_spec().secs()
    }

    /// For each hour of the day, whether it is taken.
    pub closed spec fn occupied(self) -> Seq<bool> {
        self.seats@.map_values(|s: Seat| s == Seat::Occupied)
    }

    /// The day runs from a midnight to the next one and has a seat for each hour.
    pub closed spec fn wf(self) -> bool {
        &&& self.range.wf()
        &&& self.range.start_spec().secs() % (SECS_PER_DAY as int) == 0
        &&& self.range.end_spec().secs() == self.range.start_spec().secs() + SECS_PER_DAY
        &&& self.seats.len() == HOURS_PER_DAY
    }

    /// The hour slots of a day all lie within the supported time range.
    pub proof fn lemma_wf(self)
        requires
            self.wf(),
        ensures
            self.occupied().len() == HOURS_PER_DAY,
            self.start() % (SECS_PER_DAY as int) == 0,
            time_ok(self.start()),
            time_ok(self.start() + SECS_PER_DAY),
    {
    }

    /// The day of `date`, every hour free.
    pub fn new(date: DateTime) -> (d: Day)
        requires
            date.wf(),
            time_ok(day_start_of(date.secs())),
            time_ok(day_start_of(date.secs()) + SECS_PER_DAY),
        ensures
            d.wf(),
            d.start() == day_start_of(date.secs()),
            d.occupied() == Seq::new(HOURS_PER_DAY as nat, |i: int| false),
    {
        let start = date.start_of_day();
        let end = date.end_of_day();
        let mut current = start;
        let mut seats: Vec<Seat> = Vec::new();
        while current.timestamp() < end.timestamp()
            invariant
                current.wf(),
                start.wf(),
                end.secs() == start.secs() + SECS_PER_DAY,
                end.wf(),
                current.secs() == start.secs() + seats.len() * SECS_PER_HOUR,
                seats.len() <= HOURS_PER_DAY,
                forall|i: int| 0 <= i < seats.len() ==> seats@[i] == Seat::Free,
            decreases end.secs() - current.secs(),
        {
            seats.push(Seat::Free);
            current = current.inc();
        }
        let range = DateTimeRange::new(start, end);
        proof {
            assert(start.secs() % (SECS_PER_DAY as int) == 0) by (nonlinear_arith)
                requires
                    start.secs() == date.secs() - date.secs() % 86400,
            ;
        }
        let d = Day { range, seats };
        assert(d.occupied() =~= Seq::new(HOURS_PER_DAY as nat, |i: int| false));
        d
    }

    /// A copy of the day.
    pub fn duplicate(&self) -> (d: Day)
        requires
            self.wf(),
        ensures
            d.wf(),
            d.start() == self.start(),
            d.occupied() == self.occupied(),
    {
        let mut seats: Vec<Seat> = Vec::new();
        let mut i: usize = 0;
        while i < self.seats.len()
            invariant
                self.wf(),
                i <= self.seats.len(),
                seats@ == self.seats@.take(i as int),
            decreases self.seats.len() - i,
        {
            seats.push(self.seats[i]);
            i = i + 1;
            assert(seats@ =~= self.seats@.take(i as int));
        }
        assert(self.seats@.take(self.seats.len() as int) =~= self.seats@);
        Day { range: self.range, seats }
    }

    /// Taking the same hours twice takes no more than taking them once.
    pub proof fn lemma_occupy_twice(occ: Seq<bool>, ds: int, rs: int, re: int)
        ensures
            occupy_spec(occupy_spec(occ, ds, rs, re), ds, rs, re) == occupy_spec(occ, ds, rs, re),
    {
        assert(occupy_spec(occupy_spec(occ, ds, rs, re), ds, rs, re) =~= occupy_spec(occ, ds, rs, re));
    }

    /// Takes every hour of the day that lies in `range`; nothing when `range`
    /// does not lie within the day.
    pub fn occupy(&mut self, range: &DateTimeRange)
        requires
            old(self).wf(),
            range.start_spec().wf(),
            range.end_spec().wf(),
        ensures
            final(self).wf(),
            final(self).start() == old(self).start(),
            final(self).occupied() == occupy_spec(
                old(self).occupied(),
                old(self).start(),
                range.start_spec().secs(),
                range.end_spec().secs(),
            ),
    {
        if !self.range.contains(range) {
            return;
        }
        let ghost ds = self.start();
        let ghost occ0 = self.occupied();
        let base = self.range.start().start_of_day();
        proof {
            assert(day_start_of(ds) == ds);
        }
        let mut idx: usize = 0;
        while idx < self.seats.len()
            invariant
                self.wf(),
                self.start() == ds,
                base.wf(),
                base.secs() == ds,
                occ0.len() == HOURS_PER_DAY,
                time_ok(ds + SECS_PER_DAY),
                ds <= range.start_spec().secs(),
                range.end_spec().secs() <= ds + SECS_PER_DAY,
                idx <= HOURS_PER_DAY,
                forall|i: int|
                    0 <= i < idx ==> #[trigger] self.occupied()[i] == (occ0[i] || (
                    range.start_spec().secs() <= hour_at(ds, i) && hour_at(ds, i)
                        < range.end_spec().secs())),
                forall|i: int| idx <= i < HOURS_PER_DAY ==> #[trigger] self.occupied()[i] == occ0[i],
            decreases HOURS_PER_DAY - idx,
        {
            let date = base.inc_by(idx);
            let ghost before = self.occupied();
            if range.contains_date_time(&date) {
                self.seats.set(idx, Seat::Occupied);
                assert(self.occupied() =~= before.update(idx as int, true));
            }
            idx = idx + 1;
        }
        assert(self.occupied() =~= occupy_spec(
            occ0,
            ds,
            range.start_spec().secs(),
            range.end_spec().secs(),
        ));
    }

    /// Takes every hour of the day outside `range`.
    pub fn occupy_inverse_range(&mut self, range: &DateTimeRange)
        requires
            old(self).wf(),
            range.start_spec().wf(),
            range.end_spec().wf(),
        ensures
            final(self).wf(),
            final(self).start() == old(self).start(),
            final(self).occupied() == occupy_inverse_spec(
                old(self).occupied(),
                old(self).start(),
                range.start_spec().secs(),
                range.end_spec().secs(),
            ),
    {
        proof {
            assert(day_start_of(self.start()) == self.start());
            assert(day_start_of(self.start() + SECS_PER_DAY) == self.start() + SECS_PER_DAY);
        }
        let first = DateTimeRange::new(self.range.start().start_of_day(), *range.start());
        self.occupy(&first);
        let second = DateTimeRange::new(*range.end(), self.range.end().start_of_day());
        self.occupy(&second);
    }

    /// The hours `[idx, idx + span)` are all taken.
    fn all_occupied(&self, idx: usize, span: usize) -> (r: bool)
        requires
            self.wf(),
            idx + span <= HOURS_PER_DAY,
        ensures
            r == all_occupied_spec(self.occupied(), idx as int, span as int),
    {
        let mut j = idx;
        while j < idx + span
            invariant
                self.wf(),
                idx <= j <= idx + span,
                idx + span <= HOURS_PER_DAY,
                forall|k: int| idx <= k < j ==> #[trigger] self.occupied()[k],
            decreases idx + span - j,
        {
            if self.seats[j] != Seat::Occupied {
                assert(!self.occupied()[j as int]);
                return false;
            }
            j = j + 1;
        }
        true
    }

    /// The ranges of `span` hours whose hours are all taken, one for each hour
    /// of the day at which such a range starts, in order. A span longer than an
    /// hour runs past the last seat of the day.
    pub fn slots(&self, span: usize) -> (r: Vec<DateTimeRange>)
        requires
            self.wf(),
            span <= 1,
        ensures
            ranges_secs(r@) == slots_upto(self.occupied(), self.start(), span as int, HOURS_PER_DAY as nat),
            forall|i: int| 0 <= i < r.len() ==> (#[trigger] r@[i]).wf(),
    {
        let mut out: Vec<DateTimeRange> = Vec::new();
        let start_of_day = self.range.start();
        proof {
            self.lemma_wf();
        }
        let mut idx: usize = 0;
        while idx < self.seats.len()
            invariant
                self.wf(),
                span <= 1,
                *start_of_day == self.range.start_spec(),
                start_of_day.wf(),
                time_ok(self.start() + SECS_PER_DAY),
                idx <= HOURS_PER_DAY,
                ranges_secs(out@) == slots_upto(self.occupied(), self.start(), span as int, idx as nat),
                forall|i: int| 0 <= i < out.len() ==> (#[trigger] out@[i]).wf(),
            decreases HOURS_PER_DAY - idx,
        {
            if self.all_occupied(idx, span) {
                let date = start_of_day.inc_by(idx);
                let end = date.inc_by(span);
                let range = DateTimeRange::new(date, end);
                out.push(range);
                assert(ranges_secs(out@) =~= ranges_secs(out@.drop_last()).push(range_secs(range)));
            }
            idx = idx + 1;
        }
        out
    }

    /// The number of ranges of `span` hours that `slots` gives.
    pub fn flexibility(&self, span: usize) -> (r: usize)
        requires
            self.wf(),
            span <= 1,
        ensures
            r == slots_upto(self.occupied(), self.start(), span as int, HOURS_PER_DAY as nat).len(),
    {
        let s = self.slots(span);
        proof {
            assert(ranges_secs(s@).len() == s@.len());
        }
        s.len()
    }

    /// For each range, the number of free hours of the day within it, beside the range.
    pub fn overlap(&self, range: &Vec<DateTimeRange>) -> (r: Vec<(usize, DateTimeRange)>)
        requires
            self.wf(),
        ensures
            r.len() == range.len(),
            forall|i: int|
                0 <= i < r.len() ==> (#[trigger] r@[i]).1 == range@[i] && r@[i].0
                    == free_count_upto(
                    self.occupied(),
                    self.start(),
                    range@[i].start_spec().secs(),
                    range@[i].end_spec().secs(),
                    HOURS_PER_DAY as nat,
                ),
    {
        let start_of_day = self.range.start();
        proof {
            self.lemma_wf();
        }
        let mut out: Vec<(usize, DateTimeRange)> = Vec::new();
        let mut k: usize = 0;
        while k < range.len()
            invariant
                self.wf(),
                *start_of_day == self.range.start_spec(),
                start_of_day.wf(),
                time_ok(self.start() + SECS_PER_DAY),
                k <= range.len(),
                out.len() == k,
                forall|i: int|
                    0 <= i < k ==> (#[trigger] out@[i]).1 == range@[i] && out@[i].0
                        == free_count_upto(
                        self.occupied(),
                        self.start(),
                        range@[i].start_spec().secs(),
                        range@[i].end_spec().secs(),
                        HOURS_PER_DAY as nat,
                    ),
            decreases range.len() - k,
        {
            let r = &range[k];
            let mut count: usize = 0;
            let mut idx: usize = 0;
            while idx < self.seats.len()
                invariant
                    self.wf(),
                    *start_of_day == self.range.start_spec(),
                    start_of_day.wf(),
                    time_ok(self.start() + SECS_PER_DAY),
                    idx <= HOURS_PER_DAY,
                    count <= idx,
                    count == free_count_upto(
                        self.occupied(),
                        self.start(),
                        r.start_spec().secs(),
                        r.end_spec().secs(),
                        idx as nat,
                    ),
                decreases HOURS_PER_DAY - idx,
            {
                let date = start_of_day.inc_by(idx);
                if r.contains_date_time(&date) && self.seats[idx] == Seat::Free {
                    count = count + 1;
                }
                idx = idx + 1;
            }
            out.push((count, *r));
            k = k + 1;
        }
        out
    }

    /// The first range of `span` hours that `slots` gives.
    pub fn first_fit(&self, span: usize) -> (r: DateTimeRange)
        requires
            self.wf(),
            span <= 1,
            slots_upto(self.occupied(), self.start(), span as int, HOURS_PER_DAY as nat).len() > 0,
        ensures
            range_secs(r) == slots_upto(self.occupied(), self.start(), span as int, HOURS_PER_DAY as nat)[0],
            r.wf(),
    {
        let s = self.slots(span);
        proof {
            assert(ranges_secs(s@)[0] == range_secs(s@[0]));
        }
        s[0]
    }

    /// The number of hours at which the two days differ in being taken.
    pub fn differences(&self, other: &Day) -> (r: usize)
        requires
            self.wf(),
            other.wf(),
        ensures
            r == differences_upto(self.occupied(), other.occupied(), HOURS_PER_DAY as nat),
    {
        let mut count: usize = 0;
        let mut i: usize = 0;
        while i < self.seats.len() && i < other.seats.len()
            invariant
                self.wf(),
                other.wf(),
                i <= HOURS_PER_DAY,
                count <= i,
                count == differences_upto(self.occupied(), other.occupied(), i as nat),
            decreases HOURS_PER_DAY - i,
        {
            if self.seats[i] != other.seats[i] {
                count = count + 1;
            }
            i = i + 1;
        }
        count
    }
}

/// The character that shows an hour of a day: `#` when taken, `.` when free.
pub open spec fn seat_char(taken: bool) -> char {
    if taken {
        '#'
    } else {
        '.'
    }
}

/// A day's hours as text, one character per hour, in order.
pub open spec fn seats_text(occ: Seq<bool>) -> Seq<char> {
    occ.map_values(|b: bool| seat_char(b))
}

impl Day {
    /// The day as text: `#` for each taken hour and `.` for each free one, in order.
    pub fn to_text(&self) -> (r: String)
        ensures
            r@ == seats_text(self.occupied()),
    {
        let mut out = String::new();
        let mut i: usize = 0;
        while i < self.seats.len()
            invariant
                i <= self.seats.len(),
                out@ == seats_text(self.occupied()).take(i as int),
            decreases self.seats.len() - i,
        {
            proof {
                reveal_strlit("#");
                reveal_strlit(".");
            }
            let ghost before = out@;
            if self.seats[i] == Seat::Occupied {
                out.append("#");
            } else {
                out.append(".");
            }
            proof {
                assert(seats_text(self.occupied()).take(i + 1) =~= before.push(
                    seat_char(self.seats@[i as int] == Seat::Occupied),
                ));
            }
            i = i + 1;
        }
        proof {
            assert(seats_text(self.occupied()).take(i as int) =~= seats_text(self.occupied()));
        }
        out
    }
}

/// The ends of the range from `a` to `b`, as given.
pub open spec fn range_of_secs(a: int, b: int) -> (int, int) {
    (a, b)
}

} // verus!
