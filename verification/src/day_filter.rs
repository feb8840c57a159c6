use vstd::prelude::*;
use vstd::string::StringSliceAdditionalSpecFns;
use vstd::utf8::is_char_boundary;
use crate::date::DateTime;
use crate::time::{day_start_of, secs_of_day, time_ok, SECS_PER_DAY, SECS_PER_HOUR};

verus! {

/// An ASCII decimal digit.
pub open spec fn is_digit(c: u8) -> bool {
    48 <= c <= 57
}

/// The number that a string of decimal digits writes.
pub open spec fn digits_value(b: Seq<u8>) -> int
    decreases b.len(),
{
    if b.len() == 0 {
        0
    } else {
        digits_value(b.drop_last()) * 10 + (b.last() - 48)
    }
}

/// The digits of an unsigned number's text: without a leading `+`.
pub open spec fn unsigned_digits(b: Seq<u8>) -> Seq<u8> {
    if b.len() > 0 && b[0] == 43 {
        b.drop_first()
    } else {
        b
    }
}

/// What parsing the text `b` as a `u32` gives: an optional `+` and then one or
/// more digits whose value fits, or nothing.
pub open spec fn parse_u32_spec(b: Seq<u8>) -> Option<u32> {
    let d = unsigned_digits(b);
    if d.len() > 0 && (forall|i: int| 0 <= i < d.len() ==> is_digit(#[trigger] d[i]))
        && digits_value(d) <= u32::MAX {
        Some(digits_value(d) as u32)
    } else {
        None
    }
}

/// Parses `b[lo..hi]` as a `u32`.
fn parse_u32(b: &[u8], lo: usize, hi: usize) -> (r: Option<u32>)
    requires
        lo <= hi <= b@.len(),
    ensures
        r == parse_u32_spec(b@.subrange(lo as int, hi as int)),
{
    let ghost text = b@.subrange(lo as int, hi as int);
    let mut i = lo;
    if i < hi && b[i] == 43u8 {
        i = i + 1;
    }
    let ghost d = unsigned_digits(text);
    proof {
        assert(d =~= b@.subrange(i as int, hi as int));
    }
    if i == hi {
        return None;
    }
    let first = i;
    let mut acc: u64 = 0;
    while i < hi
        invariant
            first <= i <= hi <= b@.len(),
            text == b@.subrange(lo as int, hi as int),
            d == unsigned_digits(text),
            d =~= b@.subrange(first as int, hi as int),
            forall|k: int| 0 <= k < i - first ==> is_digit(#[trigger] d[k]),
            acc == if digits_value(d.take(i - first)) <= u32::MAX {
                digits_value(d.take(i - first))
            } else {
                u32::MAX + 1
            },
        decreases hi - i,
    {
        let c = b[i];
        if c < 48u8 || c > 57u8 {
            assert(!is_digit(d[i - first]));
            return None;
        }
        proof {
            assert(d.take(i - first + 1).drop_last() =~= d.take(i - first));
            assert(d.take(i - first + 1).last() == c);
            assert(digits_value(d.take(i - first)) >= 0) by {
                lemma_digits_nonneg(d.take(i - first));
            }
        }
        if acc > 4294967295u64 {
            acc = 4294967296u64;
        } else {
            let next = acc * 10 + (c - 48u8) as u64;
            if next > 4294967295u64 {
                acc = 4294967296u64;
            } else {
                acc = next;
            }
        }
        i = i + 1;
    }
    proof {
        assert(d.take(hi - first) =~= d);
    }
    if acc > 4294967295u64 {
        None
    } else {
        Some(acc as u32)
    }
}

proof fn lemma_digits_nonneg(b: Seq<u8>)
    requires
        forall|k: int| 0 <= k < b.len() ==> is_digit(#[trigger] b[k]),
    ensures
        digits_value(b) >= 0,
    decreases b.len(),
{
    if b.len() > 0 {
        lemma_digits_nonneg(b.drop_last());
        assert(is_digit(b[b.len() - 1]));
    }
}

/// The hour that a text of the form `HH:MM` names, when it names a time of day.
pub open spec fn text_hour(b: Seq<u8>) -> Option<int> {
    if b.len() != 5 && b[2] != 58 {
        None
    } else {
        match (parse_u32_spec(b.take(2)), parse_u32_spec(b.skip(3))) {
            (Some(h), Some(m)) => if h < 24 && m < 60 {
                Some(h as int)
            } else {
                None
            },
            _ => None,
        }
    }
}

/// The time of day that a text of the form `HH:MM` names, on the hour grid.
fn time_of_text(b: &[u8]) -> (r: Option<DateTime>)
    requires
        b@.len() >= 3,
    ensures
        r.is_some() == text_hour(b@).is_some(),
        r matches Some(d) ==> d.wf() && d.secs() == text_hour(b@)->0 * SECS_PER_HOUR,
{
    if b.len() != 5 && b[2] != 58u8 {
        return None;
    }
    let hour = parse_u32(b, 0, 2);
    let minute = parse_u32(b, 3, b.len());
    proof {
        assert(b@.subrange(0, 2) =~= b@.take(2));
        assert(b@.subrange(3, b@.len() as int) =~= b@.skip(3));
    }
    match (hour, minute) {
        (Some(h), Some(m)) => {
            if h < 24 && m < 60 {
                let t: i64 = (h as i64) * SECS_PER_HOUR + (m as i64) * 60;
                let d = DateTime::from_timestamp(t);
                proof {
                    assert(t % 3600 == m * 60) by (nonlinear_arith)
                        requires
                            t == h * 3600 + m * 60,
                            0 <= m < 60,
                            0 <= h,
                    ;
                }
                Some(d)
            } else {
                None
            }
        },
        _ => None,
    }
}

/// An hour as the timestamp of that hour on 1970-01-01.
pub open spec fn hour_secs(h: Option<int>) -> Option<int> {
    match h {
        Some(h) => Some(h * SECS_PER_HOUR),
        None => None,
    }
}

/// A text that the reading of `HH:MM` can slice: three bytes or more,
/// with characters starting at bytes 2 and 3.
pub open spec fn sliceable_time_text(s: &str) -> bool {
    &&& s.spec_bytes().len() >= 3
    &&& is_char_boundary(s.spec_bytes(), 2)
    &&& is_char_boundary(s.spec_bytes(), 3)
}

/// The time of day of hour `h`, as the text `HH:00` names it: none from hour 24 on.
pub open spec fn hour_time_spec(h: int) -> Option<int> {
    if 0 <= h < 24 {
        Some(h * SECS_PER_HOUR)
    } else {
        None
    }
}

/// Hour bounds within a day, each a time of day on 1970-01-01.
#[derive(Debug, Clone, Copy, PartialEq, Eq, Structural)]
pub struct DayFilter {
    apply_after: Option<DateTime>,
    apply_before: Option<DateTime>,
}

/// A bound that is a time of day.
pub open spec fn time_of_day_ok(t: Option<DateTime>) -> bool {
    t matches Some(d) ==> d.wf() && 0 <= d.secs() < SECS_PER_DAY
}

/// The timestamp of an optional point, when there is one.
pub open spec fn opt_secs(t: Option<DateTime>) -> Option<int> {
    match t {
        Some(d) => Some(d.secs()),
        None => None,
    }
}

impl DayFilter {
    /// The lower bound.
    pub closed spec fn after_spec(self) -> Option<DateTime> {
        self.apply_after
    }

    /// The upper bound.
    pub closed spec fn before_spec(self) -> Option<DateTime> {
        self.apply_before
    }

    /// Both bounds are times of day.
    pub open spec fn wf(self) -> bool {
        time_of_day_ok(self.after_spec()) && time_of_day_ok(self.before_spec())
    }

    /// The filter with the bounds written as `HH:MM`. Both texts must be given;
    /// one that does not name a time of day gives no bound.
    pub fn from_str(after_str: Option<&str>, before_str: Option<&str>) -> (r: DayFilter)
        requires
            after_str matches Some(s) && sliceable_time_text(s),
            before_str matches Some(s) && sliceable_time_text(s),
        ensures
            r.wf(),
            opt_secs(r.after_spec()) == hour_secs(text_hour(after_str->0.spec_bytes())),
            opt_secs(r.before_spec()) == hour_secs(text_hour(before_str->0.spec_bytes())),
    {
        DayFilter { apply_after: Self::get_time(after_str), apply_before: Self::get_time(before_str) }
    }

    /// The filter with the bounds given as hours, each read as the text `HH:00`.
    pub fn from_hours(after_hour: usize, before_hour: usize) -> (r: DayFilter)
        ensures
            r.wf(),
            opt_secs(r.after_spec()) == hour_time_spec(after_hour as int),
            opt_secs(r.before_spec()) == hour_time_spec(before_hour as int),
    {
        DayFilter { apply_after: hour_time(after_hour), apply_before: hour_time(before_hour) }
    }

    /// The lower bound on the day of `date`; its start when there is none.
    pub fn after(&self, date: &DateTime) -> (d: DateTime)
        requires
            self.wf(),
            date.wf(),
            time_ok(day_start_of(date.secs())),
            time_ok(day_start_of(date.secs()) + SECS_PER_DAY),
        ensures
            d.wf(),
            d.secs() == day_start_of(date.secs()) + match opt_secs(self.after_spec()) {
                Some(t) => t,
                None => 0,
            },
    {
        date.time_after(&self.apply_after)
    }

    /// The upper bound on the day of `date`; its end when there is none.
    pub fn before(&self, date: &DateTime) -> (d: DateTime)
        requires
            self.wf(),
            date.wf(),
            time_ok(day_start_of(date.secs())),
            time_ok(day_start_of(date.secs()) + SECS_PER_DAY),
        ensures
            d.wf(),
            d.secs() == day_start_of(date.secs()) + match opt_secs(self.before_spec()) {
                Some(t) => t,
                None => SECS_PER_DAY as int,
            },
    {
        date.time_before(&self.apply_before)
    }

    fn get_time(time_str: Option<&str>) -> (r: Option<DateTime>)
        requires
            time_str matches Some(s) && sliceable_time_text(s),
        ensures
            time_of_day_ok(r),
            opt_secs(r) == hour_secs(text_hour(time_str->0.spec_bytes())),
    {
        match time_str {
            Some(s) => {
                let r = time_of_text(s.as_bytes());
                proof {
                    if r is Some {
                        assert(text_hour(s.spec_bytes())->0 < 24);
                    }
                }
                r
            },
            None => None,
        }
    }
}

/// The time of day of hour `h`, as the text `HH:00` names it.
fn hour_time(h: usize) -> (r: Option<DateTime>)
    ensures
        time_of_day_ok(r),
        opt_secs(r) == hour_time_spec(h as int),
{
    if h < 24 {
        let d = DateTime::from_timestamp((h as i64) * SECS_PER_HOUR);
        proof {
            assert((h * 3600) % 3600 == 0) by (nonlinear_arith);
        }
        Some(d)
    } else {
        None
    }
}

} // verus!
