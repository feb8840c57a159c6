use vstd::prelude::*;
use chrono::{NaiveDate, NaiveDateTime, NaiveTime, Timelike};
use crate::time::{
    day_number_of, day_start, day_start_of, secs_of_day, seconds_of_day, time_ok, SECS_PER_DAY,
    SECS_PER_HOUR,
    TIME_LIMIT,
};

verus! {

#[verifier::external_type_specification]
#[verifier::external_body]
pub struct ExNaiveDateTime(NaiveDateTime);

#[verifier::external_type_specification]
#[verifier::external_body]
pub struct ExNaiveDate(NaiveDate);

#[verifier::external_type_specification]
#[verifier::external_body]
pub struct ExNaiveTime(NaiveTime);

/// Seconds since 1970-01-01T00:00:00 of a chrono date and time, taken as UTC.
pub uninterp spec fn naive_secs(date_time: NaiveDateTime) -> int;

/// Seconds since 1970-01-01T00:00:00 of midnight of a chrono date, taken as UTC.
pub uninterp spec fn naive_date_secs(date: NaiveDate) -> int;

/// Seconds since midnight of a chrono time of day.
pub uninterp spec fn naive_time_secs(time: NaiveTime) -> int;

/// Seconds since 1970-01-01T00:00:00 of a chrono `NaiveDateTime`, through
/// `NaiveDateTime::and_utc().timestamp()`. Claimed: the result is `naive_secs` of the
/// argument, and it lies within the supported range, since chrono's dates run from
/// 262144 BCE to 262142 CE.
#[verifier::external_body]
fn timestamp_of(date_time: &NaiveDateTime) -> (r: i64)
    ensures
        r as int == naive_secs(*date_time),
        time_ok(r as int),
{
    date_time.and_utc().timestamp()
}

/// The first day, numbered from 1970-01-01, that chrono's calendar holds: January 1
/// of the year -262143 (`NaiveDate::MIN`, proleptic Gregorian, astronomical years).
pub const CHRONO_FIRST_DAY: i64 = -96465292;

/// The last day, numbered from 1970-01-01, that chrono's calendar holds: December 31
/// of the year 262142 (`NaiveDate::MAX`).
pub const CHRONO_LAST_DAY: i64 = 95026236;

/// Does chrono's calendar hold the day of the timestamp `t`?
pub open spec fn chrono_holds(t: int) -> bool {
    CHRONO_FIRST_DAY <= day_number_of(t) <= CHRONO_LAST_DAY
}

/// The chrono `NaiveDateTime` at `secs` seconds since 1970-01-01T00:00:00, through
/// `chrono::DateTime::from_timestamp(secs, 0)` and `naive_utc()`. Claimed: a value comes
/// back exactly when chrono's calendar holds the day of `secs` (`from_timestamp` turns
/// the day into a `NaiveDate`, which fails outside `NaiveDate::MIN..=NaiveDate::MAX`,
/// and the second of the day, which is always valid), and the value has `secs` as its
/// timestamp (`from_timestamp` round-trips with `timestamp`, as chrono documents).
#[verifier::external_body]
fn naive_of(secs: i64) -> (r: Option<NaiveDateTime>)
    ensures
        r is Some == chrono_holds(secs as int),
        r matches Some(n) ==> naive_secs(n) == secs as int,
{
    chrono::DateTime::from_timestamp(secs, 0).map(|d| d.naive_utc())
}

/// Seconds since 1970-01-01T00:00:00 of midnight of a chrono `NaiveDate`, through
/// `NaiveDate::and_time(NaiveTime::default())` and `and_utc().timestamp()`. Claimed:
/// the result is `naive_date_secs` of the argument, a midnight (a whole number of days),
/// within the supported range.
#[verifier::external_body]
fn date_timestamp_of(date: &NaiveDate) -> (r: i64)
    ensures
        r as int == naive_date_secs(*date),
        r % SECS_PER_DAY == 0,
        time_ok(r as int),
{
    date.and_time(NaiveTime::default()).and_utc().timestamp()
}

/// Seconds since midnight of a chrono `NaiveTime`, through
/// `NaiveTime::num_seconds_from_midnight()`. Claimed: the result is `naive_time_secs`
/// of the argument, below a day.
#[verifier::external_body]
fn time_seconds_of(time: &NaiveTime) -> (r: i64)
    ensures
        r as int == naive_time_secs(*time),
        0 <= r < SECS_PER_DAY,
{
    time.num_seconds_from_midnight() as i64
}

/// The chrono `NaiveDate` of the timestamp `secs`, through
/// `chrono::DateTime::from_timestamp(secs, 0)` and `date_naive()`. Claimed: a value
/// comes back exactly when chrono's calendar holds the day of `secs`, and its midnight
/// is the start of that day.
#[verifier::external_body]
fn naive_date_of(secs: i64) -> (r: Option<NaiveDate>)
    ensures
        r is Some == chrono_holds(secs as int),
        r matches Some(d) ==> naive_date_secs(d) == day_start_of(secs as int),
{
    chrono::DateTime::from_timestamp(secs, 0).map(|d| d.date_naive())
}

/// The timestamp `t` rounded down to a whole hour.
pub open spec fn floor_hour(t: int) -> int {
    t - t % (SECS_PER_HOUR as int)
}

/// A point in time on the hour grid: a timestamp that is a whole number of hours.
#[derive(Debug, Clone, Copy, PartialEq, Eq, Structural, PartialOrd, Ord, Hash)]
pub struct DateTime {
    naive: i64,
}

impl DateTime {
    /// The timestamp of this point in time.
    pub closed spec fn secs(self) -> int {
        self.naive as int
    }

    /// The point lies on the hour grid within the supported range.
    pub open spec fn wf(self) -> bool {
        &&& time_ok(self.secs())
        &&& self.secs() % (SECS_PER_HOUR as int) == 0
    }

    /// Points with the same timestamp are the same point.
    pub proof fn lemma_secs_injective(a: DateTime, b: DateTime)
        ensures
            a.secs() == b.secs() <==> a == b,
    {
    }

    /// The point of the hour that holds the timestamp `t`.
    pub fn from_timestamp(t: i64) -> (d: DateTime)
        requires
            time_ok(t as int),
        ensures
            d.secs() == floor_hour(t as int),
            d.wf(),
    {
        let m = match t.checked_rem_euclid(SECS_PER_HOUR) {
            Some(m) => m,
            None => 0,
        };
        proof {
            assert((t - m) % (SECS_PER_HOUR as int) == 0) by (nonlinear_arith)
                requires
                    m == t % 3600,
            ;
            assert(t - m >= -TIME_LIMIT) by (nonlinear_arith)
                requires
                    m == t % 3600,
                    t >= -8_796_093_004_800,
                    0 <= m < 3600,
            ;
        }
        DateTime { naive: t - m }
    }

    /// The timestamp of this point in time.
    pub fn timestamp(&self) -> (t: i64)
        ensures
            t == self.secs(),
    {
        self.naive
    }

    /// The point of the hour that holds the chrono date and time.
    pub fn from_naive_date_time(date_time: &NaiveDateTime) -> (d: DateTime)
        ensures
            d.secs() == floor_hour(naive_secs(*date_time)),
            d.wf(),
    {
        DateTime::from_timestamp(timestamp_of(date_time))
    }

    /// Midnight of the chrono date.
    pub fn from_naive_date(date: &NaiveDate) -> (d: DateTime)
        ensures
            d.secs() == naive_date_secs(*date),
            d.wf(),
    {
        let t = date_timestamp_of(date);
        proof {
            assert(t % 3600 == 0) by (nonlinear_arith)
                requires
                    t % 86400 == 0,
            ;
        }
        DateTime::from_timestamp(t)
    }

    /// The hour of the chrono time of day, on 1970-01-01.
    pub fn from_naive_time(time: &NaiveTime) -> (d: DateTime)
        ensures
            d.secs() == floor_hour(naive_time_secs(*time)),
            d.wf(),
            0 <= d.secs() < SECS_PER_DAY,
    {
        DateTime::from_timestamp(time_seconds_of(time))
    }

    /// The chrono date and time of this point; there is one exactly when chrono's
    /// calendar holds the day of the point.
    pub fn naive_date_time(&self) -> (r: Option<NaiveDateTime>)
        ensures
            r is Some == chrono_holds(self.secs()),
            r matches Some(n) ==> naive_secs(n) == self.secs(),
    {
        naive_of(self.naive)
    }

    /// The chrono date of this point; there is one exactly when chrono's calendar
    /// holds the day of the point, and its midnight starts the point's day.
    pub fn naive_date(&self) -> (r: Option<NaiveDate>)
        ensures
            r is Some == chrono_holds(self.secs()),
            r matches Some(x) ==> naive_date_secs(x) == day_start_of(self.secs()),
    {
        naive_date_of(self.naive)
    }

    /// The range from this point to `span` hours later.
    pub fn make_range(&self, span: usize) -> (r: DateTimeRange)
        requires
            self.wf(),
            time_ok(self.secs() + span * SECS_PER_HOUR),
        ensures
            r.start_spec().secs() == self.secs(),
            r.end_spec().secs() == self.secs() + span * SECS_PER_HOUR,
            r.wf(),
    {
        let end = self.inc_by(span);
        DateTimeRange::new(*self, end)
    }

    /// `span` hours later.
    pub fn inc_by(&self, span: usize) -> (d: DateTime)
        requires
            self.wf(),
            time_ok(self.secs() + span * SECS_PER_HOUR),
        ensures
            d.secs() == self.secs() + span * SECS_PER_HOUR,
            d.wf(),
    {
        proof {
            assert((self.naive + span * 3600) % 3600 == 0) by (nonlinear_arith)
                requires
                    self.naive % 3600 == 0,
            ;
        }
        DateTime { naive: self.naive + (span as i64) * SECS_PER_HOUR }
    }

    /// One hour later.
    pub fn inc(&self) -> (d: DateTime)
        requires
            self.wf(),
            time_ok(self.secs() + SECS_PER_HOUR),
        ensures
            d.secs() == self.secs() + SECS_PER_HOUR,
            d.wf(),
    {
        self.inc_by(1)
    }

    /// `span` hours earlier.
    pub fn dec_by(&self, span: usize) -> (d: DateTime)
        requires
            self.wf(),
            time_ok(self.secs() - span * SECS_PER_HOUR),
        ensures
            d.secs() == self.secs() - span * SECS_PER_HOUR,
            d.wf(),
    {
        proof {
            assert((self.naive - span * 3600) % 3600 == 0) by (nonlinear_arith)
                requires
                    self.naive % 3600 == 0,
            ;
        }
        DateTime { naive: self.naive - (span as i64) * SECS_PER_HOUR }
    }

    /// One hour earlier.
    pub fn dec(&self) -> (d: DateTime)
        requires
            self.wf(),
            time_ok(self.secs() - SECS_PER_HOUR),
        ensures
            d.secs() == self.secs() - SECS_PER_HOUR,
            d.wf(),
    {
        self.dec_by(1)
    }

    /// Midnight starting the day of this point.
    pub fn start_of_day(&self) -> (d: DateTime)
        requires
            self.wf(),
            time_ok(day_start_of(self.secs())),
        ensures
            d.secs() == day_start_of(self.secs()),
            d.wf(),
    {
        let t = day_start(self.naive);
        proof {
            assert(t % 3600 == 0) by (nonlinear_arith)
                requires
                    t == self.naive - self.naive % 86400,
            ;
        }
        DateTime { naive: t }
    }

    /// Midnight ending the day of this point.
    pub fn end_of_day(&self) -> (d: DateTime)
        requires
            self.wf(),
            time_ok(day_start_of(self.secs()) + SECS_PER_DAY),
            time_ok(day_start_of(self.secs())),
        ensures
            d.secs() == day_start_of(self.secs()) + SECS_PER_DAY,
            d.wf(),
    {
        let beginning = self.start_of_day();
        beginning.inc_by(24)
    }

    /// Hours in the day of this point.
    pub fn span_of_day(&self) -> (r: usize)
        requires
            self.wf(),
            time_ok(day_start_of(self.secs()) + SECS_PER_DAY),
            time_ok(day_start_of(self.secs())),
        ensures
            r == 24,
    {
        let end_of_day = self.end_of_day();
        let start = self.start_of_day();
        ((end_of_day.naive - start.naive) / SECS_PER_HOUR) as usize
    }

    /// Whole hours from this point to `other`; 0 when `other` is earlier.
    pub fn span_by(&self, other: &DateTime) -> (r: usize)
        requires
            self.wf(),
            other.wf(),
            (other.secs() - self.secs()) / (SECS_PER_HOUR as int) <= usize::MAX,
        ensures
            r == (if self.secs() <= other.secs() {
                (other.secs() - self.secs()) / (SECS_PER_HOUR as int)
            } else {
                0
            }),
    {
        if self.naive <= other.naive {
            ((other.naive - self.naive) / SECS_PER_HOUR) as usize
        } else {
            0
        }
    }

    /// The day of this point at the time of day of `time`.
    pub fn with_new_time(&self, time: &DateTime) -> (d: DateTime)
        requires
            self.wf(),
            time.wf(),
            time_ok(day_start_of(self.secs()) + secs_of_day(time.secs())),
        ensures
            d.secs() == day_start_of(self.secs()) + secs_of_day(time.secs()),
            d.wf(),
    {
        let t = day_start(self.naive) + seconds_of_day(time.naive);
        proof {
            assert(t % 3600 == 0) by (nonlinear_arith)
                requires
                    t == (self.naive - self.naive % 86400) + time.naive % 86400,
                    self.naive % 3600 == 0,
                    time.naive % 3600 == 0,
            ;
        }
        DateTime { naive: t }
    }

    /// The day of this point at the time of `other`, or at its start when there is none.
    pub fn time_after(&self, other: &Option<DateTime>) -> (d: DateTime)
        requires
            self.wf(),
            other matches Some(o) ==> o.wf(),
            time_ok(day_start_of(self.secs())),
            time_ok(day_start_of(self.secs()) + SECS_PER_DAY),
        ensures
            d.secs() == (match other {
                Some(o) => day_start_of(self.secs()) + secs_of_day(o.secs()),
                None => day_start_of(self.secs()),
            }),
            d.wf(),
    {
        match other {
            Some(time) => self.with_new_time(time),
            None => self.start_of_day(),
        }
    }

    /// The day of this point at the time of `other`, or at its end when there is none.
    pub fn time_before(&self, other: &Option<DateTime>) -> (d: DateTime)
        requires
            self.wf(),
            other matches Some(o) ==> o.wf(),
            time_ok(day_start_of(self.secs())),
            time_ok(day_start_of(self.secs()) + SECS_PER_DAY),
        ensures
            d.secs() == (match other {
                Some(o) => day_start_of(self.secs()) + secs_of_day(o.secs()),
                None => day_start_of(self.secs()) + SECS_PER_DAY,
            }),
            d.wf(),
    {
        match other {
            Some(time) => self.with_new_time(time),
            None => self.end_of_day(),
        }
    }
}


/// How a range fits within another.
#[derive(Debug, Clone, Copy, PartialEq, Eq, Structural)]
pub enum DateTimeRangeContainerResult {
    NoFit,
    PerfectFit,
    FitAtStart(DateTimeRange, DateTimeRange),
    FitAtEnd(DateTimeRange, DateTimeRange),
    FitInBetween(DateTimeRange, DateTimeRange, DateTimeRange),
}

/// A range `[start, end)` of points on the hour grid; its ends are kept as given, and a
/// range whose end comes before its start holds no point (`wf` asks for them in order).
#[derive(Debug, Clone, Copy, PartialEq, Eq, Structural)]
pub struct DateTimeRange {
    start: DateTime,
    end: DateTime,
}

/// The span of a range in slot durations: the whole hours from its start to its end,
/// none when it ends before it starts.
pub open spec fn span_spec(r: DateTimeRange) -> int {
    if r.start_spec().secs() <= r.end_spec().secs() {
        (r.end_spec().secs() - r.start_spec().secs()) / (SECS_PER_HOUR as int)
    } else {
        0
    }
}

/// A range made `n` hours long from a point (as `DateTime::make_range` makes it)
/// spans `n` slot durations.
pub proof fn lemma_made_range_spans(d: DateTime, n: nat, r: DateTimeRange)
    requires
        r.start_spec().secs() == d.secs(),
        r.end_spec().secs() == d.secs() + n * SECS_PER_HOUR,
    ensures
        span_spec(r) == n,
{
    assert((n * SECS_PER_HOUR) / (SECS_PER_HOUR as int) == n) by (nonlinear_arith);
}

/// The ends of the range from `a` to `b`, as given.
pub open spec fn range_of(a: DateTime, b: DateTime) -> (DateTime, DateTime) {
    (a, b)
}

/// The range from `a` to `b`.
pub closed spec fn range_between(a: DateTime, b: DateTime) -> DateTimeRange {
    DateTimeRange { start: range_of(a, b).0, end: range_of(a, b).1 }
}

impl DateTimeRange {
    /// The first point of the range.
    pub closed spec fn start_spec(self) -> DateTime {
        self.start
    }

    /// The point ending the range.
    pub closed spec fn end_spec(self) -> DateTime {
        self.end
    }

    /// Both ends are on the grid and in order.
    pub open spec fn wf(self) -> bool {
        &&& self.start_spec().wf()
        &&& self.end_spec().wf()
        &&& self.start_spec().secs() <= self.end_spec().secs()
    }

    /// Ranges with the same ends are the same range.
    pub proof fn lemma_ends_determine(a: DateTimeRange, b: DateTimeRange)
        ensures
            (a.start_spec() == b.start_spec() && a.end_spec() == b.end_spec()) <==> a == b,
    {
    }

    /// The range from `start` to `end`, the ends kept as given.
    pub fn new(start: DateTime, end: DateTime) -> (r: DateTimeRange)
        ensures
            r == range_between(start, end),
            (r.start_spec(), r.end_spec()) == range_of(start, end),
    {
        DateTimeRange { start, end }
    }

    /// The first point of the range.
    pub fn start(&self) -> (d: &DateTime)
        ensures
            *d == self.start_spec(),
    {
        &self.start
    }

    /// The point ending the range.
    pub fn end(&self) -> (d: &DateTime)
        ensures
            *d == self.end_spec(),
    {
        &self.end
    }

    /// The span of the range in slot durations: the whole hours from its start to its
    /// end, none when it ends before it starts.
    pub fn span(&self) -> (r: usize)
        requires
            self.start_spec().wf(),
            self.end_spec().wf(),
            (self.end_spec().secs() - self.start_spec().secs()) / (SECS_PER_HOUR as int)
                <= usize::MAX,
        ensures
            r == span_spec(*self),
    {
        if self.start.naive <= self.end.naive {
            ((self.end.naive - self.start.naive) / SECS_PER_HOUR) as usize
        } else {
            0
        }
    }

    /// Does the range hold the point?
    pub fn contains_date_time(&self, date: &DateTime) -> (r: bool)
        ensures
            r == (self.start_spec().secs() <= date.secs() < self.end_spec().secs()),
    {
        self.start.naive <= date.naive && date.naive < self.end.naive
    }

    /// Does the range hold the other range?
    pub fn contains(&self, range: &DateTimeRange) -> (r: bool)
        ensures
            r == (self.start_spec().secs() <= range.start_spec().secs() && range.end_spec().secs()
                <= self.end_spec().secs()),
    {
        self.start.naive <= range.start.naive && range.end.naive <= self.end.naive
    }

    /// The range moved `span` hours later (a span of 0 leaves it as it is).
    pub fn shift(&self, span: i16) -> (r: DateTimeRange)
        requires
            self.wf(),
            span >= 0,
            time_ok(self.end_spec().secs() + span * SECS_PER_HOUR),
        ensures
            r.start_spec().secs() == self.start_spec().secs() + span * SECS_PER_HOUR,
            r.end_spec().secs() == self.end_spec().secs() + span * SECS_PER_HOUR,
            r.wf(),
    {
        if span > 0 {
            DateTimeRange {
                start: self.start.inc_by(span as usize),
                end: self.end.inc_by(span as usize),
            }
        } else {
            DateTimeRange { start: self.start.dec_by(0), end: self.end.dec_by(0) }
        }
    }

    /// How `range` fits within this range: not at all, exactly, at the start, at the
    /// end or in between; when it fits, the parts of this range that it splits off.
    pub fn is_fitting(&self, range: &DateTimeRange) -> (r: DateTimeRangeContainerResult)
        requires
            self.wf(),
            range.wf(),
        ensures
            r == fitting_spec(*self, *range),
    {
        if self.contains(range) {
            if range.start.naive == self.start.naive && range.end.naive == self.end.naive {
                DateTimeRangeContainerResult::PerfectFit
            } else if range.start.naive == self.start.naive {
                DateTimeRangeContainerResult::FitAtStart(
                    DateTimeRange::new(range.start, range.end),
                    DateTimeRange::new(range.end, self.end),
                )
            } else if range.end.naive == self.end.naive {
                DateTimeRangeContainerResult::FitAtEnd(
                    DateTimeRange::new(self.start, range.start),
                    DateTimeRange::new(range.start, range.end),
                )
            } else {
                DateTimeRangeContainerResult::FitInBetween(
                    DateTimeRange::new(self.start, range.start),
                    DateTimeRange::new(range.start, range.end),
                    DateTimeRange::new(range.end, self.end),
                )
            }
        } else {
            DateTimeRangeContainerResult::NoFit
        }
    }
}

/// How `range` fits within `outer`, case by case.
pub open spec fn fitting_spec(outer: DateTimeRange, range: DateTimeRange) -> DateTimeRangeContainerResult {
    let (os, oe, rs, re) = (outer.start_spec(), outer.end_spec(), range.start_spec(), range.end_spec());
    if os.secs() <= rs.secs() && re.secs() <= oe.secs() {
        if rs == os && re == oe {
            DateTimeRangeContainerResult::PerfectFit
        } else if rs == os {
            DateTimeRangeContainerResult::FitAtStart(range_between(rs, re), range_between(re, oe))
        } else if re == oe {
            DateTimeRangeContainerResult::FitAtEnd(range_between(os, rs), range_between(rs, re))
        } else {
            DateTimeRangeContainerResult::FitInBetween(
                range_between(os, rs),
                range_between(rs, re),
                range_between(re, oe),
            )
        }
    } else {
        DateTimeRangeContainerResult::NoFit
    }
}

} // verus!
