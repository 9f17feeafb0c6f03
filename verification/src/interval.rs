//! Time interval types and quarter-hour normalization.
//!
//! Instants are whole seconds since the Unix epoch; durations are whole
//! seconds. Session endpoints are snapped to quarter-hour boundaries: a start
//! time is floored to the most recent boundary and an end time is ceiled to
//! the next one.

use vstd::prelude::*;

verus! {

/// Latest instant the library works with: a quarter-hour boundary far enough
/// below `u64::MAX` that ceiling an in-range time never overflows.
pub const MAX_TIME: u64 = (u64::MAX / 900) * 900 - 900;

/// A tag identifier: the index of the tag's name in the registry.
pub type TagId = u32;

/// The most recent quarter-hour boundary at or before `t`.
pub open spec fn qh_floor(t: int) -> int {
    t - (t % 900)
}

/// The nearest quarter-hour boundary at or after `t`.
pub open spec fn qh_ceil(t: int) -> int {
    qh_floor(t + 899)
}

proof fn lemma_mod_900_le(t: int)
    requires
        t >= 0,
    ensures
        0 <= t % 900 <= t,
{
    assert(0 <= t % 900 <= t) by (nonlinear_arith)
        requires t >= 0;
}

/// Flooring moves a time down by less than one quarter hour and lands on a
/// boundary; it never moves a boundary.
pub proof fn lemma_qh_floor(t: int)
    requires
        t >= 0,
    ensures
        0 <= qh_floor(t) <= t,
        t - qh_floor(t) < 900,
        qh_floor(t) % 900 == 0,
        qh_floor(qh_floor(t)) == qh_floor(t),
{
    lemma_mod_900_le(t);
    assert((t - (t % 900)) % 900 == 0) by (nonlinear_arith);
}

/// Flooring is monotonic.
pub proof fn lemma_qh_floor_mono(a: int, b: int)
    requires
        a <= b,
    ensures
        qh_floor(a) <= qh_floor(b),
{
    assert(a - (a % 900) <= b - (b % 900)) by (nonlinear_arith)
        requires a <= b;
}

/// Ceiling moves a time up by less than one quarter hour onto a boundary; it
/// never moves a boundary, and it never crosses a boundary that bounds `t`.
pub proof fn lemma_qh_ceil(t: int)
    requires
        t >= 0,
    ensures
        t <= qh_ceil(t) < t + 900,
        qh_ceil(t) % 900 == 0,
        t % 900 == 0 ==> qh_ceil(t) == t,
        qh_ceil(qh_ceil(t)) == qh_ceil(t),
{
    lemma_qh_floor(t + 899);
    assert(t % 900 == 0 ==> (t + 899) % 900 == 899) by (nonlinear_arith);
    assert(t <= qh_floor(t + 899)) by (nonlinear_arith);
    assert(qh_ceil(t) % 900 == 0 ==> (qh_ceil(t) + 899) % 900 == 899) by (nonlinear_arith);
}

/// A boundary at or above `t` is at or above `qh_ceil(t)`.
pub proof fn lemma_qh_ceil_bound(t: int, bound: int)
    requires
        0 <= t <= bound,
        bound % 900 == 0,
    ensures
        qh_ceil(t) <= bound,
{
    lemma_qh_ceil(t);
    lemma_qh_floor_mono(t + 899, bound + 899);
    assert(qh_floor(bound + 899) == bound) by (nonlinear_arith)
        requires bound % 900 == 0;
}

/// `MAX_TIME` is itself a quarter-hour boundary, with headroom below
/// `u64::MAX`.
pub proof fn lemma_max_time()
    ensures
        MAX_TIME % 900 == 0,
        MAX_TIME + 900 <= u64::MAX,
{
    assert(((u64::MAX / 900) * 900 - 900) % 900 == 0) by (nonlinear_arith);
    assert((u64::MAX / 900) * 900 <= u64::MAX) by (nonlinear_arith);
}

/// Round the given time down to the quarter-hour boundary most recently
/// preceding it.
pub fn floor_time(time: u64) -> (r: u64)
    ensures
        r == qh_floor(time as int),
{
    proof {
        lemma_mod_900_le(time as int);
    }
    time - time % 900
}

/// Round the given time up to the quarter-hour boundary most closely
/// following it.
pub fn ceil_time(time: u64) -> (r: u64)
    requires
        time <= MAX_TIME,
    ensures
        r == qh_ceil(time as int),
{
    proof {
        lemma_max_time();
    }
    floor_time(time + 899)
}

/// A possibly-open time interval.
///
/// An interval is represented by a start time and, if it is closed, a
/// duration. `duration == None` means the interval is open (in progress).
#[derive(Debug, Clone, Copy, PartialEq, Eq, Hash)]
pub struct Interval {
    pub start: u64,
    pub duration: Option<u64>,
}

/// What rounding an interval to quarter hours yields: the start is floored,
/// and the end (when the interval is closed) is ceiled.
pub open spec fn spec_round(i: Interval) -> Interval {
    match i.duration {
        None => Interval { start: qh_floor(i.start as int) as u64, duration: None },
        Some(d) => Interval {
            start: qh_floor(i.start as int) as u64,
            duration: Some((qh_ceil(i.start + d) - qh_floor(i.start as int)) as u64),
        },
    }
}

/// What closing an interval at `end` yields: `None` when it is already
/// closed or when `end` precedes its start.
pub open spec fn spec_close(i: Interval, end: u64) -> Option<Interval> {
    if i.duration is None && end >= i.start {
        Some(Interval { start: i.start, duration: Some((end - i.start) as u64) })
    } else {
        None
    }
}

/// The duration an interval reports at instant `now`: the recorded duration
/// when closed; the time elapsed from the start to the quarter-hour ceiling
/// of `now` (never negative) when open.
pub open spec fn spec_duration_at(i: Interval, now: u64) -> int {
    match i.duration {
        Some(d) => d as int,
        None => if qh_ceil(now as int) >= i.start {
            qh_ceil(now as int) - i.start
        } else {
            0
        },
    }
}

impl Interval {
    /// All times the interval spans stay within `MAX_TIME`, so that endpoint
    /// arithmetic and rounding never overflow.
    pub open spec fn wf(&self) -> bool {
        match self.duration {
            Some(d) => self.start + d <= MAX_TIME,
            None => self.start <= MAX_TIME,
        }
    }

    /// The end of a closed interval, as a mathematical value.
    pub open spec fn spec_end(&self) -> int {
        self.start + match self.duration {
            Some(d) => d as int,
            None => 0,
        }
    }

    /// Open a new interval at the given time.
    pub fn open(start: u64) -> (r: Interval)
        ensures
            r == (Interval { start, duration: None }),
    {
        Interval { start, duration: None }
    }

    /// Create an interval with the given start time and duration.
    pub fn closed(start: u64, duration: u64) -> (r: Interval)
        ensures
            r == (Interval { start, duration: Some(duration) }),
    {
        Interval { start, duration: Some(duration) }
    }

    /// Is this interval closed?
    pub fn is_closed(&self) -> (r: bool)
        ensures
            r == (self.duration is Some),
    {
        self.duration.is_some()
    }

    /// Get the start time of this interval.
    pub fn start(&self) -> (r: u64)
        ensures
            r == self.start,
    {
        self.start
    }

    /// Get the end time of this interval, if it is closed.
    pub fn end(&self) -> (r: Option<u64>)
        requires
            self.wf(),
        ensures
            match r {
                Some(e) => self.duration is Some && e == self.spec_end(),
                None => self.duration is None,
            },
    {
        match self.duration {
            Some(d) => Some(self.start + d),
            None => None,
        }
    }

    /// Close this interval at the given time.
    ///
    /// Returns `None` if the interval is already closed or if the given end
    /// time is before this interval's start time.
    pub fn close(&self, end: u64) -> (r: Option<Interval>)
        requires
            end <= MAX_TIME,
        ensures
            r == spec_close(*self, end),
            match r {
                Some(i) => i.wf(),
                None => true,
            },
    {
        match self.duration {
            Some(_) => None,
            None => {
                if end >= self.start {
                    Some(Interval { start: self.start, duration: Some(end - self.start) })
                } else {
                    None
                }
            },
        }
    }

    /// Get the duration of this interval.
    ///
    /// If the interval is still open, this is the time elapsed between its
    /// start and the quarter-hour ceiling of `now` (zero when the start lies
    /// beyond that ceiling), matching what will be recorded once it closes.
    pub fn duration_at(&self, now: u64) -> (r: u64)
        requires
            self.wf(),
            now <= MAX_TIME,
        ensures
            r == spec_duration_at(*self, now),
    {
        match self.duration {
            Some(d) => d,
            None => {
                let c = ceil_time(now);
                if c >= self.start {
                    c - self.start
                } else {
                    0
                }
            },
        }
    }

    /// Round the start time back to the nearest quarter hour, and the end
    /// time forward to the nearest quarter hour.
    pub fn round_to_quarter_hours(self) -> (r: Interval)
        requires
            self.wf(),
        ensures
            r == spec_round(self),
            r.wf(),
    {
        proof {
            lemma_qh_floor(self.start as int);
            lemma_max_time();
            if self.duration is Some {
                lemma_qh_ceil(self.spec_end());
                lemma_qh_ceil_bound(self.spec_end(), MAX_TIME as int);
                lemma_qh_floor_mono(self.start as int, self.spec_end());
                lemma_qh_ceil(self.spec_end());
                assert(qh_floor(self.start as int) <= self.spec_end() <= qh_ceil(self.spec_end()));
            }
        }
        let start = floor_time(self.start);
        match self.duration {
            None => Interval { start, duration: None },
            Some(d) => {
                let end = ceil_time(self.start + d);
                Interval { start, duration: Some(end - start) }
            },
        }
    }
}

/// Rounding to quarter hours is idempotent: applying it twice equals applying
/// it once.
pub proof fn lemma_round_idempotent(i: Interval)
    requires
        i.wf(),
    ensures
        spec_round(spec_round(i)) == spec_round(i),
{
    lemma_qh_floor(i.start as int);
    let r = spec_round(i);
    match i.duration {
        None => {},
        Some(d) => {
            lemma_qh_ceil(i.start + d);
            lemma_qh_floor_mono(i.start as int, i.start + d);
            lemma_qh_ceil(r.spec_end());
            assert(r.spec_end() % 900 == 0) by {
                assert(qh_ceil(i.start + d) % 900 == 0);
                assert(qh_floor(i.start as int) % 900 == 0);
                assert(r.spec_end() == qh_ceil(i.start + d));
            };
        },
    }
}

/// A time interval with an associated tag.
#[derive(Debug, Clone, Copy, PartialEq, Eq, Hash)]
pub struct TaggedInterval {
    pub tag: TagId,
    pub interval: Interval,
}

impl TaggedInterval {
    /// Create a new tagged interval with the given tag ID and interval.
    pub fn new(tag: TagId, interval: Interval) -> (r: TaggedInterval)
        ensures
            r == (TaggedInterval { tag, interval }),
    {
        TaggedInterval { tag, interval }
    }

    /// Get the tag ID of this tagged interval.
    pub fn tag(&self) -> (r: TagId)
        ensures
            r == self.tag,
    {
        self.tag
    }

    /// Get the interval of this tagged interval.
    pub fn interval(&self) -> (r: &Interval)
        ensures
            r == self.interval,
    {
        &self.interval
    }

    /// Open a new interval with the given tag at the given start time.
    pub fn open(tag: TagId, start: u64) -> (r: TaggedInterval)
        ensures
            r == (TaggedInterval { tag, interval: Interval { start, duration: None } }),
    {
        TaggedInterval { tag, interval: Interval::open(start) }
    }

    /// Close this tagged interval at the given end time.
    ///
    /// Returns `None` if it is already closed or if the given end time is
    /// before its start time.
    pub fn close(&self, end: u64) -> (r: Option<TaggedInterval>)
        requires
            end <= MAX_TIME,
        ensures
            match r {
                Some(t) => t.tag == self.tag && Some(t.interval) == spec_close(self.interval, end)
                    && t.interval.wf(),
                None => spec_close(self.interval, end) is None,
            },
    {
        match self.interval.close(end) {
            Some(interval) => Some(TaggedInterval { tag: self.tag, interval }),
            None => None,
        }
    }

    /// Is this tagged interval closed?
    pub fn is_closed(&self) -> (r: bool)
        ensures
            r == (self.interval.duration is Some),
    {
        self.interval.is_closed()
    }

    /// Get the start time of this tagged interval.
    pub fn start(&self) -> (r: u64)
        ensures
            r == self.interval.start,
    {
        self.interval.start()
    }

    /// Get the end time of this tagged interval, if it is closed.
    pub fn end(&self) -> (r: Option<u64>)
        requires
            self.interval.wf(),
        ensures
            match r {
                Some(e) => self.interval.duration is Some && e == self.interval.spec_end(),
                None => self.interval.duration is None,
            },
    {
        self.interval.end()
    }

    /// Get the duration of this tagged interval at instant `now`.
    pub fn duration_at(&self, now: u64) -> (r: u64)
        requires
            self.interval.wf(),
            now <= MAX_TIME,
        ensures
            r == spec_duration_at(self.interval, now),
    {
        self.interval.duration_at(now)
    }

    /// Round the start time back to the nearest quarter hour, and the end
    /// time forward to the nearest quarter hour.
    pub fn round_to_quarter_hours(&self) -> (r: TaggedInterval)
        requires
            self.interval.wf(),
        ensures
            r.tag == self.tag,
            r.interval == spec_round(self.interval),
            r.interval.wf(),
    {
        TaggedInterval { tag: self.tag, interval: self.interval.round_to_quarter_hours() }
    }
}

/// Attach a tag to an interval.
pub fn tag(tag_id: TagId, interval: Interval) -> (r: TaggedInterval)
    ensures
        r == (TaggedInterval { tag: tag_id, interval }),
{
    TaggedInterval::new(tag_id, interval)
}

/// Relies on `chrono::Utc::now` and `chrono::DateTime::timestamp`: the
/// current time as whole seconds since the Unix epoch (negative before it).
#[verifier::external_body]
fn system_now_seconds() -> i64 {
    chrono::Utc::now().timestamp()
}

/// The current time, clamped into the range the library works with.
pub fn now_time() -> (r: u64)
    ensures
        r <= MAX_TIME,
{
    let t = system_now_seconds();
    if t < 0 {
        0
    } else {
        let u = t as u64;
        if u > MAX_TIME {
            MAX_TIME
        } else {
            u
        }
    }
}

impl Interval {
    /// Get the duration of this interval, measured at the current time
    /// when it is still open.
    pub fn duration(&self) -> (r: u64)
        requires
            self.wf(),
        ensures
            self.duration is Some ==> Some(r) == self.duration,
            exists|now: u64| now <= MAX_TIME && r == spec_duration_at(*self, now),
    {
        self.duration_at(now_time())
    }

    /// Open a new interval at the current time.
    pub fn open_now() -> (r: Interval)
        ensures
            r.duration is None,
            r.wf(),
    {
        Interval::open(now_time())
    }

    /// Close this interval at the current time.
    ///
    /// Returns `None` if it is already closed or if its start time lies in
    /// the future.
    pub fn close_now(&self) -> (r: Option<Interval>)
        ensures
            self.duration is Some ==> r is None,
            match r {
                Some(i) => self.duration is None && i.start == self.start
                    && i.duration is Some && i.wf(),
                None => true,
            },
    {
        self.close(now_time())
    }
}

impl TaggedInterval {
    /// Get the duration of this tagged interval, measured at the current
    /// time when it is still open.
    pub fn duration(&self) -> (r: u64)
        requires
            self.interval.wf(),
        ensures
            self.interval.duration is Some ==> Some(r) == self.interval.duration,
            exists|now: u64| now <= MAX_TIME && r == spec_duration_at(self.interval, now),
    {
        self.interval.duration()
    }

    /// Open a new interval with the given tag at the current time.
    pub fn open_now(tag: TagId) -> (r: TaggedInterval)
        ensures
            r.tag == tag,
            r.interval.duration is None,
            r.interval.wf(),
    {
        TaggedInterval { tag, interval: Interval::open_now() }
    }

    /// Close this tagged interval at the current time.
    ///
    /// Returns `None` if it is already closed or if its start time lies in
    /// the future.
    pub fn close_now(&self) -> (r: Option<TaggedInterval>)
        ensures
            self.interval.duration is Some ==> r is None,
            match r {
                Some(t) => t.tag == self.tag && self.interval.duration is None
                    && t.interval.start == self.interval.start && t.interval.duration is Some
                    && t.interval.wf(),
                None => true,
            },
    {
        match self.interval.close_now() {
            Some(interval) => Some(TaggedInterval { tag: self.tag, interval }),
            None => None,
        }
    }
}

} // verus!
