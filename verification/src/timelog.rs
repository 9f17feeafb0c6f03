//! Timelogs; records of tagged time intervals.
//!
//! A timelog holds an ordered sequence of tagged intervals (insertion order,
//! the session history) together with the tag-name registry. At most one
//! open interval exists per tag at any time.

use vstd::prelude::*;

use crate::interval::{
    floor_time, lemma_qh_floor, now_time, qh_floor, spec_round, Interval, TagId, TaggedInterval,
    MAX_TIME,
};
use crate::tags::{names_unique, spec_tag_id, Tags};

verus! {

/// Errors in opening and closing intervals.
#[derive(Debug, Clone, Copy, PartialOrd, Ord, PartialEq, Eq, Structural, Hash)]
pub enum TimeLogError {
    /// Attempted to open a tag that already has an open interval.
    TagAlreadyOpen,
    /// Attempted to close a tag that has no open interval.
    TagNotOpen,
}

impl TimeLogError {
    /// A human-readable description of this error.
    pub fn message(&self) -> (r: String)
        ensures
            *self is TagAlreadyOpen ==> r@ == "attempt to open a tag that is already open"@,
            *self is TagNotOpen ==> r@ == "attempt to close a tag that is not open"@,
    {
        match self {
            TimeLogError::TagAlreadyOpen => "attempt to open a tag that is already open".to_owned(),
            TimeLogError::TagNotOpen => "attempt to close a tag that is not open".to_owned(),
        }
    }
}

/// Some interval in the sequence is open and carries the given tag.
pub open spec fn has_open(ints: Seq<TaggedInterval>, tid: TagId) -> bool {
    exists|i: int|
        0 <= i < ints.len() && (#[trigger] ints[i]).tag == tid && ints[i].interval.duration is None
}

/// No two intervals with one tag are both open.
pub open spec fn at_most_one_open(ints: Seq<TaggedInterval>) -> bool {
    forall|i: int, j: int|
        0 <= i < j < ints.len() && (#[trigger] ints[i]).tag == (#[trigger] ints[j]).tag ==> !(
        ints[i].interval.duration is None && ints[j].interval.duration is None)
}

/// The interval sequence is well-formed against a registry: every tag ID
/// resolves to a name, endpoint arithmetic stays in range, and at most one
/// interval per tag is open.
pub open spec fn ints_wf(names: Seq<Seq<char>>, ints: Seq<TaggedInterval>) -> bool {
    &&& forall|i: int|
        0 <= i < ints.len() ==> (#[trigger] ints[i]).tag < names.len()
            && ints[i].interval.wf()
    &&& at_most_one_open(ints)
}

/// A record of tagged time intervals.
#[derive(Debug)]
pub struct TimeLog {
    tags: Tags,
    intervals: Vec<TaggedInterval>,
}

impl TimeLog {
    /// The tag-name registry, as a sequence of names indexed by tag ID.
    pub closed spec fn names(&self) -> Seq<Seq<char>> {
        self.tags@
    }

    /// The recorded intervals, in insertion order.
    pub closed spec fn ints(&self) -> Seq<TaggedInterval> {
        self.intervals@
    }

    /// The timelog's invariant: a well-formed registry and a well-formed
    /// interval sequence.
    pub open spec fn wf(&self) -> bool {
        &&& names_unique(self.names())
        &&& self.names().len() <= u32::MAX
        &&& ints_wf(self.names(), self.ints())
    }

    /// Create a new, empty timelog.
    pub fn new() -> (r: TimeLog)
        ensures
            r.names() =~= Seq::<Seq<char>>::empty(),
            r.ints() =~= Seq::<TaggedInterval>::empty(),
            r.wf(),
    {
        TimeLog { tags: Tags::new(), intervals: Vec::new() }
    }

    /// Get the name of the tag with the given ID, if it exists in this
    /// timelog.
    pub fn tag_name(&self, tag: TagId) -> (r: Option<&str>)
        ensures
            match r {
                Some(s) => tag < self.names().len() && s@ == self.names()[tag as int],
                None => tag >= self.names().len(),
            },
    {
        self.tags.get_name(tag)
    }

    /// Get the ID of the tag with the given name, if it exists in this
    /// timelog.
    pub fn tag_id(&self, tag: &str) -> (r: Option<TagId>)
        requires
            self.wf(),
        ensures
            r == spec_tag_id(self.names(), tag@),
    {
        self.tags.get_id(tag)
    }

    /// The registered tag names, in ID order (index = tag ID).
    pub fn tag_names(&self) -> (r: &Vec<String>)
        ensures
            r.deep_view() == self.names(),
    {
        self.tags.names()
    }

    /// The intervals stored in this timelog, in insertion order.
    pub fn intervals(&self) -> (r: &Vec<TaggedInterval>)
        ensures
            r@ == self.ints(),
    {
        &self.intervals
    }

    /// Rebuild a timelog from the parts of a persisted snapshot: the tag
    /// names in ID order and the interval sequence.
    ///
    /// Returns `None` when the parts do not form a well-formed timelog: a
    /// duplicated tag name, an interval whose tag has no name, an interval
    /// out of time range, or two open intervals with one tag.
    pub fn from_parts(names: Vec<String>, intervals: Vec<TaggedInterval>) -> (r: Option<TimeLog>)
        requires
            names@.len() <= u32::MAX,
        ensures
            match r {
                Some(log) => log.names() == names.deep_view() && log.ints() == intervals@
                    && log.wf(),
                None => !(names_unique(names.deep_view()) && ints_wf(
                    names.deep_view(),
                    intervals@,
                )),
            },
    {
        let ghost dv = names.deep_view();
        let tags = match Tags::from_names(names) {
            Ok(t) => t,
            Err(_) => {
                return None;
            },
        };
        let n = intervals.len();
        let mut i: usize = 0;
        while i < n
            invariant
                dv == names.deep_view(),
                n == intervals@.len(),
                i <= n,
                tags@ == dv,
                forall|k: int|
                    0 <= k < i ==> (#[trigger] intervals@[k]).tag < dv.len()
                        && intervals@[k].interval.wf(),
            decreases n - i,
        {
            let ti = intervals[i];
            if !((ti.tag as usize) < tags.len()) {
                proof {
                    assert(!ints_wf(dv, intervals@)) by {
                        if ints_wf(dv, intervals@) {
                            assert((intervals@[i as int]).tag < dv.len());
                        }
                    }
                }
                return None;
            }
            let ok = match ti.interval.duration {
                Some(d) => ti.interval.start <= MAX_TIME && d <= MAX_TIME - ti.interval.start,
                None => ti.interval.start <= MAX_TIME,
            };
            if !ok {
                proof {
                    assert(!ints_wf(dv, intervals@)) by {
                        if ints_wf(dv, intervals@) {
                            assert((intervals@[i as int]).interval.wf());
                        }
                    }
                }
                return None;
            }
            i += 1;
        }
        // Check that at most one interval per tag is open.
        i = 0;
        while i < n
            invariant
                dv == names.deep_view(),
                n == intervals@.len(),
                i <= n,
                tags@ == dv,
                forall|k: int|
                    0 <= k < n ==> (#[trigger] intervals@[k]).tag < dv.len()
                        && intervals@[k].interval.wf(),
                forall|a: int, b: int|
                    0 <= a < b < n && a < i && (#[trigger] intervals@[a]).tag == (
                    #[trigger] intervals@[b]).tag ==> !(intervals@[a].interval.duration is None
                        && intervals@[b].interval.duration is None),
            decreases n - i,
        {
            let ti = intervals[i];
            if ti.interval.duration.is_none() {
                let mut j: usize = i + 1;
                while j < n
                    invariant
                        n == intervals@.len(),
                        i < j <= n || (i < n && j == i + 1),
                        j >= i + 1,
                        ti == intervals@[i as int],
                        ti.interval.duration is None,
                        forall|b: int|
                            i < b < j ==> !((#[trigger] intervals@[b]).tag == ti.tag
                                && intervals@[b].interval.duration is None),
                    decreases n - j,
                {
                    let tj = intervals[j];
                    if tj.tag == ti.tag && tj.interval.duration.is_none() {
                        proof {
                            assert(!at_most_one_open(intervals@)) by {
                                if at_most_one_open(intervals@) {
                                    assert((intervals@[i as int]).tag == (
                                    intervals@[j as int]).tag);
                                    assert(!(intervals@[i as int].interval.duration is None
                                        && intervals@[j as int].interval.duration is None));
                                }
                            }
                        }
                        return None;
                    }
                    j += 1;
                }
            }
            i += 1;
        }
        Some(TimeLog { tags, intervals })
    }
}

/// Two pointwise-equal predicates filter a sequence identically.
proof fn lemma_filter_ext<A>(s: Seq<A>, p1: spec_fn(A) -> bool, p2: spec_fn(A) -> bool)
    requires
        forall|x: A| #[trigger] p1(x) == #[trigger] p2(x),
    ensures
        s.filter(p1) == s.filter(p2),
    decreases s.len(),
{
    reveal(Seq::filter);
    if s.len() > 0 {
        lemma_filter_ext(s.drop_last(), p1, p2);
    }
}

/// Every element of a filtered sequence comes from the original, and
/// filtering keeps the one-open-per-tag property.
proof fn lemma_filter_log(s: Seq<TaggedInterval>, pred: spec_fn(TaggedInterval) -> bool)
    ensures
        forall|j: int|
            0 <= j < s.filter(pred).len() ==> exists|i: int|
                0 <= i < s.len() && #[trigger] s.filter(pred)[j] == s[i],
        at_most_one_open(s) ==> at_most_one_open(s.filter(pred)),
    decreases s.len(),
{
    reveal(Seq::filter);
    if s.len() > 0 {
        let s0 = s.drop_last();
        lemma_filter_log(s0, pred);
        assert(forall|i: int| 0 <= i < s0.len() ==> s0[i] == s[i]);
        let f0 = s0.filter(pred);
        let f = s.filter(pred);
        if pred(s.last()) {
            assert(f == f0.push(s.last()));
            assert forall|j: int| 0 <= j < f.len() implies exists|i: int|
                0 <= i < s.len() && #[trigger] f[j] == s[i] by {
                if j < f0.len() {
                    assert(f[j] == f0[j]);
                    let i = choose|i: int| 0 <= i < s0.len() && f0[j] == s0[i];
                    assert(f[j] == s[i]);
                } else {
                    assert(f[j] == s[s.len() - 1]);
                }
            }
            if at_most_one_open(s) {
                assert(at_most_one_open(s0));
                assert forall|a: int, b: int|
                    0 <= a < b < f.len() && (#[trigger] f[a]).tag == (#[trigger] f[b]).tag
                    implies !(f[a].interval.duration is None
                    && f[b].interval.duration is None) by {
                    if b == f.len() - 1 {
                        if f[a].interval.duration is None && f[b].interval.duration is None {
                            assert(f0[a] == f[a]);
                            let i = choose|i: int| 0 <= i < s0.len() && f0[a] == s0[i];
                            assert(s[i] == f[a]);
                            assert(s[s.len() - 1] == f[b]);
                            assert(s[i].tag == s[s.len() - 1].tag);
                            assert(false);
                        }
                    } else {
                        assert(f0[a] == f[a] && f0[b] == f[b]);
                    }
                }
            }
        } else {
            assert(f == f0);
        }
    }
}

impl TimeLog {
    /// Keep exactly the intervals on which the filter evaluates to
    /// `keep_if` at instant `now`, preserving their relative order.
    fn keep_where(&mut self, f: &crate::filter::Filter, now: u64, keep_if: bool)
        requires
            old(self).wf(),
            now <= MAX_TIME,
        ensures
            final(self).wf(),
            final(self).names() == old(self).names(),
            final(self).ints() == old(self).ints().filter(
                |ti: TaggedInterval| crate::filter::spec_eval(f@, ti, now) == keep_if,
            ),
    {
        let ghost pred = |ti: TaggedInterval| crate::filter::spec_eval(f@, ti, now) == keep_if;
        let n = self.intervals.len();
        let mut out: Vec<TaggedInterval> = Vec::new();
        let mut i: usize = 0;
        proof {
            reveal(Seq::filter);
            assert(self.ints().take(0) =~= Seq::<TaggedInterval>::empty());
        }
        while i < n
            invariant
                self == old(self),
                old(self).wf(),
                now <= MAX_TIME,
                n == self.ints().len(),
                i <= n,
                out@ == self.ints().take(i as int).filter(pred),
                pred == (|ti: TaggedInterval| crate::filter::spec_eval(f@, ti, now) == keep_if),
            decreases n - i,
        {
            let ti = self.intervals[i];
            let keep = f.eval(&ti, now) == keep_if;
            if keep {
                out.push(ti);
            }
            proof {
                reveal(Seq::filter);
                let t0 = self.ints().take(i as int);
                let t1 = self.ints().take(i + 1 as int);
                assert(t1.drop_last() =~= t0);
                assert(t1.last() == ti);
                assert(t1.filter(pred) == if pred(ti) {
                    t0.filter(pred).push(ti)
                } else {
                    t0.filter(pred)
                });
            }
            i += 1;
        }
        proof {
            assert(self.ints().take(n as int) =~= self.ints());
        }
        self.intervals = out;
        proof {
            let olds = old(self).ints();
            lemma_filter_log(olds, pred);
            assert forall|k: int| 0 <= k < self.ints().len() implies (
            #[trigger] self.ints()[k]).tag < self.names().len()
                && self.ints()[k].interval.wf() by {
                let i0 = choose|i0: int| 0 <= i0 < olds.len() && self.ints()[k] == olds[i0];
                assert(olds[i0].tag < old(self).names().len());
            }
        }
    }

    /// Remove all intervals from this timelog on which the given filter
    /// evaluates to true at instant `now`, preserving the relative order of
    /// the survivors.
    pub fn remove(&mut self, f: &crate::filter::Filter, now: u64)
        requires
            old(self).wf(),
            now <= MAX_TIME,
        ensures
            final(self).wf(),
            final(self).names() == old(self).names(),
            final(self).ints() == old(self).ints().filter(
                |ti: TaggedInterval| !crate::filter::spec_eval(f@, ti, now),
            ),
    {
        self.keep_where(f, now, false);
        proof {
            assert(old(self).ints().filter(
                |ti: TaggedInterval| crate::filter::spec_eval(f@, ti, now) == false,
            ) =~= old(self).ints().filter(
                |ti: TaggedInterval| !crate::filter::spec_eval(f@, ti, now),
            )) by {
                lemma_filter_ext(
                    old(self).ints(),
                    |ti: TaggedInterval| crate::filter::spec_eval(f@, ti, now) == false,
                    |ti: TaggedInterval| !crate::filter::spec_eval(f@, ti, now),
                );
            }
        }
    }

    /// Remove all intervals that do _not_ pass the given filter at instant
    /// `now`, preserving the relative order of the survivors.
    pub fn retain(&mut self, f: &crate::filter::Filter, now: u64)
        requires
            old(self).wf(),
            now <= MAX_TIME,
        ensures
            final(self).wf(),
            final(self).names() == old(self).names(),
            final(self).ints() == old(self).ints().filter(
                |ti: TaggedInterval| crate::filter::spec_eval(f@, ti, now),
            ),
    {
        self.keep_where(f, now, true);
        proof {
            assert(old(self).ints().filter(
                |ti: TaggedInterval| crate::filter::spec_eval(f@, ti, now) == true,
            ) =~= old(self).ints().filter(
                |ti: TaggedInterval| crate::filter::spec_eval(f@, ti, now),
            )) by {
                lemma_filter_ext(
                    old(self).ints(),
                    |ti: TaggedInterval| crate::filter::spec_eval(f@, ti, now) == true,
                    |ti: TaggedInterval| crate::filter::spec_eval(f@, ti, now),
                );
            }
        }
    }
}

/// The interval coalesces with a fresh session for `tid`: it is closed and
/// its end lies at or after the current quarter-hour floor, so it closed
/// within the current quarter-hour window.
pub open spec fn is_recent_closed(ti: TaggedInterval, tid: TagId, floor: int) -> bool {
    ti.tag == tid && ti.interval.duration is Some && ti.interval.spec_end() >= floor
}

/// The interval is open and carries the given tag.
pub open spec fn is_open_for(ti: TaggedInterval, tid: TagId) -> bool {
    ti.tag == tid && ti.interval.duration is None
}

/// The index of the first interval satisfying `p`, if any.
pub open spec fn first_where(ints: Seq<TaggedInterval>, p: spec_fn(TaggedInterval) -> bool) -> Option<
    int,
>
    decreases ints.len(),
{
    if ints.len() == 0 {
        None
    } else if p(ints[0]) {
        Some(0int)
    } else {
        match first_where(ints.drop_first(), p) {
            Some(k) => Some(k + 1),
            None => None,
        }
    }
}

/// `first_where` names the first matching index, if one exists.
pub proof fn lemma_first_where(ints: Seq<TaggedInterval>, p: spec_fn(TaggedInterval) -> bool)
    ensures
        match first_where(ints, p) {
            Some(k) => 0 <= k < ints.len() && p(ints[k]) && forall|j: int|
                0 <= j < k ==> !p(#[trigger] ints[j]),
            None => forall|j: int| 0 <= j < ints.len() ==> !p(#[trigger] ints[j]),
        },
    decreases ints.len(),
{
    if ints.len() > 0 && !p(ints[0]) {
        let rest = ints.drop_first();
        lemma_first_where(rest, p);
        match first_where(rest, p) {
            Some(k) => {
                assert(first_where(ints, p) == Some(k + 1));
                assert(p(ints[k + 1])) by {
                    assert(rest[k] == ints[k + 1]);
                }
                assert forall|j: int| 0 <= j < k + 1 implies !p(#[trigger] ints[j]) by {
                    if j >= 1 {
                        assert(rest[j - 1] == ints[j]);
                        assert(!p(rest[j - 1]));
                    }
                }
            },
            None => {
                assert forall|j: int| 0 <= j < ints.len() implies !p(#[trigger] ints[j]) by {
                    if j >= 1 {
                        assert(rest[j - 1] == ints[j]);
                        assert(!p(rest[j - 1]));
                    }
                }
            },
        }
    }
}

/// The first interval that a fresh session for `tid` coalesces with, if any.
pub open spec fn first_recent_closed(ints: Seq<TaggedInterval>, tid: TagId, floor: int) -> Option<
    int,
> {
    first_where(ints, |ti: TaggedInterval| is_recent_closed(ti, tid, floor))
}

/// The index of the open interval with the given tag, if one exists.
pub open spec fn first_open(ints: Seq<TaggedInterval>, tid: TagId) -> Option<int> {
    first_where(ints, |ti: TaggedInterval| is_open_for(ti, tid))
}

/// `first_recent_closed` names the first matching index, if one exists.
pub proof fn lemma_first_recent_closed(ints: Seq<TaggedInterval>, tid: TagId, floor: int)
    ensures
        match first_recent_closed(ints, tid, floor) {
            Some(k) => 0 <= k < ints.len() && is_recent_closed(ints[k], tid, floor) && forall|
                j: int,
            | 0 <= j < k ==> !is_recent_closed(#[trigger] ints[j], tid, floor),
            None => forall|j: int|
                0 <= j < ints.len() ==> !is_recent_closed(#[trigger] ints[j], tid, floor),
        },
{
    lemma_first_where(ints, |ti: TaggedInterval| is_recent_closed(ti, tid, floor));
}

/// `first_open` names the unique open interval of the tag, if one exists.
pub proof fn lemma_first_open(ints: Seq<TaggedInterval>, tid: TagId)
    ensures
        match first_open(ints, tid) {
            Some(k) => 0 <= k < ints.len() && is_open_for(ints[k], tid) && forall|j: int|
                0 <= j < k ==> !is_open_for(#[trigger] ints[j], tid),
            None => forall|j: int| 0 <= j < ints.len() ==> !is_open_for(#[trigger] ints[j], tid),
        },
{
    lemma_first_where(ints, |ti: TaggedInterval| is_open_for(ti, tid));
}

/// The ID a name resolves to when opening: its existing ID, or the next
/// sequential one when the name is new.
pub open spec fn resolve_id(names: Seq<Seq<char>>, tag: Seq<char>) -> TagId {
    match spec_tag_id(names, tag) {
        Some(id) => id,
        None => names.len() as TagId,
    }
}

/// The registry after resolving a name when opening: unchanged, or extended
/// by the new name.
pub open spec fn resolve_names(names: Seq<Seq<char>>, tag: Seq<char>) -> Seq<Seq<char>> {
    if names.contains(tag) {
        names
    } else {
        names.push(tag)
    }
}

/// What opening a session does: the tag name is resolved (created if new);
/// if the tag already has an open interval the log is left alone and the
/// call fails; if an interval with this tag closed within the current
/// quarter-hour window, the first such interval reopens with its original
/// start; otherwise a fresh open interval starts at the quarter-hour floor
/// of `now`.
pub open spec fn spec_open(
    names: Seq<Seq<char>>,
    ints: Seq<TaggedInterval>,
    tag: Seq<char>,
    now: u64,
) -> (Seq<Seq<char>>, Seq<TaggedInterval>, Result<TaggedInterval, TimeLogError>) {
    let tid = resolve_id(names, tag);
    let names2 = resolve_names(names, tag);
    let floor = qh_floor(now as int);
    if has_open(ints, tid) {
        (names2, ints, Err(TimeLogError::TagAlreadyOpen))
    } else {
        match first_recent_closed(ints, tid, floor) {
            Some(k) => {
                let t = TaggedInterval {
                    tag: tid,
                    interval: Interval { start: ints[k].interval.start, duration: None },
                };
                (names2, ints.update(k, t), Ok(t))
            },
            None => {
                let t = TaggedInterval {
                    tag: tid,
                    interval: Interval { start: floor as u64, duration: None },
                };
                (names2, ints.push(t), Ok(t))
            },
        }
    }
}

impl TimeLog {
    /// Open a new interval with the given tag at instant `now`.
    ///
    /// If a closed interval with this tag has an end time at or after the
    /// quarter-hour floor of `now`, that interval is re-opened rather than a
    /// new one created, coalescing rapid close/reopen cycles into one
    /// session.
    ///
    /// Returns an error, changing nothing, if an interval with this tag is
    /// already open.
    pub fn open_at(&mut self, tag: &str, now: u64) -> (r: Result<TaggedInterval, TimeLogError>)
        requires
            old(self).wf(),
            old(self).names().len() < u32::MAX,
            now <= MAX_TIME,
        ensures
            final(self).wf(),
            (final(self).names(), final(self).ints(), r) == spec_open(
                old(self).names(),
                old(self).ints(),
                tag@,
                now,
            ),
            r is Err ==> final(self).names() == old(self).names() && final(self).ints() == old(self).ints() && r == Err::<TaggedInterval, TimeLogError>(TimeLogError::TagAlreadyOpen),
            r is Ok ==> has_open(final(self).ints(), resolve_id(old(self).names(), tag@)),
    {
        let ghost names0 = old(self).names();
        let ghost ints0 = old(self).ints();
        let tid = self.tags.get_id_or_insert(tag);
        proof {
            assert(tid == resolve_id(names0, tag@));
            assert(self.names() =~= resolve_names(names0, tag@));
        }
        let now_floor = floor_time(now);
        let ghost floor = qh_floor(now as int);
        proof {
            lemma_qh_floor(now as int);
        }
        let n = self.intervals.len();
        let mut i: usize = 0;
        let mut reopen: Option<usize> = None;
        while i < n
            invariant
                old(self).wf(),
                names0 == old(self).names(),
                ints0 == old(self).ints(),
                self.names() == resolve_names(names0, tag@),
                self.ints() == ints0,
                tid == resolve_id(names0, tag@),
                floor == qh_floor(now as int),
                now_floor == floor,
                n == ints0.len(),
                i <= n,
                forall|j: int|
                    0 <= j < i ==> !((#[trigger] ints0[j]).tag == tid
                        && ints0[j].interval.duration is None),
                match reopen {
                    Some(k) => k < i && is_recent_closed(ints0[k as int], tid, floor) && forall|
                        j: int,
                    | 0 <= j < k ==> !is_recent_closed(#[trigger] ints0[j], tid, floor),
                    None => forall|j: int|
                        0 <= j < i ==> !is_recent_closed(#[trigger] ints0[j], tid, floor),
                },
            decreases n - i,
        {
            let ti = self.intervals[i];
            if ti.tag == tid {
                match ti.interval.duration {
                    None => {
                        proof {
                            assert(has_open(ints0, tid)) by {
                                assert(ints0[i as int].tag == tid
                                    && ints0[i as int].interval.duration is None);
                            }
                            // The tag must already exist: its ID is carried
                            // by a stored interval.
                            assert(names0.contains(tag@)) by {
                                if !names0.contains(tag@) {
                                    assert(ints0[i as int].tag < names0.len());
                                }
                            }
                        }
                        return Err(TimeLogError::TagAlreadyOpen);
                    },
                    Some(d) => {
                        if reopen.is_none() {
                            if ti.interval.start + d >= now_floor {
                                reopen = Some(i);
                            }
                        }
                    },
                }
            }
            i += 1;
        }
        proof {
            assert(!has_open(ints0, tid));
            lemma_first_recent_closed(ints0, tid, floor);
        }
        match reopen {
            Some(k) => {
                let old_ti = self.intervals[k];
                let new_ti = TaggedInterval {
                    tag: tid,
                    interval: Interval { start: old_ti.interval.start, duration: None },
                };
                self.intervals[k] = new_ti;
                proof {
                    assert(first_recent_closed(ints0, tid, floor) == Some(k as int)) by {
                        match first_recent_closed(ints0, tid, floor) {
                            Some(k2) => {
                                assert(!(k2 < k)) by {
                                    if k2 < k {
                                        assert(!is_recent_closed(ints0[k2], tid, floor));
                                    }
                                }
                                assert(!(k < k2)) by {
                                    if k < k2 {
                                        assert(!is_recent_closed(ints0[k as int], tid, floor));
                                    }
                                }
                            },
                            None => {
                                assert(!is_recent_closed(ints0[k as int], tid, floor));
                            },
                        }
                    }
                    assert(self.ints() =~= ints0.update(k as int, new_ti));
                    lemma_open_result_wf(names0, ints0, tag@, now);
                    assert(has_open(self.ints(), tid)) by {
                        assert(self.ints()[k as int].tag == tid
                            && self.ints()[k as int].interval.duration is None);
                    }
                }
                Ok(new_ti)
            },
            None => {
                let new_ti = TaggedInterval {
                    tag: tid,
                    interval: Interval { start: now_floor, duration: None },
                };
                self.intervals.push(new_ti);
                proof {
                    assert(first_recent_closed(ints0, tid, floor) is None) by {
                        match first_recent_closed(ints0, tid, floor) {
                            Some(k2) => {
                                assert(!is_recent_closed(ints0[k2], tid, floor));
                            },
                            None => {},
                        }
                    }
                    assert(self.ints() =~= ints0.push(new_ti));
                    lemma_open_result_wf(names0, ints0, tag@, now);
                    assert(has_open(self.ints(), tid)) by {
                        assert(self.ints()[ints0.len() as int].tag == tid
                            && self.ints()[ints0.len() as int].interval.duration is None);
                    }
                }
                Ok(new_ti)
            },
        }
    }
}

/// Opening preserves the timelog invariant.
proof fn lemma_open_result_wf(
    names: Seq<Seq<char>>,
    ints: Seq<TaggedInterval>,
    tag: Seq<char>,
    now: u64,
)
    requires
        names_unique(names),
        names.len() < u32::MAX,
        now <= MAX_TIME,
        ints_wf(names, ints),
        !has_open(ints, resolve_id(names, tag)),
    ensures
        names_unique(resolve_names(names, tag)),
        resolve_names(names, tag).len() <= u32::MAX,
        ints_wf(resolve_names(names, tag), spec_open(names, ints, tag, now).1),
{
    let tid = resolve_id(names, tag);
    let names2 = resolve_names(names, tag);
    let floor = qh_floor(now as int);
    lemma_qh_floor(now as int);
    // The extended registry stays duplicate-free.
    assert(names_unique(names2)) by {
        if !names.contains(tag) {
            assert forall|i: int, j: int| 0 <= i < j < names2.len() implies names2[i]
                !== names2[j] by {
                if j == names2.len() - 1 {
                    assert(names.contains(names[i])) by {
                        assert(names2[i] == names[i]);
                    }
                }
            }
        }
    }
    // The resolved ID names an entry of the extended registry.
    assert(tid < names2.len()) by {
        if names.contains(tag) {
            let w = names.index_of(tag);
            assert(names[w] == tag);
        }
    }
    lemma_first_recent_closed(ints, tid, floor);
    let ints2 = spec_open(names, ints, tag, now).1;
    assert forall|i: int|
        0 <= i < ints2.len() implies (#[trigger] ints2[i]).tag < names2.len()
        && ints2[i].interval.wf() by {
        if i < ints.len() {
            assert(ints[i].tag < names.len() && ints[i].interval.wf());
        }
    }
    assert(at_most_one_open(ints2)) by {
        assert forall|i: int, j: int|
            0 <= i < j < ints2.len() && (#[trigger] ints2[i]).tag == (#[trigger] ints2[j]).tag
            implies !(ints2[i].interval.duration is None
            && ints2[j].interval.duration is None) by {
            match first_recent_closed(ints, tid, floor) {
                Some(k) => {
                    if ints2[i].interval.duration is None && ints2[j].interval.duration is None {
                        if i != k && j != k {
                            assert(ints2[i] == ints[i] && ints2[j] == ints[j]);
                        } else if i == k {
                            assert(ints2[j] == ints[j]);
                            assert(ints[j].tag == tid && ints[j].interval.duration is None);
                            assert(has_open(ints, tid));
                        } else {
                            assert(ints2[i] == ints[i]);
                            assert(ints[i].tag == tid && ints[i].interval.duration is None);
                            assert(has_open(ints, tid));
                        }
                    }
                },
                None => {
                    if ints2[i].interval.duration is None && ints2[j].interval.duration is None {
                        if j == ints.len() {
                            assert(ints2[i] == ints[i]);
                            assert(ints[i].tag == tid && ints[i].interval.duration is None);
                            assert(has_open(ints, tid));
                        } else {
                            assert(ints2[i] == ints[i] && ints2[j] == ints[j]);
                        }
                    }
                },
            }
        }
    }
}

/// Opening a tag that was just successfully opened fails with
/// `TagAlreadyOpen` and leaves the log unchanged, whatever the two instants.
pub proof fn lemma_open_twice(
    names: Seq<Seq<char>>,
    ints: Seq<TaggedInterval>,
    tag: Seq<char>,
    now1: u64,
    now2: u64,
)
    requires
        names_unique(names),
        names.len() < u32::MAX,
        now1 <= MAX_TIME,
        ints_wf(names, ints),
    ensures
        ({
            let (n1, s1, r1) = spec_open(names, ints, tag, now1);
            r1 is Ok ==> spec_open(n1, s1, tag, now2) == (
                n1,
                s1,
                Err::<TaggedInterval, TimeLogError>(TimeLogError::TagAlreadyOpen),
            )
        }),
{
    let (n1, s1, r1) = spec_open(names, ints, tag, now1);
    if r1 is Ok {
        let tid = resolve_id(names, tag);
        let floor = qh_floor(now1 as int);
        lemma_first_recent_closed(ints, tid, floor);
        // After a successful open, the resolved tag has an open interval.
        assert(has_open(s1, tid)) by {
            match first_recent_closed(ints, tid, floor) {
                Some(k) => {
                    assert(s1[k].tag == tid && s1[k].interval.duration is None);
                },
                None => {
                    assert(s1[ints.len() as int].tag == tid && s1[ints.len() as int
                    ].interval.duration is None);
                },
            }
        }
        // The name resolves to the same ID in the registry after the call.
        assert(n1.contains(tag) && spec_tag_id(n1, tag) == Some(tid)) by {
            if names.contains(tag) {
                assert(n1 == names);
            } else {
                assert(n1 == names.push(tag));
                assert(n1[names.len() as int] == tag);
                assert(n1.contains(tag));
                let w = n1.index_of(tag);
                assert(n1[w] == tag);
                assert forall|i: int| 0 <= i < names.len() implies n1[i] !== tag by {
                    assert(n1[i] == names[i]);
                    if names[i] == tag {
                        assert(names.contains(names[i]));
                    }
                }
                assert(w == names.len());
            }
        }
        assert(resolve_id(n1, tag) == tid);
        assert(resolve_names(n1, tag) == n1);
    }
}

/// What closing a session does: the tag name resolves to an ID and its one
/// open interval closes at `now`, then rounds to quarter hours (its start
/// floored, its end ceiled). If the name is unknown or no interval with the
/// tag is open, the log is left alone and the call fails.
pub open spec fn spec_close_log(
    names: Seq<Seq<char>>,
    ints: Seq<TaggedInterval>,
    tag: Seq<char>,
    now: u64,
) -> (Seq<TaggedInterval>, Result<TaggedInterval, TimeLogError>) {
    match spec_tag_id(names, tag) {
        None => (ints, Err(TimeLogError::TagNotOpen)),
        Some(tid) => match first_open(ints, tid) {
            None => (ints, Err(TimeLogError::TagNotOpen)),
            Some(k) => {
                let closed = Interval {
                    start: ints[k].interval.start,
                    duration: Some((now - ints[k].interval.start) as u64),
                };
                let t = TaggedInterval { tag: tid, interval: spec_round(closed) };
                (ints.update(k, t), Ok(t))
            },
        },
    }
}

/// Whether closing the tag at `now` fails: its name is unknown, or no
/// interval with its ID is open.
pub open spec fn close_fails(
    names: Seq<Seq<char>>,
    ints: Seq<TaggedInterval>,
    tag: Seq<char>,
) -> bool {
    match spec_tag_id(names, tag) {
        None => true,
        Some(tid) => !has_open(ints, tid),
    }
}

impl TimeLog {
    /// Close the open interval with the given tag at instant `now`, and
    /// round it to quarter hours.
    ///
    /// Returns an error, changing nothing, if no interval with this tag is
    /// open.
    pub fn close_at(&mut self, tag: &str, now: u64) -> (r: Result<TaggedInterval, TimeLogError>)
        requires
            old(self).wf(),
            now <= MAX_TIME,
            // The open interval being closed must not start in the future.
            forall|i: int|
                0 <= i < old(self).ints().len() && Some((#[trigger] old(self).ints()[i]).tag)
                    == spec_tag_id(old(self).names(), tag@) && old(self).ints()[i].interval.duration is None ==> old(self).ints()[i].interval.start
                    <= now,
        ensures
            final(self).wf(),
            final(self).names() == old(self).names(),
            (final(self).ints(), r) == spec_close_log(
                old(self).names(),
                old(self).ints(),
                tag@,
                now,
            ),
            r is Err ==> r == Err::<TaggedInterval, TimeLogError>(TimeLogError::TagNotOpen)
                && final(self).ints() == old(self).ints(),
            (r is Err) == close_fails(old(self).names(), old(self).ints(), tag@),
    {
        let ghost names0 = old(self).names();
        let ghost ints0 = old(self).ints();
        let tid = match self.tags.get_id(tag) {
            Some(t) => t,
            None => {
                return Err(TimeLogError::TagNotOpen);
            },
        };
        let n = self.intervals.len();
        let mut i: usize = 0;
        while i < n
            invariant
                old(self).wf(),
                names0 == old(self).names(),
                ints0 == old(self).ints(),
                self == old(self),
                Some(tid) == spec_tag_id(names0, tag@),
                now <= MAX_TIME,
                n == ints0.len(),
                i <= n,
                forall|j: int| 0 <= j < i ==> !is_open_for(#[trigger] ints0[j], tid),
                forall|j: int|
                    0 <= j < ints0.len() && (#[trigger] ints0[j]).tag == tid
                        && ints0[j].interval.duration is None ==> ints0[j].interval.start <= now,
            decreases n - i,
        {
            let ti = self.intervals[i];
            if ti.tag == tid && ti.interval.duration.is_none() {
                proof {
                    lemma_first_open(ints0, tid);
                    assert(is_open_for(ints0[i as int], tid));
                    match first_open(ints0, tid) {
                        Some(k2) => {
                            assert(!(k2 < i)) by {
                                if k2 < i {
                                    assert(!is_open_for(ints0[k2], tid));
                                }
                            }
                            assert(!(i < k2)) by {
                                if i < k2 {
                                    assert(!is_open_for(ints0[i as int], tid));
                                }
                            }
                        },
                        None => {
                            assert(!is_open_for(ints0[i as int], tid));
                        },
                    }
                    assert(first_open(ints0, tid) == Some(i as int));
                }
                let closed = ti.close(now).unwrap();
                let rounded = closed.round_to_quarter_hours();
                self.intervals[i] = rounded;
                proof {
                    assert(self.ints() =~= ints0.update(i as int, rounded));
                    assert(has_open(ints0, tid)) by {
                        assert(ints0[i as int].tag == tid
                            && ints0[i as int].interval.duration is None);
                    }
                    // The update matches the model's closed-and-rounded
                    // interval.
                    assert(rounded.tag == tid);
                    assert(rounded.interval == spec_round(
                        Interval {
                            start: ints0[i as int].interval.start,
                            duration: Some((now - ints0[i as int].interval.start) as u64),
                        },
                    ));
                    // The invariant is preserved: one open interval became
                    // closed.
                    assert(rounded.interval.wf());
                    assert forall|a: int, b: int|
                        0 <= a < b < self.ints().len() && (#[trigger] self.ints()[a]).tag == (
                        #[trigger] self.ints()[b]).tag implies !(
                    self.ints()[a].interval.duration is None
                        && self.ints()[b].interval.duration is None) by {
                        if a != i && b != i {
                            assert(self.ints()[a] == ints0[a] && self.ints()[b] == ints0[b]);
                        }
                    }
                }
                return Ok(rounded);
            }
            i += 1;
        }
        proof {
            lemma_first_open(ints0, tid);
            match first_open(ints0, tid) {
                Some(k2) => {
                    assert(!is_open_for(ints0[k2], tid));
                },
                None => {},
            }
            assert(!has_open(ints0, tid)) by {
                if has_open(ints0, tid) {
                    let w = choose|w: int|
                        0 <= w < ints0.len() && (#[trigger] ints0[w]).tag == tid
                            && ints0[w].interval.duration is None;
                    assert(!is_open_for(ints0[w], tid));
                }
            }
        }
        Err(TimeLogError::TagNotOpen)
    }
}

impl TimeLog {
    /// Open a new interval with the given tag at the current time, as
    /// `open_at` does at an explicit instant.
    ///
    /// Returns an error, changing nothing, if an interval with this tag is
    /// already open.
    pub fn open(&mut self, tag: &str) -> (r: Result<TaggedInterval, TimeLogError>)
        requires
            old(self).wf(),
            old(self).names().len() < u32::MAX,
        ensures
            final(self).wf(),
            exists|now: u64|
                now <= MAX_TIME && #[trigger] spec_open(
                    old(self).names(),
                    old(self).ints(),
                    tag@,
                    now,
                ) == (final(self).names(), final(self).ints(), r),
            (r is Err) == has_open(old(self).ints(), resolve_id(old(self).names(), tag@)),
            r is Err ==> final(self).names() == old(self).names() && final(self).ints() == old(
                self,
            ).ints() && r == Err::<TaggedInterval, TimeLogError>(TimeLogError::TagAlreadyOpen),
    {
        let now = now_time();
        let r = self.open_at(tag, now);
        proof {
            assert(spec_open(old(self).names(), old(self).ints(), tag@, now) == (
                self.names(),
                self.ints(),
                r,
            ));
        }
        r
    }
}

/// The registry that replaying the intervals in order rebuilds: each newly
/// encountered tag name receives the next ID, in encounter order.
pub open spec fn gc_names(names: Seq<Seq<char>>, ints: Seq<TaggedInterval>) -> Seq<Seq<char>>
    decreases ints.len(),
{
    if ints.len() == 0 {
        Seq::empty()
    } else {
        let prev = gc_names(names, ints.drop_last());
        let nm = names[ints.last().tag as int];
        if prev.contains(nm) {
            prev
        } else {
            prev.push(nm)
        }
    }
}

/// Some interval carries the given tag ID.
pub open spec fn tag_referenced(ints: Seq<TaggedInterval>, id: TagId) -> bool {
    exists|k: int| 0 <= k < ints.len() && (#[trigger] ints[k]).tag == id
}

/// The `(tag name, interval)` pairs a timelog records, in order.
pub open spec fn spec_pairs(names: Seq<Seq<char>>, ints: Seq<TaggedInterval>) -> Seq<
    (Seq<char>, Interval),
> {
    Seq::new(ints.len(), |k: int| (names[ints[k].tag as int], ints[k].interval))
}

/// The rebuilt registry is duplicate-free and draws its names from the old
/// one.
proof fn lemma_gc_names_props(names: Seq<Seq<char>>, ints: Seq<TaggedInterval>)
    requires
        forall|i: int| 0 <= i < ints.len() ==> (#[trigger] ints[i]).tag < names.len(),
    ensures
        names_unique(gc_names(names, ints)),
        forall|x: Seq<char>| #[trigger] gc_names(names, ints).contains(x) ==> names.contains(x),
    decreases ints.len(),
{
    if ints.len() > 0 {
        let ints0 = ints.drop_last();
        assert(forall|i: int| 0 <= i < ints0.len() ==> ints0[i] == ints[i]);
        lemma_gc_names_props(names, ints0);
        let prev = gc_names(names, ints0);
        let nm = names[ints.last().tag as int];
        let g = gc_names(names, ints);
        if !prev.contains(nm) {
            assert(g == prev.push(nm));
            assert(names_unique(g)) by {
                assert forall|i: int, j: int| 0 <= i < j < g.len() implies g[i] !== g[j] by {
                    if j == g.len() - 1 {
                        assert(prev.contains(prev[i])) by {
                            assert(prev[i] == g[i]);
                        }
                    } else {
                        assert(g[i] == prev[i] && g[j] == prev[j]);
                    }
                }
            }
            assert(names.contains(nm)) by {
                assert(names[ints.last().tag as int] == nm);
            }
            assert forall|x: Seq<char>| #[trigger] g.contains(x) implies names.contains(x) by {
                let w = choose|w: int| 0 <= w < g.len() && g[w] == x;
                if w < prev.len() {
                    assert(prev.contains(x)) by {
                        assert(prev[w] == x);
                    }
                }
            }
        }
    }
}

/// The rebuilt registry is no larger than the old one: it holds distinct
/// names all drawn from it.
proof fn lemma_gc_names_len(names: Seq<Seq<char>>, ints: Seq<TaggedInterval>)
    requires
        forall|i: int| 0 <= i < ints.len() ==> (#[trigger] ints[i]).tag < names.len(),
    ensures
        gc_names(names, ints).len() <= names.len(),
{
    broadcast use vstd::seq_lib::seq_to_set_is_finite;

    let g = gc_names(names, ints);
    lemma_gc_names_props(names, ints);
    assert(g.no_duplicates()) by {
        assert forall|i: int, j: int|
            0 <= i < g.len() && 0 <= j < g.len() && i != j implies g[i] != g[j] by {
            if i < j {
                assert(g[i] !== g[j]);
            } else {
                assert(g[j] !== g[i]);
            }
        }
    }
    g.unique_seq_to_set();
    assert(g.to_set().subset_of(names.to_set())) by {
        assert forall|x: Seq<char>| g.to_set().contains(x) implies names.to_set().contains(
            x,
        ) by {
            assert(g.contains(x));
            assert(names.contains(x));
        }
    }
    vstd::set_lib::lemma_len_subset(g.to_set(), names.to_set());
    names.lemma_cardinality_of_set();
}

impl TimeLog {
    /// Garbage collect tag names.
    ///
    /// The registry is rebuilt by replaying all intervals in their existing
    /// order, assigning each newly encountered tag name the next ID. Names
    /// no interval references disappear and the remaining IDs are
    /// renumbered contiguously; the `(tag name, interval)` pairs the log
    /// records are preserved exactly, in order.
    pub fn gc_tag_names(&mut self)
        requires
            old(self).wf(),
        ensures
            final(self).wf(),
            final(self).names() == gc_names(old(self).names(), old(self).ints()),
            final(self).ints().len() == old(self).ints().len(),
            forall|k: int|
                0 <= k < old(self).ints().len() ==> (#[trigger] final(self).ints()[k]).interval
                    == old(self).ints()[k].interval && final(self).ints()[k].tag < final(self).names().len() && final(self).names()[final(self).ints()[k].tag as int] == old(self).names()[old(self).ints()[k].tag as int],
            spec_pairs(final(self).names(), final(self).ints()) == spec_pairs(
                old(self).names(),
                old(self).ints(),
            ),
            spec_pairs(final(self).names(), final(self).ints()).to_multiset() == spec_pairs(
                old(self).names(),
                old(self).ints(),
            ).to_multiset(),
            forall|id: TagId|
                id < final(self).names().len() ==> #[trigger] tag_referenced(
                    final(self).ints(),
                    id,
                ),
    {
        let ghost names0 = old(self).names();
        let ghost ints0 = old(self).ints();
        let mut new_tags = Tags::new();
        let mut new_ints: Vec<TaggedInterval> = Vec::new();
        let n = self.intervals.len();
        let mut i: usize = 0;
        proof {
            assert(ints0.take(0) =~= Seq::<TaggedInterval>::empty());
        }
        while i < n
            invariant
                old(self).wf(),
                names0 == old(self).names(),
                ints0 == old(self).ints(),
                self == old(self),
                n == ints0.len(),
                i <= n,
                new_tags.wf(),
                new_tags@ == gc_names(names0, ints0.take(i as int)),
                new_ints@.len() == i,
                forall|k: int|
                    0 <= k < i ==> (#[trigger] new_ints@[k]).interval == ints0[k].interval
                        && new_ints@[k].tag < new_tags@.len()
                        && new_tags@[new_ints@[k].tag as int] == names0[ints0[k].tag as int],
                forall|id: TagId|
                    id < new_tags@.len() ==> #[trigger] tag_referenced(new_ints@, id),
            decreases n - i,
        {
            let ghost prev = new_tags@;
            let ti = self.intervals[i];
            let name = self.tags.get_name(ti.tag).unwrap();
            proof {
                assert(ints0.take(i + 1 as int).drop_last() =~= ints0.take(i as int));
                assert(ints0.take(i + 1 as int).last() == ti);
                assert(forall|k: int|
                    0 <= k < i + 1 ==> (#[trigger] ints0.take(i + 1 as int)[k]).tag
                        < names0.len());
            }
            let id = match new_tags.get_id(name) {
                Some(id) => id,
                None => {
                    proof {
                        lemma_gc_names_len(names0, ints0.take(i + 1 as int));
                        assert(gc_names(names0, ints0.take(i + 1 as int)) == prev.push(name@));
                        assert(prev.len() < names0.len());
                    }
                    match new_tags.insert(name) {
                        Ok(id) => id,
                        Err(_) => {
                            proof {
                                assert(false);
                            }
                            0
                        },
                    }
                },
            };
            proof {
                assert(new_tags@ == gc_names(names0, ints0.take(i + 1 as int)));
                assert(new_tags@[id as int] == names0[ints0[i as int].tag as int]);
            }
            let ghost outs0 = new_ints@;
            new_ints.push(TaggedInterval { tag: id, interval: ti.interval });
            proof {
                assert forall|id2: TagId| id2 < new_tags@.len() implies #[trigger] tag_referenced(
                    new_ints@,
                    id2,
                ) by {
                    if id2 == id {
                        assert(new_ints@[i as int].tag == id2);
                    } else {
                        assert(id2 < prev.len());
                        assert(tag_referenced(outs0, id2));
                        let k = choose|k: int| 0 <= k < outs0.len() && (#[trigger] outs0[k]).tag
                            == id2;
                        assert(new_ints@[k] == outs0[k]);
                        assert(new_ints@[k].tag == id2);
                    }
                }
            }
            i += 1;
        }
        proof {
            assert(ints0.take(n as int) =~= ints0);
        }
        self.tags = new_tags;
        self.intervals = new_ints;
        proof {
            lemma_gc_names_len(names0, ints0);
            // One tag can still have at most one open interval: equal new
            // IDs mean equal names, and names are unique in the old
            // registry, so the old tags were equal too.
            assert forall|a: int, b: int|
                0 <= a < b < self.ints().len() && (#[trigger] self.ints()[a]).tag == (
                #[trigger] self.ints()[b]).tag implies !(self.ints()[a].interval.duration is None
                && self.ints()[b].interval.duration is None) by {
                if self.ints()[a].interval.duration is None
                    && self.ints()[b].interval.duration is None {
                    assert(names0[ints0[a].tag as int] == names0[ints0[b].tag as int]);
                    assert(ints0[a].tag == ints0[b].tag) by {
                        if ints0[a].tag != ints0[b].tag {
                            if ints0[a].tag < ints0[b].tag {
                                assert(names0[ints0[a].tag as int] !== names0[ints0[b].tag as int]);
                            } else {
                                assert(names0[ints0[b].tag as int] !== names0[ints0[a].tag as int]);
                            }
                        }
                    }
                    assert(ints0[a].interval.duration is None
                        && ints0[b].interval.duration is None);
                }
            }
            assert(spec_pairs(self.names(), self.ints()) =~= spec_pairs(names0, ints0));
        }
    }
}

} // verus!
