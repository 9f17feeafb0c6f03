//! The computations behind the command layer: building a filter from
//! user-supplied criteria, parsing duration strings, and aggregating
//! matching intervals.

use vstd::prelude::*;

use crate::filter::{
    ended_after, filter_false, filter_true, has_tag, is_closed, is_open, spec_eval,
    started_before, Filter, FilterNode,
};
use crate::interval::{spec_duration_at, TaggedInterval, MAX_TIME};
use crate::tags::spec_tag_id;
use crate::timelog::{TimeLog, TimeLogError};

verus! {

/// Whether executing a command changed the timelog, so that the caller
/// knows to rewrite the persisted snapshot.
#[derive(Debug, Clone, Copy, PartialOrd, Ord, PartialEq, Eq, Structural, Hash)]
pub enum ChangeStatus {
    Changed,
    Unchanged,
}

impl ChangeStatus {
    /// Did the command change the timelog?
    pub fn is_changed(self) -> (r: bool)
        ensures
            r == (self is Changed),
    {
        matches!(self, ChangeStatus::Changed)
    }
}

/// Errors in executing a command's computation.
#[derive(Debug, Clone, Copy, PartialEq, Eq, Structural, Hash)]
pub enum CommandError {
    /// Opening or closing a session failed.
    TimeLogError(TimeLogError),
    /// A time or duration specification cannot be parsed.
    TimeParseError,
    /// Contradictory filter criteria (only-open and only-closed at once).
    InconsistentFilter,
}

impl CommandError {
    /// A human-readable description of this error.
    pub fn message(&self) -> (r: String)
        ensures
            *self matches CommandError::TimeLogError(e) ==> (e is TagAlreadyOpen ==> r@
                == "attempt to open a tag that is already open"@) && (e is TagNotOpen ==> r@
                == "attempt to close a tag that is not open"@),
            *self is TimeParseError ==> r@ == "error parsing time specification"@,
            *self is InconsistentFilter ==> r@ == "inconsistent filters specified"@,
    {
        match self {
            CommandError::TimeLogError(err) => err.message(),
            CommandError::TimeParseError => "error parsing time specification".to_owned(),
            CommandError::InconsistentFilter => "inconsistent filters specified".to_owned(),
        }
    }
}

/// A pair of output channels: one for results, an optional second one for
/// chatter. When no second channel is set, everything goes to the first.
#[derive(Debug, Clone)]
pub struct Outputs<W> {
    pub output: W,
    pub error: Option<W>,
}

impl<W> Outputs<W> {
    /// Bundle an output channel with an optional error channel.
    pub fn new(output: W, error: Option<W>) -> (r: Outputs<W>)
        ensures
            r.output == output,
            r.error == error,
    {
        Outputs { output, error }
    }

    /// The channel for results.
    pub fn output(&self) -> (r: &W)
        ensures
            *r == self.output,
    {
        &self.output
    }

    /// The channel for results, for writing.
    pub fn output_mut(&mut self) -> (r: &mut W)
        ensures
            *r == old(self).output,
            *final(self) == (Outputs { output: *final(r), error: old(self).error }),
    {
        &mut self.output
    }

    /// The channel for chatter: the error channel when one is set, the
    /// output channel otherwise.
    pub fn error(&self) -> (r: &W)
        ensures
            match self.error {
                Some(e) => *r == e,
                None => *r == self.output,
            },
    {
        match &self.error {
            Some(e) => e,
            None => &self.output,
        }
    }

    /// The channel for chatter, for writing.
    pub fn error_mut(&mut self) -> (r: &mut W)
        ensures
            match old(self).error {
                Some(e) => *r == e && *final(self) == (Outputs {
                    output: old(self).output,
                    error: Some(*final(r)),
                }),
                None => *r == old(self).output && *final(self) == (Outputs {
                    output: *final(r),
                    error: None::<W>,
                }),
            },
    {
        match &mut self.error {
            Some(e) => e,
            None => &mut self.output,
        }
    }
}

/// A non-empty sequence of decimal digits.
pub open spec fn is_digits(s: Seq<char>) -> bool {
    s.len() > 0 && forall|i: int| 0 <= i < s.len() ==> '0' <= #[trigger] s[i] <= '9'
}

/// The number a sequence of decimal digits denotes.
pub open spec fn dec_value(s: Seq<char>) -> int
    decreases s.len(),
{
    if s.len() == 0 {
        0
    } else {
        dec_value(s.drop_last()) * 10 + (s.last() as int - '0' as int)
    }
}

/// The groups a string falls into when cut at every colon.
pub open spec fn split_colons(s: Seq<char>) -> Seq<Seq<char>>
    decreases s.len(),
{
    if s.len() == 0 {
        seq![Seq::<char>::empty()]
    } else if s[0] == ':' {
        seq![Seq::<char>::empty()] + split_colons(s.drop_first())
    } else {
        let rest = split_colons(s.drop_first());
        rest.update(0, seq![s[0]] + rest[0])
    }
}

/// The duration in seconds that colon-separated groups denote: hours,
/// hours:minutes, or hours:minutes:seconds, every group a plain decimal
/// number, minutes and seconds below 60, everything within machine range.
pub open spec fn tokens_duration(toks: Seq<Seq<char>>) -> Option<int> {
    if 1 <= toks.len() <= 3 && (forall|i: int|
        0 <= i < toks.len() ==> is_digits(#[trigger] toks[i]) && dec_value(toks[i])
            <= u64::MAX) {
        let h = dec_value(toks[0]);
        let m = if toks.len() >= 2 {
            dec_value(toks[1])
        } else {
            0
        };
        let sec = if toks.len() == 3 {
            dec_value(toks[2])
        } else {
            0
        };
        if m < 60 && sec < 60 && h * 3600 + m * 60 + sec <= u64::MAX {
            Some(h * 3600 + m * 60 + sec)
        } else {
            None
        }
    } else {
        None
    }
}

/// The duration a whole string denotes, if any.
pub open spec fn spec_duration(s: Seq<char>) -> Option<int> {
    tokens_duration(split_colons(s))
}

/// A string without colons is a single group.
proof fn lemma_split_no_colon(s: Seq<char>)
    requires
        forall|j: int| 0 <= j < s.len() ==> #[trigger] s[j] != ':',
    ensures
        split_colons(s) == seq![s],
    decreases s.len(),
{
    if s.len() == 0 {
        assert(split_colons(s) == seq![Seq::<char>::empty()]);
        assert(s =~= Seq::<char>::empty());
    } else {
        let rest = s.drop_first();
        assert(forall|j: int| 0 <= j < rest.len() ==> #[trigger] rest[j] == s[j + 1]);
        lemma_split_no_colon(rest);
        assert(split_colons(s) == seq![rest].update(0, seq![s[0]] + rest));
        assert(seq![s[0]] + rest =~= s);
        assert(seq![rest].update(0, s) =~= seq![s]);
    }
}

/// Cutting at the first colon yields the head group and the groups of the
/// remainder.
proof fn lemma_split_at_first(s: Seq<char>, i: int)
    requires
        0 <= i < s.len(),
        s[i] == ':',
        forall|j: int| 0 <= j < i ==> #[trigger] s[j] != ':',
    ensures
        split_colons(s) == seq![s.take(i)] + split_colons(s.skip(i + 1)),
    decreases i,
{
    if i == 0 {
        assert(split_colons(s) == seq![Seq::<char>::empty()] + split_colons(s.drop_first()));
        assert(s.take(0) =~= Seq::<char>::empty());
        assert(s.drop_first() =~= s.skip(1));
    } else {
        let rest = s.drop_first();
        assert(forall|j: int| 0 <= j < rest.len() ==> #[trigger] rest[j] == s[j + 1]);
        lemma_split_at_first(rest, i - 1);
        assert(split_colons(s) == split_colons(rest).update(0, seq![s[0]] + split_colons(rest)[0]));
        assert(split_colons(rest) == seq![rest.take(i - 1)] + split_colons(rest.skip(i)));
        assert(rest.skip(i) =~= s.skip(i + 1));
        assert(split_colons(rest)[0] == rest.take(i - 1));
        assert(seq![s[0]] + rest.take(i - 1) =~= s.take(i));
        assert((seq![rest.take(i - 1)] + split_colons(rest.skip(i))).update(0, s.take(i)) =~= seq![
            s.take(i),
        ] + split_colons(s.skip(i + 1)));
    }
}

/// Every string falls into at least one group.
proof fn lemma_split_len(s: Seq<char>)
    ensures
        split_colons(s).len() >= 1,
    decreases s.len(),
{
    if s.len() > 0 {
        lemma_split_len(s.drop_first());
    }
}

/// For a digit string, the denoted value grows with the prefix length.
proof fn lemma_dec_prefix(s: Seq<char>, i: int)
    requires
        0 <= i <= s.len(),
        is_digits(s) || s.len() == 0,
    ensures
        0 <= dec_value(s.take(i)) <= dec_value(s),
    decreases s.len() - i,
{
    if i == s.len() {
        assert(s.take(i) =~= s);
        assert(dec_value(s.take(i)) >= 0) by {
            lemma_dec_nonneg(s);
        }
    } else {
        lemma_dec_prefix(s, i + 1);
        assert(s.take(i + 1).drop_last() =~= s.take(i));
        assert(s.take(i + 1).last() == s[i]);
        assert(dec_value(s.take(i)) >= 0) by {
            assert(forall|j: int| 0 <= j < i ==> '0' <= #[trigger] s.take(i)[j] <= '9');
            lemma_dec_nonneg(s.take(i));
        }
        assert(dec_value(s.take(i + 1)) == dec_value(s.take(i)) * 10 + (s[i] as int
            - '0' as int));
        assert(dec_value(s.take(i)) <= dec_value(s.take(i)) * 10) by (nonlinear_arith)
            requires dec_value(s.take(i)) >= 0;
    }
}

/// A digit string denotes a non-negative number.
proof fn lemma_dec_nonneg(s: Seq<char>)
    requires
        forall|i: int| 0 <= i < s.len() ==> '0' <= #[trigger] s[i] <= '9',
    ensures
        dec_value(s) >= 0,
    decreases s.len(),
{
    if s.len() > 0 {
        assert(forall|i: int|
            0 <= i < s.len() - 1 ==> '0' <= #[trigger] s.drop_last()[i] <= '9');
        lemma_dec_nonneg(s.drop_last());
        assert(dec_value(s.drop_last()) * 10 >= 0) by (nonlinear_arith)
            requires dec_value(s.drop_last()) >= 0;
    }
}

/// Parse a non-empty decimal digit string into a number.
fn parse_u64(tok: &str) -> (r: Option<u64>)
    ensures
        match r {
            Some(v) => is_digits(tok@) && v == dec_value(tok@),
            None => !(is_digits(tok@) && dec_value(tok@) <= u64::MAX),
        },
{
    let n = tok.unicode_len();
    if n == 0 {
        return None;
    }
    let mut acc: u64 = 0;
    let mut i: usize = 0;
    while i < n
        invariant
            n == tok@.len(),
            0 < n,
            i <= n,
            forall|j: int| 0 <= j < i ==> '0' <= #[trigger] tok@[j] <= '9',
            acc == dec_value(tok@.take(i as int)),
        decreases n - i,
    {
        let c = tok.get_char(i);
        if c < '0' || c > '9' {
            proof {
                assert(!is_digits(tok@)) by {
                    if is_digits(tok@) {
                        assert('0' <= tok@[i as int] <= '9');
                    }
                }
            }
            return None;
        }
        let d = (c as u32 - 48) as u64;
        proof {
            assert(c as int - '0' as int == d) by {
                assert('0' as int == 48);
            }
        }
        if acc > (u64::MAX - d) / 10 {
            proof {
                assert(tok@.take(i + 1 as int).drop_last() =~= tok@.take(i as int));
                assert(tok@.take(i + 1 as int).last() == tok@[i as int]);
                assert(dec_value(tok@.take(i + 1 as int)) == acc * 10 + d);
                assert(acc * 10 + d > u64::MAX) by (nonlinear_arith)
                    requires
                        acc > (u64::MAX - d) / 10,
                        d <= u64::MAX,
                ;
                assert(!(is_digits(tok@) && dec_value(tok@) <= u64::MAX)) by {
                    if is_digits(tok@) {
                        lemma_dec_prefix(tok@, i + 1);
                    }
                }
            }
            return None;
        }
        proof {
            assert(acc * 10 + d <= u64::MAX) by (nonlinear_arith)
                requires
                    acc <= (u64::MAX - d) / 10,
                    d <= u64::MAX,
            ;
            assert(tok@.take(i + 1 as int).drop_last() =~= tok@.take(i as int));
            assert(tok@.take(i + 1 as int).last() == tok@[i as int]);
        }
        acc = acc * 10 + d;
        i += 1;
    }
    proof {
        assert(tok@.take(n as int) =~= tok@);
    }
    Some(acc)
}

/// Find the first colon at or after `from`, if any.
fn find_colon(s: &str, from: usize) -> (r: Option<usize>)
    requires
        from <= s@.len(),
    ensures
        match r {
            Some(i) => from <= i < s@.len() && s@[i as int] == ':' && forall|j: int|
                from <= j < i ==> #[trigger] s@[j] != ':',
            None => forall|j: int| from <= j < s@.len() ==> #[trigger] s@[j] != ':',
        },
{
    let n = s.unicode_len();
    let mut i: usize = from;
    while i < n
        invariant
            n == s@.len(),
            from <= i <= n,
            forall|j: int| from <= j < i ==> #[trigger] s@[j] != ':',
        decreases n - i,
    {
        if s.get_char(i) == ':' {
            return Some(i);
        }
        i += 1;
    }
    None
}

/// Parse a duration given as hours, hours:minutes, or
/// hours:minutes:seconds into whole seconds.
pub fn duration_from_str(s: &str) -> (r: Result<u64, CommandError>)
    ensures
        match r {
            Ok(d) => spec_duration(s@) == Some(d as int),
            Err(e) => e is TimeParseError && spec_duration(s@) is None,
        },
{
    let n = s.unicode_len();
    match find_colon(s, 0) {
        None => {
            proof {
                lemma_split_no_colon(s@);
            }
            match parse_u64(s) {
                None => Err(CommandError::TimeParseError),
                Some(h) => {
                    if h > u64::MAX / 3600 {
                        proof {
                            assert(h * 3600 > u64::MAX) by (nonlinear_arith)
                                requires h > u64::MAX / 3600;
                        }
                        Err(CommandError::TimeParseError)
                    } else {
                        proof {
                            assert(h * 3600 <= u64::MAX) by (nonlinear_arith)
                                requires h <= u64::MAX / 3600;
                        }
                        Ok(h * 3600)
                    }
                },
            }
        },
        Some(c1) => {
            proof {
                lemma_split_at_first(s@, c1 as int);
            }
            let t0 = s.substring_char(0, c1);
            proof {
                assert(t0@ =~= s@.take(c1 as int));
            }
            match find_colon(s, c1 + 1) {
                None => {
                    // hours:minutes
                    let t1 = s.substring_char(c1 + 1, n);
                    proof {
                        assert(t1@ =~= s@.skip(c1 + 1));
                        assert(forall|j: int|
                            0 <= j < t1@.len() ==> #[trigger] t1@[j] == s@[j + c1 + 1]);
                        lemma_split_no_colon(t1@);
                        assert(split_colons(s@) =~= seq![t0@, t1@]);
                    }
                    let h = match parse_u64(t0) {
                        Some(h) => h,
                        None => {
                            return Err(CommandError::TimeParseError);
                        },
                    };
                    let m = match parse_u64(t1) {
                        Some(m) => m,
                        None => {
                            return Err(CommandError::TimeParseError);
                        },
                    };
                    if m >= 60 {
                        return Err(CommandError::TimeParseError);
                    }
                    if h > u64::MAX / 3600 {
                        proof {
                            assert(h * 3600 > u64::MAX) by (nonlinear_arith)
                                requires h > u64::MAX / 3600;
                        }
                        return Err(CommandError::TimeParseError);
                    }
                    proof {
                        assert(h * 3600 <= u64::MAX) by (nonlinear_arith)
                            requires h <= u64::MAX / 3600;
                    }
                    let hs = h * 3600;
                    if m * 60 > u64::MAX - hs {
                        return Err(CommandError::TimeParseError);
                    }
                    Ok(hs + m * 60)
                },
                Some(c2) => {
                    // hours:minutes:seconds, or too many groups
                    match find_colon(s, c2 + 1) {
                        Some(c3) => {
                            proof {
                                let rest1 = s@.skip(c1 + 1);
                                assert(forall|j: int|
                                    0 <= j < rest1.len() ==> #[trigger] rest1[j] == s@[j + c1
                                        + 1]);
                                assert(rest1[c2 - c1 - 1] == ':');
                                assert(forall|j: int|
                                    0 <= j < c2 - c1 - 1 ==> #[trigger] rest1[j] != ':');
                                lemma_split_at_first(rest1, c2 - c1 - 1);
                                let rest2 = rest1.skip(c2 - c1);
                                assert(rest2 =~= s@.skip(c2 + 1));
                                assert(forall|j: int|
                                    0 <= j < rest2.len() ==> #[trigger] rest2[j] == s@[j + c2
                                        + 1]);
                                assert(rest2[c3 - c2 - 1] == ':');
                                lemma_split_at_first(rest2, c3 - c2 - 1);
                                lemma_split_len(rest2.skip(c3 - c2));
                                assert(split_colons(s@).len() >= 4);
                            }
                            Err(CommandError::TimeParseError)
                        },
                        None => {
                            let t1 = s.substring_char(c1 + 1, c2);
                            let t2 = s.substring_char(c2 + 1, n);
                            proof {
                                let rest1 = s@.skip(c1 + 1);
                                assert(forall|j: int|
                                    0 <= j < rest1.len() ==> #[trigger] rest1[j] == s@[j + c1
                                        + 1]);
                                assert(rest1[c2 - c1 - 1] == ':');
                                assert(forall|j: int|
                                    0 <= j < c2 - c1 - 1 ==> #[trigger] rest1[j] != ':');
                                lemma_split_at_first(rest1, c2 - c1 - 1);
                                let rest2 = rest1.skip(c2 - c1);
                                assert(rest2 =~= s@.skip(c2 + 1));
                                assert(forall|j: int|
                                    0 <= j < rest2.len() ==> #[trigger] rest2[j] == s@[j + c2
                                        + 1]);
                                lemma_split_no_colon(rest2);
                                assert(t1@ =~= rest1.take(c2 - c1 - 1));
                                assert(t2@ =~= rest2);
                                assert(split_colons(s@) =~= seq![t0@, t1@, t2@]);
                            }
                            let h = match parse_u64(t0) {
                                Some(h) => h,
                                None => {
                                    return Err(CommandError::TimeParseError);
                                },
                            };
                            let m = match parse_u64(t1) {
                                Some(m) => m,
                                None => {
                                    return Err(CommandError::TimeParseError);
                                },
                            };
                            let sec = match parse_u64(t2) {
                                Some(v) => v,
                                None => {
                                    return Err(CommandError::TimeParseError);
                                },
                            };
                            if m >= 60 || sec >= 60 {
                                return Err(CommandError::TimeParseError);
                            }
                            if h > u64::MAX / 3600 {
                                proof {
                                    assert(h * 3600 > u64::MAX) by (nonlinear_arith)
                                        requires h > u64::MAX / 3600;
                                }
                                return Err(CommandError::TimeParseError);
                            }
                            proof {
                                assert(h * 3600 <= u64::MAX) by (nonlinear_arith)
                                    requires h <= u64::MAX / 3600;
                            }
                            let hs = h * 3600;
                            if m * 60 > u64::MAX - hs {
                                return Err(CommandError::TimeParseError);
                            }
                            let hm = hs + m * 60;
                            if sec > u64::MAX - hm {
                                return Err(CommandError::TimeParseError);
                            }
                            Ok(hm + sec)
                        },
                    }
                },
            }
        },
    }
}

/// Filter criteria for selecting logged intervals: optional time bounds, a
/// today flag, mutually exclusive open/closed flags, and a tag list.
#[derive(Debug)]
pub struct TagsInRange {
    /// Select only intervals that started before this time.
    pub before: Option<u64>,
    /// Select only intervals that ended after this time (or are open).
    pub after: Option<u64>,
    /// Select only intervals of today: started before tomorrow, and ended
    /// after the most recent midnight (or open).
    pub today: bool,
    /// Select only open intervals. Mutually exclusive with `closed_only`.
    pub open_only: bool,
    /// Select only closed intervals. Mutually exclusive with `open_only`.
    pub closed_only: bool,
    /// Select only intervals with these tags. If none are given, select
    /// intervals with any tag.
    pub tags: Vec<String>,
}

impl TagsInRange {
    /// The effective upper bound on start times, combining `before` and
    /// `today` (`today_start` is the most recent midnight).
    pub open spec fn before_limit(&self, today_start: u64) -> Option<int> {
        let tomorrow = today_start + 86400;
        match self.before {
            Some(b) => if self.today && tomorrow < b {
                Some(tomorrow)
            } else {
                Some(b as int)
            },
            None => if self.today {
                Some(tomorrow)
            } else {
                None
            },
        }
    }

    /// The effective lower bound on end times, combining `after` and
    /// `today`.
    pub open spec fn after_limit(&self, today_start: u64) -> Option<int> {
        match self.after {
            Some(a) => if self.today && a < today_start {
                Some(today_start as int)
            } else {
                Some(a as int)
            },
            None => if self.today {
                Some(today_start as int)
            } else {
                None
            },
        }
    }

    /// Whether the criteria select the given tagged interval, against the
    /// given registry.
    pub open spec fn spec_selects(
        &self,
        names: Seq<Seq<char>>,
        today_start: u64,
        ti: TaggedInterval,
    ) -> bool {
        &&& (self.tags@.len() == 0 || exists|k: int|
            0 <= k < self.tags@.len() && spec_tag_id(names, #[trigger] self.tags@[k]@) == Some(
                ti.tag,
            ))
        &&& match self.before_limit(today_start) {
            Some(t) => ti.interval.start <= t,
            None => true,
        }
        &&& match self.after_limit(today_start) {
            Some(t) => ti.interval.duration is None || ti.interval.spec_end() > t,
            None => true,
        }
        &&& (self.open_only ==> ti.interval.duration is None)
        &&& (self.closed_only ==> ti.interval.duration is Some)
    }

    /// Build the filter these criteria describe, resolving tag names
    /// through the given timelog's registry. `today_start` is the most
    /// recent midnight.
    ///
    /// Fails when both the only-open and the only-closed flag are set.
    pub fn filter(&self, timelog: &TimeLog, today_start: u64) -> (r: Result<
        Filter,
        CommandError,
    >)
        requires
            timelog.wf(),
            today_start + 86400 <= u64::MAX,
        ensures
            (r is Err) == (self.open_only && self.closed_only),
            match r {
                Err(e) => e is InconsistentFilter,
                Ok(f) => f.wf() && forall|ti: TaggedInterval, now: u64|
                    #[trigger] spec_eval(f@, ti, now) == self.spec_selects(
                        timelog.names(),
                        today_start,
                        ti,
                    ),
            },
    {
        if self.open_only && self.closed_only {
            return Err(CommandError::InconsistentFilter);
        }
        let ghost names = timelog.names();
        // Tag criteria: any of the named tags, or everything when no tag
        // is named. Unknown names never match.
        let tags_filter = if self.tags.len() == 0 {
            filter_true()
        } else {
            let m = self.tags.len();
            let mut acc = filter_false();
            let mut k: usize = 0;
            while k < m
                invariant
                    timelog.wf(),
                    names == timelog.names(),
                    m == self.tags@.len(),
                    k <= m,
                    acc.wf(),
                    forall|ti: TaggedInterval, now: u64| #[trigger] spec_eval(acc@, ti, now)
                        == exists|j: int|
                        0 <= j < k && spec_tag_id(names, #[trigger] self.tags@[j]@) == Some(
                            ti.tag,
                        ),
                decreases m - k,
            {
                let ghost acc0 = acc@;
                match timelog.tag_id(&self.tags[k]) {
                    Some(tid) => {
                        acc = acc.or(has_tag(tid));
                        proof {
                            assert forall|ti: TaggedInterval, now: u64|
                                #[trigger] spec_eval(acc@, ti, now) == exists|j: int|
                                    0 <= j < k + 1 && spec_tag_id(
                                        names,
                                        #[trigger] self.tags@[j]@,
                                    ) == Some(ti.tag) by {
                                if spec_eval(acc@, ti, now) {
                                    if spec_eval(acc0, ti, now) {
                                    } else {
                                        assert(spec_tag_id(names, self.tags@[k as int]@) == Some(
                                            ti.tag,
                                        ));
                                    }
                                } else {
                                    assert forall|j: int|
                                        0 <= j < k + 1 implies spec_tag_id(
                                        names,
                                        #[trigger] self.tags@[j]@,
                                    ) != Some(ti.tag) by {}
                                }
                            }
                        }
                    },
                    None => {
                        proof {
                            assert forall|ti: TaggedInterval, now: u64|
                                #[trigger] spec_eval(acc@, ti, now) == exists|j: int|
                                    0 <= j < k + 1 && spec_tag_id(
                                        names,
                                        #[trigger] self.tags@[j]@,
                                    ) == Some(ti.tag) by {
                                if spec_eval(acc@, ti, now) {
                                } else {
                                    assert forall|j: int|
                                        0 <= j < k + 1 implies spec_tag_id(
                                        names,
                                        #[trigger] self.tags@[j]@,
                                    ) != Some(ti.tag) by {}
                                }
                            }
                        }
                    },
                }
                k += 1;
            }
            acc
        };
        let ghost tv = tags_filter@;
        // Time bounds.
        let tomorrow = today_start + 86400;
        let before_filter = match self.before {
            Some(b) => {
                if self.today && tomorrow < b {
                    started_before(tomorrow)
                } else {
                    started_before(b)
                }
            },
            None => {
                if self.today {
                    started_before(tomorrow)
                } else {
                    filter_true()
                }
            },
        };
        let ghost bv = before_filter@;
        let after_filter = match self.after {
            Some(a) => {
                let t = if self.today && a < today_start {
                    today_start
                } else {
                    a
                };
                is_open().or(ended_after(t))
            },
            None => {
                if self.today {
                    is_open().or(ended_after(today_start))
                } else {
                    filter_true()
                }
            },
        };
        let ghost av = after_filter@;
        let oc_filter = if self.open_only {
            is_open()
        } else if self.closed_only {
            is_closed()
        } else {
            filter_true()
        };
        let ghost ov = oc_filter@;
        let res = tags_filter.and(before_filter).and(after_filter).and(oc_filter);
        proof {
            assert forall|ti: TaggedInterval, now: u64| #[trigger] spec_eval(res@, ti, now)
                == self.spec_selects(names, today_start, ti) by {
                assert(spec_eval(res@, ti, now) == (((spec_eval(tv, ti, now) && spec_eval(
                    bv,
                    ti,
                    now,
                )) && spec_eval(av, ti, now)) && spec_eval(ov, ti, now)));
            }
        }
        Ok(res)
    }
}

/// The total duration at instant `now` of the intervals in the sequence
/// that pass the filter.
pub open spec fn spec_total(ints: Seq<TaggedInterval>, nodes: Seq<FilterNode>, now: u64) -> int
    decreases ints.len(),
{
    if ints.len() == 0 {
        0
    } else {
        spec_total(ints.drop_last(), nodes, now) + if spec_eval(nodes, ints.last(), now) {
            spec_duration_at(ints.last().interval, now)
        } else {
            0
        }
    }
}

/// The total never falls below zero.
proof fn lemma_total_nonneg(ints: Seq<TaggedInterval>, nodes: Seq<FilterNode>, now: u64)
    ensures
        spec_total(ints, nodes, now) >= 0,
    decreases ints.len(),
{
    if ints.len() > 0 {
        lemma_total_nonneg(ints.drop_last(), nodes, now);
    }
}

/// Sum the durations, at instant `now`, of the timelog's intervals that
/// pass the filter, saturating at the largest machine value.
pub fn aggregate_total(timelog: &TimeLog, f: &Filter, now: u64) -> (r: u64)
    requires
        timelog.wf(),
        now <= MAX_TIME,
    ensures
        r == if spec_total(timelog.ints(), f@, now) > u64::MAX {
            u64::MAX as int
        } else {
            spec_total(timelog.ints(), f@, now)
        },
{
    let ints = timelog.intervals();
    let n = ints.len();
    let mut acc: u64 = 0;
    let mut i: usize = 0;
    proof {
        assert(timelog.ints().take(0) =~= Seq::<TaggedInterval>::empty());
    }
    while i < n
        invariant
            timelog.wf(),
            now <= MAX_TIME,
            ints@ == timelog.ints(),
            n == ints@.len(),
            i <= n,
            acc == if spec_total(timelog.ints().take(i as int), f@, now) > u64::MAX {
                u64::MAX as int
            } else {
                spec_total(timelog.ints().take(i as int), f@, now)
            },
        decreases n - i,
    {
        let ti = ints[i];
        let d = if f.eval(&ti, now) {
            ti.interval.duration_at(now)
        } else {
            0
        };
        proof {
            let t1 = timelog.ints().take(i + 1 as int);
            assert(t1.drop_last() =~= timelog.ints().take(i as int));
            assert(t1.last() == ti);
            lemma_total_nonneg(timelog.ints().take(i as int), f@, now);
        }
        acc = acc.saturating_add(d);
        i += 1;
    }
    proof {
        assert(timelog.ints().take(n as int) =~= timelog.ints());
    }
    acc
}

/// Does any interval of the timelog pass the filter at instant `now`?
pub fn any_interval_matches(timelog: &TimeLog, f: &Filter, now: u64) -> (r: bool)
    requires
        timelog.wf(),
        now <= MAX_TIME,
    ensures
        r == exists|k: int|
            0 <= k < timelog.ints().len() && spec_eval(f@, #[trigger] timelog.ints()[k], now),
{
    let ints = timelog.intervals();
    let n = ints.len();
    let mut i: usize = 0;
    while i < n
        invariant
            timelog.wf(),
            now <= MAX_TIME,
            ints@ == timelog.ints(),
            n == ints@.len(),
            i <= n,
            forall|k: int| 0 <= k < i ==> !spec_eval(f@, #[trigger] timelog.ints()[k], now),
        decreases n - i,
    {
        let ti = ints[i];
        if f.eval(&ti, now) {
            proof {
                assert(spec_eval(f@, timelog.ints()[i as int], now));
            }
            return true;
        }
        i += 1;
    }
    false
}

} // verus!
