//! Tests for the filter engine: construction, evaluation, constant folding
//! and the algebraic laws.

use timelog::filter::{
    and_all, ended_after, ended_before, ended_before_strict, filter_false, filter_true, has_tag,
    is_closed, is_open, longer_than, longer_than_strict, or_all, shorter_than,
    shorter_than_strict, started_after, started_after_strict, started_before,
    started_before_strict, ConstFilter, Filter,
};
use timelog::interval::{Interval, TaggedInterval};

const NOW: u64 = 50_000;

fn closed_ti(tag: u32, start: u64, duration: u64) -> TaggedInterval {
    TaggedInterval::new(tag, Interval::closed(start, duration))
}

fn open_ti(tag: u32, start: u64) -> TaggedInterval {
    TaggedInterval::new(tag, Interval::open(start))
}

#[test]
fn or_all_empty_matches_nothing() {
    let f = or_all(Vec::new());
    assert!(!f.eval(&closed_ti(0, 100, 200), NOW));
    assert!(!f.eval(&open_ti(3, 500), NOW));
    assert_eq!(f.eval_const(), ConstFilter::False);
}

#[test]
fn and_all_empty_matches_everything() {
    let f = and_all(Vec::new());
    assert!(f.eval(&closed_ti(0, 100, 200), NOW));
    assert!(f.eval(&open_ti(3, 500), NOW));
    assert_eq!(f.eval_const(), ConstFilter::True);
}

#[test]
fn or_all_picks_any_match() {
    let f = or_all(vec![has_tag(1), has_tag(4)]);
    assert!(f.eval(&open_ti(1, 0), NOW));
    assert!(f.eval(&open_ti(4, 0), NOW));
    assert!(!f.eval(&open_ti(2, 0), NOW));
}

#[test]
fn and_all_needs_every_match() {
    let f = and_all(vec![has_tag(1), is_closed()]);
    assert!(f.eval(&closed_ti(1, 0, 10), NOW));
    assert!(!f.eval(&open_ti(1, 0), NOW));
    assert!(!f.eval(&closed_ti(2, 0, 10), NOW));
}

#[test]
fn and_matches_conjunction() {
    let samples = [
        closed_ti(1, 100, 200),
        closed_ti(2, 100, 200),
        open_ti(1, 300),
        open_ti(7, 40_000),
    ];
    for ti in samples.iter() {
        let lhs = has_tag(1).and(is_closed()).eval(ti, NOW);
        let rhs = has_tag(1).eval(ti, NOW) && is_closed().eval(ti, NOW);
        assert_eq!(lhs, rhs);
    }
}

#[test]
fn or_matches_disjunction() {
    let samples = [
        closed_ti(1, 100, 200),
        closed_ti(2, 100, 200),
        open_ti(1, 300),
        open_ti(7, 40_000),
    ];
    for ti in samples.iter() {
        let lhs = has_tag(1).or(is_closed()).eval(ti, NOW);
        let rhs = has_tag(1).eval(ti, NOW) || is_closed().eval(ti, NOW);
        assert_eq!(lhs, rhs);
    }
}

#[test]
fn inverted_matches_negation() {
    let samples = [closed_ti(1, 100, 200), open_ti(1, 300), open_ti(2, 0)];
    for ti in samples.iter() {
        let lhs = has_tag(1).inverted().eval(ti, NOW);
        let rhs = !has_tag(1).eval(ti, NOW);
        assert_eq!(lhs, rhs);
    }
}

#[test]
fn constant_folding_identities() {
    // X AND True = X, X AND False = False, X OR True = True, X OR False = X.
    let x = has_tag(3);
    assert_eq!(x.and(filter_true()), has_tag(3));
    assert_eq!(filter_true().and(has_tag(3)), has_tag(3));
    assert_eq!(has_tag(3).and(filter_false()), filter_false());
    assert!(has_tag(3).and(filter_false()).evals_false());
    assert_eq!(has_tag(3).or(filter_true()), filter_true());
    assert!(has_tag(3).or(filter_true()).evals_true());
    assert_eq!(has_tag(3).or(filter_false()), has_tag(3));
    assert_eq!(filter_false().or(has_tag(3)), has_tag(3));
}

#[test]
fn inverted_constants_swap() {
    assert!(filter_true().inverted().evals_false());
    assert!(filter_false().inverted().evals_true());
}

#[test]
fn eval_const_sound_on_samples() {
    // A filter that folds to a constant evaluates to it on every sample.
    let samples = [closed_ti(1, 100, 200), open_ti(5, 300)];
    let t = filter_true().and(filter_true()).or(filter_false());
    assert_eq!(t.eval_const(), ConstFilter::True);
    for ti in samples.iter() {
        assert!(t.eval(ti, NOW));
    }
    let f = filter_false().or(filter_false());
    assert_eq!(f.eval_const(), ConstFilter::False);
    for ti in samples.iter() {
        assert!(!f.eval(ti, NOW));
    }
    let n = has_tag(1).or(has_tag(2));
    assert_eq!(n.eval_const(), ConstFilter::NonConst);
    assert!(n.evals_nonconst());
    assert!(!n.evals_true());
    assert!(!n.evals_false());
}

#[test]
fn terminals_read_the_interval() {
    let ti = closed_ti(2, 1000, 500);  // ends at 1500
    assert!(has_tag(2).eval(&ti, NOW));
    assert!(!has_tag(3).eval(&ti, NOW));
    assert!(is_closed().eval(&ti, NOW));
    assert!(!is_open().eval(&ti, NOW));
    assert!(started_before(1000).eval(&ti, NOW));
    assert!(!started_before_strict(1000).eval(&ti, NOW));
    assert!(ended_before(1500).eval(&ti, NOW));
    assert!(!ended_before_strict(1500).eval(&ti, NOW));
    assert!(shorter_than(500).eval(&ti, NOW));
    assert!(!shorter_than_strict(500).eval(&ti, NOW));
}

#[test]
fn boundary_at_exact_end_time() {
    // An interval closed exactly at time t: the strict end test fails, the
    // non-strict one passes.
    let t: u64 = 2000;
    let ti = closed_ti(0, 1500, 500);
    assert!(!ended_before_strict(t).eval(&ti, NOW));
    assert!(ended_before(t).eval(&ti, NOW));
}

#[test]
fn boundary_at_exact_start_time() {
    // An interval started exactly at time t: the strict start test fails,
    // the non-strict one passes.
    let t: u64 = 1500;
    let ti = open_ti(0, 1500);
    assert!(!started_before_strict(t).eval(&ti, NOW));
    assert!(started_before(t).eval(&ti, NOW));
}

#[test]
fn after_combinators_at_boundary() {
    // ended_after passes only strictly past t; ended_after_strict also
    // passes at exactly t; both reject open intervals.
    let t: u64 = 1500;
    let exactly = closed_ti(0, 1000, 500);
    let past = closed_ti(0, 1000, 501);
    let open = open_ti(0, 1000);
    assert!(!ended_after(t).eval(&exactly, NOW));
    assert!(ended_after(t).eval(&past, NOW));
    assert!(!ended_after(t).eval(&open, NOW));
    assert!(timelog::filter::ended_after_strict(t).eval(&exactly, NOW));
    assert!(!timelog::filter::ended_after_strict(t).eval(&open, NOW));
}

#[test]
fn started_after_combinators() {
    let t: u64 = 1500;
    assert!(started_after(t).eval(&open_ti(0, 1500), NOW));
    assert!(!started_after(t).eval(&open_ti(0, 1499), NOW));
    assert!(!started_after_strict(t).eval(&open_ti(0, 1500), NOW));
    assert!(started_after_strict(t).eval(&open_ti(0, 1501), NOW));
}

#[test]
fn duration_combinators() {
    let ti = closed_ti(0, 0, 600);
    assert!(!longer_than(600).eval(&ti, NOW));
    assert!(longer_than(599).eval(&ti, NOW));
    assert!(longer_than_strict(600).eval(&ti, NOW));
    assert!(!longer_than_strict(601).eval(&ti, NOW));
}

#[test]
fn open_interval_duration_depends_on_now() {
    // An open interval's duration runs to the quarter-hour ceiling of now.
    let ti = open_ti(0, 36_000);
    // now = 36_720 ceils to 36_900: elapsed 900 seconds.
    assert!(shorter_than(900).eval(&ti, 36_720));
    assert!(!shorter_than_strict(900).eval(&ti, 36_720));
    assert!(!shorter_than(899).eval(&ti, 36_720));
}

#[test]
fn filter_equality_is_structural() {
    assert_eq!(filter_true(), filter_true());
    assert_eq!(has_tag(7), has_tag(7));
    assert!(has_tag(7) != has_tag(8));
    assert!(filter_true() != filter_false());
    let a: Filter = has_tag(1).and(is_closed());
    let b: Filter = has_tag(1).and(is_closed());
    assert_eq!(a, b);
}

#[test]
fn double_negation_is_not_collapsed() {
    // Only literal True/False negations simplify; negating a non-constant
    // filter twice grows the expression, though it evaluates the same.
    let twice = has_tag(1).inverted().inverted();
    assert!(twice != has_tag(1));
    let samples = [closed_ti(1, 100, 200), open_ti(2, 300)];
    for ti in samples.iter() {
        assert_eq!(twice.eval(ti, NOW), has_tag(1).eval(ti, NOW));
    }
}
