//! Tests for the command-layer computations: duration parsing, criteria
//! filters, aggregation.

use timelog::commands::{
    aggregate_total, any_interval_matches, duration_from_str, ChangeStatus, CommandError,
    TagsInRange,
};
use timelog::filter::filter_true;
use timelog::timelog::TimeLog;

const DAY: u64 = 86_400;

fn no_criteria() -> TagsInRange {
    TagsInRange {
        before: None,
        after: None,
        today: false,
        open_only: false,
        closed_only: false,
        tags: Vec::new(),
    }
}

fn sample_log() -> TimeLog {
    let mut log = TimeLog::new();
    log.open_at("work", DAY + 36_420).unwrap();
    log.close_at("work", DAY + 36_720).unwrap();  // day 2, 10:00 - 10:15
    log.open_at("mail", DAY + 41_460).unwrap();
    log.close_at("mail", DAY + 43_500).unwrap();  // day 2, 11:30 - 12:15
    log.open_at("play", DAY + 45_060).unwrap();  // day 2, open since 12:30
    log
}

#[test]
fn change_status_reports_changes() {
    assert!(ChangeStatus::Changed.is_changed());
    assert!(!ChangeStatus::Unchanged.is_changed());
}

#[test]
fn duration_hours_only() {
    assert_eq!(duration_from_str("2"), Ok(7_200));
    assert_eq!(duration_from_str("0"), Ok(0));
}

#[test]
fn duration_hours_and_minutes() {
    assert_eq!(duration_from_str("1:30"), Ok(5_400));
    assert_eq!(duration_from_str("0:05"), Ok(300));
}

#[test]
fn duration_hours_minutes_seconds() {
    assert_eq!(duration_from_str("1:02:03"), Ok(3_723));
    assert_eq!(duration_from_str("0:0:59"), Ok(59));
}

#[test]
fn duration_rejects_bad_strings() {
    assert_eq!(duration_from_str(""), Err(CommandError::TimeParseError));
    assert_eq!(duration_from_str("abc"), Err(CommandError::TimeParseError));
    assert_eq!(duration_from_str(":30"), Err(CommandError::TimeParseError));
    assert_eq!(duration_from_str("1:"), Err(CommandError::TimeParseError));
    assert_eq!(duration_from_str("1:2:3:4"), Err(CommandError::TimeParseError));
    assert_eq!(duration_from_str("1:60"), Err(CommandError::TimeParseError));
    assert_eq!(duration_from_str("1:00:60"), Err(CommandError::TimeParseError));
    assert_eq!(duration_from_str("1:-2"), Err(CommandError::TimeParseError));
    assert_eq!(
        duration_from_str("99999999999999999999"),
        Err(CommandError::TimeParseError)
    );
}

#[test]
fn empty_criteria_build_the_trivial_filter() {
    // A purge with no criteria must be detectable as "everything": the
    // built filter is exactly the always-true filter.
    let log = sample_log();
    let f = no_criteria().filter(&log, DAY).unwrap();
    assert_eq!(f, filter_true());
    assert!(f.evals_true());
}

#[test]
fn partial_criteria_are_not_the_trivial_filter() {
    let log = sample_log();
    let mut q = no_criteria();
    q.tags = vec!["work".to_owned()];
    let f = q.filter(&log, DAY).unwrap();
    assert!(f != filter_true());
    assert!(!f.evals_true());
}

#[test]
fn contradictory_flags_are_rejected() {
    let log = sample_log();
    let mut q = no_criteria();
    q.open_only = true;
    q.closed_only = true;
    assert_eq!(q.filter(&log, DAY), Err(CommandError::InconsistentFilter));
}

#[test]
fn tag_criteria_select_named_tags() {
    let log = sample_log();
    let now = DAY + 50_000;
    let mut q = no_criteria();
    q.tags = vec!["work".to_owned(), "play".to_owned()];
    let f = q.filter(&log, DAY).unwrap();
    let selected: Vec<u32> = log
        .intervals()
        .iter()
        .filter(|ti| f.eval(ti, now))
        .map(|ti| ti.tag())
        .collect();
    assert_eq!(
        selected,
        vec![log.tag_id("work").unwrap(), log.tag_id("play").unwrap()]
    );
}

#[test]
fn unknown_tag_names_never_match() {
    let log = sample_log();
    let mut q = no_criteria();
    q.tags = vec!["nothing".to_owned()];
    let f = q.filter(&log, DAY).unwrap();
    let now = DAY + 50_000;
    assert!(log.intervals().iter().all(|ti| !f.eval(ti, now)));
}

#[test]
fn open_only_and_closed_only_split_the_log() {
    let log = sample_log();
    let now = DAY + 50_000;
    let mut q = no_criteria();
    q.open_only = true;
    let f = q.filter(&log, DAY).unwrap();
    let open_count = log.intervals().iter().filter(|ti| f.eval(ti, now)).count();
    assert_eq!(open_count, 1);
    let mut q = no_criteria();
    q.closed_only = true;
    let f = q.filter(&log, DAY).unwrap();
    let closed_count = log.intervals().iter().filter(|ti| f.eval(ti, now)).count();
    assert_eq!(closed_count, 2);
}

#[test]
fn before_bound_compares_start_times() {
    let log = sample_log();
    let now = DAY + 50_000;
    let mut q = no_criteria();
    // Only the "work" session started at or before day 2, 10:00.
    q.before = Some(DAY + 36_000);
    let f = q.filter(&log, DAY).unwrap();
    let n = log.intervals().iter().filter(|ti| f.eval(ti, now)).count();
    assert_eq!(n, 1);
}

#[test]
fn after_bound_keeps_open_and_late_intervals() {
    let log = sample_log();
    let now = DAY + 50_000;
    let mut q = no_criteria();
    // "work" ends exactly at day 2, 10:15: ending strictly after is asked.
    q.after = Some(DAY + 36_900);
    let f = q.filter(&log, DAY).unwrap();
    let n = log.intervals().iter().filter(|ti| f.eval(ti, now)).count();
    assert_eq!(n, 2);  // "mail" (ends later) and the open "play"
}

#[test]
fn today_keeps_sessions_ending_past_midnight() {
    let mut log = TimeLog::new();
    log.open_at("old", 36_420).unwrap();
    log.close_at("old", 36_720).unwrap();  // day 1
    log.open_at("work", DAY + 36_420).unwrap();
    log.close_at("work", DAY + 36_720).unwrap();  // day 2
    let mut q = no_criteria();
    q.today = true;
    let f = q.filter(&log, DAY).unwrap();  // today starts at day 2 midnight
    let now = DAY + 50_000;
    let selected: Vec<u32> = log
        .intervals()
        .iter()
        .filter(|ti| f.eval(ti, now))
        .map(|ti| ti.tag())
        .collect();
    assert_eq!(selected, vec![log.tag_id("work").unwrap()]);
}

#[test]
fn aggregate_sums_matching_durations() {
    let log = sample_log();
    let now = DAY + 45_960;  // day 2, 12:46, ceils to 13:00
    let total = aggregate_total(&log, &filter_true(), now);
    // work: 900, mail: 2700 (11:30 - 12:15), play: open 12:30 to 13:00.
    assert_eq!(total, 900 + 2_700 + 1_800);
}

#[test]
fn aggregate_with_tag_filter() {
    let log = sample_log();
    let now = DAY + 45_960;
    let work = log.tag_id("work").unwrap();
    let total = aggregate_total(&log, &timelog::filter::has_tag(work), now);
    assert_eq!(total, 900);
}

#[test]
fn any_interval_matches_reports_existence() {
    let log = sample_log();
    let now = DAY + 50_000;
    assert!(any_interval_matches(&log, &filter_true(), now));
    let mut q = no_criteria();
    q.tags = vec!["nothing".to_owned()];
    let f = q.filter(&log, DAY).unwrap();
    assert!(!any_interval_matches(&log, &f, now));
    let empty = TimeLog::new();
    assert!(!any_interval_matches(&empty, &filter_true(), now));
}

#[test]
fn command_error_messages() {
    assert_eq!(
        CommandError::TimeParseError.message(),
        "error parsing time specification"
    );
    assert_eq!(
        CommandError::InconsistentFilter.message(),
        "inconsistent filters specified"
    );
}
