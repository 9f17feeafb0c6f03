//! Tests for the timelog: the open/close state machine, bulk removal, tag
//! garbage collection and snapshot parts.

use timelog::filter::{filter_true, has_tag};
use timelog::interval::{Interval, TaggedInterval};
use timelog::tags::{Tags, TagsError};
use timelog::timelog::{TimeLog, TimeLogError};

#[test]
fn tags_insert_assigns_sequential_ids() {
    let mut tags = Tags::new();
    assert_eq!(tags.insert("work"), Ok(0));
    assert_eq!(tags.insert("play"), Ok(1));
    assert_eq!(tags.get_id("work"), Some(0));
    assert_eq!(tags.get_id("play"), Some(1));
    assert_eq!(tags.get_id("rest"), None);
    assert_eq!(tags.get_name(0), Some("work"));
    assert_eq!(tags.get_name(1), Some("play"));
    assert_eq!(tags.get_name(2), None);
}

#[test]
fn tags_insert_rejects_duplicates() {
    let mut tags = Tags::new();
    assert_eq!(tags.insert("work"), Ok(0));
    assert_eq!(tags.insert("work"), Err(TagsError::TagExists));
    assert_eq!(tags.len(), 1);
}

#[test]
fn tags_get_id_or_insert_reuses_ids() {
    let mut tags = Tags::new();
    assert_eq!(tags.get_id_or_insert("work"), 0);
    assert_eq!(tags.get_id_or_insert("play"), 1);
    assert_eq!(tags.get_id_or_insert("work"), 0);
    assert_eq!(tags.len(), 2);
}

#[test]
fn tags_from_names_checks_duplicates() {
    let ok = Tags::from_names(vec!["a".to_owned(), "b".to_owned()]);
    assert!(ok.is_ok());
    let dup = Tags::from_names(vec!["a".to_owned(), "b".to_owned(), "a".to_owned()]);
    assert_eq!(dup, Err(TagsError::TagExists));
}

#[test]
fn open_creates_a_floored_interval() {
    let mut log = TimeLog::new();
    let ti = log.open_at("work", 36_420).unwrap();  // 10:07
    assert_eq!(ti.start(), 36_000);  // floored to 10:00
    assert!(!ti.is_closed());
    assert_eq!(log.intervals().len(), 1);
    assert_eq!(log.tag_id("work"), Some(0));
    assert_eq!(log.tag_name(ti.tag()), Some("work"));
}

#[test]
fn open_twice_fails_and_changes_nothing() {
    let mut log = TimeLog::new();
    log.open_at("work", 36_420).unwrap();
    let before: Vec<TaggedInterval> = log.intervals().clone();
    let r = log.open_at("work", 36_500);
    assert_eq!(r, Err(TimeLogError::TagAlreadyOpen));
    assert_eq!(log.intervals(), &before);
    assert_eq!(log.tag_names().len(), 1);
}

#[test]
fn close_rounds_the_interval() {
    let mut log = TimeLog::new();
    log.open_at("work", 36_420).unwrap();  // start floored to 10:00
    let ti = log.close_at("work", 36_720).unwrap();  // 10:12
    assert!(ti.is_closed());
    assert_eq!(ti.start(), 36_000);
    assert_eq!(ti.end(), Some(36_900));  // ceiled to 10:15
    assert_eq!(ti.interval().duration, Some(900));
    assert_eq!(log.intervals().len(), 1);
}

#[test]
fn close_without_open_fails() {
    let mut log = TimeLog::new();
    assert_eq!(log.close_at("work", 36_720), Err(TimeLogError::TagNotOpen));
    log.open_at("work", 36_420).unwrap();
    log.close_at("work", 36_720).unwrap();
    assert_eq!(log.close_at("work", 37_000), Err(TimeLogError::TagNotOpen));
}

#[test]
fn reopen_within_quarter_window_coalesces() {
    // The full session scenario: open at 10:07, close at 10:12, open again
    // at 10:13 of the same quarter hour. The closed interval's end (10:15)
    // is at or after the current quarter floor (10:00), so the same
    // interval reopens: the log still holds one entry starting at 10:00.
    let mut log = TimeLog::new();
    let ti = log.open_at("work", 36_420).unwrap();
    assert_eq!(ti.start(), 36_000);
    assert!(!ti.is_closed());
    let ti = log.close_at("work", 36_720).unwrap();
    assert_eq!(ti.start(), 36_000);
    assert_eq!(ti.end(), Some(36_900));
    assert_eq!(ti.duration_at(36_720), 900);  // 15 minutes
    let ti = log.open_at("work", 36_780).unwrap();  // 10:13
    assert_eq!(ti.start(), 36_000);
    assert!(!ti.is_closed());
    assert_eq!(log.intervals().len(), 1);
}

#[test]
fn reopen_after_window_appends_fresh_interval() {
    let mut log = TimeLog::new();
    log.open_at("work", 36_420).unwrap();
    log.close_at("work", 36_720).unwrap();  // ends 10:15
    // 11:31 floors to 11:30, after the closed end: a new interval starts.
    let ti = log.open_at("work", 41_460).unwrap();
    assert_eq!(ti.start(), 41_400);
    assert_eq!(log.intervals().len(), 2);
}

#[test]
fn open_tracks_tags_independently() {
    let mut log = TimeLog::new();
    log.open_at("work", 36_420).unwrap();
    let r = log.open_at("play", 36_420).unwrap();
    assert_eq!(r.tag(), 1);
    assert_eq!(log.intervals().len(), 2);
    log.close_at("work", 36_720).unwrap();
    let r = log.close_at("play", 36_720).unwrap();
    assert_eq!(r.tag(), 1);
}

#[test]
fn remove_drops_matching_intervals() {
    let mut log = TimeLog::new();
    log.open_at("work", 36_420).unwrap();
    log.close_at("work", 36_720).unwrap();
    log.open_at("play", 41_460).unwrap();
    let work = log.tag_id("work").unwrap();
    log.remove(&has_tag(work), 50_000);
    assert_eq!(log.intervals().len(), 1);
    assert_eq!(log.intervals()[0].tag(), log.tag_id("play").unwrap());
}

#[test]
fn retain_keeps_matching_intervals() {
    let mut log = TimeLog::new();
    log.open_at("work", 36_420).unwrap();
    log.close_at("work", 36_720).unwrap();
    log.open_at("play", 41_460).unwrap();
    let work = log.tag_id("work").unwrap();
    log.retain(&has_tag(work), 50_000);
    assert_eq!(log.intervals().len(), 1);
    assert_eq!(log.intervals()[0].tag(), work);
}

#[test]
fn remove_with_true_filter_empties_the_log() {
    let mut log = TimeLog::new();
    log.open_at("work", 36_420).unwrap();
    log.open_at("play", 36_420).unwrap();
    log.remove(&filter_true(), 50_000);
    assert_eq!(log.intervals().len(), 0);
}

#[test]
fn gc_drops_unreferenced_names_and_renumbers() {
    let mut log = TimeLog::new();
    log.open_at("work", 36_420).unwrap();
    log.close_at("work", 36_720).unwrap();
    log.open_at("mail", 41_460).unwrap();
    log.close_at("mail", 42_000).unwrap();
    log.open_at("play", 45_060).unwrap();
    // Purge the "mail" session, then compact the registry.
    let mail = log.tag_id("mail").unwrap();
    log.remove(&has_tag(mail), 50_000);
    log.gc_tag_names();
    assert_eq!(log.tag_names().len(), 2);
    assert_eq!(log.tag_id("work"), Some(0));
    assert_eq!(log.tag_id("play"), Some(1));
    assert_eq!(log.tag_id("mail"), None);
    assert_eq!(log.intervals().len(), 2);
}

#[test]
fn gc_preserves_name_interval_pairs() {
    let mut log = TimeLog::new();
    log.open_at("work", 36_420).unwrap();
    log.close_at("work", 36_720).unwrap();
    log.open_at("mail", 41_460).unwrap();
    log.close_at("mail", 42_060).unwrap();
    let pairs_before: Vec<(String, Interval)> = log
        .intervals()
        .iter()
        .map(|ti| (log.tag_name(ti.tag()).unwrap().to_owned(), *ti.interval()))
        .collect();
    log.gc_tag_names();
    let pairs_after: Vec<(String, Interval)> = log
        .intervals()
        .iter()
        .map(|ti| (log.tag_name(ti.tag()).unwrap().to_owned(), *ti.interval()))
        .collect();
    assert_eq!(pairs_before, pairs_after);
}

#[test]
fn from_parts_round_trips() {
    let names = vec!["work".to_owned(), "play".to_owned()];
    let intervals = vec![
        TaggedInterval::new(0, Interval::closed(36_000, 900)),
        TaggedInterval::new(1, Interval::open(41_400)),
    ];
    let log = TimeLog::from_parts(names.clone(), intervals.clone()).unwrap();
    assert_eq!(log.tag_names(), &names);
    assert_eq!(log.intervals(), &intervals);
}

#[test]
fn from_parts_rejects_duplicate_names() {
    let names = vec!["work".to_owned(), "work".to_owned()];
    assert!(TimeLog::from_parts(names, Vec::new()).is_none());
}

#[test]
fn from_parts_rejects_unknown_tag_ids() {
    let names = vec!["work".to_owned()];
    let intervals = vec![TaggedInterval::new(1, Interval::open(0))];
    assert!(TimeLog::from_parts(names, intervals).is_none());
}

#[test]
fn from_parts_rejects_two_open_intervals_per_tag() {
    let names = vec!["work".to_owned()];
    let intervals = vec![
        TaggedInterval::new(0, Interval::open(0)),
        TaggedInterval::new(0, Interval::open(900)),
    ];
    assert!(TimeLog::from_parts(names, intervals).is_none());
}

#[test]
fn open_with_clock_creates_open_interval() {
    let mut log = TimeLog::new();
    let ti = log.open("work").unwrap();
    assert!(!ti.is_closed());
    assert_eq!(log.intervals().len(), 1);
    let r = log.open("work");
    assert_eq!(r, Err(TimeLogError::TagAlreadyOpen));
}

#[test]
fn error_messages_describe_the_failure() {
    assert_eq!(
        TimeLogError::TagAlreadyOpen.message(),
        "attempt to open a tag that is already open"
    );
    assert_eq!(
        TimeLogError::TagNotOpen.message(),
        "attempt to close a tag that is not open"
    );
    assert_eq!(
        TagsError::TagExists.message(),
        "attempt to insert tag that already exists"
    );
}
