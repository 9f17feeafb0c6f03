//! Tests for intervals and quarter-hour normalization.

use timelog::interval::{ceil_time, floor_time, now_time, tag, Interval, TaggedInterval, MAX_TIME};

#[test]
fn floor_snaps_down_to_quarter_hour() {
    assert_eq!(floor_time(36_420), 36_000);  // 10:07 -> 10:00
    assert_eq!(floor_time(36_000), 36_000);  // boundary stays
    assert_eq!(floor_time(899), 0);
    assert_eq!(floor_time(900), 900);
    assert_eq!(floor_time(0), 0);
}

#[test]
fn ceil_snaps_up_to_quarter_hour() {
    assert_eq!(ceil_time(36_720), 36_900);  // 10:12 -> 10:15
    assert_eq!(ceil_time(36_900), 36_900);  // boundary stays
    assert_eq!(ceil_time(1), 900);
    assert_eq!(ceil_time(0), 0);
}

#[test]
fn open_and_close_an_interval() {
    let i = Interval::open(36_000);
    assert!(!i.is_closed());
    assert_eq!(i.start(), 36_000);
    assert_eq!(i.end(), None);
    let c = i.close(36_500).unwrap();
    assert!(c.is_closed());
    assert_eq!(c.start(), 36_000);
    assert_eq!(c.end(), Some(36_500));
}

#[test]
fn close_rejects_end_before_start() {
    let i = Interval::open(36_000);
    assert_eq!(i.close(35_999), None);
    assert!(i.close(36_000).is_some());
}

#[test]
fn close_rejects_already_closed() {
    let c = Interval::closed(100, 50);
    assert_eq!(c.close(500), None);
}

#[test]
fn duration_of_closed_interval_is_stored() {
    let c = Interval::closed(100, 50);
    assert_eq!(c.duration_at(40_000), 50);
}

#[test]
fn duration_of_open_interval_runs_to_ceiled_now() {
    let i = Interval::open(36_000);
    assert_eq!(i.duration_at(36_720), 900);  // ceil(10:12) = 10:15
    assert_eq!(i.duration_at(36_000), 0);
    // A start beyond the ceiling of now reads as zero, not negative.
    let future = Interval::open(72_000);
    assert_eq!(future.duration_at(36_000), 0);
}

#[test]
fn rounding_floors_start_and_ceils_end() {
    let c = Interval::closed(36_425, 1_000);  // 10:07:05 .. 10:23:45
    let r = c.round_to_quarter_hours();
    assert_eq!(r.start(), 36_000);  // 10:00
    assert_eq!(r.end(), Some(37_800));  // 10:30
}

#[test]
fn rounding_keeps_open_intervals_open() {
    let i = Interval::open(36_425);
    let r = i.round_to_quarter_hours();
    assert_eq!(r.start(), 36_000);
    assert!(!r.is_closed());
}

#[test]
fn rounding_is_idempotent() {
    let samples = [
        Interval::closed(36_425, 1_000),
        Interval::closed(36_000, 900),
        Interval::closed(1, 1),
        Interval::open(36_425),
        Interval::open(0),
    ];
    for i in samples.iter() {
        let once = i.round_to_quarter_hours();
        let twice = once.round_to_quarter_hours();
        assert_eq!(once, twice);
    }
}

#[test]
fn tagged_interval_delegates() {
    let ti = tag(4, Interval::open(36_000));
    assert_eq!(ti.tag(), 4);
    assert_eq!(ti.start(), 36_000);
    assert!(!ti.is_closed());
    let c = ti.close(36_720).unwrap();
    assert_eq!(c.tag(), 4);
    assert_eq!(c.end(), Some(36_720));
    let r = c.round_to_quarter_hours();
    assert_eq!(r.interval().start, 36_000);
    assert_eq!(r.end(), Some(36_900));
}

#[test]
fn tagged_interval_new_and_interval() {
    let ti = TaggedInterval::new(9, Interval::closed(900, 900));
    assert_eq!(ti.interval(), &Interval::closed(900, 900));
    assert_eq!(ti.duration_at(0), 900);
}

#[test]
fn clock_is_within_range() {
    let t = now_time();
    assert!(t <= MAX_TIME);
    // The clock reads a real present-day time, not a stub.
    assert!(t > 1_600_000_000);
}

#[test]
fn open_now_is_open() {
    let i = Interval::open_now();
    assert!(!i.is_closed());
    let ti = TaggedInterval::open_now(2);
    assert_eq!(ti.tag(), 2);
    assert!(!ti.is_closed());
}

#[test]
fn close_now_closes_a_past_interval() {
    let i = Interval::open(900);
    let c = i.close_now();
    assert!(c.is_some());
    assert_eq!(c.unwrap().start(), 900);
    let already = Interval::closed(900, 900);
    assert!(already.close_now().is_none());
}

#[test]
fn rounding_at_the_upper_time_bound() {
    // MAX_TIME is itself a boundary: flooring and ceiling leave it alone,
    // and an interval reaching it still rounds without overflow.
    assert_eq!(floor_time(MAX_TIME), MAX_TIME);
    assert_eq!(ceil_time(MAX_TIME), MAX_TIME);
    let c = Interval::closed(MAX_TIME - 1, 1);
    let r = c.round_to_quarter_hours();
    assert_eq!(r.end(), Some(MAX_TIME));
    assert_eq!(r.start(), MAX_TIME - 900);
}

#[test]
fn duration_with_clock_matches_stored_duration() {
    let c = Interval::closed(100, 50);
    assert_eq!(c.duration(), 50);
    let ti = TaggedInterval::new(1, Interval::closed(100, 50));
    assert_eq!(ti.duration(), 50);
}
