use working_hours::Instant;
use working_hours::TimeRange;
use working_hours::vec_range;

fn ts(seconds: i64) -> Instant {
    Instant::from_unix_seconds(seconds)
}

fn tr(start: i64, end: i64) -> TimeRange {
    TimeRange { start: ts(start), end: ts(end) }
}

fn utc_instant(odt: time::OffsetDateTime) -> Instant {
    Instant::from_unix_nanos(odt.unix_timestamp_nanos())
}

fn utc(year: i32, month: time::Month, day: u8, hour: u8, minute: u8, second: u8, milli: u16) -> Instant {
    let date = time::Date::from_calendar_date(year, month, day).unwrap();
    let dt = date.with_hms_milli(hour, minute, second, milli).unwrap();
    utc_instant(dt.assume_utc())
}

#[test]
fn test_overlapping_range() {
    let ranges = vec![tr(0, 10), tr(15, 20), tr(20, 30)];

    let query = tr(5, 8);
    let overlapping_range = vec_range::get_overlapping_range(&ranges, query);
    assert_eq!(overlapping_range, Some(tr(5, 8)));

    let query = tr(5, 15);
    let overlapping_range = vec_range::get_overlapping_range(&ranges, query);
    assert_eq!(overlapping_range, Some(tr(5, 10)));

    let ranges = vec![TimeRange {
        start: utc(2024, time::Month::April, 21, 23, 10, 15, 502),
        end: utc(2024, time::Month::April, 22, 5, 30, 0, 0),
    }];

    let query = TimeRange {
        start: utc(2024, time::Month::April, 20, 16, 25, 25, 632),
        end: utc(2024, time::Month::April, 22, 5, 45, 3, 18),
    };

    assert_eq!(
        vec_range::get_overlapping_range(&ranges, query),
        Some(TimeRange {
            start: utc(2024, time::Month::April, 21, 23, 10, 15, 502),
            end: utc(2024, time::Month::April, 22, 5, 30, 0, 0),
        })
    );
}

#[test]
fn test_deduping() {
    let ranges = vec![tr(0, 10), tr(5, 15), tr(20, 30)];
    let deduped_ranges = vec_range::dedup_overlapping_ranges(ranges);
    assert_eq!(deduped_ranges, vec![tr(0, 15), tr(20, 30)]);

    let ranges = vec![tr(0, 10), tr(5, 15), tr(0, 50), tr(20, 30)];
    let deduped_ranges = vec_range::dedup_overlapping_ranges(ranges);
    assert_eq!(deduped_ranges, vec![tr(0, 50)]);
}

#[test]
fn test_overlaps_is_symmetric() {
    let touching_a = tr(0, 10);
    let touching_b = tr(10, 20);
    assert!(touching_a.overlaps(&touching_b));
    assert!(touching_b.overlaps(&touching_a));

    let apart_a = tr(0, 9);
    let apart_b = tr(11, 20);
    assert!(!apart_a.overlaps(&apart_b));
    assert!(!apart_b.overlaps(&apart_a));
}

#[test]
fn test_merge_commutative_and_covering() {
    let a = tr(3, 12);
    let b = tr(7, 25);
    let merged = a.merge(&b);
    assert_eq!(merged, b.merge(&a));
    assert_eq!(merged, tr(3, 25));

    // merge bridges even non-overlapping ranges
    let apart_a = tr(0, 5);
    let apart_b = tr(50, 60);
    assert_eq!(apart_a.merge(&apart_b), tr(0, 60));
    assert_eq!(apart_b.merge(&apart_a), tr(0, 60));
}

#[test]
fn test_duration() {
    assert_eq!(tr(0, 90).duration(), 90_000_000_000);
    // inverted ranges yield a negative duration
    assert_eq!(tr(10, 5).duration(), -5_000_000_000);
}

#[test]
fn test_dedup_is_idempotent() {
    let ranges = vec![tr(0, 10), tr(5, 15), tr(20, 30), tr(30, 40)];
    let once = vec_range::dedup_overlapping_ranges(ranges);
    assert_eq!(once, vec![tr(0, 15), tr(20, 40)]);
    let twice = vec_range::dedup_overlapping_ranges(once.clone());
    assert_eq!(twice, once);
}

#[test]
fn test_dedup_preserves_coverage() {
    let ranges = vec![tr(0, 10), tr(5, 15), tr(20, 30)];
    let deduped = vec_range::dedup_overlapping_ranges(ranges.clone());
    for probe in [0, 3, 10, 12, 15, 17, 20, 25, 30, 31] {
        assert_eq!(
            vec_range::contains_ts(&deduped, ts(probe)),
            vec_range::contains_ts(&ranges, ts(probe)),
        );
    }
}

#[test]
fn test_dedup_empty() {
    let deduped = vec_range::dedup_overlapping_ranges(Vec::new());
    assert!(deduped.is_empty());
}

#[test]
fn test_projections_and_queries() {
    let ranges = vec![tr(0, 10), tr(5, 15)];
    assert_eq!(vec_range::starts(&ranges), vec![ts(0), ts(5)]);
    assert_eq!(vec_range::ends(&ranges), vec![ts(10), ts(15)]);

    assert!(vec_range::contains_ts(&ranges, ts(7)));
    assert!(!vec_range::contains_ts(&ranges, ts(16)));

    // the first interval in sequence order wins
    assert_eq!(vec_range::range_within_ts(&ranges, ts(7)), Some(tr(0, 10)));
    assert_eq!(vec_range::range_within_ts(&ranges, ts(12)), Some(tr(5, 15)));
    assert_eq!(vec_range::range_within_ts(&ranges, ts(20)), None);

    let query = tr(12, 13);
    assert_eq!(vec_range::overlaps(&ranges, &query), Some(tr(5, 15)));
    let query = tr(40, 50);
    assert_eq!(vec_range::overlaps(&ranges, &query), None);
}

#[test]
fn test_get_overlapping_range_only_end_found() {
    // the "only end found" branch anchors on the found interval's
    // start, not the query's
    let ranges = vec![tr(10, 20)];
    let query = tr(5, 15);
    assert_eq!(vec_range::get_overlapping_range(&ranges, query), Some(tr(10, 15)));
}

#[test]
fn test_get_overlapping_range_none() {
    let ranges = vec![tr(0, 10)];
    let query = tr(20, 30);
    assert_eq!(vec_range::get_overlapping_range(&ranges, query), None);
}

#[test]
fn test_times_between_contents() {
    // a gap between consecutive intervals, none where they touch
    let ranges = vec![tr(0, 10), tr(15, 20), tr(20, 30)];
    let gaps = vec_range::times_between_contents(ranges, None);
    assert_eq!(gaps, vec![tr(10, 15)]);

    // a single interval with bounds yields the trailing gap
    let gaps = vec_range::times_between_contents(vec![tr(0, 10)], Some(tr(0, 30)));
    assert_eq!(gaps, vec![tr(10, 30)]);

    // ... but only if the interval ends before the bounds end
    let gaps = vec_range::times_between_contents(vec![tr(0, 30)], Some(tr(0, 30)));
    assert!(gaps.is_empty());

    // a single interval without bounds yields nothing
    let gaps = vec_range::times_between_contents(vec![tr(0, 10)], None);
    assert!(gaps.is_empty());

    // an empty sequence yields nothing
    let gaps = vec_range::times_between_contents(Vec::new(), Some(tr(0, 30)));
    assert!(gaps.is_empty());

    // with two or more intervals the bounds are ignored
    let gaps = vec_range::times_between_contents(vec![tr(0, 10), tr(10, 20)], Some(tr(0, 50)));
    assert!(gaps.is_empty());
}

#[test]
fn test_unix_conversions() {
    let i = Instant::from_unix_nanos(1_500_000_000);
    assert_eq!(i.day, 0);
    assert_eq!(i.nanos, 1_500_000_000);
    assert_eq!(i.to_unix_nanos(), 1_500_000_000);

    let before_epoch = Instant::from_unix_nanos(-1_000_000_000);
    assert_eq!(before_epoch.day, -1);
    assert_eq!(before_epoch.to_unix_nanos(), -1_000_000_000);

    assert_eq!(ts(86_400), Instant { day: 1, nanos: 0 });
    assert_eq!(ts(-1), Instant { day: -1, nanos: 86_399_000_000_000 });
}
