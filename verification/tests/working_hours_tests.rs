use working_hours::Instant;
use working_hours::TimeOfDay;
use working_hours::TimeRange;
use working_hours::Weekday;
use working_hours::WorkingHours;

fn tod(hour: u64, minute: u64) -> TimeOfDay {
    TimeOfDay::new(hour, minute, 0, 0)
}

fn at(day: i64, hour: u64, minute: u64) -> Instant {
    Instant::new(day, tod(hour, minute))
}

// day 0 of the instant model is 1970-01-01, a Thursday; day 4 is the
// following Monday
const MONDAY: i64 = 4;

fn weekday_policy(start: TimeOfDay, end: TimeOfDay) -> WorkingHours {
    WorkingHours {
        start,
        end,
        active_days: vec![
            Weekday::Monday,
            Weekday::Tuesday,
            Weekday::Wednesday,
            Weekday::Thursday,
            Weekday::Friday,
        ],
        lower_bound: None,
        upper_bound: None,
    }
}

#[test]
fn test_weekday_of_epoch() {
    assert_eq!(Instant::from_unix_seconds(0).weekday(), Weekday::Thursday);
    assert_eq!(at(MONDAY, 0, 0).weekday(), Weekday::Monday);
    assert_eq!(at(-3, 12, 0).weekday(), Weekday::Monday);
    assert_eq!(at(6, 8, 30).weekday(), Weekday::Wednesday);
}

#[test]
fn test_is_active_and_membership() {
    let policy = weekday_policy(tod(9, 0), tod(17, 0));
    assert!(policy.is_active());
    assert!(policy.active_during_day(Weekday::Tuesday));
    assert!(!policy.active_during_day(Weekday::Sunday));

    let idle = WorkingHours {
        start: tod(9, 0),
        end: tod(17, 0),
        active_days: vec![],
        lower_bound: None,
        upper_bound: None,
    };
    assert!(!idle.is_active());
    assert_eq!(idle.working_time_in_range(TimeRange { start: at(0, 0, 0), end: at(7, 0, 0) }), vec![]);
}

#[test]
fn test_active_during_ts() {
    let policy = weekday_policy(tod(9, 0), tod(17, 0));
    assert!(policy.active_during_ts(at(MONDAY, 10, 0)));
    assert!(policy.active_during_ts(at(MONDAY, 17, 0)));
    assert!(!policy.active_during_ts(at(MONDAY, 8, 59)));
    assert!(!policy.active_during_ts(at(MONDAY + 5, 10, 0))); // Saturday
}

#[test]
fn test_exceeds_bounds() {
    let mut policy = weekday_policy(tod(9, 0), tod(17, 0));
    policy.lower_bound = Some(at(MONDAY, 0, 0));
    policy.upper_bound = Some(at(MONDAY + 4, 23, 59));
    assert!(policy.exceeds_bounds(at(MONDAY - 1, 12, 0)));
    assert!(policy.exceeds_bounds(at(MONDAY + 5, 0, 1)));
    assert!(!policy.exceeds_bounds(at(MONDAY + 2, 12, 0)));
}

#[test]
fn test_previous_working_hours() {
    let policy = WorkingHours {
        start: tod(9, 0),
        end: tod(17, 0),
        active_days: vec![Weekday::Monday],
        lower_bound: None,
        upper_bound: None,
    };
    // mid-shift on the active day: that day's window
    assert_eq!(
        policy.previous_working_hours(at(MONDAY, 15, 0)),
        Some(TimeRange { start: at(MONDAY, 9, 0), end: at(MONDAY, 17, 0) })
    );
    // before the daily start time: the previous week's window
    assert_eq!(
        policy.previous_working_hours(at(MONDAY, 8, 0)),
        Some(TimeRange { start: at(MONDAY - 7, 9, 0), end: at(MONDAY - 7, 17, 0) })
    );
    // the end is clamped down to the upper bound
    let mut clamped = policy.clone();
    clamped.upper_bound = Some(at(MONDAY, 16, 0));
    assert_eq!(
        clamped.previous_working_hours(at(MONDAY, 15, 0)),
        Some(TimeRange { start: at(MONDAY, 9, 0), end: at(MONDAY, 16, 0) })
    );
    // an instant outside the bounds yields nothing
    assert_eq!(clamped.previous_working_hours(at(MONDAY, 16, 30)), None);
}

#[test]
fn test_next_working_hours() {
    let policy = WorkingHours {
        start: tod(9, 0),
        end: tod(17, 0),
        active_days: vec![Weekday::Monday],
        lower_bound: None,
        upper_bound: None,
    };
    // past both daily times: the following week's window
    assert_eq!(
        policy.next_working_hours(at(MONDAY, 18, 0)),
        Some(TimeRange { start: at(MONDAY + 7, 9, 0), end: at(MONDAY + 7, 17, 0) })
    );
    // the start is clamped up to the lower bound
    let mut clamped = policy.clone();
    clamped.lower_bound = Some(at(MONDAY, 10, 0));
    assert_eq!(
        clamped.next_working_hours(at(MONDAY, 10, 30)),
        Some(TimeRange { start: at(MONDAY, 10, 0), end: at(MONDAY, 17, 0) })
    );
    // a window fully clamped away is absent
    let mut degenerate = policy.clone();
    degenerate.upper_bound = Some(at(MONDAY, 8, 30));
    assert_eq!(degenerate.next_working_hours(at(MONDAY, 8, 0)), None);
}

#[test]
fn test_overnight_shift_single_window() {
    // an overnight policy active on Thursdays; a query spanning the
    // midnight after Thursday day 7 yields one window from 23:30 that
    // day to 03:00 the next, never two separate windows
    let policy = WorkingHours {
        start: tod(23, 30),
        end: tod(3, 0),
        active_days: vec![Weekday::Thursday],
        lower_bound: None,
        upper_bound: None,
    };
    let query = TimeRange { start: at(7, 23, 0), end: at(8, 4, 0) };
    let windows = policy.working_time_in_range(query);
    assert_eq!(windows, vec![TimeRange { start: at(7, 23, 30), end: at(8, 3, 0) }]);
}

#[test]
fn test_working_time_clipped_to_query() {
    let policy = weekday_policy(tod(9, 0), tod(17, 0));
    let query = TimeRange { start: at(MONDAY, 12, 0), end: at(MONDAY + 4, 15, 0) };
    let windows = policy.working_time_in_range(query);
    assert_eq!(
        windows,
        vec![
            TimeRange { start: at(MONDAY, 12, 0), end: at(MONDAY, 17, 0) },
            TimeRange { start: at(MONDAY + 1, 9, 0), end: at(MONDAY + 1, 17, 0) },
            TimeRange { start: at(MONDAY + 2, 9, 0), end: at(MONDAY + 2, 17, 0) },
            TimeRange { start: at(MONDAY + 3, 9, 0), end: at(MONDAY + 3, 17, 0) },
            TimeRange { start: at(MONDAY + 4, 9, 0), end: at(MONDAY + 4, 15, 0) },
        ]
    );
    // every window lies within the query and starts never decrease
    for w in &windows {
        assert!(query.start.le(&w.start));
        assert!(w.end.le(&query.end));
    }
    for pair in windows.windows(2) {
        assert!(pair[0].start.le(&pair[1].start));
    }
}

#[test]
fn test_working_time_skips_inactive_days() {
    // active Monday only; a two-week query yields the seeded window
    // from the Monday before the query and the two Mondays inside it
    let policy = WorkingHours {
        start: tod(9, 0),
        end: tod(17, 0),
        active_days: vec![Weekday::Monday],
        lower_bound: None,
        upper_bound: None,
    };
    let query = TimeRange { start: at(MONDAY, 16, 0), end: at(MONDAY + 14, 16, 30) };
    let windows = policy.working_time_in_range(query);
    assert_eq!(
        windows,
        vec![
            TimeRange { start: at(MONDAY, 16, 0), end: at(MONDAY, 17, 0) },
            TimeRange { start: at(MONDAY + 7, 9, 0), end: at(MONDAY + 7, 17, 0) },
            TimeRange { start: at(MONDAY + 14, 9, 0), end: at(MONDAY + 14, 16, 30) },
        ]
    );
}

#[test]
fn test_previous_working_hours_overnight() {
    // Thursday is day 0 and day 7 of the instant model
    let policy = WorkingHours {
        start: tod(23, 30),
        end: tod(3, 0),
        active_days: vec![Weekday::Thursday],
        lower_bound: None,
        upper_bound: None,
    };
    // early Friday morning: the window of the Thursday shift, ending
    // on Friday
    assert_eq!(
        policy.previous_working_hours(at(8, 1, 0)),
        Some(TimeRange { start: at(7, 23, 30), end: at(8, 3, 0) })
    );
    // the overnight end is clamped to the upper bound
    let mut clamped = policy.clone();
    clamped.upper_bound = Some(at(8, 2, 0));
    assert_eq!(
        clamped.previous_working_hours(at(8, 1, 0)),
        Some(TimeRange { start: at(7, 23, 30), end: at(8, 2, 0) })
    );
}

#[test]
fn test_working_time_with_bounds() {
    // a lower bound after the query start suppresses the Monday
    // window entirely (the cursor exceeds the bounds that day), and
    // the query end clips the Tuesday window
    let mut policy = weekday_policy(tod(9, 0), tod(17, 0));
    policy.lower_bound = Some(at(MONDAY, 10, 0));
    let query = TimeRange { start: at(MONDAY, 8, 0), end: at(MONDAY + 1, 12, 0) };
    let windows = policy.working_time_in_range(query);
    assert_eq!(
        windows,
        vec![TimeRange { start: at(MONDAY + 1, 9, 0), end: at(MONDAY + 1, 12, 0) }]
    );
}

#[test]
fn test_time_of_day_components() {
    let t = TimeOfDay::new(23, 30, 15, 500_000_000);
    assert_eq!(t.nanos, 23 * 3_600_000_000_000 + 30 * 60_000_000_000 + 15_000_000_000 + 500_000_000);
    assert_eq!(TimeOfDay::midnight().nanos, 0);
}
