//! End-to-end and calendar tests for the aggregation engine.

use loggregate::analyse::aggregate::LogEvent;
use loggregate::analyse::analyse_logs;
use loggregate::analyse::dtfmt::DateTimeCat;
use loggregate::analyse::loglevel::LogLevel;
use loggregate::analyse::calc::sum_of_log_occ;
use loggregate::datetime::{datetime_from_secs, days_in_month, is_leap_year, DateTime};

fn dt(year: u16, month: u8, day: u8, hour: u8, minute: u8, second: u8) -> DateTime {
    DateTime::new(year, month, day, hour, minute, second, 0).unwrap()
}

fn ev(datetime: DateTime, loglevel: LogLevel) -> LogEvent {
    LogEvent { datetime, loglevel }
}

#[test]
fn leap_years() {
    assert!(is_leap_year(2024));
    assert!(!is_leap_year(2023));
    assert!(!is_leap_year(1900));
    assert!(is_leap_year(2000));
}

#[test]
fn month_lengths() {
    assert_eq!(days_in_month(2024, 2), 29);
    assert_eq!(days_in_month(2023, 2), 28);
    assert_eq!(days_in_month(2024, 1), 31);
    assert_eq!(days_in_month(2024, 4), 30);
    assert_eq!(days_in_month(2024, 12), 31);
}

#[test]
fn datetime_new_rejects_bad_fields() {
    assert!(DateTime::new(2024, 2, 30, 0, 0, 0, 0).is_none());
    assert!(DateTime::new(2023, 2, 29, 0, 0, 0, 0).is_none());
    assert!(DateTime::new(2024, 13, 1, 0, 0, 0, 0).is_none());
    assert!(DateTime::new(2024, 0, 1, 0, 0, 0, 0).is_none());
    assert!(DateTime::new(2024, 1, 1, 24, 0, 0, 0).is_none());
    assert!(DateTime::new(2024, 1, 1, 0, 60, 0, 0).is_none());
    assert!(DateTime::new(2024, 1, 1, 0, 0, 0, 1_000_000_000).is_none());
    assert!(DateTime::new(2024, 2, 29, 23, 59, 59, 999_999_999).is_some());
}

#[test]
fn seconds_roundtrip() {
    let d = dt(2024, 3, 1, 12, 34, 56);
    let s = d.to_secs();
    let back = datetime_from_secs(s);
    assert_eq!(back, dt(2024, 3, 1, 12, 34, 56));
    // one second before a leap day's midnight rolls into it correctly
    let eve = dt(2024, 2, 28, 23, 59, 59);
    let next = datetime_from_secs(eve.to_secs() + 1);
    assert_eq!(next, dt(2024, 2, 29, 0, 0, 0));
}

#[test]
fn month_advance_clamps_to_month_end() {
    // a leap year keeps February 29
    let jan31 = dt(2024, 1, 31, 0, 0, 0);
    let feb = jan31.add_months_clamped(1);
    assert_eq!(feb, dt(2024, 2, 29, 0, 0, 0));
    // an ordinary year clamps to February 28
    let jan31_23 = dt(2023, 1, 31, 0, 0, 0);
    let feb23 = jan31_23.add_months_clamped(1);
    assert_eq!(feb23, dt(2023, 2, 28, 0, 0, 0));
    // the time of day is kept
    let late = DateTime::new(2023, 3, 31, 7, 8, 9, 10).unwrap();
    let apr = late.add_months_clamped(1);
    assert_eq!(apr, DateTime::new(2023, 4, 30, 7, 8, 9, 10).unwrap());
    // crossing a year boundary
    let nov = dt(2023, 11, 30, 0, 0, 0);
    assert_eq!(nov.add_months_clamped(3), dt(2024, 2, 29, 0, 0, 0));
}

#[test]
fn granularity_tie_break_at_one_minute() {
    // a span of exactly 60 seconds stays at seconds granularity
    let events = vec![
        ev(dt(2024, 1, 1, 0, 0, 0), LogLevel::Info),
        ev(dt(2024, 1, 1, 0, 1, 0), LogLevel::Info),
    ];
    let a = analyse_logs(&events).unwrap();
    assert_eq!(a.datetime_cat, DateTimeCat::Seconds);
    // one second more selects minutes
    let events = vec![
        ev(dt(2024, 1, 1, 0, 0, 0), LogLevel::Info),
        ev(dt(2024, 1, 1, 0, 1, 1), LogLevel::Info),
    ];
    let a = analyse_logs(&events).unwrap();
    assert_eq!(a.datetime_cat, DateTimeCat::Minutes);
}

#[test]
fn granularity_ladder() {
    let base = dt(2024, 1, 1, 0, 0, 0);
    let cases: Vec<(DateTime, DateTimeCat)> = vec![
        (dt(2024, 1, 1, 0, 0, 30), DateTimeCat::Seconds),
        (dt(2024, 1, 1, 0, 30, 0), DateTimeCat::Minutes),
        (dt(2024, 1, 1, 1, 0, 0), DateTimeCat::Minutes),
        (dt(2024, 1, 1, 1, 0, 1), DateTimeCat::Hours),
        (dt(2024, 1, 2, 0, 0, 0), DateTimeCat::Hours),
        (dt(2024, 1, 2, 0, 0, 1), DateTimeCat::Days),
        (dt(2024, 2, 1, 0, 0, 0), DateTimeCat::Days),
        (dt(2024, 2, 1, 0, 0, 1), DateTimeCat::Months),
        (dt(2025, 1, 6, 0, 0, 0), DateTimeCat::Months),
        (dt(2025, 1, 7, 0, 0, 1), DateTimeCat::Years),
    ];
    for (end, expected) in cases {
        let events = vec![ev(base, LogLevel::Info), ev(end, LogLevel::Error)];
        let a = analyse_logs(&events).unwrap();
        assert_eq!(a.datetime_cat, expected);
    }
}

#[test]
fn three_events_in_one_minute_span() {
    // events 5 s, 30 s and 70 s into the hour: a 65-second span bucketed by
    // minutes, the final partial bucket closed at the last event
    let events = vec![
        ev(dt(2024, 1, 1, 0, 0, 5), LogLevel::Error),
        ev(dt(2024, 1, 1, 0, 0, 30), LogLevel::Info),
        ev(dt(2024, 1, 1, 0, 1, 10), LogLevel::Error),
    ];
    let a = analyse_logs(&events).unwrap();
    assert_eq!(a.datetime_cat, DateTimeCat::Minutes);
    assert_eq!(
        a.datetimes,
        vec![dt(2024, 1, 1, 0, 0, 0), dt(2024, 1, 1, 0, 1, 0), dt(2024, 1, 1, 0, 1, 10)]
    );
    assert_eq!(a.aggregates.get_row(&LogLevel::Error), &vec![1, 1]);
    assert_eq!(a.aggregates.get_row(&LogLevel::Info), &vec![1, 0]);
    assert_eq!(a.aggregates.get_row(&LogLevel::Debug), &vec![0, 0]);
}

#[test]
fn counts_cover_every_level() {
    let events = vec![ev(dt(2024, 1, 1, 0, 0, 5), LogLevel::Warning)];
    let a = analyse_logs(&events).unwrap();
    let n_buckets = a.datetimes.len() - 1;
    let levels = [
        LogLevel::Emergency,
        LogLevel::Alert,
        LogLevel::Critical,
        LogLevel::Error,
        LogLevel::Warning,
        LogLevel::Notice,
        LogLevel::Info,
        LogLevel::Debug,
        LogLevel::Others,
    ];
    for level in levels {
        assert_eq!(a.aggregates.get_row(&level).len(), n_buckets);
    }
}

#[test]
fn single_instant_yields_one_bucket() {
    let events = vec![ev(dt(2024, 6, 15, 10, 20, 30), LogLevel::Notice)];
    let a = analyse_logs(&events).unwrap();
    assert_eq!(a.datetime_cat, DateTimeCat::Seconds);
    assert_eq!(
        a.datetimes,
        vec![dt(2024, 6, 15, 10, 20, 30), dt(2024, 6, 15, 10, 20, 31)]
    );
    assert_eq!(a.aggregates.get_row(&LogLevel::Notice), &vec![1]);
}

#[test]
fn subsecond_tail_keeps_the_last_event() {
    // two events within one second of each other but with a sub-second
    // remainder: the extra partial second is still represented
    let first = DateTime::new(2024, 1, 1, 0, 0, 1, 500_000_000).unwrap();
    let last = DateTime::new(2024, 1, 1, 0, 0, 2, 250_000_000).unwrap();
    let events = vec![ev(first, LogLevel::Error), ev(last, LogLevel::Error)];
    let a = analyse_logs(&events).unwrap();
    assert_eq!(a.datetime_cat, DateTimeCat::Seconds);
    let total: i32 = a.aggregates.get_row(&LogLevel::Error).iter().sum();
    assert_eq!(total, 2);
    assert_eq!(*a.datetimes.last().unwrap(), last);
}

#[test]
fn empty_input_is_rejected() {
    let events: Vec<LogEvent> = Vec::new();
    let r = analyse_logs(&events);
    assert!(r.is_err());
    assert_eq!(
        r.err().unwrap().message(),
        "no events given, nothing to aggregate"
    );
}

#[test]
fn months_series_follows_the_calendar() {
    // a span from mid-January to mid-March is bucketed by months anchored at
    // the first of each month
    let events = vec![
        ev(dt(2024, 1, 15, 8, 0, 0), LogLevel::Error),
        ev(dt(2024, 2, 2, 9, 0, 0), LogLevel::Info),
        ev(dt(2024, 3, 20, 10, 0, 0), LogLevel::Error),
    ];
    let a = analyse_logs(&events).unwrap();
    assert_eq!(a.datetime_cat, DateTimeCat::Months);
    assert_eq!(a.datetimes[0], dt(2024, 1, 1, 0, 0, 0));
    assert_eq!(a.datetimes[1], dt(2024, 2, 1, 0, 0, 0));
    assert_eq!(a.datetimes[2], dt(2024, 3, 1, 0, 0, 0));
    assert_eq!(*a.datetimes.last().unwrap(), dt(2024, 3, 20, 10, 0, 0));
    assert_eq!(a.aggregates.get_row(&LogLevel::Error), &vec![1, 0, 1]);
    assert_eq!(a.aggregates.get_row(&LogLevel::Info), &vec![0, 1, 0]);
}

#[test]
fn years_series_counts_every_event() {
    let events = vec![
        ev(dt(2020, 5, 1, 0, 0, 0), LogLevel::Warning),
        ev(dt(2021, 7, 1, 0, 0, 0), LogLevel::Warning),
        ev(dt(2023, 2, 1, 0, 0, 0), LogLevel::Critical),
    ];
    let a = analyse_logs(&events).unwrap();
    assert_eq!(a.datetime_cat, DateTimeCat::Years);
    assert_eq!(a.datetimes[0], dt(2020, 1, 1, 0, 0, 0));
    let warning_total: i32 = a.aggregates.get_row(&LogLevel::Warning).iter().sum();
    let critical_total: i32 = a.aggregates.get_row(&LogLevel::Critical).iter().sum();
    assert_eq!(warning_total, 2);
    assert_eq!(critical_total, 1);
}

#[test]
fn boundaries_are_strictly_increasing_and_trimmed() {
    let events = vec![
        ev(dt(2024, 1, 1, 3, 4, 5), LogLevel::Debug),
        ev(dt(2024, 1, 3, 23, 59, 59), LogLevel::Debug),
    ];
    let a = analyse_logs(&events).unwrap();
    assert_eq!(a.datetime_cat, DateTimeCat::Days);
    let max = dt(2024, 1, 3, 23, 59, 59);
    for w in a.datetimes.windows(2) {
        assert!(w[0].to_secs() < w[1].to_secs());
    }
    for b in &a.datetimes {
        assert!(b.to_secs() <= max.to_secs());
    }
}

#[test]
fn event_on_a_boundary_counts_once() {
    // the second event sits exactly on a minute boundary and on the batch
    // end: it is absorbed into the final bucket, not dropped or doubled
    let events = vec![
        ev(dt(2024, 1, 1, 0, 0, 10), LogLevel::Error),
        ev(dt(2024, 1, 1, 0, 2, 0), LogLevel::Error),
    ];
    let a = analyse_logs(&events).unwrap();
    assert_eq!(a.datetime_cat, DateTimeCat::Minutes);
    let total: i32 = a.aggregates.get_row(&LogLevel::Error).iter().sum();
    assert_eq!(total, 2);
    assert_eq!(a.datetimes, vec![dt(2024, 1, 1, 0, 0, 0), dt(2024, 1, 1, 0, 1, 0), dt(2024, 1, 1, 0, 2, 0)]);
    assert_eq!(a.aggregates.get_row(&LogLevel::Error), &vec![1, 1]);
}

#[test]
fn hours_series_anchors_at_the_hour() {
    let events = vec![
        ev(dt(2024, 1, 1, 9, 40, 0), LogLevel::Info),
        ev(dt(2024, 1, 1, 12, 10, 0), LogLevel::Error),
    ];
    let a = analyse_logs(&events).unwrap();
    assert_eq!(a.datetime_cat, DateTimeCat::Hours);
    assert_eq!(a.datetimes[0], dt(2024, 1, 1, 9, 0, 0));
    assert_eq!(a.datetimes[1], dt(2024, 1, 1, 10, 0, 0));
    assert_eq!(*a.datetimes.last().unwrap(), dt(2024, 1, 1, 12, 10, 0));
    assert_eq!(a.aggregates.get_row(&LogLevel::Info), &vec![1, 0, 0, 0]);
    assert_eq!(a.aggregates.get_row(&LogLevel::Error), &vec![0, 0, 0, 1]);
}

#[test]
fn per_level_totals_match_the_batch() {
    let events = vec![
        ev(dt(2024, 3, 1, 0, 0, 1), LogLevel::Error),
        ev(dt(2024, 3, 1, 0, 2, 30), LogLevel::Error),
        ev(dt(2024, 3, 1, 0, 5, 59), LogLevel::Info),
        ev(dt(2024, 3, 1, 0, 7, 0), LogLevel::Warning),
        ev(dt(2024, 3, 1, 0, 7, 0), LogLevel::Error),
    ];
    let a = analyse_logs(&events).unwrap();
    let totals = sum_of_log_occ(&a.aggregates);
    assert_eq!(totals.get(&LogLevel::Error), 3);
    assert_eq!(totals.get(&LogLevel::Info), 1);
    assert_eq!(totals.get(&LogLevel::Warning), 1);
    assert_eq!(totals.get(&LogLevel::Debug), 0);
}
