//! The aggregation pipeline: severity classification, granularity selection,
//! boundary generation, counting and trimming.

pub mod aggregate;
pub mod calc;
pub mod dtfmt;
pub mod loglevel;

use vstd::arithmetic::div_mod::{lemma_fundamental_div_mod, lemma_fundamental_div_mod_converse};
use crate::analyse::aggregate::{fixed_series_shape, month_series_shape};
use vstd::prelude::*;

use crate::analyse::aggregate::{
    aggregate_in_terms_of_days, aggregate_in_terms_of_hours, aggregate_in_terms_of_minutes,
    aggregate_in_terms_of_months, aggregate_in_terms_of_seconds, aggregate_in_terms_of_years,
    series_wf, LogEvent,
};
use crate::analyse::dtfmt::DateTimeCat;
use crate::analyse::loglevel::LogLevelCountVecMap;
use crate::datetime::{
    days_before_year, key_lt, lemma_days_before_year_bounds, lemma_key_le_year,
    lemma_key_pair_order, lemma_secs_in_limit, lemma_secs_limit_bound, lemma_secs_year_bound,
    secs_limit, DateTime, MAX_EVENT_YEAR, MAX_YEAR,
};

verus! {

/// The terminal artifact of one aggregation run: the kept bucket boundaries,
/// the granularity they follow, and one row of per-bucket counts per
/// severity level.
pub struct LogsAggregate {
    pub datetimes: Vec<DateTime>,
    pub datetime_cat: DateTimeCat,
    pub aggregates: LogLevelCountVecMap,
}

/// Rejects an aggregation request over an empty event list: without at least
/// one event there is no time range to bucket.
#[derive(Debug, PartialEq, Eq, Copy, Clone, Structural)]
pub struct EmptyInputError;

impl EmptyInputError {
    /// What went wrong, for display by a caller.
    pub fn message(&self) -> (m: &'static str)
        ensures
            m@ == "no events given, nothing to aggregate"@,
    {
        "no events given, nothing to aggregate"
    }
}

/// The granularity thresholds, in seconds: a span must strictly exceed a
/// threshold to be bucketed at the coarser granularity.
pub const MIN_SECONDS: i64 = 60;

/// One hour.
pub const HOUR_SECONDS: i64 = MIN_SECONDS * 60;

/// One day.
pub const DAY_SECONDS: i64 = HOUR_SECONDS * 24;

/// A month at its longest: 31 days.
pub const MONTH_SECONDS: i64 = DAY_SECONDS * 31;

/// Twelve of the longest months.
pub const YEAR_SECONDS: i64 = MONTH_SECONDS * 12;

/// The coarsest granularity whose threshold the span strictly exceeds;
/// a span of at most one minute is bucketed in seconds. A span exactly at a
/// threshold falls through to the next finer granularity.
pub open spec fn spec_granularity(span: int) -> DateTimeCat {
    if span > YEAR_SECONDS {
        DateTimeCat::Years
    } else if span > MONTH_SECONDS {
        DateTimeCat::Months
    } else if span > DAY_SECONDS {
        DateTimeCat::Days
    } else if span > HOUR_SECONDS {
        DateTimeCat::Hours
    } else if span > MIN_SECONDS {
        DateTimeCat::Minutes
    } else {
        DateTimeCat::Seconds
    }
}

/// The smallest key among the events' instants.
pub open spec fn min_event_key(events: Seq<LogEvent>) -> int
    decreases events.len(),
{
    if events.len() <= 1 {
        events[0].datetime.key()
    } else {
        let m = min_event_key(events.drop_last());
        if events.last().datetime.key() < m {
            events.last().datetime.key()
        } else {
            m
        }
    }
}

/// The largest key among the events' instants.
pub open spec fn max_event_key(events: Seq<LogEvent>) -> int
    decreases events.len(),
{
    if events.len() <= 1 {
        events[0].datetime.key()
    } else {
        let m = max_event_key(events.drop_last());
        if events.last().datetime.key() > m {
            events.last().datetime.key()
        } else {
            m
        }
    }
}

/// The observed span in whole seconds: the difference of the two keys,
/// rounded down to seconds.
pub open spec fn spec_span_seconds(mink: int, maxk: int) -> int {
    (maxk - mink) / 1_000_000_000
}

/// Whether the observed span has a sub-second remainder.
pub open spec fn spec_span_has_subsec(mink: int, maxk: int) -> bool {
    (maxk - mink) % 1_000_000_000 != 0
}

/// Both event extrema leave ample second-count headroom below the supported
/// calendar's ceiling for the boundaries generated past them.
proof fn lemma_event_headroom(mindt: DateTime, maxdt: DateTime)
    requires
        mindt.valid(),
        maxdt.valid(),
        mindt.year <= MAX_EVENT_YEAR,
        maxdt.year <= MAX_EVENT_YEAR,
    ensures
        mindt.spec_secs() + 2_900_000 < secs_limit(),
        maxdt.spec_secs() + 86400 < secs_limit(),
{
    lemma_secs_year_bound(mindt);
    lemma_secs_year_bound(maxdt);
    lemma_days_before_year_bounds(1, mindt.year as int + 1);
    lemma_days_before_year_bounds(mindt.year as int + 1, MAX_YEAR as int + 1);
    lemma_days_before_year_bounds(1, maxdt.year as int + 1);
    lemma_days_before_year_bounds(maxdt.year as int + 1, MAX_YEAR as int + 1);
    let dmin = days_before_year(mindt.year as int + 1);
    let dmax = days_before_year(maxdt.year as int + 1);
    let dcap = days_before_year(MAX_YEAR as int + 1);
    assert(dmin + 365 * 6 <= dcap);
    assert(dmax + 365 * 6 <= dcap);
    assert((dmin + 2190) * 86400 <= dcap * 86400 && (dmax + 2190) * 86400 <= dcap * 86400)
        by (nonlinear_arith)
        requires
            dmin + 2190 <= dcap,
            dmax + 2190 <= dcap,
    ;
    assert((dmin + 2190) * 86400 == dmin * 86400 + 2190 * 86400) by (nonlinear_arith);
    assert((dmax + 2190) * 86400 == dmax * 86400 + 2190 * 86400) by (nonlinear_arith);
}

/// Rounding a non-negative count up to whole units never overshoots by a
/// full unit.
proof fn lemma_ceil_div_bound(a: int, b: int, q: int)
    requires
        0 <= a,
        1 <= b,
        q == (a + b - 1) / b,
    ensures
        q * b <= a + b - 1,
        a <= q * b,
        0 <= q,
{
    lemma_fundamental_div_mod(a + b - 1, b);
    assert(0 <= (a + b - 1) % b < b) by (nonlinear_arith)
        requires
            1 <= b,
    ;
    assert(q * b == b * q) by (nonlinear_arith);
    assert(0 <= q) by (nonlinear_arith)
        requires
            0 <= q * b,
            1 <= b,
    ;
}

/// The earliest and latest event instants of a non-empty batch.
fn find_extrema(log_data: &Vec<LogEvent>) -> (r: (DateTime, DateTime))
    requires
        log_data@.len() >= 1,
        forall|i: int|
            0 <= i < log_data@.len() ==> (#[trigger] log_data@[i]).datetime.valid()
                && log_data@[i].datetime.year <= MAX_EVENT_YEAR,
    ensures
        r.0.valid(),
        r.1.valid(),
        r.0.year <= MAX_EVENT_YEAR,
        r.1.year <= MAX_EVENT_YEAR,
        r.0.key() == min_event_key(log_data@),
        r.1.key() == max_event_key(log_data@),
        forall|j: int|
            0 <= j < log_data@.len() ==> r.0.key() <= (#[trigger] log_data@[j]).datetime.key()
                <= r.1.key(),
{
    let n = log_data.len();
    let mut mindt = log_data[0].datetime;
    let mut maxdt = log_data[0].datetime;
    let mut i: usize = 1;
    while i < n
        invariant
            1 <= i <= n,
            n == log_data@.len(),
            forall|j: int|
                0 <= j < log_data@.len() ==> (#[trigger] log_data@[j]).datetime.valid()
                    && log_data@[j].datetime.year <= MAX_EVENT_YEAR,
            mindt.valid(),
            maxdt.valid(),
            mindt.year <= MAX_EVENT_YEAR,
            maxdt.year <= MAX_EVENT_YEAR,
            mindt.key() == min_event_key(log_data@.take(i as int)),
            maxdt.key() == max_event_key(log_data@.take(i as int)),
            forall|j: int|
                0 <= j < i ==> mindt.key() <= (#[trigger] log_data@[j]).datetime.key()
                    <= maxdt.key(),
        decreases n - i,
    {
        let e = &log_data[i];
        proof {
            assert(log_data@.take(i + 1).drop_last() =~= log_data@.take(i as int));
            assert(log_data@.take(i + 1).last() == log_data@[i as int]);
        }
        if key_lt(&e.datetime, &mindt) {
            mindt = e.datetime;
        }
        if key_lt(&maxdt, &e.datetime) {
            maxdt = e.datetime;
        }
        i = i + 1;
    }
    proof {
        assert(log_data@.take(n as int) =~= log_data@);
    }
    (mindt, maxdt)
}

/// The whole-second span between two instants, and whether a sub-second
/// remainder is left over.
fn span_seconds(mindt: &DateTime, maxdt: &DateTime) -> (r: (i64, bool))
    requires
        mindt.valid(),
        maxdt.valid(),
        mindt.key() <= maxdt.key(),
    ensures
        r.0 == spec_span_seconds(mindt.key(), maxdt.key()),
        r.1 == spec_span_has_subsec(mindt.key(), maxdt.key()),
        0 <= r.0 <= maxdt.spec_secs() - mindt.spec_secs(),
{
    let smin = mindt.to_secs();
    let smax = maxdt.to_secs();
    let mut span: i64 = smax - smin;
    let dn: i64;
    proof {
        lemma_key_pair_order(*mindt, *maxdt);
    }
    if maxdt.nanosecond >= mindt.nanosecond {
        dn = (maxdt.nanosecond - mindt.nanosecond) as i64;
    } else {
        span = span - 1;
        dn = (maxdt.nanosecond as i64) - (mindt.nanosecond as i64) + 1_000_000_000;
    }
    let subsec = dn != 0;
    proof {
        assert(maxdt.key() - mindt.key() == span * 1_000_000_000 + dn) by (nonlinear_arith)
            requires
                mindt.key() == mindt.spec_secs() * 1_000_000_000 + mindt.nanosecond,
                maxdt.key() == maxdt.spec_secs() * 1_000_000_000 + maxdt.nanosecond,
                smin == mindt.spec_secs(),
                smax == maxdt.spec_secs(),
                span == smax - smin - (if maxdt.nanosecond >= mindt.nanosecond {
                    0int
                } else {
                    1int
                }),
                dn == maxdt.nanosecond - mindt.nanosecond + (
                if maxdt.nanosecond >= mindt.nanosecond {
                    0int
                } else {
                    1_000_000_000int
                }),
        ;
        lemma_fundamental_div_mod_converse(
            maxdt.key() - mindt.key(),
            1_000_000_000,
            span as int,
            dn as int,
        );
    }
    (span, subsec)
}

/// The earliest event sits inside the unit that its truncation opens.
proof fn lemma_fixed_floor(b0: DateTime, mindt: DateTime, unit: int)
    requires
        1 <= unit,
        b0.nanosecond == 0,
        mindt.nanosecond < 1_000_000_000,
        b0.spec_secs() <= mindt.spec_secs() <= b0.spec_secs() + unit - 1,
    ensures
        b0.key() <= mindt.key() < b0.key() + unit * 1_000_000_000,
{
    assert(b0.key() <= mindt.key() && mindt.key() < b0.key() + unit * 1_000_000_000)
        by (nonlinear_arith)
        requires
            b0.key() == b0.spec_secs() * 1_000_000_000,
            mindt.key() == mindt.spec_secs() * 1_000_000_000 + mindt.nanosecond,
            mindt.nanosecond < 1_000_000_000,
            0 <= mindt.nanosecond,
            b0.spec_secs() <= mindt.spec_secs() <= b0.spec_secs() + unit - 1,
    ;
}

/// The month-ladder layout follows from the month aggregation's promises.
proof fn lemma_month_shape(dts: Seq<DateTime>, step: int, maxk: int)
    requires
        dts.len() >= 2,
        forall|i: int|
            0 <= i < dts.len() - 1 ==> (#[trigger] dts[i]).is_month_start() && dts[i].month_index()
                == dts[0].month_index() + i * step,
        ((dts[dts.len() - 1].is_month_start() && dts[dts.len() - 1].month_index()
            == dts[0].month_index() + (dts.len() - 1) * step) || dts[dts.len() - 1].key() == maxk),
    ensures
        month_series_shape(dts, step, maxk),
{
}

/// A multiple of the unit leaves no remainder.
proof fn lemma_unit_multiple(x: int, q: int, u: int)
    requires
        0 < u,
        x == u * q,
    ensures
        x % u == 0,
{
    assert(x == q * u + 0) by (nonlinear_arith)
        requires
            x == u * q,
    ;
    lemma_fundamental_div_mod_converse(x, u, q, 0);
}

/// Selects a granularity from the observed span, generates and fills the
/// bucket series, trims it at the last event, and returns it together with
/// the chosen granularity; an empty batch is rejected.
pub fn analyse_logs(log_data: &Vec<LogEvent>) -> (r: Result<LogsAggregate, EmptyInputError>)
    requires
        forall|i: int|
            0 <= i < log_data@.len() ==> (#[trigger] log_data@[i]).datetime.valid()
                && log_data@[i].datetime.year <= MAX_EVENT_YEAR,
        log_data@.len() <= i32::MAX,
    ensures
        r is Err <==> log_data@.len() == 0,
        r matches Ok(a) ==> ({
            let mink = min_event_key(log_data@);
            let maxk = max_event_key(log_data@);
            &&& a.datetime_cat == spec_granularity(spec_span_seconds(mink, maxk))
            &&& a.datetimes@[0].key() <= mink
            &&& series_wf(a, log_data@, maxk)
            &&& (a.datetime_cat == DateTimeCat::Seconds ==> fixed_series_shape(
                a.datetimes@,
                1,
                mink,
                maxk,
            ))
            &&& (a.datetime_cat == DateTimeCat::Minutes ==> fixed_series_shape(
                a.datetimes@,
                60,
                mink,
                maxk,
            ))
            &&& (a.datetime_cat == DateTimeCat::Hours ==> fixed_series_shape(
                a.datetimes@,
                3600,
                mink,
                maxk,
            ))
            &&& (a.datetime_cat == DateTimeCat::Days ==> fixed_series_shape(
                a.datetimes@,
                86400,
                mink,
                maxk,
            ))
            &&& (a.datetime_cat == DateTimeCat::Months ==> month_series_shape(
                a.datetimes@,
                1,
                maxk,
            ))
            &&& (a.datetime_cat == DateTimeCat::Years ==> month_series_shape(
                a.datetimes@,
                12,
                maxk,
            ))
        }),
{
    let n = log_data.len();
    if n == 0 {
        return Err(EmptyInputError);
    }
    let extrema = find_extrema(log_data);
    let mindt = extrema.0;
    let maxdt = extrema.1;
    let sp = span_seconds(&mindt, &maxdt);
    let span = sp.0;
    let subsec = sp.1;
    proof {
        lemma_event_headroom(mindt, maxdt);
        lemma_key_le_year(mindt, maxdt);
        lemma_secs_year_bound(mindt);
        lemma_secs_year_bound(maxdt);
        lemma_secs_limit_bound();
        lemma_secs_in_limit(mindt);
        lemma_secs_in_limit(maxdt);
    }
    if span > YEAR_SECONDS {
        let duration_years = (span + (YEAR_SECONDS - 1)) / YEAR_SECONDS;
        proof {
            let dy = maxdt.year - mindt.year;
            lemma_days_before_year_bounds(mindt.year as int, maxdt.year as int + 1);
            assert(span <= 31622400 * (dy + 1));
            lemma_ceil_div_bound(span as int, YEAR_SECONDS as int, duration_years as int);
            assert(duration_years <= dy + 1) by (nonlinear_arith)
                requires
                    duration_years * 32140800 <= span + 32140799,
                    span <= 31622400 * (dy + 1),
                    0 <= dy,
            ;
        }
        let a = aggregate_in_terms_of_years(log_data, &mindt, &maxdt, duration_years);
        proof {
            lemma_month_shape(a.datetimes@, 12, maxdt.key());
        }
        Ok(a)
    } else if span > MONTH_SECONDS {
        let duration_months = (span + (MONTH_SECONDS - 1)) / MONTH_SECONDS;
        proof {
            lemma_ceil_div_bound(span as int, MONTH_SECONDS as int, duration_months as int);
            assert(duration_months <= 12);
            assert(mindt.month_index() + duration_months + 2 <= 12 * (MAX_YEAR as int) + 11);
        }
        let a = aggregate_in_terms_of_months(log_data, &mindt, &maxdt, duration_months);
        proof {
            lemma_month_shape(a.datetimes@, 1, maxdt.key());
        }
        Ok(a)
    } else if span > DAY_SECONDS {
        let duration_days = (span + (DAY_SECONDS - 1)) / DAY_SECONDS;
        proof {
            lemma_ceil_div_bound(span as int, DAY_SECONDS as int, duration_days as int);
            assert(duration_days <= 31);
        }
        let a = aggregate_in_terms_of_days(log_data, &mindt, &maxdt, duration_days);
        proof {
            let b0 = a.datetimes@[0];
            assert(b0.spec_secs() == 86400 * b0.spec_days());
            lemma_unit_multiple(b0.spec_secs(), b0.spec_days(), 86400);
            assert(mindt.spec_secs() <= b0.spec_secs() + 86399);
            lemma_fixed_floor(b0, mindt, 86400);
        }
        Ok(a)
    } else if span > HOUR_SECONDS {
        let duration_hours = (span + (HOUR_SECONDS - 1)) / HOUR_SECONDS;
        proof {
            lemma_ceil_div_bound(span as int, HOUR_SECONDS as int, duration_hours as int);
            assert(duration_hours <= 24);
        }
        let a = aggregate_in_terms_of_hours(log_data, &mindt, &maxdt, duration_hours);
        proof {
            let b0 = a.datetimes@[0];
            assert(b0.spec_secs() == 3600 * (b0.spec_days() * 24 + b0.hour));
            lemma_unit_multiple(b0.spec_secs(), b0.spec_days() * 24 + b0.hour, 3600);
            assert(mindt.spec_secs() <= b0.spec_secs() + 3599);
            lemma_fixed_floor(b0, mindt, 3600);
        }
        Ok(a)
    } else if span > MIN_SECONDS {
        let duration_mins = (span + (MIN_SECONDS - 1)) / MIN_SECONDS;
        proof {
            lemma_ceil_div_bound(span as int, MIN_SECONDS as int, duration_mins as int);
            assert(duration_mins <= 60);
        }
        let a = aggregate_in_terms_of_minutes(log_data, &mindt, &maxdt, duration_mins);
        proof {
            let b0 = a.datetimes@[0];
            assert(b0.spec_secs() == 60 * (b0.spec_days() * 1440 + b0.hour * 60 + b0.minute));
            lemma_unit_multiple(
                b0.spec_secs(),
                b0.spec_days() * 1440 + b0.hour * 60 + b0.minute,
                60,
            );
            assert(mindt.spec_secs() <= b0.spec_secs() + 59);
            lemma_fixed_floor(b0, mindt, 60);
        }
        Ok(a)
    } else {
        let duration_secs: i64 = if subsec {
            span + 1
        } else {
            span
        };
        let a = aggregate_in_terms_of_seconds(log_data, &mindt, &maxdt, duration_secs);
        proof {
            let b0 = a.datetimes@[0];
            assert(b0.spec_secs() == 1 * b0.spec_secs());
            lemma_unit_multiple(b0.spec_secs(), b0.spec_secs(), 1);
            assert(mindt.spec_secs() <= b0.spec_secs());
            lemma_fixed_floor(b0, mindt, 1);
        }
        Ok(a)
    }
}

} // verus!
