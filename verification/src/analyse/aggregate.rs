//! Bucket boundary generation, per-bucket counting over half-open intervals,
//! and trimming of the speculative tail past the last observed event.

use vstd::prelude::*;

use crate::analyse::dtfmt::DateTimeCat;
use crate::analyse::LogsAggregate;
use crate::analyse::loglevel::{
    lemma_index_level_bijective, lemma_level_index_bijective, level_of_index, LogLevel,
    LogLevelCountMap, LogLevelCountVecMap,
};
use crate::datetime::{
    key_le, key_lt, lemma_key_pair_order, lemma_key_strict_mono, lemma_secs_in_limit,
    lemma_secs_limit_bound, secs_limit, DateTime, MAX_YEAR,
};

verus! {

/// One parsed log event: when it happened and how severe it was.
#[derive(Debug, PartialEq, Eq, Copy, Clone, Structural)]
pub struct LogEvent {
    pub datetime: DateTime,
    pub loglevel: LogLevel,
}

/// Whether the event's instant falls in the half-open key interval
/// `[lo, hi)`.
pub open spec fn event_in_range(e: LogEvent, lo: int, hi: int) -> bool {
    lo <= e.datetime.key() < hi
}

/// How many events of severity `level` fall in the half-open key interval
/// `[lo, hi)`.
pub open spec fn count_in(events: Seq<LogEvent>, lo: int, hi: int, level: LogLevel) -> int
    decreases events.len(),
{
    if events.len() == 0 {
        0
    } else {
        count_in(events.drop_last(), lo, hi, level) + if event_in_range(events.last(), lo, hi)
            && events.last().loglevel == level {
            1int
        } else {
            0int
        }
    }
}

/// How many events carry severity `level`, over the whole batch.
pub open spec fn count_level(events: Seq<LogEvent>, level: LogLevel) -> int
    decreases events.len(),
{
    if events.len() == 0 {
        0
    } else {
        count_level(events.drop_last(), level) + if events.last().loglevel == level {
            1int
        } else {
            0int
        }
    }
}

/// Range counts never leave `0..=events.len()`.
pub proof fn lemma_count_in_bounds(events: Seq<LogEvent>, lo: int, hi: int, level: LogLevel)
    ensures
        0 <= count_in(events, lo, hi, level) <= events.len(),
        0 <= count_level(events, level) <= events.len(),
    decreases events.len(),
{
    if events.len() > 0 {
        lemma_count_in_bounds(events.drop_last(), lo, hi, level);
    }
}

/// An empty or reversed interval holds no events.
pub proof fn lemma_count_in_degenerate(events: Seq<LogEvent>, lo: int, hi: int, level: LogLevel)
    requires
        hi <= lo,
    ensures
        count_in(events, lo, hi, level) == 0,
    decreases events.len(),
{
    if events.len() > 0 {
        lemma_count_in_degenerate(events.drop_last(), lo, hi, level);
    }
}

/// Splitting an interval at an interior point splits its count: every event
/// of `[lo, hi)` lands in exactly one of `[lo, mid)` and `[mid, hi)`.
pub proof fn lemma_count_in_split(
    events: Seq<LogEvent>,
    lo: int,
    mid: int,
    hi: int,
    level: LogLevel,
)
    requires
        lo <= mid <= hi,
    ensures
        count_in(events, lo, hi, level) == count_in(events, lo, mid, level) + count_in(
            events,
            mid,
            hi,
            level,
        ),
    decreases events.len(),
{
    if events.len() > 0 {
        lemma_count_in_split(events.drop_last(), lo, mid, hi, level);
    }
}

/// An interval past every event holds none of them.
pub proof fn lemma_count_in_past_events(
    events: Seq<LogEvent>,
    emax: int,
    lo: int,
    hi: int,
    level: LogLevel,
)
    requires
        forall|i: int| 0 <= i < events.len() ==> (#[trigger] events[i]).datetime.key() <= emax,
        lo > emax,
    ensures
        count_in(events, lo, hi, level) == 0,
    decreases events.len(),
{
    if events.len() > 0 {
        lemma_count_in_past_events(events.drop_last(), emax, lo, hi, level);
    }
}

/// An interval that starts at or before every event and ends past every
/// event counts the whole batch for each level.
pub proof fn lemma_count_in_covers(
    events: Seq<LogEvent>,
    lo: int,
    hi: int,
    level: LogLevel,
)
    requires
        forall|i: int|
            0 <= i < events.len() ==> lo <= (#[trigger] events[i]).datetime.key() < hi,
    ensures
        count_in(events, lo, hi, level) == count_level(events, level),
    decreases events.len(),
{
    if events.len() > 0 {
        lemma_count_in_covers(events.drop_last(), lo, hi, level);
    }
}

/// Sum of a row of per-bucket counts.
pub open spec fn sum_row(s: Seq<i32>) -> int
    decreases s.len(),
{
    if s.len() == 0 {
        0
    } else {
        sum_row(s.drop_last()) + s.last()
    }
}

/// Boundaries strictly increase by their instant keys.
pub open spec fn boundaries_sorted(bs: Seq<DateTime>) -> bool {
    forall|i: int| 0 <= i < bs.len() - 1 ==> (#[trigger] bs[i].key()) < bs[i + 1].key()
}

/// In a sorted boundary sequence, keys respect the indices.
pub proof fn lemma_sorted_key_le(bs: Seq<DateTime>, i: int, j: int)
    requires
        boundaries_sorted(bs),
        0 <= i <= j < bs.len(),
    ensures
        bs[i].key() <= bs[j].key(),
    decreases j - i,
{
    if i < j {
        lemma_sorted_key_le(bs, i + 1, j);
    }
}

/// Sum of the per-bucket counts of `events` over the adjacent pairs of `bs`.
pub open spec fn sum_bucket_counts(
    events: Seq<LogEvent>,
    bs: Seq<DateTime>,
    level: LogLevel,
) -> int
    decreases bs.len(),
{
    if bs.len() <= 1 {
        0
    } else {
        sum_bucket_counts(events, bs.drop_last(), level) + count_in(
            events,
            bs[bs.len() - 2].key(),
            bs[bs.len() - 1].key(),
            level,
        )
    }
}

/// Law: over strictly increasing boundaries the half-open buckets partition
/// the covered range — the per-bucket counts of a level add up to exactly
/// the number of that level's events between the first and last boundary.
pub proof fn lemma_bucket_partition(events: Seq<LogEvent>, bs: Seq<DateTime>, level: LogLevel)
    requires
        bs.len() >= 1,
        boundaries_sorted(bs),
    ensures
        sum_bucket_counts(events, bs, level) == count_in(
            events,
            bs[0].key(),
            bs[bs.len() - 1].key(),
            level,
        ),
    decreases bs.len(),
{
    let n = bs.len() as int;
    if n == 1 {
        lemma_count_in_degenerate(events, bs[0].key(), bs[0].key(), level);
    } else {
        let prefix = bs.drop_last();
        assert(boundaries_sorted(prefix)) by {
            assert(forall|i: int|
                0 <= i < prefix.len() - 1 ==> (#[trigger] prefix[i].key()) < prefix[i + 1].key())
                by {
                assert(forall|i: int| 0 <= i < prefix.len() ==> prefix[i] == bs[i]);
            }
        }
        lemma_bucket_partition(events, prefix, level);
        lemma_sorted_key_le(bs, 0, n - 2);
        lemma_count_in_split(events, bs[0].key(), bs[n - 2].key(), bs[n - 1].key(), level);
    }
}

/// Law: the buckets are exhaustive over the covered range — every instant
/// between the first and last boundary falls in some bucket, whose index
/// this returns.
pub proof fn lemma_bucket_exists(bs: Seq<DateTime>, t: int) -> (i: int)
    requires
        bs.len() >= 2,
        boundaries_sorted(bs),
        bs[0].key() <= t < bs[bs.len() - 1].key(),
    ensures
        0 <= i < bs.len() - 1,
        bs[i].key() <= t < bs[i + 1].key(),
    decreases bs.len(),
{
    let n = bs.len() as int;
    if t < bs[1].key() {
        0
    } else {
        let rest = bs.subrange(1, n);
        assert(boundaries_sorted(rest)) by {
            assert(forall|i: int| 0 <= i < rest.len() ==> rest[i] == bs[i + 1]);
        }
        let j = lemma_bucket_exists(rest, t);
        j + 1
    }
}

/// Law: the buckets are disjoint — no instant lies in two of them, so with
/// `lemma_bucket_exists` every covered instant falls in exactly one bucket.
pub proof fn lemma_bucket_unique(bs: Seq<DateTime>, t: int, i: int, j: int)
    requires
        boundaries_sorted(bs),
        0 <= i < bs.len() - 1,
        0 <= j < bs.len() - 1,
        bs[i].key() <= t < bs[i + 1].key(),
        bs[j].key() <= t < bs[j + 1].key(),
    ensures
        i == j,
{
    if i < j {
        lemma_sorted_key_le(bs, i + 1, j);
    }
    if j < i {
        lemma_sorted_key_le(bs, j + 1, i);
    }
}

/// Maps a table position back to its level.
pub fn level_from_index(i: usize) -> (l: LogLevel)
    requires
        i < 9,
    ensures
        l == level_of_index(i as int),
{
    if i == 0 {
        LogLevel::Emergency
    } else if i == 1 {
        LogLevel::Alert
    } else if i == 2 {
        LogLevel::Critical
    } else if i == 3 {
        LogLevel::Error
    } else if i == 4 {
        LogLevel::Warning
    } else if i == 5 {
        LogLevel::Notice
    } else if i == 6 {
        LogLevel::Info
    } else if i == 7 {
        LogLevel::Debug
    } else {
        LogLevel::Others
    }
}

/// Counts the events of one severity level inside the half-open interval
/// `[from_dt, to_dt)`.
pub fn count_level_in_range(
    log_data: &Vec<LogEvent>,
    from_dt: &DateTime,
    to_dt: &DateTime,
    level: &LogLevel,
) -> (c: i32)
    requires
        forall|i: int| 0 <= i < log_data@.len() ==> (#[trigger] log_data@[i]).datetime.valid(),
        from_dt.valid(),
        to_dt.valid(),
        log_data@.len() <= i32::MAX,
    ensures
        c == count_in(log_data@, from_dt.key(), to_dt.key(), *level),
        0 <= c <= log_data@.len(),
{
    let fs = from_dt.to_secs();
    let ts = to_dt.to_secs();
    let mut c: i32 = 0;
    let mut i: usize = 0;
    while i < log_data.len()
        invariant
            0 <= i <= log_data@.len() <= i32::MAX,
            forall|k: int| 0 <= k < log_data@.len() ==> (#[trigger] log_data@[k]).datetime.valid(),
            from_dt.valid(),
            to_dt.valid(),
            fs == from_dt.spec_secs(),
            ts == to_dt.spec_secs(),
            c == count_in(log_data@.take(i as int), from_dt.key(), to_dt.key(), *level),
            0 <= c <= i,
        decreases log_data@.len() - i,
    {
        let e = &log_data[i];
        let es = e.datetime.to_secs();
        let at_or_after = fs < es || (fs == es && from_dt.nanosecond <= e.datetime.nanosecond);
        let before_end = es < ts || (es == ts && e.datetime.nanosecond < to_dt.nanosecond);
        proof {
            lemma_key_pair_order(*from_dt, e.datetime);
            lemma_key_pair_order(e.datetime, *to_dt);
            assert(log_data@.take(i + 1).drop_last() =~= log_data@.take(i as int));
            assert(log_data@.take(i + 1).last() == log_data@[i as int]);
        }
        if at_or_after && before_end && e.loglevel == *level {
            c = c + 1;
        }
        i = i + 1;
    }
    proof {
        assert(log_data@.take(log_data@.len() as int) =~= log_data@);
    }
    c
}

/// Counts, per severity level, the events in the half-open interval
/// `[from_dt, to_dt)`; every one of the nine levels gets an entry.
pub fn count_log_levels(
    log_data: &Vec<LogEvent>,
    from_dt: &DateTime,
    to_dt: &DateTime,
) -> (m: LogLevelCountMap)
    requires
        forall|i: int| 0 <= i < log_data@.len() ==> (#[trigger] log_data@[i]).datetime.valid(),
        from_dt.valid(),
        to_dt.valid(),
        log_data@.len() <= i32::MAX,
    ensures
        m.wf(),
        forall|l: LogLevel| #[trigger] m.spec_get(l) == count_in(
            log_data@,
            from_dt.key(),
            to_dt.key(),
            l,
        ),
{
    let mut counts: Vec<i32> = Vec::new();
    let mut li: usize = 0;
    while li < 9
        invariant
            0 <= li <= 9,
            counts@.len() == li,
            forall|i: int| 0 <= i < log_data@.len() ==> (#[trigger] log_data@[i]).datetime.valid(),
            from_dt.valid(),
            to_dt.valid(),
            log_data@.len() <= i32::MAX,
            forall|j: int| 0 <= j < li ==> #[trigger] counts@[j] == count_in(
                log_data@,
                from_dt.key(),
                to_dt.key(),
                level_of_index(j),
            ),
        decreases 9 - li,
    {
        let level = level_from_index(li);
        let c = count_level_in_range(log_data, from_dt, to_dt, &level);
        counts.push(c);
        li = li + 1;
    }
    let m = LogLevelCountMap { counts };
    proof {
        assert forall|l: LogLevel| #[trigger] m.spec_get(l) == count_in(
            log_data@,
            from_dt.key(),
            to_dt.key(),
            l,
        ) by {
            lemma_level_index_bijective(l);
        }
    }
    m
}

/// Counts events per bucket and severity level over the adjacent pairs of
/// `datetimes`: row `l` position `i` holds the events of level `l` in
/// `[datetimes[i], datetimes[i+1])`.
pub fn aggregate_logs(datetimes: &Vec<DateTime>, log_data: &Vec<LogEvent>) -> (m:
    LogLevelCountVecMap)
    requires
        datetimes@.len() >= 1,
        forall|i: int| 0 <= i < datetimes@.len() ==> (#[trigger] datetimes@[i]).valid(),
        forall|i: int| 0 <= i < log_data@.len() ==> (#[trigger] log_data@[i]).datetime.valid(),
        log_data@.len() <= i32::MAX,
    ensures
        m.wf(),
        forall|l: LogLevel| (#[trigger] m.row(l)).len() == datetimes@.len() - 1,
        forall|l: LogLevel, i: int|
            0 <= i < datetimes@.len() - 1 ==> #[trigger] m.row(l)[i] == count_in(
                log_data@,
                datetimes@[i].key(),
                datetimes@[i + 1].key(),
                l,
            ),
{
    let n = datetimes.len();
    let mut rows: Vec<Vec<i32>> = Vec::new();
    let mut li: usize = 0;
    while li < 9
        invariant
            0 <= li <= 9,
            rows@.len() == li,
            n == datetimes@.len(),
            n >= 1,
            forall|i: int| 0 <= i < datetimes@.len() ==> (#[trigger] datetimes@[i]).valid(),
            forall|i: int| 0 <= i < log_data@.len() ==> (#[trigger] log_data@[i]).datetime.valid(),
            log_data@.len() <= i32::MAX,
            forall|j: int| 0 <= j < li ==> (#[trigger] rows@[j])@.len() == n - 1,
            forall|j: int, i: int|
                0 <= j < li && 0 <= i < n - 1 ==> (#[trigger] rows@[j]@[i]) == count_in(
                    log_data@,
                    datetimes@[i].key(),
                    datetimes@[i + 1].key(),
                    level_of_index(j),
                ),
        decreases 9 - li,
    {
        let level = level_from_index(li);
        let mut row: Vec<i32> = Vec::new();
        let mut i: usize = 0;
        while i < n - 1
            invariant
                0 <= i <= n - 1,
                n == datetimes@.len(),
                n >= 1,
                row@.len() == i,
                forall|k: int| 0 <= k < datetimes@.len() ==> (#[trigger] datetimes@[k]).valid(),
                forall|k: int|
                    0 <= k < log_data@.len() ==> (#[trigger] log_data@[k]).datetime.valid(),
                log_data@.len() <= i32::MAX,
                level == level_of_index(li as int),
                forall|k: int|
                    0 <= k < i ==> #[trigger] row@[k] == count_in(
                        log_data@,
                        datetimes@[k].key(),
                        datetimes@[k + 1].key(),
                        level_of_index(li as int),
                    ),
            decreases n - 1 - i,
        {
            let c = count_level_in_range(log_data, &datetimes[i], &datetimes[i + 1], &level);
            row.push(c);
            i = i + 1;
        }
        rows.push(row);
        li = li + 1;
    }
    let m = LogLevelCountVecMap { counts: rows };
    proof {
        assert forall|l: LogLevel| (#[trigger] m.row(l)).len() == datetimes@.len() - 1 by {
            lemma_level_index_bijective(l);
        }
        assert forall|l: LogLevel, i: int|
            0 <= i < datetimes@.len() - 1 implies #[trigger] m.row(l)[i] == count_in(
            log_data@,
            datetimes@[i].key(),
            datetimes@[i + 1].key(),
            l,
        ) by {
            lemma_level_index_bijective(l);
        }
    }
    m
}

/// Per-entry view of a row: all counts are non-negative.
pub open spec fn row_nonneg(s: Seq<i32>) -> bool {
    forall|i: int| 0 <= i < s.len() ==> 0 <= #[trigger] s[i]
}

/// A row of non-negative counts has a non-negative sum.
pub proof fn lemma_sum_row_nonneg(s: Seq<i32>)
    requires
        row_nonneg(s),
    ensures
        0 <= sum_row(s),
    decreases s.len(),
{
    if s.len() > 0 {
        assert(row_nonneg(s.drop_last()));
        lemma_sum_row_nonneg(s.drop_last());
    }
}

/// Summing one more entry adds exactly that entry.
pub proof fn lemma_sum_row_take_step(s: Seq<i32>, m: int)
    requires
        0 <= m < s.len(),
    ensures
        sum_row(s.take(m + 1)) == sum_row(s.take(m)) + s[m],
{
    assert(s.take(m + 1).drop_last() =~= s.take(m));
    assert(s.take(m + 1).last() == s[m]);
}

/// With non-negative entries, a prefix sum never exceeds the whole sum.
pub proof fn lemma_sum_row_take_le(s: Seq<i32>, m: int)
    requires
        row_nonneg(s),
        0 <= m <= s.len(),
    ensures
        sum_row(s.take(m)) <= sum_row(s),
    decreases s.len() - m,
{
    if m == s.len() {
        assert(s.take(m) =~= s);
    } else {
        lemma_sum_row_take_step(s, m);
        lemma_sum_row_take_le(s, m + 1);
    }
}

/// With non-negative entries, any two distinct entries sum to at most the
/// row's total.
pub proof fn lemma_sum_row_pair_le(s: Seq<i32>, i: int, j: int)
    requires
        row_nonneg(s),
        0 <= i < j < s.len(),
    ensures
        s[i] + s[j] <= sum_row(s),
{
    assert(row_nonneg(s.take(i as int)));
    lemma_sum_row_nonneg(s.take(i as int));
    lemma_sum_row_take_step(s, i);
    assert(row_nonneg(s.take(i + 1)));
    lemma_sum_row_nonneg(s.take(i + 1));
    lemma_sum_row_take_step(s, j);
    assert(sum_row(s.take(i + 1)) <= sum_row(s.take(j))) by {
        lemma_sum_row_take_le_range(s, i + 1, j);
    }
    lemma_sum_row_take_le(s, j + 1);
}

/// With non-negative entries, prefix sums grow with the prefix.
pub proof fn lemma_sum_row_take_le_range(s: Seq<i32>, m1: int, m2: int)
    requires
        row_nonneg(s),
        0 <= m1 <= m2 <= s.len(),
    ensures
        sum_row(s.take(m1)) <= sum_row(s.take(m2)),
    decreases m2 - m1,
{
    if m1 < m2 {
        lemma_sum_row_take_step(s, m1);
        lemma_sum_row_take_le_range(s, m1 + 1, m2);
    }
}

/// How many leading boundaries of the sorted sequence `bs` sit at or before
/// the instant key `endk`.
pub open spec fn trim_cut(bs: Seq<DateTime>, endk: int) -> int
    decreases bs.len(),
{
    if bs.len() == 0 {
        0
    } else if bs.last().key() <= endk {
        bs.len() as int
    } else {
        trim_cut(bs.drop_last(), endk)
    }
}

/// For sorted boundaries, `trim_cut` separates the ones at or before `endk`
/// from the ones strictly after it.
pub proof fn lemma_trim_cut_props(bs: Seq<DateTime>, endk: int)
    requires
        boundaries_sorted(bs),
    ensures
        0 <= trim_cut(bs, endk) <= bs.len(),
        forall|i: int| 0 <= i < trim_cut(bs, endk) ==> (#[trigger] bs[i].key()) <= endk,
        forall|i: int| trim_cut(bs, endk) <= i < bs.len() ==> (#[trigger] bs[i].key()) > endk,
    decreases bs.len(),
{
    if bs.len() > 0 {
        let n = bs.len() as int;
        if bs.last().key() <= endk {
            assert forall|i: int| 0 <= i < n implies (#[trigger] bs[i].key()) <= endk by {
                lemma_sorted_key_le(bs, i, n - 1);
            }
        } else {
            let prefix = bs.drop_last();
            assert(boundaries_sorted(prefix)) by {
                assert(forall|i: int| 0 <= i < prefix.len() ==> prefix[i] == bs[i]);
            }
            lemma_trim_cut_props(prefix, endk);
            assert forall|i: int| 0 <= i < trim_cut(bs, endk) implies (#[trigger] bs[i].key())
                <= endk by {
                assert(bs[i] == prefix[i]);
            }
            assert forall|i: int| trim_cut(bs, endk) <= i < n implies (#[trigger] bs[i].key())
                > endk by {
                if i < n - 1 {
                    assert(bs[i] == prefix[i]);
                }
            }
        }
    }
}

/// Generates the boundary series for a fixed-width unit of `unit` seconds:
/// `duration + 2` boundaries spaced one unit apart starting at `b0`, then
/// more of the same spacing until the series reaches strictly past `end`.
fn make_fixed_boundaries(b0: DateTime, unit: i64, duration: i64, end: &DateTime) -> (bs: Vec<
    DateTime,
>)
    requires
        b0.valid(),
        b0.nanosecond == 0,
        end.valid(),
        1 <= unit <= 86400,
        0 <= duration,
        b0.spec_secs() + (duration + 2) * unit < secs_limit(),
        end.spec_secs() + unit < secs_limit(),
        b0.key() <= end.key(),
    ensures
        bs@.len() >= duration + 2,
        forall|i: int|
            0 <= i < bs@.len() ==> (#[trigger] bs@[i]).valid() && bs@[i].nanosecond == 0
                && bs@[i].spec_secs() == b0.spec_secs() + i * unit,
        boundaries_sorted(bs@),
        bs@[0] == b0,
        bs@[bs@.len() - 1].key() > end.key(),
        bs@.len() == duration + 2 || bs@[bs@.len() - 2].key() <= end.key(),
{
    proof {
        lemma_secs_limit_bound();
        lemma_secs_in_limit(b0);
        assert(duration + 2 <= (duration + 2) * unit) by (nonlinear_arith)
            requires
                0 <= duration,
                1 <= unit,
        ;
    }
    let mut bs: Vec<DateTime> = Vec::new();
    bs.push(b0);
    let es = end.to_secs();
    let mut prev: i64 = b0.to_secs();
    let mut i: i64 = 1;
    while i <= duration + 1
        invariant
            1 <= i <= duration + 2,
            bs@.len() == i,
            bs@[0] == b0,
            b0.valid(),
            end.valid(),
            1 <= unit <= 86400,
            0 <= duration,
            duration + 2 < secs_limit(),
            secs_limit() < 400_000_000_000,
            b0.spec_secs() + (duration + 2) * unit < secs_limit(),
            es == end.spec_secs(),
            0 <= prev,
            prev == b0.spec_secs() + (i - 1) * unit,
            forall|j: int|
                0 <= j < i ==> (#[trigger] bs@[j]).valid() && bs@[j].nanosecond == 0
                    && bs@[j].spec_secs() == b0.spec_secs() + j * unit,
        decreases duration + 2 - i,
    {
        proof {
            assert(i * unit <= (duration + 2) * unit && (i - 1) * unit + unit == i * unit && 0
                <= (i - 1) * unit) by (nonlinear_arith)
                requires
                    1 <= i <= duration + 2,
                    1 <= unit,
            ;
        }
        let s = prev + unit;
        let b = crate::datetime::datetime_from_secs(s);
        bs.push(b);
        prev = s;
        i = i + 1;
    }
    while prev <= es
        invariant
            bs@.len() >= duration + 2,
            bs@.len() >= 2,
            bs@[0] == b0,
            b0.valid(),
            end.valid(),
            1 <= unit <= 86400,
            0 <= duration,
            secs_limit() < 400_000_000_000,
            es == end.spec_secs(),
            end.spec_secs() + unit < secs_limit(),
            0 <= prev,
            prev == b0.spec_secs() + (bs@.len() - 1) * unit,
            forall|j: int|
                0 <= j < bs@.len() ==> (#[trigger] bs@[j]).valid() && bs@[j].nanosecond == 0
                    && bs@[j].spec_secs() == b0.spec_secs() + j * unit,
            bs@.len() == duration + 2 || bs@[bs@.len() - 2].spec_secs() <= es,
        decreases es + 86400 - prev,
    {
        proof {
            let n = bs@.len() as int;
            assert((n - 1) * unit + unit == n * unit) by (nonlinear_arith);
        }
        let s = prev + unit;
        let b = crate::datetime::datetime_from_secs(s);
        bs.push(b);
        prev = s;
    }
    proof {
        let n = bs@.len() as int;
        assert forall|k: int| 0 <= k < n - 1 implies (#[trigger] bs@[k].key()) < bs@[k
            + 1].key() by {
            assert(k * unit + unit == (k + 1) * unit) by (nonlinear_arith);
            lemma_key_pair_order(bs@[k], bs@[k + 1]);
        }
        assert(bs@[n - 1].spec_secs() == prev);
        lemma_key_pair_order(*end, bs@[n - 1]);
        if n > duration + 2 {
            lemma_key_pair_order(bs@[n - 2], *end);
        }
    }
    bs
}

/// Generates the boundary series for calendar months (`step == 1`) or years
/// (`step == 12`): `duration + 2` month starts spaced `step` months apart
/// starting at `b0`, then more of the same spacing until the series reaches
/// strictly past `end`.
fn make_month_boundaries(b0: DateTime, step: u32, duration: i64, end: &DateTime) -> (bs: Vec<
    DateTime,
>)
    requires
        b0.valid(),
        b0.is_month_start(),
        end.valid(),
        1 <= step <= 12,
        0 <= duration,
        b0.month_index() + (duration + 2) * step <= 12 * (MAX_YEAR as int) + 11,
        end.year + 1 <= MAX_YEAR,
        b0.key() <= end.key(),
    ensures
        bs@.len() >= duration + 2,
        forall|i: int|
            0 <= i < bs@.len() ==> (#[trigger] bs@[i]).valid() && bs@[i].is_month_start()
                && bs@[i].month_index() == b0.month_index() + i * step,
        boundaries_sorted(bs@),
        bs@[0] == b0,
        bs@[bs@.len() - 1].key() > end.key(),
        bs@.len() == duration + 2 || bs@[bs@.len() - 2].key() <= end.key(),
{
    proof {
        assert(duration + 2 <= (duration + 2) * step) by (nonlinear_arith)
            requires
                0 <= duration,
                1 <= step,
        ;
        assert(b0.month_index() >= 12);
    }
    let mut bs: Vec<DateTime> = Vec::new();
    bs.push(b0);
    let es = end.to_secs();
    let mut cur = b0;
    let mut i: i64 = 1;
    while i <= duration + 1
        invariant
            1 <= i <= duration + 2,
            bs@.len() == i,
            bs@[0] == b0,
            b0.valid(),
            b0.is_month_start(),
            end.valid(),
            1 <= step <= 12,
            0 <= duration,
            duration + 2 <= 12 * (MAX_YEAR as int) + 11,
            b0.month_index() + (duration + 2) * step <= 12 * (MAX_YEAR as int) + 11,
            cur == bs@[i - 1],
            cur.valid(),
            cur.is_month_start(),
            cur.month_index() == b0.month_index() + (i - 1) * step,
            forall|j: int|
                0 <= j < i ==> (#[trigger] bs@[j]).valid() && bs@[j].is_month_start()
                    && bs@[j].month_index() == b0.month_index() + j * step,
        decreases duration + 2 - i,
    {
        proof {
            assert(i * step <= (duration + 2) * step && (i - 1) * step + step == i * step && 0
                <= (i - 1) * step) by (nonlinear_arith)
                requires
                    1 <= i <= duration + 2,
                    1 <= step,
            ;
        }
        let b = cur.month_start_plus(step as i64);
        bs.push(b);
        cur = b;
        i = i + 1;
    }
    let mut cs: i64 = cur.to_secs();
    while cs <= es
        invariant
            bs@.len() >= duration + 2,
            bs@.len() >= 2,
            bs@[0] == b0,
            b0.valid(),
            b0.is_month_start(),
            end.valid(),
            1 <= step <= 12,
            0 <= duration,
            end.year + 1 <= MAX_YEAR,
            cur == bs@[bs@.len() - 1],
            cur.valid(),
            cur.is_month_start(),
            cur.month_index() == b0.month_index() + (bs@.len() - 1) * step,
            cs == cur.spec_secs(),
            es == end.spec_secs(),
            forall|j: int|
                0 <= j < bs@.len() ==> (#[trigger] bs@[j]).valid() && bs@[j].is_month_start()
                    && bs@[j].month_index() == b0.month_index() + j * step,
            bs@.len() == duration + 2 || bs@[bs@.len() - 2].spec_secs() <= es,
        decreases 12 * (MAX_YEAR as int) + 11 - cur.month_index(),
    {
        proof {
            if cur.year > end.year {
                lemma_key_strict_mono(*end, cur);
                lemma_key_pair_order(*end, cur);
                assert(false);
            }
            assert(cur.month_index() <= 12 * (end.year as int) + 11);
            let n = bs@.len() as int;
            assert((n - 1) * step + step == n * step) by (nonlinear_arith);
        }
        let b = cur.month_start_plus(step as i64);
        proof {
            DateTime::lemma_month_start_order(cur, b);
            lemma_key_pair_order(cur, b);
        }
        bs.push(b);
        cur = b;
        cs = cur.to_secs();
    }
    proof {
        let n = bs@.len() as int;
        assert forall|k: int| 0 <= k < n - 1 implies (#[trigger] bs@[k].key()) < bs@[k
            + 1].key() by {
            assert(k * step + step == (k + 1) * step) by (nonlinear_arith)
                requires
                    0 <= k,
                    1 <= step,
            ;
            DateTime::lemma_month_start_order(bs@[k], bs@[k + 1]);
        }
        assert(bs@[n - 1].spec_secs() == cs);
        lemma_key_pair_order(*end, bs@[n - 1]);
        if n > duration + 2 {
            lemma_key_pair_order(bs@[n - 2], *end);
        }
    }
    bs
}

/// The trimmed boundary sequence: the `k` boundaries at or before the end
/// instant, closed by the end instant itself when it lies strictly past the
/// last of them; when only the first boundary qualifies and the end instant
/// sits exactly on it, the second boundary is kept so one bucket remains.
pub open spec fn spec_trim_dts(src: Seq<DateTime>, end: DateTime, k: int, partial: bool) -> Seq<
    DateTime,
> {
    if partial {
        src.take(k).push(end)
    } else if k >= 2 {
        src.take(k)
    } else {
        src.take(2)
    }
}

/// The trimmed form of one row of per-bucket counts: the first `k` entries
/// when the final bucket is partial, else the first `k - 1` entries with the
/// last two of them merged (or just the first entry when `k == 1`).
pub open spec fn spec_trim_row(src: Seq<i32>, k: int, partial: bool) -> Seq<i32> {
    if partial {
        src.take(k)
    } else if k >= 2 {
        src.take(k - 2).push((src[k - 2] + src[k - 1]) as i32)
    } else {
        seq![src[0]]
    }
}

/// A trimmed row keeps non-negative entries and sums to the first `k`
/// entries of its source row.
pub proof fn lemma_trim_row_facts(s: Seq<i32>, k: int, partial: bool)
    requires
        row_nonneg(s),
        sum_row(s) <= i32::MAX,
        1 <= k <= s.len(),
    ensures
        spec_trim_row(s, k, partial).len() == if partial {
            k
        } else if k >= 2 {
            k - 1
        } else {
            1int
        },
        row_nonneg(spec_trim_row(s, k, partial)),
        !partial && k >= 2 ==> i32::MIN <= s[k - 2] + s[k - 1] <= i32::MAX,
        sum_row(spec_trim_row(s, k, partial)) == sum_row(s.take(k)),
{
    let t = spec_trim_row(s, k, partial);
    if partial {
        assert(row_nonneg(t)) by {
            assert(forall|i: int| 0 <= i < t.len() ==> t[i] == s[i]);
        }
    } else if k >= 2 {
        lemma_sum_row_pair_le(s, k - 2, k - 1);
        lemma_sum_row_nonneg(s);
        assert(row_nonneg(t)) by {
            assert(forall|i: int| 0 <= i < t.len() - 1 ==> t[i] == s[i]);
            assert(t[t.len() - 1] == (s[k - 2] + s[k - 1]) as i32);
        }
        assert(t.drop_last() =~= s.take(k - 2));
        lemma_sum_row_take_step(s, k - 2);
        lemma_sum_row_take_step(s, k - 1);
    } else {
        assert(row_nonneg(t)) by {
            assert(t[0] == s[0]);
        }
        assert(t.drop_last() =~= s.take(0));
        lemma_sum_row_take_step(s, 0);
    }
}

/// Discards the boundaries that lie strictly past `end_datetime` and the
/// counts of the buckets they opened. One partial final bucket is kept: its
/// closing boundary becomes `end_datetime` itself and it also absorbs, when
/// `end_datetime` lands exactly on a kept boundary, the count of the bucket
/// starting there, so that events at the end instant are not lost. When only
/// the very first boundary is at or before `end_datetime`, the first two
/// boundaries are kept so the series still holds one bucket.
pub fn clean_analyzed_data(
    datetimes: &Vec<DateTime>,
    analyzed_data: &LogLevelCountVecMap,
    end_datetime: &DateTime,
) -> (r: (Vec<DateTime>, LogLevelCountVecMap))
    requires
        datetimes@.len() >= 2,
        boundaries_sorted(datetimes@),
        forall|i: int| 0 <= i < datetimes@.len() ==> (#[trigger] datetimes@[i]).valid(),
        end_datetime.valid(),
        datetimes@[0].key() <= end_datetime.key(),
        datetimes@[datetimes@.len() - 1].key() > end_datetime.key(),
        analyzed_data.wf(),
        forall|l: LogLevel| (#[trigger] analyzed_data.row(l)).len() == datetimes@.len() - 1,
        forall|l: LogLevel| row_nonneg(#[trigger] analyzed_data.row(l)),
        forall|l: LogLevel| sum_row(#[trigger] analyzed_data.row(l)) <= i32::MAX,
    ensures
        ({
            let k = trim_cut(datetimes@, end_datetime.key());
            let partial = datetimes@[k - 1].key() < end_datetime.key();
            let dts = r.0@;
            let out = r.1;
            &&& 1 <= k <= datetimes@.len() - 1
            &&& out.wf()
            &&& dts =~= spec_trim_dts(datetimes@, *end_datetime, k, partial)
            &&& forall|l: LogLevel| (#[trigger] out.row(l)) =~= spec_trim_row(
                analyzed_data.row(l),
                k,
                partial,
            )
            &&& dts.len() >= 2
            &&& boundaries_sorted(dts)
            &&& forall|i: int| 0 <= i < dts.len() ==> (#[trigger] dts[i]).valid()
            &&& forall|l: LogLevel| (#[trigger] out.row(l)).len() == dts.len() - 1
            &&& forall|l: LogLevel| row_nonneg(#[trigger] out.row(l))
            &&& forall|l: LogLevel| #[trigger] sum_row(out.row(l)) == sum_row(
                analyzed_data.row(l).take(k),
            )
            &&& forall|i: int| 0 <= i < dts.len() - 1 ==> (#[trigger] dts[i].key())
                <= end_datetime.key()
            &&& (dts[dts.len() - 1].key() <= end_datetime.key() || (dts.len() == 2 && dts[0].key()
                == end_datetime.key()))
        }),
{
    let n = datetimes.len();
    proof {
        lemma_trim_cut_props(datetimes@, end_datetime.key());
    }
    let ghost gk = trim_cut(datetimes@, end_datetime.key());
    let mut k: usize = 0;
    while k < n && key_le(&datetimes[k], end_datetime)
        invariant
            0 <= k <= n,
            n == datetimes@.len(),
            boundaries_sorted(datetimes@),
            forall|i: int| 0 <= i < datetimes@.len() ==> (#[trigger] datetimes@[i]).valid(),
            end_datetime.valid(),
            forall|i: int| 0 <= i < k ==> (#[trigger] datetimes@[i].key()) <= end_datetime.key(),
            k <= gk,
            gk == trim_cut(datetimes@, end_datetime.key()),
        decreases n - k,
    {
        k = k + 1;
        proof {
            lemma_trim_cut_props(datetimes@, end_datetime.key());
            if k > gk {
                assert(datetimes@[k - 1].key() > end_datetime.key());
                assert(false);
            }
        }
    }
    proof {
        if k < gk {
            assert(datetimes@[k as int].key() <= end_datetime.key());
            assert(false);
        }
        assert(k == gk);
        assert(1 <= k <= n - 1) by {
            assert(datetimes@[0].key() <= end_datetime.key());
            assert(datetimes@[n - 1].key() > end_datetime.key());
        }
    }
    let partial = key_lt(&datetimes[k - 1], end_datetime);
    let keep_dts: usize = if partial || k >= 2 {
        k
    } else {
        2
    };
    let mut dts: Vec<DateTime> = Vec::new();
    let mut i: usize = 0;
    while i < keep_dts
        invariant
            0 <= i <= keep_dts <= n,
            n == datetimes@.len(),
            dts@.len() == i,
            forall|j: int| 0 <= j < i ==> dts@[j] == datetimes@[j],
        decreases keep_dts - i,
    {
        dts.push(datetimes[i]);
        i = i + 1;
    }
    if partial {
        dts.push(*end_datetime);
    }
    proof {
        assert(dts@ =~= spec_trim_dts(datetimes@, *end_datetime, k as int, partial));
    }
    let mut rows: Vec<Vec<i32>> = Vec::new();
    let mut li: usize = 0;
    while li < 9
        invariant
            0 <= li <= 9,
            rows@.len() == li,
            n == datetimes@.len(),
            1 <= k <= n - 1,
            analyzed_data.wf(),
            forall|l: LogLevel| (#[trigger] analyzed_data.row(l)).len() == datetimes@.len() - 1,
            forall|l: LogLevel| row_nonneg(#[trigger] analyzed_data.row(l)),
            forall|l: LogLevel| sum_row(#[trigger] analyzed_data.row(l)) <= i32::MAX,
            forall|j: int|
                0 <= j < li ==> (#[trigger] rows@[j])@ =~= spec_trim_row(
                    analyzed_data.counts@[j]@,
                    k as int,
                    partial,
                ),
        decreases 9 - li,
    {
        let src = &analyzed_data.counts[li];
        proof {
            lemma_index_level_bijective(li as int);
            assert(analyzed_data.row(level_of_index(li as int)) == src@);
            assert(src@.len() == n - 1);
            assert(row_nonneg(src@));
            assert(sum_row(src@) <= i32::MAX);
            lemma_trim_row_facts(src@, k as int, partial);
        }
        let mut row: Vec<i32> = Vec::new();
        if partial {
            let mut i2: usize = 0;
            while i2 < k
                invariant
                    0 <= i2 <= k,
                    k <= src@.len(),
                    row@.len() == i2,
                    forall|j: int| 0 <= j < i2 ==> row@[j] == src@[j],
                decreases k - i2,
            {
                row.push(src[i2]);
                i2 = i2 + 1;
            }
        } else if k >= 2 {
            let mut i2: usize = 0;
            while i2 < k - 2
                invariant
                    0 <= i2 <= k - 2,
                    2 <= k,
                    k <= src@.len(),
                    row@.len() == i2,
                    forall|j: int| 0 <= j < i2 ==> row@[j] == src@[j],
                decreases k - 2 - i2,
            {
                row.push(src[i2]);
                i2 = i2 + 1;
            }
            row.push(src[k - 2] + src[k - 1]);
        } else {
            row.push(src[0]);
        }
        proof {
            assert(row@ =~= spec_trim_row(src@, k as int, partial));
        }
        rows.push(row);
        li = li + 1;
    }
    let out = LogLevelCountVecMap { counts: rows };
    proof {
        lemma_clean_shape(datetimes@, analyzed_data, *end_datetime, dts@, out, k as int, partial);
    }
    (dts, out)
}

/// Derived facts about `clean_analyzed_data`'s output, proved once for all
/// nine rows.
proof fn lemma_clean_shape(
    src_dts: Seq<DateTime>,
    src: &LogLevelCountVecMap,
    end_datetime: DateTime,
    dts: Seq<DateTime>,
    out: LogLevelCountVecMap,
    k: int,
    partial: bool,
)
    requires
        src_dts.len() >= 2,
        boundaries_sorted(src_dts),
        forall|i: int| 0 <= i < src_dts.len() ==> (#[trigger] src_dts[i]).valid(),
        end_datetime.valid(),
        src_dts[0].key() <= end_datetime.key(),
        src_dts[src_dts.len() - 1].key() > end_datetime.key(),
        src.wf(),
        forall|l: LogLevel| (#[trigger] src.row(l)).len() == src_dts.len() - 1,
        forall|l: LogLevel| row_nonneg(#[trigger] src.row(l)),
        forall|l: LogLevel| sum_row(#[trigger] src.row(l)) <= i32::MAX,
        k == trim_cut(src_dts, end_datetime.key()),
        1 <= k <= src_dts.len() - 1,
        partial == (src_dts[k - 1].key() < end_datetime.key()),
        out.wf(),
        forall|j: int|
            0 <= j < 9 ==> (#[trigger] out.counts@[j])@ =~= spec_trim_row(
                src.counts@[j]@,
                k,
                partial,
            ),
        dts =~= spec_trim_dts(src_dts, end_datetime, k, partial),
    ensures
        forall|l: LogLevel| (#[trigger] out.row(l)) =~= spec_trim_row(src.row(l), k, partial),
        dts.len() >= 2,
        boundaries_sorted(dts),
        forall|i: int| 0 <= i < dts.len() ==> (#[trigger] dts[i]).valid(),
        forall|l: LogLevel| (#[trigger] out.row(l)).len() == dts.len() - 1,
        forall|l: LogLevel| row_nonneg(#[trigger] out.row(l)),
        forall|l: LogLevel| #[trigger] sum_row(out.row(l)) == sum_row(src.row(l).take(k)),
        forall|i: int| 0 <= i < dts.len() - 1 ==> (#[trigger] dts[i].key()) <= end_datetime.key(),
        dts[dts.len() - 1].key() <= end_datetime.key() || (dts.len() == 2 && dts[0].key()
            == end_datetime.key()),
{
    lemma_trim_cut_props(src_dts, end_datetime.key());
    assert forall|l: LogLevel| (#[trigger] out.row(l)) =~= spec_trim_row(
        src.row(l),
        k,
        partial,
    ) by {
        lemma_level_index_bijective(l);
    }
    assert forall|l: LogLevel|
        row_nonneg(#[trigger] out.row(l)) && out.row(l).len() == dts.len() - 1 && sum_row(
            out.row(l),
        ) == sum_row(src.row(l).take(k)) by {
        lemma_trim_row_facts(src.row(l), k, partial);
    }
    assert forall|i: int| 0 <= i < dts.len() - 1 implies (#[trigger] dts[i].key()) < dts[i
        + 1].key() by {
        if partial && i == k - 1 {
            assert(dts[i] == src_dts[i] && dts[i + 1] == end_datetime);
        } else {
            assert(dts[i] == src_dts[i] && dts[i + 1] == src_dts[i + 1]);
        }
    }
    if !partial && k == 1 {
        assert(dts[0].key() == end_datetime.key());
    }
}

/// An interval reaching anywhere past every event counts the same events as
/// the one closed exactly at the end instant.
pub proof fn lemma_count_to_end(
    events: Seq<LogEvent>,
    lo: int,
    hi: int,
    endk: int,
    level: LogLevel,
)
    requires
        forall|i: int| 0 <= i < events.len() ==> (#[trigger] events[i]).datetime.key() <= endk,
        lo <= endk + 1,
        hi > endk,
    ensures
        count_in(events, lo, hi, level) == count_in(events, lo, endk + 1, level),
{
    lemma_count_in_split(events, lo, endk + 1, hi, level);
    lemma_count_in_past_events(events, endk, endk + 1, hi, level);
}

/// A row whose entries are the per-bucket counts of adjacent boundary pairs
/// sums, over its first `m` entries, to the count of the whole range they
/// cover.
pub proof fn lemma_sum_row_is_range_count(
    row: Seq<i32>,
    events: Seq<LogEvent>,
    bs: Seq<DateTime>,
    level: LogLevel,
    m: int,
)
    requires
        boundaries_sorted(bs),
        0 <= m <= row.len(),
        m + 1 <= bs.len(),
        forall|i: int|
            0 <= i < m ==> #[trigger] row[i] == count_in(
                events,
                bs[i].key(),
                bs[i + 1].key(),
                level,
            ),
    ensures
        sum_row(row.take(m)) == count_in(events, bs[0].key(), bs[m].key(), level),
    decreases m,
{
    if m == 0 {
        lemma_count_in_degenerate(events, bs[0].key(), bs[0].key(), level);
    } else {
        lemma_sum_row_is_range_count(row, events, bs, level, m - 1);
        lemma_sum_row_take_step(row, m - 1);
        lemma_sorted_key_le(bs, 0, m - 1);
        lemma_sorted_key_le(bs, m - 1, m);
        lemma_count_in_split(events, bs[0].key(), bs[m - 1].key(), bs[m].key(), level);
    }
}

/// Everything the aggregation promises of a finished series over the events
/// it was built from and the true end instant of the batch: at least one
/// bucket; strictly increasing boundaries (with no boundary past the end
/// instant, except the closing boundary of the single-instant edge case); a
/// count row for every one of the nine severity levels, aligned with the
/// buckets; every full bucket counting its half-open interval and the final
/// bucket counting up to and including the end instant; and per-level totals
/// equal to the level's share of the whole batch, so no event is lost.
pub open spec fn series_wf(r: LogsAggregate, events: Seq<LogEvent>, endk: int) -> bool {
    series_wf_parts(r.datetimes@, r.aggregates, events, endk)
}

/// The promises of `series_wf`, over the bare boundary sequence and count
/// table.
pub open spec fn series_wf_parts(
    dts: Seq<DateTime>,
    agg: LogLevelCountVecMap,
    events: Seq<LogEvent>,
    endk: int,
) -> bool {
    let n = dts.len() as int;
    &&& n >= 2
    &&& forall|i: int| 0 <= i < n ==> (#[trigger] dts[i]).valid()
    &&& boundaries_sorted(dts)
    &&& forall|i: int| 0 <= i < n - 1 ==> (#[trigger] dts[i].key()) <= endk
    &&& (dts[n - 1].key() <= endk || (n == 2 && dts[0].key() == endk))
    &&& agg.wf()
    &&& forall|l: LogLevel| (#[trigger] agg.row(l)).len() == n - 1
    &&& forall|l: LogLevel| row_nonneg(#[trigger] agg.row(l))
    &&& forall|l: LogLevel, i: int|
        0 <= i < n - 2 ==> (#[trigger] agg.row(l)[i]) == count_in(
            events,
            dts[i].key(),
            dts[i + 1].key(),
            l,
        )
    &&& forall|l: LogLevel| (#[trigger] agg.row(l))[n - 2] == count_in(
        events,
        dts[n - 2].key(),
        endk + 1,
        l,
    )
    &&& forall|l: LogLevel| sum_row(#[trigger] agg.row(l)) == count_level(events, l)
}

/// After trimming, every full bucket keeps its half-open count.
proof fn lemma_series_row_buckets(
    bs: Seq<DateTime>,
    row: Seq<i32>,
    dts: Seq<DateTime>,
    orow: Seq<i32>,
    events: Seq<LogEvent>,
    end: DateTime,
    level: LogLevel,
)
    requires
        bs.len() >= 2,
        boundaries_sorted(bs),
        bs[0].key() <= end.key(),
        bs[bs.len() - 1].key() > end.key(),
        forall|i: int|
            0 <= i < events.len() ==> bs[0].key() <= (#[trigger] events[i]).datetime.key()
                <= end.key(),
        events.len() <= i32::MAX,
        row.len() == bs.len() - 1,
        forall|i: int|
            0 <= i < bs.len() - 1 ==> (#[trigger] row[i]) == count_in(
                events,
                bs[i].key(),
                bs[i + 1].key(),
                level,
            ),
        orow =~= spec_trim_row(row, trim_cut(bs, end.key()), bs[trim_cut(bs, end.key())
            - 1].key() < end.key()),
        dts =~= spec_trim_dts(
            bs,
            end,
            trim_cut(bs, end.key()),
            bs[trim_cut(bs, end.key()) - 1].key() < end.key(),
        ),
        1 <= trim_cut(bs, end.key()) <= bs.len() - 1,
    ensures
        forall|i: int|
            0 <= i < dts.len() - 2 ==> (#[trigger] orow[i]) == count_in(
                events,
                dts[i].key(),
                dts[i + 1].key(),
                level,
            ),
{
    let endk = end.key();
    let k = trim_cut(bs, endk);
    let n = dts.len() as int;
    assert forall|i: int| 0 <= i < n - 2 implies (#[trigger] orow[i]) == count_in(
        events,
        dts[i].key(),
        dts[i + 1].key(),
        level,
    ) by {
        assert(dts[i] == bs[i] && dts[i + 1] == bs[i + 1]);
        assert(orow[i] == row[i]);
    }
}

/// After trimming, the final bucket counts from its start boundary up to and
/// including the end instant; the merged entry of the boundary-hit case does
/// not overflow.
proof fn lemma_series_row_final(
    bs: Seq<DateTime>,
    row: Seq<i32>,
    dts: Seq<DateTime>,
    orow: Seq<i32>,
    events: Seq<LogEvent>,
    end: DateTime,
    level: LogLevel,
)
    requires
        bs.len() >= 2,
        boundaries_sorted(bs),
        bs[0].key() <= end.key(),
        bs[bs.len() - 1].key() > end.key(),
        forall|i: int|
            0 <= i < events.len() ==> bs[0].key() <= (#[trigger] events[i]).datetime.key()
                <= end.key(),
        events.len() <= i32::MAX,
        row.len() == bs.len() - 1,
        forall|i: int|
            0 <= i < bs.len() - 1 ==> (#[trigger] row[i]) == count_in(
                events,
                bs[i].key(),
                bs[i + 1].key(),
                level,
            ),
        orow =~= spec_trim_row(row, trim_cut(bs, end.key()), bs[trim_cut(bs, end.key())
            - 1].key() < end.key()),
        dts =~= spec_trim_dts(
            bs,
            end,
            trim_cut(bs, end.key()),
            bs[trim_cut(bs, end.key()) - 1].key() < end.key(),
        ),
        1 <= trim_cut(bs, end.key()) <= bs.len() - 1,
    ensures
        orow[dts.len() - 2] == count_in(events, dts[dts.len() - 2].key(), end.key() + 1, level),
        ({
            let k = trim_cut(bs, end.key());
            !(bs[k - 1].key() < end.key()) && k >= 2 ==> i32::MIN <= row[k - 2] + row[k - 1]
                <= i32::MAX
        }),
{
    let endk = end.key();
    let k = trim_cut(bs, endk);
    let partial = bs[k - 1].key() < endk;
    let n = dts.len() as int;
    lemma_trim_cut_props(bs, endk);
    if partial {
        assert(orow[n - 2] == row[k - 1]);
        lemma_count_to_end(events, bs[k - 1].key(), bs[k].key(), endk, level);
    } else if k >= 2 {
        lemma_sorted_key_le(bs, k - 2, k - 1);
        lemma_sorted_key_le(bs, k - 1, k);
        lemma_count_in_split(events, bs[k - 2].key(), bs[k - 1].key(), bs[k].key(), level);
        lemma_count_in_bounds(events, bs[k - 2].key(), bs[k].key(), level);
        assert(i32::MIN <= row[k - 2] + row[k - 1] <= i32::MAX);
        assert(orow[n - 2] == row[k - 2] + row[k - 1]);
        lemma_count_to_end(events, bs[k - 2].key(), bs[k].key(), endk, level);
    } else {
        assert(orow[0] == row[0]);
        lemma_count_to_end(events, bs[0].key(), bs[1].key(), endk, level);
    }
}

/// After trimming, the row total is the level's share of the whole batch.
proof fn lemma_series_row_total(
    bs: Seq<DateTime>,
    row: Seq<i32>,
    dts: Seq<DateTime>,
    orow: Seq<i32>,
    events: Seq<LogEvent>,
    end: DateTime,
    level: LogLevel,
)
    requires
        bs.len() >= 2,
        boundaries_sorted(bs),
        bs[0].key() <= end.key(),
        bs[bs.len() - 1].key() > end.key(),
        forall|i: int|
            0 <= i < events.len() ==> bs[0].key() <= (#[trigger] events[i]).datetime.key()
                <= end.key(),
        events.len() <= i32::MAX,
        row.len() == bs.len() - 1,
        forall|i: int|
            0 <= i < bs.len() - 1 ==> (#[trigger] row[i]) == count_in(
                events,
                bs[i].key(),
                bs[i + 1].key(),
                level,
            ),
        orow =~= spec_trim_row(row, trim_cut(bs, end.key()), bs[trim_cut(bs, end.key())
            - 1].key() < end.key()),
        dts =~= spec_trim_dts(
            bs,
            end,
            trim_cut(bs, end.key()),
            bs[trim_cut(bs, end.key()) - 1].key() < end.key(),
        ),
        1 <= trim_cut(bs, end.key()) <= bs.len() - 1,
    ensures
        sum_row(orow) == count_level(events, level),
{
    let endk = end.key();
    let k = trim_cut(bs, endk);
    let partial = bs[k - 1].key() < endk;
    lemma_trim_cut_props(bs, endk);
    lemma_series_row_final(bs, row, dts, orow, events, end, level);
    assert(sum_row(orow) == sum_row(row.take(k))) by {
        assert(orow =~= spec_trim_row(row, k, partial));
        lemma_trim_row_sum(row, k, partial);
    }
    lemma_sum_row_is_range_count(row, events, bs, level, k);
    assert forall|i: int|
        0 <= i < events.len() implies bs[0].key() <= (#[trigger] events[i]).datetime.key()
        < bs[k].key() by {
        assert(bs[k].key() > endk);
    }
    lemma_count_in_covers(events, bs[0].key(), bs[k].key(), level);
}

/// A trimmed row sums to the first `k` entries of its source row, as long as
/// the merged entry of the boundary-hit case stays in range.
proof fn lemma_trim_row_sum(s: Seq<i32>, k: int, partial: bool)
    requires
        1 <= k <= s.len(),
        !partial && k >= 2 ==> i32::MIN <= s[k - 2] + s[k - 1] <= i32::MAX,
    ensures
        sum_row(spec_trim_row(s, k, partial)) == sum_row(s.take(k)),
{
    let t = spec_trim_row(s, k, partial);
    if partial {
    } else if k >= 2 {
        assert(t.drop_last() =~= s.take(k - 2));
        assert(t.last() == s[k - 2] + s[k - 1]);
        lemma_sum_row_take_step(s, k - 2);
        lemma_sum_row_take_step(s, k - 1);
    } else {
        assert(t.drop_last() =~= s.take(0));
        lemma_sum_row_take_step(s, 0);
    }
}

/// The trimmed output of `clean_analyzed_data`, applied to counts produced by
/// `aggregate_logs` over generated boundaries, is a well-formed series.
proof fn lemma_series_from_clean(
    bs: Seq<DateTime>,
    counts: LogLevelCountVecMap,
    dts: Seq<DateTime>,
    out: LogLevelCountVecMap,
    events: Seq<LogEvent>,
    end: DateTime,
)
    requires
        bs.len() >= 2,
        boundaries_sorted(bs),
        forall|i: int| 0 <= i < bs.len() ==> (#[trigger] bs[i]).valid(),
        end.valid(),
        bs[0].key() <= end.key(),
        bs[bs.len() - 1].key() > end.key(),
        forall|i: int| 0 <= i < events.len() ==> (#[trigger] events[i]).datetime.valid(),
        forall|i: int|
            0 <= i < events.len() ==> bs[0].key() <= (#[trigger] events[i]).datetime.key()
                <= end.key(),
        events.len() <= i32::MAX,
        counts.wf(),
        forall|l: LogLevel| (#[trigger] counts.row(l)).len() == bs.len() - 1,
        forall|l: LogLevel, i: int|
            0 <= i < bs.len() - 1 ==> (#[trigger] counts.row(l)[i]) == count_in(
                events,
                bs[i].key(),
                bs[i + 1].key(),
                l,
            ),
        ({
            let k = trim_cut(bs, end.key());
            let partial = bs[k - 1].key() < end.key();
            &&& 1 <= k <= bs.len() - 1
            &&& out.wf()
            &&& dts =~= spec_trim_dts(bs, end, k, partial)
            &&& forall|l: LogLevel| (#[trigger] out.row(l)) =~= spec_trim_row(
                counts.row(l),
                k,
                partial,
            )
            &&& dts.len() >= 2
            &&& boundaries_sorted(dts)
            &&& forall|i: int| 0 <= i < dts.len() ==> (#[trigger] dts[i]).valid()
            &&& forall|l: LogLevel| (#[trigger] out.row(l)).len() == dts.len() - 1
            &&& forall|l: LogLevel| row_nonneg(#[trigger] out.row(l))
            &&& forall|i: int| 0 <= i < dts.len() - 1 ==> (#[trigger] dts[i].key()) <= end.key()
            &&& (dts[dts.len() - 1].key() <= end.key() || (dts.len() == 2 && dts[0].key()
                == end.key()))
        }),
    ensures
        series_wf_parts(dts, out, events, end.key()),
        dts.len() <= bs.len(),
        forall|i: int| 0 <= i < dts.len() - 1 ==> #[trigger] dts[i] == bs[i],
        dts[dts.len() - 1] == bs[dts.len() - 1] || dts[dts.len() - 1] == end,
{
    assert forall|l: LogLevel, i: int| 0 <= i < dts.len() - 2 implies (#[trigger] out.row(l)[i])
        == count_in(events, dts[i].key(), dts[i + 1].key(), l) by {
        lemma_series_row_buckets(bs, counts.row(l), dts, out.row(l), events, end, l);
    }
    assert forall|l: LogLevel| (#[trigger] out.row(l))[dts.len() - 2] == count_in(
        events,
        dts[dts.len() - 2].key(),
        end.key() + 1,
        l,
    ) by {
        lemma_series_row_final(bs, counts.row(l), dts, out.row(l), events, end, l);
    }
    assert forall|l: LogLevel| sum_row(#[trigger] out.row(l)) == count_level(events, l) by {
        lemma_series_row_total(bs, counts.row(l), dts, out.row(l), events, end, l);
    }
}

/// The boundary layout of a fixed-width series: unit-aligned boundaries one
/// unit apart starting at the unit holding the earliest event, the closing
/// boundary either on the same grid or clamped to the latest event.
pub open spec fn fixed_series_shape(dts: Seq<DateTime>, unit: int, mink: int, maxk: int) -> bool {
    let n = dts.len() as int;
    &&& forall|i: int|
        0 <= i < n - 1 ==> (#[trigger] dts[i]).nanosecond == 0 && dts[i].spec_secs()
            == dts[0].spec_secs() + i * unit
    &&& ((dts[n - 1].nanosecond == 0 && dts[n - 1].spec_secs() == dts[0].spec_secs() + (n - 1)
        * unit) || dts[n - 1].key() == maxk)
    &&& dts[0].spec_secs() % unit == 0
    &&& dts[0].key() <= mink < dts[0].key() + unit * 1_000_000_000
}

/// The boundary layout of a calendar series: month starts `step` months
/// apart, the closing boundary either the next month start of the ladder or
/// clamped to the latest event.
pub open spec fn month_series_shape(dts: Seq<DateTime>, step: int, maxk: int) -> bool {
    let n = dts.len() as int;
    &&& forall|i: int|
        0 <= i < n - 1 ==> (#[trigger] dts[i]).is_month_start() && dts[i].month_index()
            == dts[0].month_index() + i * step
    &&& ((dts[n - 1].is_month_start() && dts[n - 1].month_index() == dts[0].month_index() + (n
        - 1) * step) || dts[n - 1].key() == maxk)
}

/// Counts the events into the buckets of the generated boundary series, trims
/// the series at the end instant, and packages the result under the chosen
/// granularity tag.
fn finish_series(
    bs: &Vec<DateTime>,
    log_data: &Vec<LogEvent>,
    end_datetime: &DateTime,
    cat: DateTimeCat,
) -> (r: LogsAggregate)
    requires
        bs@.len() >= 2,
        boundaries_sorted(bs@),
        forall|i: int| 0 <= i < bs@.len() ==> (#[trigger] bs@[i]).valid(),
        end_datetime.valid(),
        bs@[0].key() <= end_datetime.key(),
        bs@[bs@.len() - 1].key() > end_datetime.key(),
        forall|i: int| 0 <= i < log_data@.len() ==> (#[trigger] log_data@[i]).datetime.valid(),
        forall|i: int|
            0 <= i < log_data@.len() ==> bs@[0].key() <= (#[trigger] log_data@[i]).datetime.key()
                <= end_datetime.key(),
        log_data@.len() <= i32::MAX,
    ensures
        r.datetime_cat == cat,
        r.datetimes@.len() <= bs@.len(),
        forall|i: int| 0 <= i < r.datetimes@.len() - 1 ==> #[trigger] r.datetimes@[i] == bs@[i],
        (r.datetimes@[r.datetimes@.len() - 1] == bs@[r.datetimes@.len() - 1]
            || r.datetimes@[r.datetimes@.len() - 1] == *end_datetime),
        series_wf(r, log_data@, end_datetime.key()),
{
    let counts = aggregate_logs(bs, log_data);
    proof {
        let events = log_data@;
        assert forall|l: LogLevel| row_nonneg(#[trigger] counts.row(l)) by {
            assert forall|i: int| 0 <= i < counts.row(l).len() implies 0 <= #[trigger] counts.row(
                l,
            )[i] by {
                lemma_count_in_bounds(events, bs@[i].key(), bs@[i + 1].key(), l);
            }
        }
        assert forall|l: LogLevel| sum_row(#[trigger] counts.row(l)) <= i32::MAX by {
            lemma_sum_row_is_range_count(counts.row(l), events, bs@, l, bs@.len() - 1);
            assert(counts.row(l).take(bs@.len() - 1) =~= counts.row(l));
            lemma_count_in_bounds(events, bs@[0].key(), bs@[bs@.len() - 1].key(), l);
        }
    }
    let cleaned = clean_analyzed_data(bs, &counts, end_datetime);
    proof {
        lemma_series_from_clean(
            bs@,
            counts,
            cleaned.0@,
            cleaned.1,
            log_data@,
            *end_datetime,
        );
    }
    LogsAggregate { datetimes: cleaned.0, datetime_cat: cat, aggregates: cleaned.1 }
}

/// Aggregates the events into buckets one second wide, anchored at the start instant with its sub-second component zeroed.
pub fn aggregate_in_terms_of_seconds(
    log_data: &Vec<LogEvent>,
    start_datetime: &DateTime,
    end_datetime: &DateTime,
    duration_secs: i64,
) -> (r: LogsAggregate)
    requires
        start_datetime.valid(),
        end_datetime.valid(),
        start_datetime.key() <= end_datetime.key(),
        forall|i: int|
            0 <= i < log_data@.len() ==> (#[trigger] log_data@[i]).datetime.valid()
                && start_datetime.key() <= log_data@[i].datetime.key() <= end_datetime.key(),
        log_data@.len() <= i32::MAX,
        0 <= duration_secs,
        start_datetime.spec_secs() + (duration_secs + 2) * 1 < secs_limit(),
        end_datetime.spec_secs() + 86400 < secs_limit(),
    ensures
        r.datetime_cat == DateTimeCat::Seconds,
        forall|i: int|
            0 <= i < r.datetimes@.len() - 1 ==> (#[trigger] r.datetimes@[i]).spec_secs()
                == r.datetimes@[0].spec_secs() + i * 1 && r.datetimes@[i].nanosecond == 0,
        ({
            let n = r.datetimes@.len() as int;
            (r.datetimes@[n - 1].spec_secs() == r.datetimes@[0].spec_secs() + (n - 1) * 1
                && r.datetimes@[n - 1].nanosecond == 0) || r.datetimes@[n - 1] == *end_datetime
        }),
        r.datetimes@[0] == (DateTime { nanosecond: 0, ..*start_datetime }),
        series_wf(r, log_data@, end_datetime.key()),
{
    let b0 = start_datetime.truncate_to_second();
    proof {
        DateTime::lemma_truncate_le(*start_datetime, b0);
    }
    let bs = make_fixed_boundaries(b0, 1, duration_secs, end_datetime);
    finish_series(&bs, log_data, end_datetime, DateTimeCat::Seconds)
}

/// Aggregates the events into buckets one minute wide, anchored at the start of the first event's minute.
pub fn aggregate_in_terms_of_minutes(
    log_data: &Vec<LogEvent>,
    start_datetime: &DateTime,
    end_datetime: &DateTime,
    duration_mins: i64,
) -> (r: LogsAggregate)
    requires
        start_datetime.valid(),
        end_datetime.valid(),
        start_datetime.key() <= end_datetime.key(),
        forall|i: int|
            0 <= i < log_data@.len() ==> (#[trigger] log_data@[i]).datetime.valid()
                && start_datetime.key() <= log_data@[i].datetime.key() <= end_datetime.key(),
        log_data@.len() <= i32::MAX,
        0 <= duration_mins,
        start_datetime.spec_secs() + (duration_mins + 2) * 60 < secs_limit(),
        end_datetime.spec_secs() + 86400 < secs_limit(),
    ensures
        r.datetime_cat == DateTimeCat::Minutes,
        forall|i: int|
            0 <= i < r.datetimes@.len() - 1 ==> (#[trigger] r.datetimes@[i]).spec_secs()
                == r.datetimes@[0].spec_secs() + i * 60 && r.datetimes@[i].nanosecond == 0,
        ({
            let n = r.datetimes@.len() as int;
            (r.datetimes@[n - 1].spec_secs() == r.datetimes@[0].spec_secs() + (n - 1) * 60
                && r.datetimes@[n - 1].nanosecond == 0) || r.datetimes@[n - 1] == *end_datetime
        }),
        r.datetimes@[0] == (DateTime { second: 0, nanosecond: 0, ..*start_datetime }),
        series_wf(r, log_data@, end_datetime.key()),
{
    let b0 = start_datetime.truncate_to_minute();
    proof {
        DateTime::lemma_truncate_le(*start_datetime, b0);
    }
    let bs = make_fixed_boundaries(b0, 60, duration_mins, end_datetime);
    finish_series(&bs, log_data, end_datetime, DateTimeCat::Minutes)
}

/// Aggregates the events into buckets one hour wide, anchored at the start of the first event's hour.
pub fn aggregate_in_terms_of_hours(
    log_data: &Vec<LogEvent>,
    start_datetime: &DateTime,
    end_datetime: &DateTime,
    duration_hours: i64,
) -> (r: LogsAggregate)
    requires
        start_datetime.valid(),
        end_datetime.valid(),
        start_datetime.key() <= end_datetime.key(),
        forall|i: int|
            0 <= i < log_data@.len() ==> (#[trigger] log_data@[i]).datetime.valid()
                && start_datetime.key() <= log_data@[i].datetime.key() <= end_datetime.key(),
        log_data@.len() <= i32::MAX,
        0 <= duration_hours,
        start_datetime.spec_secs() + (duration_hours + 2) * 3600 < secs_limit(),
        end_datetime.spec_secs() + 86400 < secs_limit(),
    ensures
        r.datetime_cat == DateTimeCat::Hours,
        forall|i: int|
            0 <= i < r.datetimes@.len() - 1 ==> (#[trigger] r.datetimes@[i]).spec_secs()
                == r.datetimes@[0].spec_secs() + i * 3600 && r.datetimes@[i].nanosecond == 0,
        ({
            let n = r.datetimes@.len() as int;
            (r.datetimes@[n - 1].spec_secs() == r.datetimes@[0].spec_secs() + (n - 1) * 3600
                && r.datetimes@[n - 1].nanosecond == 0) || r.datetimes@[n - 1] == *end_datetime
        }),
        r.datetimes@[0] == (DateTime { minute: 0, second: 0, nanosecond: 0, ..*start_datetime }),
        series_wf(r, log_data@, end_datetime.key()),
{
    let b0 = start_datetime.truncate_to_hour();
    proof {
        DateTime::lemma_truncate_le(*start_datetime, b0);
    }
    let bs = make_fixed_boundaries(b0, 3600, duration_hours, end_datetime);
    finish_series(&bs, log_data, end_datetime, DateTimeCat::Hours)
}

/// Aggregates the events into buckets one calendar day wide, anchored at midnight of the first event's day.
pub fn aggregate_in_terms_of_days(
    log_data: &Vec<LogEvent>,
    start_datetime: &DateTime,
    end_datetime: &DateTime,
    duration_days: i64,
) -> (r: LogsAggregate)
    requires
        start_datetime.valid(),
        end_datetime.valid(),
        start_datetime.key() <= end_datetime.key(),
        forall|i: int|
            0 <= i < log_data@.len() ==> (#[trigger] log_data@[i]).datetime.valid()
                && start_datetime.key() <= log_data@[i].datetime.key() <= end_datetime.key(),
        log_data@.len() <= i32::MAX,
        0 <= duration_days,
        start_datetime.spec_secs() + (duration_days + 2) * 86400 < secs_limit(),
        end_datetime.spec_secs() + 86400 < secs_limit(),
    ensures
        r.datetime_cat == DateTimeCat::Days,
        forall|i: int|
            0 <= i < r.datetimes@.len() - 1 ==> (#[trigger] r.datetimes@[i]).spec_secs()
                == r.datetimes@[0].spec_secs() + i * 86400 && r.datetimes@[i].nanosecond == 0,
        ({
            let n = r.datetimes@.len() as int;
            (r.datetimes@[n - 1].spec_secs() == r.datetimes@[0].spec_secs() + (n - 1) * 86400
                && r.datetimes@[n - 1].nanosecond == 0) || r.datetimes@[n - 1] == *end_datetime
        }),
        r.datetimes@[0] == (DateTime { hour: 0, minute: 0, second: 0, nanosecond: 0, ..*start_datetime }),
        series_wf(r, log_data@, end_datetime.key()),
{
    let b0 = start_datetime.truncate_to_day();
    proof {
        DateTime::lemma_truncate_le(*start_datetime, b0);
    }
    let bs = make_fixed_boundaries(b0, 86400, duration_days, end_datetime);
    finish_series(&bs, log_data, end_datetime, DateTimeCat::Days)
}

/// Aggregates the events into buckets one calendar month wide, anchored at
/// the first day of the first event's month; month advancement respects the
/// varying month lengths.
pub fn aggregate_in_terms_of_months(
    log_data: &Vec<LogEvent>,
    start_datetime: &DateTime,
    end_datetime: &DateTime,
    duration_months: i64,
) -> (r: LogsAggregate)
    requires
        start_datetime.valid(),
        end_datetime.valid(),
        start_datetime.key() <= end_datetime.key(),
        forall|i: int|
            0 <= i < log_data@.len() ==> (#[trigger] log_data@[i]).datetime.valid()
                && start_datetime.key() <= log_data@[i].datetime.key() <= end_datetime.key(),
        log_data@.len() <= i32::MAX,
        0 <= duration_months,
        start_datetime.month_index() + duration_months + 2 <= 12 * (MAX_YEAR as int) + 11,
        end_datetime.year + 1 <= MAX_YEAR,
    ensures
        r.datetime_cat == DateTimeCat::Months,
        forall|i: int|
            0 <= i < r.datetimes@.len() - 1 ==> (#[trigger] r.datetimes@[i]).is_month_start()
                && r.datetimes@[i].month_index() == r.datetimes@[0].month_index() + i * 1,
        ({
            let n = r.datetimes@.len() as int;
            (r.datetimes@[n - 1].is_month_start() && r.datetimes@[n - 1].month_index()
                == r.datetimes@[0].month_index() + (n - 1) * 1) || r.datetimes@[n - 1]
                == *end_datetime
        }),
        r.datetimes@[0] == (DateTime {
            day: 1,
            hour: 0,
            minute: 0,
            second: 0,
            nanosecond: 0,
            ..*start_datetime
        }),
        series_wf(r, log_data@, end_datetime.key()),
{
    let b0 = start_datetime.truncate_to_month();
    proof {
        DateTime::lemma_truncate_le(*start_datetime, b0);
    }
    let bs = make_month_boundaries(b0, 1, duration_months, end_datetime);
    finish_series(&bs, log_data, end_datetime, DateTimeCat::Months)
}

/// Aggregates the events into buckets one calendar year wide, anchored at
/// January 1 of the first event's year.
pub fn aggregate_in_terms_of_years(
    log_data: &Vec<LogEvent>,
    start_datetime: &DateTime,
    end_datetime: &DateTime,
    duration_years: i64,
) -> (r: LogsAggregate)
    requires
        start_datetime.valid(),
        end_datetime.valid(),
        start_datetime.key() <= end_datetime.key(),
        forall|i: int|
            0 <= i < log_data@.len() ==> (#[trigger] log_data@[i]).datetime.valid()
                && start_datetime.key() <= log_data@[i].datetime.key() <= end_datetime.key(),
        log_data@.len() <= i32::MAX,
        0 <= duration_years,
        12 * (start_datetime.year as int) + (duration_years + 2) * 12 <= 12 * (MAX_YEAR as int)
            + 11,
        end_datetime.year + 1 <= MAX_YEAR,
    ensures
        r.datetime_cat == DateTimeCat::Years,
        forall|i: int|
            0 <= i < r.datetimes@.len() - 1 ==> (#[trigger] r.datetimes@[i]).is_month_start()
                && r.datetimes@[i].month_index() == r.datetimes@[0].month_index() + i * 12,
        ({
            let n = r.datetimes@.len() as int;
            (r.datetimes@[n - 1].is_month_start() && r.datetimes@[n - 1].month_index()
                == r.datetimes@[0].month_index() + (n - 1) * 12) || r.datetimes@[n - 1]
                == *end_datetime
        }),
        r.datetimes@[0] == (DateTime {
            month: 1,
            day: 1,
            hour: 0,
            minute: 0,
            second: 0,
            nanosecond: 0,
            ..*start_datetime
        }),
        series_wf(r, log_data@, end_datetime.key()),
{
    let b0 = start_datetime.truncate_to_year();
    proof {
        DateTime::lemma_truncate_le(*start_datetime, b0);
    }
    let bs = make_month_boundaries(b0, 12, duration_years, end_datetime);
    finish_series(&bs, log_data, end_datetime, DateTimeCat::Years)
}

} // verus!} // verus!
