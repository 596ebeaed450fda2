//! Naive calendar date-times (no timezone) with verified calendar
//! arithmetic: conversion to and from a linear second count, truncation to a
//! granularity's natural unit, and month advancement that clamps to the last
//! valid day of the target month.

use vstd::prelude::*;

verus! {

/// Timestamps are supported for years `1..=MAX_YEAR`. Events may carry years
/// up to `MAX_EVENT_YEAR`; the gap leaves headroom for the bucket boundaries
/// generated past the last event.
pub const MAX_YEAR: u16 = 10005;

/// The largest year an event handed to the aggregation pipeline may carry.
pub const MAX_EVENT_YEAR: u16 = 9999;

/// A calendar date-time down to nanoseconds, treated as a naive local value.
#[derive(Debug, Hash, PartialEq, Eq, Copy, Clone, Structural)]
pub struct DateTime {
    pub year: u16,
    pub month: u8,
    pub day: u8,
    pub hour: u8,
    pub minute: u8,
    pub second: u8,
    pub nanosecond: u32,
}

/// Whether `y` is a leap year in the proleptic Gregorian calendar.
pub open spec fn spec_is_leap_year(y: int) -> bool {
    y % 4 == 0 && (y % 100 != 0 || y % 400 == 0)
}

/// Days in month `m` of year `y` (`m` in `1..=12`).
pub open spec fn spec_days_in_month(y: int, m: int) -> int {
    if m == 2 {
        if spec_is_leap_year(y) {
            29
        } else {
            28
        }
    } else if m == 4 || m == 6 || m == 9 || m == 11 {
        30
    } else {
        31
    }
}

/// Days in year `y`.
pub open spec fn spec_days_in_year(y: int) -> int {
    if spec_is_leap_year(y) {
        366
    } else {
        365
    }
}

/// Days in all years strictly before `y`, counted from year 1.
pub open spec fn days_before_year(y: int) -> int
    decreases y,
{
    if y <= 1 {
        0
    } else {
        days_before_year(y - 1) + spec_days_in_year(y - 1)
    }
}

/// Days in all months of year `y` strictly before month `m`.
pub open spec fn days_before_month(y: int, m: int) -> int
    decreases m,
{
    if m <= 1 {
        0
    } else {
        days_before_month(y, m - 1) + spec_days_in_month(y, m - 1)
    }
}

impl DateTime {
    /// Field ranges that make the value a real calendar instant within the
    /// supported year range.
    pub open spec fn valid(self) -> bool {
        &&& 1 <= self.year <= MAX_YEAR
        &&& 1 <= self.month <= 12
        &&& 1 <= self.day <= spec_days_in_month(self.year as int, self.month as int)
        &&& self.hour < 24
        &&& self.minute < 60
        &&& self.second < 60
        &&& self.nanosecond < 1_000_000_000
    }

    /// Days elapsed since the start of year 1.
    pub open spec fn spec_days(self) -> int {
        days_before_year(self.year as int) + days_before_month(self.year as int, self.month as int)
            + (self.day - 1)
    }

    /// Whole seconds elapsed since the start of year 1, ignoring the
    /// nanosecond component.
    pub open spec fn spec_secs(self) -> int {
        self.spec_days() * 86400 + self.hour * 3600 + self.minute * 60 + self.second
    }

    /// The instant as one number: nanoseconds since the start of year 1.
    /// Date-times compare by this key.
    pub open spec fn key(self) -> int {
        self.spec_secs() * 1_000_000_000 + self.nanosecond
    }

    /// The month counted linearly from year 1 (year 1 January is 12).
    pub open spec fn month_index(self) -> int {
        self.year * 12 + (self.month - 1)
    }

    /// Whether the value sits exactly at the start of its calendar month.
    pub open spec fn is_month_start(self) -> bool {
        self.day == 1 && self.hour == 0 && self.minute == 0 && self.second == 0
            && self.nanosecond == 0
    }

    /// Field-by-field lexicographic order, most significant field first.
    pub open spec fn lex_lt(self, other: DateTime) -> bool {
        if self.year != other.year {
            self.year < other.year
        } else if self.month != other.month {
            self.month < other.month
        } else if self.day != other.day {
            self.day < other.day
        } else if self.hour != other.hour {
            self.hour < other.hour
        } else if self.minute != other.minute {
            self.minute < other.minute
        } else if self.second != other.second {
            self.second < other.second
        } else {
            self.nanosecond < other.nanosecond
        }
    }
}

/// `days_before_year` grows with the year: each elapsed year adds at least
/// 365 and at most 366 days.
pub proof fn lemma_days_before_year_bounds(y1: int, y2: int)
    requires
        1 <= y1 <= y2,
    ensures
        days_before_year(y1) + 365 * (y2 - y1) <= days_before_year(y2) <= days_before_year(y1)
            + 366 * (y2 - y1),
    decreases y2 - y1,
{
    if y1 < y2 {
        lemma_days_before_year_bounds(y1, y2 - 1);
    }
}

/// `days_before_month` grows by the length of each month passed over.
pub proof fn lemma_days_before_month_mono(y: int, m1: int, m2: int)
    requires
        1 <= m1 <= m2,
    ensures
        days_before_month(y, m1) <= days_before_month(y, m2),
        m1 < m2 ==> days_before_month(y, m1) + spec_days_in_month(y, m1) <= days_before_month(
            y,
            m2,
        ),
    decreases m2 - m1,
{
    if m1 < m2 {
        lemma_days_before_month_mono(y, m1 + 1, m2);
    }
}

/// The twelve months of a year lay end to end inside it: past December the
/// day total is exactly the length of the year.
pub proof fn lemma_days_before_month_full_year(y: int)
    ensures
        days_before_month(y, 13) == spec_days_in_year(y),
{
    reveal_with_fuel(days_before_month, 14);
}

/// A valid date's day offset stays strictly inside its year.
pub proof fn lemma_day_offset_in_year(dt: DateTime)
    requires
        dt.valid(),
    ensures
        0 <= days_before_month(dt.year as int, dt.month as int) + (dt.day - 1)
            < spec_days_in_year(dt.year as int),
{
    let y = dt.year as int;
    let m = dt.month as int;
    lemma_days_before_month_mono(y, 1, m);
    lemma_days_before_month_mono(y, m, 13);
    lemma_days_before_month_full_year(y);
}

/// Lexicographic date order agrees with the day count: an earlier calendar
/// date has strictly fewer elapsed days.
pub proof fn lemma_days_strict_mono(a: DateTime, b: DateTime)
    requires
        a.valid(),
        b.valid(),
        (a.year < b.year) || (a.year == b.year && a.month < b.month) || (a.year == b.year
            && a.month == b.month && a.day < b.day),
    ensures
        a.spec_days() < b.spec_days(),
{
    let ya = a.year as int;
    let yb = b.year as int;
    lemma_day_offset_in_year(a);
    lemma_day_offset_in_year(b);
    if ya < yb {
        lemma_days_before_year_bounds(ya, ya + 1);
        lemma_days_before_year_bounds(ya + 1, yb);
        assert(days_before_year(ya + 1) == days_before_year(ya) + spec_days_in_year(ya));
    } else if a.month < b.month {
        lemma_days_before_month_mono(ya, a.month as int, b.month as int);
        assert(a.day - 1 < spec_days_in_month(ya, a.month as int));
    }
}

/// Lexicographic field order agrees with the key: the lexicographically
/// earlier instant has the strictly smaller key.
pub proof fn lemma_key_strict_mono(a: DateTime, b: DateTime)
    requires
        a.valid(),
        b.valid(),
        a.lex_lt(b),
    ensures
        a.key() < b.key(),
{
    if a.year == b.year && a.month == b.month && a.day == b.day {
        assert(a.spec_days() == b.spec_days());
        if a.hour == b.hour && a.minute == b.minute && a.second == b.second {
            assert(a.spec_secs() == b.spec_secs());
            assert(a.nanosecond < b.nanosecond);
        } else {
            assert(a.spec_secs() < b.spec_secs());
        }
    } else {
        lemma_days_strict_mono(a, b);
        assert(a.spec_days() + 1 <= b.spec_days());
        assert(a.spec_secs() < b.spec_secs()) by {
            assert(a.spec_days() * 86400 + 86400 <= b.spec_days() * 86400) by (nonlinear_arith)
                requires
                    a.spec_days() + 1 <= b.spec_days(),
            ;
        }
    }
    lemma_key_pair_order(a, b);
}

/// Comparing whole-second counts and nanoseconds as a pair is the same as
/// comparing keys.
pub proof fn lemma_key_pair_order(a: DateTime, b: DateTime)
    requires
        a.nanosecond < 1_000_000_000,
        b.nanosecond < 1_000_000_000,
    ensures
        (a.key() <= b.key()) <==> (a.spec_secs() < b.spec_secs() || (a.spec_secs()
            == b.spec_secs() && a.nanosecond <= b.nanosecond)),
        (a.key() < b.key()) <==> (a.spec_secs() < b.spec_secs() || (a.spec_secs() == b.spec_secs()
            && a.nanosecond < b.nanosecond)),
{
    assert(((a.spec_secs() * 1_000_000_000 + a.nanosecond) <= (b.spec_secs() * 1_000_000_000
        + b.nanosecond)) <==> (a.spec_secs() < b.spec_secs() || (a.spec_secs() == b.spec_secs()
        && a.nanosecond <= b.nanosecond))) by (nonlinear_arith)
        requires
            a.nanosecond < 1_000_000_000,
            b.nanosecond < 1_000_000_000,
    ;
    assert(((a.spec_secs() * 1_000_000_000 + a.nanosecond) < (b.spec_secs() * 1_000_000_000
        + b.nanosecond)) <==> (a.spec_secs() < b.spec_secs() || (a.spec_secs() == b.spec_secs()
        && a.nanosecond < b.nanosecond))) by (nonlinear_arith)
        requires
            a.nanosecond < 1_000_000_000,
            b.nanosecond < 1_000_000_000,
    ;
}

impl DateTime {
    /// Builds a date-time after checking every field range; `None` exactly
    /// when the fields name no real calendar instant in the supported range.
    pub fn new(
        year: u16,
        month: u8,
        day: u8,
        hour: u8,
        minute: u8,
        second: u8,
        nanosecond: u32,
    ) -> (r: Option<DateTime>)
        ensures
            match r {
                Some(dt) => dt == (DateTime { year, month, day, hour, minute, second, nanosecond })
                    && dt.valid(),
                None => !(DateTime { year, month, day, hour, minute, second, nanosecond }).valid(),
            },
    {
        if 1 <= year && year <= MAX_YEAR && 1 <= month && month <= 12 && 1 <= day && day
            <= days_in_month(year, month) && hour < 24 && minute < 60 && second < 60 && nanosecond
            < 1_000_000_000 {
            Some(DateTime { year, month, day, hour, minute, second, nanosecond })
        } else {
            None
        }
    }
}

/// Whether `y` is a leap year.
pub fn is_leap_year(y: u16) -> (r: bool)
    ensures
        r == spec_is_leap_year(y as int),
{
    y % 4 == 0 && (y % 100 != 0 || y % 400 == 0)
}

/// Days in month `m` of year `y`.
pub fn days_in_month(y: u16, m: u8) -> (d: u8)
    requires
        1 <= m <= 12,
    ensures
        d == spec_days_in_month(y as int, m as int),
        28 <= d <= 31,
{
    if m == 2 {
        if is_leap_year(y) {
            29
        } else {
            28
        }
    } else if m == 4 || m == 6 || m == 9 || m == 11 {
        30
    } else {
        31
    }
}

/// Days in year `y`.
pub fn days_in_year(y: u16) -> (d: u16)
    ensures
        d == spec_days_in_year(y as int),
{
    if is_leap_year(y) {
        366
    } else {
        365
    }
}

impl DateTime {
    /// Days elapsed since the start of year 1.
    pub fn to_days(&self) -> (d: i64)
        requires
            self.valid(),
        ensures
            d == self.spec_days(),
            0 <= d <= 366 * (MAX_YEAR as int + 1),
    {
        let mut d: i64 = 0;
        let mut y: u16 = 1;
        while y < self.year
            invariant
                self.valid(),
                1 <= y <= self.year,
                d == days_before_year(y as int),
                0 <= d <= 366 * (y - 1),
            decreases self.year - y,
        {
            d = d + days_in_year(y) as i64;
            y = y + 1;
        }
        let mut m: u8 = 1;
        while m < self.month
            invariant
                self.valid(),
                1 <= m <= self.month,
                d == days_before_year(self.year as int) + days_before_month(
                    self.year as int,
                    m as int,
                ),
                0 <= d <= 366 * (self.year - 1) + 31 * (m - 1),
            decreases self.month - m,
        {
            d = d + days_in_month(self.year, m) as i64;
            m = m + 1;
        }
        d + (self.day - 1) as i64
    }

    /// Whole seconds elapsed since the start of year 1.
    pub fn to_secs(&self) -> (s: i64)
        requires
            self.valid(),
        ensures
            s == self.spec_secs(),
            0 <= s,
    {
        let d = self.to_days();
        proof {
            assert(0 <= d * 86400 <= 366 * (MAX_YEAR as int + 1) * 86400) by (nonlinear_arith)
                requires
                    0 <= d <= 366 * (MAX_YEAR as int + 1),
            ;
        }
        d * 86400 + (self.hour as i64) * 3600 + (self.minute as i64) * 60 + (self.second as i64)
    }
}

/// The largest supported whole-second count: valid date-times have a smaller
/// `spec_secs`.
pub open spec fn secs_limit() -> int {
    days_before_year(MAX_YEAR as int + 1) * 86400
}

/// A valid date-time's second count sits between the second counts of the
/// starts of its year and of the following year.
pub proof fn lemma_secs_year_bound(dt: DateTime)
    requires
        dt.valid(),
    ensures
        days_before_year(dt.year as int) * 86400 <= dt.spec_secs(),
        dt.spec_secs() + 1 <= days_before_year(dt.year as int + 1) * 86400,
{
    lemma_day_offset_in_year(dt);
    lemma_days_before_year_bounds(1, dt.year as int);
    assert(days_before_year(dt.year as int + 1) == days_before_year(dt.year as int)
        + spec_days_in_year(dt.year as int));
    let days = dt.spec_days();
    let dby = days_before_year(dt.year as int);
    assert(dby <= days && days + 1 <= days_before_year(dt.year as int + 1));
    assert(dby * 86400 <= days * 86400 && (days + 1) * 86400 <= days_before_year(
        dt.year as int + 1,
    ) * 86400) by (nonlinear_arith)
        requires
            dby <= days,
            days + 1 <= days_before_year(dt.year as int + 1),
    ;
    assert((days + 1) * 86400 == days * 86400 + 86400) by (nonlinear_arith);
    assert(dt.spec_secs() < days * 86400 + 86400);
}

/// A concrete ceiling on `secs_limit`, for overflow reasoning.
pub proof fn lemma_secs_limit_bound()
    ensures
        secs_limit() < 400_000_000_000,
{
    lemma_days_before_year_bounds(1, MAX_YEAR as int + 1);
    let d = days_before_year(MAX_YEAR as int + 1);
    assert(d * 86400 <= 366 * (MAX_YEAR as int) * 86400) by (nonlinear_arith)
        requires
            d <= 366 * (MAX_YEAR as int),
    ;
}

/// Every valid date-time's second count stays under `secs_limit`.
pub proof fn lemma_secs_in_limit(dt: DateTime)
    requires
        dt.valid(),
    ensures
        0 <= dt.spec_secs(),
        dt.spec_secs() < secs_limit(),
{
    lemma_secs_year_bound(dt);
    lemma_days_before_year_bounds(1, dt.year as int);
    lemma_days_before_year_bounds(dt.year as int + 1, MAX_YEAR as int + 1);
    let a = days_before_year(dt.year as int + 1);
    let b = days_before_year(MAX_YEAR as int + 1);
    assert(a * 86400 <= b * 86400) by (nonlinear_arith)
        requires
            a <= b,
    ;
}

/// Time order respects years: an instant at or before another cannot lie in
/// a later year.
pub proof fn lemma_key_le_year(a: DateTime, b: DateTime)
    requires
        a.valid(),
        b.valid(),
        a.key() <= b.key(),
    ensures
        a.year <= b.year,
{
    if a.year > b.year {
        lemma_key_strict_mono(b, a);
    }
}

/// Whether `a` is at or before `b` in time.
pub fn key_le(a: &DateTime, b: &DateTime) -> (r: bool)
    requires
        a.valid(),
        b.valid(),
    ensures
        r == (a.key() <= b.key()),
{
    let sa = a.to_secs();
    let sb = b.to_secs();
    proof {
        lemma_key_pair_order(*a, *b);
    }
    sa < sb || (sa == sb && a.nanosecond <= b.nanosecond)
}

/// Whether `a` is strictly before `b` in time.
pub fn key_lt(a: &DateTime, b: &DateTime) -> (r: bool)
    requires
        a.valid(),
        b.valid(),
    ensures
        r == (a.key() < b.key()),
{
    let sa = a.to_secs();
    let sb = b.to_secs();
    proof {
        lemma_key_pair_order(*a, *b);
    }
    sa < sb || (sa == sb && a.nanosecond < b.nanosecond)
}

/// The date `days` days after the start of year 1, as year, month and day.
fn date_from_days(days: i64) -> (r: (u16, u8, u8))
    requires
        0 <= days,
        days < days_before_year(MAX_YEAR as int + 1),
    ensures
        1 <= r.0 <= MAX_YEAR,
        1 <= r.1 <= 12,
        1 <= r.2 <= spec_days_in_month(r.0 as int, r.1 as int),
        days_before_year(r.0 as int) + days_before_month(r.0 as int, r.1 as int) + (r.2 - 1)
            == days,
{
    let mut y: u16 = 1;
    let mut rem: i64 = days;
    while rem >= days_in_year(y) as i64
        invariant
            1 <= y <= MAX_YEAR,
            0 <= rem,
            days_before_year(y as int) + rem == days,
            days < days_before_year(MAX_YEAR as int + 1),
        decreases rem,
    {
        rem = rem - days_in_year(y) as i64;
        proof {
            if y as int + 1 > MAX_YEAR as int {
                assert(days_before_year(y as int + 1) <= days);
                assert(false);
            }
        }
        y = y + 1;
    }
    let mut m: u8 = 1;
    while rem >= days_in_month(y, m) as i64
        invariant
            1 <= y <= MAX_YEAR,
            1 <= m <= 12,
            0 <= rem,
            days_before_year(y as int) + days_before_month(y as int, m as int) + rem == days,
            rem < spec_days_in_year(y as int) - days_before_month(y as int, m as int),
        decreases 12 - m,
    {
        proof {
            if m == 12 {
                lemma_days_before_month_full_year(y as int);
                assert(false);
            }
        }
        rem = rem - days_in_month(y, m) as i64;
        m = m + 1;
    }
    (y, m, (rem + 1) as u8)
}

/// The instant `secs` whole seconds after the start of year 1, with a zero
/// nanosecond component.
pub fn datetime_from_secs(secs: i64) -> (r: DateTime)
    requires
        0 <= secs,
        secs < secs_limit(),
    ensures
        r.valid(),
        r.nanosecond == 0,
        r.spec_secs() == secs,
{
    let su = secs as u64;
    let days_u = su / 86400;
    let tod = (su % 86400) as u32;
    proof {
        assert(days_u * 86400 + tod == su && tod < 86400) by (nonlinear_arith)
            requires
                days_u == su as int / 86400,
                tod == su as int % 86400,
        ;
        assert(days_u < days_before_year(MAX_YEAR as int + 1)) by (nonlinear_arith)
            requires
                days_u * 86400 + tod == su,
                0 <= tod,
                su < days_before_year(MAX_YEAR as int + 1) * 86400,
        ;
    }
    let days = days_u as i64;
    let (y, m, d) = date_from_days(days);
    let hour = tod / 3600;
    let minute = (tod % 3600) / 60;
    let second = tod % 60;
    proof {
        assert(hour * 3600 + minute * 60 + second == tod && hour < 24 && minute < 60 && second
            < 60) by (nonlinear_arith)
            requires
                0 <= tod < 86400,
                hour == tod as int / 3600,
                minute == (tod as int % 3600) / 60,
                second == tod as int % 60,
        ;
    }
    let r = DateTime {
        year: y,
        month: m,
        day: d,
        hour: hour as u8,
        minute: minute as u8,
        second: second as u8,
        nanosecond: 0,
    };
    proof {
        assert(r.spec_secs() == days * 86400 + tod) by (nonlinear_arith)
            requires
                r.spec_days() == days,
                r.spec_secs() == r.spec_days() * 86400 + r.hour * 3600 + r.minute * 60 + r.second,
                r.hour * 3600 + r.minute * 60 + r.second == tod,
        ;
    }
    r
}

impl DateTime {
    /// The same instant with the sub-second component zeroed.
    pub fn truncate_to_second(&self) -> (r: DateTime)
        requires
            self.valid(),
        ensures
            r.valid(),
            r == (DateTime { nanosecond: 0, ..*self }),
            r.spec_secs() == self.spec_secs(),
            r.nanosecond == 0,
    {
        DateTime { nanosecond: 0, ..*self }
    }

    /// The start of the minute holding this instant.
    pub fn truncate_to_minute(&self) -> (r: DateTime)
        requires
            self.valid(),
        ensures
            r.valid(),
            r == (DateTime { second: 0, nanosecond: 0, ..*self }),
            r.nanosecond == 0,
    {
        DateTime { second: 0, nanosecond: 0, ..*self }
    }

    /// The start of the hour holding this instant.
    pub fn truncate_to_hour(&self) -> (r: DateTime)
        requires
            self.valid(),
        ensures
            r.valid(),
            r == (DateTime { minute: 0, second: 0, nanosecond: 0, ..*self }),
            r.nanosecond == 0,
    {
        DateTime { minute: 0, second: 0, nanosecond: 0, ..*self }
    }

    /// Midnight of the calendar day holding this instant.
    pub fn truncate_to_day(&self) -> (r: DateTime)
        requires
            self.valid(),
        ensures
            r.valid(),
            r == (DateTime { hour: 0, minute: 0, second: 0, nanosecond: 0, ..*self }),
            r.nanosecond == 0,
    {
        DateTime { hour: 0, minute: 0, second: 0, nanosecond: 0, ..*self }
    }

    /// Midnight of the first day of the calendar month holding this instant.
    pub fn truncate_to_month(&self) -> (r: DateTime)
        requires
            self.valid(),
        ensures
            r.valid(),
            r == (DateTime { day: 1, hour: 0, minute: 0, second: 0, nanosecond: 0, ..*self }),
            r.is_month_start(),
            r.month_index() == self.month_index(),
    {
        DateTime { day: 1, hour: 0, minute: 0, second: 0, nanosecond: 0, ..*self }
    }

    /// Midnight of January 1 of the calendar year holding this instant.
    pub fn truncate_to_year(&self) -> (r: DateTime)
        requires
            self.valid(),
        ensures
            r.valid(),
            r == (DateTime {
                month: 1,
                day: 1,
                hour: 0,
                minute: 0,
                second: 0,
                nanosecond: 0,
                ..*self
            }),
            r.is_month_start(),
            r.month_index() == 12 * (self.year as int),
    {
        DateTime { month: 1, day: 1, hour: 0, minute: 0, second: 0, nanosecond: 0, ..*self }
    }

    /// Truncation never moves an instant later.
    pub proof fn lemma_truncate_le(self, r: DateTime)
        requires
            self.valid(),
            r.valid(),
            r.year == self.year,
            r.month == self.month || (r.month == 1 && r.day == 1),
            r.month == self.month ==> (r.day == self.day || r.day == 1),
            r.day == self.day ==> r.hour == self.hour || r.hour == 0,
            r.hour == self.hour ==> r.minute == self.minute || r.minute == 0,
            r.minute == self.minute ==> r.second == self.second || r.second == 0,
            r.second == self.second ==> r.nanosecond == self.nanosecond || r.nanosecond == 0,
        ensures
            r.key() <= self.key(),
    {
        if r != self {
            lemma_key_strict_mono(r, self);
        }
    }

    /// Midnight of the month start `n` months after this one, counted
    /// linearly.
    pub fn month_start_plus(&self, n: i64) -> (r: DateTime)
        requires
            self.valid(),
            self.is_month_start(),
            0 <= n,
            self.month_index() + n <= 12 * (MAX_YEAR as int) + 11,
        ensures
            r.valid(),
            r.is_month_start(),
            r.month_index() == self.month_index() + n,
    {
        let mi: i64 = (self.year as i64) * 12 + (self.month as i64 - 1) + n;
        let y = (mi / 12) as u16;
        let m = (mi % 12 + 1) as u8;
        proof {
            assert(12 <= mi <= 12 * (MAX_YEAR as int) + 11);
            assert((mi / 12) * 12 + mi % 12 == mi && 0 <= mi % 12 < 12 && 1 <= mi / 12 <= MAX_YEAR
                as int) by (nonlinear_arith)
                requires
                    12 <= mi <= 12 * (MAX_YEAR as int) + 11,
            ;
        }
        let r = DateTime {
            year: y,
            month: m,
            day: 1,
            hour: 0,
            minute: 0,
            second: 0,
            nanosecond: 0,
        };
        proof {
            assert(r.month_index() == mi) by (nonlinear_arith)
                requires
                    r.year == mi / 12,
                    r.month == mi % 12 + 1,
                    r.month_index() == r.year * 12 + (r.month - 1),
                    (mi / 12) * 12 + mi % 12 == mi,
            ;
        }
        r
    }

    /// The instant `n` calendar months later, the day clamped to the last
    /// valid day of the target month; time of day and nanoseconds are kept.
    pub fn add_months_clamped(&self, n: u32) -> (r: DateTime)
        requires
            self.valid(),
            self.month_index() + n <= 12 * (MAX_YEAR as int) + 11,
        ensures
            r.valid(),
            r.month_index() == self.month_index() + n,
            r.day == if self.day as int <= spec_days_in_month(r.year as int, r.month as int) {
                self.day as int
            } else {
                spec_days_in_month(r.year as int, r.month as int)
            },
            r.hour == self.hour && r.minute == self.minute && r.second == self.second
                && r.nanosecond == self.nanosecond,
    {
        let mi: i64 = (self.year as i64) * 12 + (self.month as i64 - 1) + n as i64;
        let y = (mi / 12) as u16;
        let m = (mi % 12 + 1) as u8;
        proof {
            assert(12 <= mi <= 12 * (MAX_YEAR as int) + 11);
            assert((mi / 12) * 12 + mi % 12 == mi && 0 <= mi % 12 < 12 && 1 <= mi / 12 <= MAX_YEAR
                as int) by (nonlinear_arith)
                requires
                    12 <= mi <= 12 * (MAX_YEAR as int) + 11,
            ;
        }
        let dim = days_in_month(y, m);
        let day = if self.day <= dim {
            self.day
        } else {
            dim
        };
        let r = DateTime { year: y, month: m, day, ..*self };
        proof {
            assert(r.month_index() == mi) by (nonlinear_arith)
                requires
                    r.year == mi / 12,
                    r.month == mi % 12 + 1,
                    r.month_index() == r.year * 12 + (r.month - 1),
                    (mi / 12) * 12 + mi % 12 == mi,
            ;
        }
        r
    }

    /// Of two month starts, the one with the smaller linear month count is
    /// the strictly earlier instant.
    pub proof fn lemma_month_start_order(a: DateTime, b: DateTime)
        requires
            a.valid(),
            b.valid(),
            a.is_month_start(),
            b.is_month_start(),
            a.month_index() < b.month_index(),
        ensures
            a.key() < b.key(),
    {
        assert(a.lex_lt(b)) by (nonlinear_arith)
            requires
                a.month_index() < b.month_index(),
                a.month_index() == a.year * 12 + (a.month - 1),
                b.month_index() == b.year * 12 + (b.month - 1),
                1 <= a.month <= 12,
                1 <= b.month <= 12,
                a.lex_lt(b) == if a.year != b.year {
                    a.year < b.year
                } else if a.month != b.month {
                    a.month < b.month
                } else {
                    false
                },
        ;
        lemma_key_strict_mono(a, b);
    }
}

} // verus!
