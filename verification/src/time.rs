//! Civil date-and-time arithmetic at minute granularity, on the proleptic
//! Gregorian calendar. This is the foundation the notification scheduler
//! computes fire times on.

use vstd::prelude::*;

verus! {

/// A wall-clock instant at minute granularity.
#[derive(Clone, Copy, PartialEq, Eq, Structural, Debug)]
pub struct DateTime {
    pub year: u32,
    /// 1 through 12.
    pub month: u8,
    /// 1 through the length of the month.
    pub day: u8,
    /// 0 through 23.
    pub hour: u8,
    /// 0 through 59.
    pub minute: u8,
}

pub open spec fn spec_is_leap_year(y: int) -> bool {
    y % 4 == 0 && (y % 100 != 0 || y % 400 == 0)
}

pub open spec fn spec_days_in_month(y: int, m: int) -> int {
    if m == 2 {
        if spec_is_leap_year(y) { 29 } else { 28 }
    } else if m == 4 || m == 6 || m == 9 || m == 11 {
        30
    } else {
        31
    }
}

/// The fields describe a real calendar instant.
pub open spec fn valid_date_time(t: DateTime) -> bool {
    &&& 1 <= t.year
    &&& 1 <= t.month <= 12
    &&& 1 <= t.day <= spec_days_in_month(t.year as int, t.month as int)
    &&& t.hour < 24
    &&& t.minute < 60
}

/// Strict chronological order: `a` is earlier than `b`.
pub open spec fn dt_lt(a: DateTime, b: DateTime) -> bool {
    ||| a.year < b.year
    ||| (a.year == b.year && a.month < b.month)
    ||| (a.year == b.year && a.month == b.month && a.day < b.day)
    ||| (a.year == b.year && a.month == b.month && a.day == b.day && a.hour < b.hour)
    ||| (a.year == b.year && a.month == b.month && a.day == b.day && a.hour == b.hour
        && a.minute < b.minute)
}

pub open spec fn dt_le(a: DateTime, b: DateTime) -> bool {
    a == b || dt_lt(a, b)
}

pub fn is_leap_year(y: u32) -> (r: bool)
    ensures
        r == spec_is_leap_year(y as int),
{
    y % 4 == 0 && (y % 100 != 0 || y % 400 == 0)
}

pub fn days_in_month(y: u32, m: u8) -> (r: u8)
    ensures
        r as int == spec_days_in_month(y as int, m as int),
{
    if m == 2 {
        if is_leap_year(y) { 29 } else { 28 }
    } else if m == 4 || m == 6 || m == 9 || m == 11 {
        30
    } else {
        31
    }
}

/// Earlier-than test on instants.
pub fn dt_before(a: &DateTime, b: &DateTime) -> (r: bool)
    ensures
        r == dt_lt(*a, *b),
{
    if a.year != b.year {
        a.year < b.year
    } else if a.month != b.month {
        a.month < b.month
    } else if a.day != b.day {
        a.day < b.day
    } else if a.hour != b.hour {
        a.hour < b.hour
    } else {
        a.minute < b.minute
    }
}

/// Not-later-than test on instants.
pub fn dt_not_after(a: &DateTime, b: &DateTime) -> (r: bool)
    ensures
        r == dt_le(*a, *b),
{
    !dt_before(b, a)
}

/// Midnight of the following calendar day, keeping the time-of-day fields.
pub open spec fn spec_next_day(t: DateTime) -> DateTime {
    if t.day < spec_days_in_month(t.year as int, t.month as int) {
        DateTime { day: (t.day + 1) as u8, ..t }
    } else if t.month < 12 {
        DateTime { month: (t.month + 1) as u8, day: 1, ..t }
    } else {
        DateTime { year: (t.year + 1) as u32, month: 1, day: 1, ..t }
    }
}

/// The instant one minute later.
pub open spec fn spec_next_minute(t: DateTime) -> DateTime {
    if t.minute < 59 {
        DateTime { minute: (t.minute + 1) as u8, ..t }
    } else if t.hour < 23 {
        DateTime { hour: (t.hour + 1) as u8, minute: 0, ..t }
    } else {
        DateTime { hour: 0, minute: 0, ..spec_next_day(t) }
    }
}

pub fn next_day(t: &DateTime) -> (r: DateTime)
    requires
        valid_date_time(*t),
        t.year < u32::MAX,
    ensures
        r == spec_next_day(*t),
{
    let dim = days_in_month(t.year, t.month);
    if t.day < dim {
        DateTime { day: t.day + 1, ..*t }
    } else if t.month < 12 {
        DateTime { month: t.month + 1, day: 1, ..*t }
    } else {
        DateTime { year: t.year + 1, month: 1, day: 1, ..*t }
    }
}

pub fn next_minute(t: &DateTime) -> (r: DateTime)
    requires
        valid_date_time(*t),
        t.year < u32::MAX,
    ensures
        r == spec_next_minute(*t),
{
    if t.minute < 59 {
        DateTime { minute: t.minute + 1, ..*t }
    } else if t.hour < 23 {
        DateTime { hour: t.hour + 1, minute: 0, ..*t }
    } else {
        DateTime { hour: 0, minute: 0, ..next_day(t) }
    }
}

pub proof fn lemma_next_minute_valid(t: DateTime)
    requires
        valid_date_time(t),
        t.year < u32::MAX,
    ensures
        valid_date_time(spec_next_minute(t)),
        dt_lt(t, spec_next_minute(t)),
{
}

/// One minute later is the immediate successor: nothing valid lies strictly
/// between an instant and the instant one minute later.
pub proof fn lemma_next_minute_tight(t: DateTime, u: DateTime)
    requires
        valid_date_time(t),
        valid_date_time(u),
        dt_lt(t, u),
    ensures
        dt_le(spec_next_minute(t), u),
{
}

pub open spec fn spec_year_days(y: int) -> int {
    if spec_is_leap_year(y) { 366 } else { 365 }
}

/// Days in all years strictly before year `y`, counting from year 1.
pub open spec fn spec_days_before_year(y: int) -> int
    decreases y,
{
    if y <= 1 {
        0
    } else {
        spec_days_before_year(y - 1) + spec_year_days(y - 1)
    }
}

/// Days in the months of year `y` strictly before month `m`.
pub open spec fn spec_days_before_month(y: int, m: int) -> int
    decreases m,
{
    if m <= 1 {
        0
    } else {
        spec_days_before_month(y, m - 1) + spec_days_in_month(y, m - 1)
    }
}

/// Days elapsed since the first of January of year 1 (which is day 0).
pub open spec fn spec_day_number(t: DateTime) -> int {
    spec_days_before_year(t.year as int) + spec_days_before_month(t.year as int, t.month as int)
        + t.day - 1
}

/// Day of week, 0 = Sunday through 6 = Saturday. The first of January of
/// year 1 is a Monday in the proleptic Gregorian calendar.
pub open spec fn spec_weekday(t: DateTime) -> int {
    (spec_day_number(t) + 1) % 7
}

proof fn lemma_days_before_year_bound(y: int)
    requires
        1 <= y,
    ensures
        spec_days_before_year(y) <= 366 * (y - 1),
        0 <= spec_days_before_year(y),
    decreases y,
{
    if y > 1 {
        lemma_days_before_year_bound(y - 1);
    }
}

proof fn lemma_days_before_month_bound(y: int, m: int)
    requires
        1 <= m <= 13,
    ensures
        0 <= spec_days_before_month(y, m) <= 31 * (m - 1),
    decreases m,
{
    if m > 1 {
        lemma_days_before_month_bound(y, m - 1);
    }
}

/// A whole year's months sum to its day count.
proof fn lemma_days_before_month_full(y: int)
    ensures
        spec_days_before_month(y, 13) == spec_year_days(y),
{
    reveal_with_fuel(spec_days_before_month, 14);
}

pub proof fn lemma_day_number_nonneg(t: DateTime)
    requires
        valid_date_time(t),
    ensures
        spec_day_number(t) >= 0,
{
    lemma_days_before_year_bound(t.year as int);
    lemma_days_before_month_bound(t.year as int, t.month as int);
}

/// Days since the first of January of year 1.
pub fn day_number(t: &DateTime) -> (r: u64)
    requires
        valid_date_time(*t),
        t.year <= 1_000_000,
    ensures
        r as int == spec_day_number(*t),
{
    proof {
        lemma_days_before_year_bound(t.year as int);
    }
    let mut acc: u64 = 0;
    let mut y: u32 = 1;
    while y < t.year
        invariant
            1 <= y <= t.year,
            t.year <= 1_000_000,
            acc as int == spec_days_before_year(y as int),
            acc <= 366 * (y as u64 - 1),
        decreases t.year - y,
    {
        if is_leap_year(y) {
            acc = acc + 366;
        } else {
            acc = acc + 365;
        }
        proof {
            lemma_days_before_year_bound(y as int + 1);
        }
        y = y + 1;
    }
    let mut m: u8 = 1;
    while m < t.month
        invariant
            1 <= m <= t.month,
            t.month <= 12,
            t.year <= 1_000_000,
            acc as int == spec_days_before_year(t.year as int) + spec_days_before_month(
                t.year as int,
                m as int,
            ),
            acc as int <= 366 * (t.year as int - 1) + 31 * (m as int - 1),
        decreases t.month - m,
    {
        let dim = days_in_month(t.year, m);
        acc = acc + dim as u64;
        m = m + 1;
    }
    acc + (t.day - 1) as u64
}

/// Day of week, 0 = Sunday through 6 = Saturday.
pub fn weekday(t: &DateTime) -> (r: u8)
    requires
        valid_date_time(*t),
        t.year <= 1_000_000,
    ensures
        r as int == spec_weekday(*t),
        r < 7,
{
    let dn = day_number(t);
    proof {
        lemma_days_before_year_bound(t.year as int);
        lemma_days_before_month_bound(t.year as int, t.month as int);
    }
    ((dn + 1) % 7) as u8
}

/// Stepping to the next calendar day advances the day number by one.
pub proof fn lemma_day_number_next_day(t: DateTime)
    requires
        valid_date_time(t),
        t.year < u32::MAX,
    ensures
        spec_day_number(spec_next_day(t)) == spec_day_number(t) + 1,
        valid_date_time(spec_next_day(t)),
{
    let y = t.year as int;
    let m = t.month as int;
    if t.day < spec_days_in_month(y, m) {
    } else if t.month < 12 {
        assert(spec_days_before_month(y, m + 1) == spec_days_before_month(y, m)
            + spec_days_in_month(y, m));
    } else {
        lemma_days_before_month_full(y);
        assert(spec_days_before_month(y, 13) == spec_days_before_month(y, 12)
            + spec_days_in_month(y, 12));
        assert(spec_days_before_year(y + 1) == spec_days_before_year(y) + spec_year_days(y));
        assert(spec_days_before_month(y + 1, 1) == 0);
    }
}

/// Stepping one minute either keeps the calendar day (and its day number) or
/// moves to the next day, advancing the day number by one.
pub proof fn lemma_day_number_next_minute(t: DateTime)
    requires
        valid_date_time(t),
        t.year < u32::MAX,
    ensures
        ({
            let n = spec_next_minute(t);
            if n.day == t.day && n.month == t.month && n.year == t.year {
                spec_day_number(n) == spec_day_number(t)
            } else {
                spec_day_number(n) == spec_day_number(t) + 1
            }
        }),
{
    if !(t.minute < 59) && !(t.hour < 23) {
        lemma_day_number_next_day(t);
        let nd = spec_next_day(t);
        assert(spec_day_number(spec_next_minute(t)) == spec_day_number(nd));
        if nd.day == t.day && nd.month == t.month && nd.year == t.year {
            assert(t.day < spec_days_in_month(t.year as int, t.month as int) ==> nd.day == t.day
                + 1);
            assert(false);
        }
    }
}

} // verus!
