use vstd::prelude::*;

use vstd::arithmetic::div_mod::{lemma_fundamental_div_mod, lemma_fundamental_div_mod_converse};

verus! {

// Timestamps are seconds since 1970-01-01T00:00:00, in the proleptic Gregorian
// calendar, with no time zone attached. Dates are day numbers counted from
// 1970-01-01 (negative before it). The library covers the years 1 through 9999.
/// Days from 0001-01-01 to 1970-01-01.
pub const EPOCH_OFFSET_DAYS: i64 = 719162;

/// Seconds at 0001-01-01T00:00:00, the earliest representable timestamp.
pub const TIMESTAMP_MIN: i64 = -62135596800;

/// Seconds at 9999-12-31T23:59:59, the latest representable timestamp.
pub const TIMESTAMP_MAX: i64 = 253402300799;

pub const SECONDS_PER_DAY: i64 = 86400;

pub open spec fn is_leap_year(y: int) -> bool {
    y % 4 == 0 && (y % 100 != 0 || y % 400 == 0)
}

pub open spec fn days_in_year(y: int) -> int {
    if is_leap_year(y) {
        366
    } else {
        365
    }
}

pub open spec fn days_in_month(y: int, m: int) -> int {
    if m == 2 {
        if is_leap_year(y) {
            29
        } else {
            28
        }
    } else if m == 4 || m == 6 || m == 9 || m == 11 {
        30
    } else {
        31
    }
}

/// Days from 0001-01-01 to the first day of year `y`.
pub open spec fn days_before_year(y: int) -> int
    decreases y,
{
    if y <= 1 {
        0
    } else {
        days_before_year(y - 1) + days_in_year(y - 1)
    }
}

/// Days from the first of January of year `y` to the first day of month `m`.
pub open spec fn days_before_month(y: int, m: int) -> int
    decreases m,
{
    if m <= 1 {
        0
    } else {
        days_before_month(y, m - 1) + days_in_month(y, m - 1)
    }
}

pub open spec fn valid_ymd(y: int, m: int, d: int) -> bool {
    &&& 1 <= y <= 9999
    &&& 1 <= m <= 12
    &&& 1 <= d <= days_in_month(y, m)
}

/// Day number of the civil date (y, m, d), counted from 1970-01-01.
pub open spec fn epoch_day_of_ymd(y: int, m: int, d: int) -> int {
    days_before_year(y) + days_before_month(y, m) + (d - 1) - 719162
}

/// The day a timestamp falls on (floor division, so pre-1970 seconds
/// belong to the negative day they fall in).
pub open spec fn day_of_timestamp(ts: int) -> int {
    ts / 86400
}

/// The second of the day a timestamp falls on, between 0 and 86399.
pub open spec fn second_of_day(ts: int) -> int {
    ts % 86400
}

pub open spec fn timestamp_of_ymd_hms(y: int, m: int, d: int, h: int, mi: int, s: int) -> int {
    epoch_day_of_ymd(y, m, d) * 86400 + h * 3600 + mi * 60 + s
}

/// How division by a positive constant changes when the dividend steps down by one.
proof fn lemma_div_step_down(z: int, k: int)
    requires
        k >= 1,
    ensures
        z / k == (z - 1) / k + if z % k == 0 {
            1int
        } else {
            0int
        },
{
    lemma_fundamental_div_mod(z, k);
    vstd::arithmetic::div_mod::lemma_mod_bound(z, k);
    let q = z / k;
    let r = z % k;
    if r == 0 {
        assert(z - 1 == (q - 1) * k + (k - 1)) by (nonlinear_arith)
            requires
                z == k * q + r,
                r == 0,
        ;
        lemma_fundamental_div_mod_converse(z - 1, k, q - 1, k - 1);
    } else {
        assert(z - 1 == q * k + (r - 1)) by (nonlinear_arith)
            requires
                z == k * q + r,
        ;
        lemma_fundamental_div_mod_converse(z - 1, k, q, r - 1);
    }
}

/// A multiple of 400 is a multiple of 100 and of 4; a multiple of 100 is one of 4.
proof fn lemma_mod_implications(z: int)
    ensures
        z % 400 == 0 ==> z % 100 == 0,
        z % 100 == 0 ==> z % 4 == 0,
{
    if z % 400 == 0 {
        lemma_fundamental_div_mod(z, 400);
        lemma_fundamental_div_mod_converse(z, 100, 4 * (z / 400), 0);
    }
    if z % 100 == 0 {
        lemma_fundamental_div_mod(z, 100);
        lemma_fundamental_div_mod_converse(z, 4, 25 * (z / 100), 0);
    }
}

/// Closed form for the day count before a year: 365 days a year plus one
/// for every leap year so far.
pub proof fn lemma_days_before_year_closed(y: int)
    requires
        y >= 1,
    ensures
        days_before_year(y) == 365 * (y - 1) + (y - 1) / 4 - (y - 1) / 100 + (y - 1) / 400,
    decreases y,
{
    if y == 1 {
    } else {
        lemma_days_before_year_closed(y - 1);
        let z = y - 1;
        lemma_div_step_down(z, 4);
        lemma_div_step_down(z, 100);
        lemma_div_step_down(z, 400);
        lemma_mod_implications(z);
    }
}

pub proof fn lemma_days_before_year_bounds(y: int)
    requires
        1 <= y,
    ensures
        365 * (y - 1) <= days_before_year(y) <= 366 * (y - 1),
    decreases y,
{
    if y > 1 {
        lemma_days_before_year_bounds(y - 1);
    }
}

/// The whole-year day count evaluated at the upper edge of the supported range.
pub proof fn lemma_days_before_year_10000()
    ensures
        days_before_year(10000) == 3652059,
{
    lemma_days_before_year_closed(10000);
}

pub proof fn lemma_days_before_year_mono(a: int, b: int)
    requires
        1 <= a <= b,
    ensures
        days_before_year(a) <= days_before_year(b),
    decreases b,
{
    if a < b {
        lemma_days_before_year_mono(a, b - 1);
    }
}

/// A month starts no earlier than January the first and ends within its year.
pub proof fn lemma_days_before_month_bounds(y: int, m: int)
    requires
        1 <= m <= 12,
    ensures
        0 <= days_before_month(y, m),
        days_before_month(y, m) + days_in_month(y, m) <= days_in_year(y),
    decreases 12 - m,
{
    lemma_days_before_month_nonneg(y, m);
    if m == 12 {
        assert(days_before_month(y, 13) == days_in_year(y)) by {
            reveal_with_fuel(days_before_month, 14);
        }
        assert(days_before_month(y, 13) == days_before_month(y, 12) + days_in_month(y, 12));
        lemma_days_before_month_nonneg(y, 12);
    } else {
        lemma_days_before_month_bounds(y, m + 1);
    }
}

proof fn lemma_days_before_month_nonneg(y: int, m: int)
    requires
        1 <= m,
    ensures
        0 <= days_before_month(y, m),
    decreases m,
{
    if m > 1 {
        lemma_days_before_month_nonneg(y, m - 1);
    }
}

/// Every valid date's day number lies between the two ends of the range;
/// the matching timestamps lie between `TIMESTAMP_MIN` and `TIMESTAMP_MAX`.
pub proof fn lemma_epoch_day_range(y: int, m: int, d: int)
    requires
        valid_ymd(y, m, d),
    ensures
        -719162 <= epoch_day_of_ymd(y, m, d) <= 2932896,
{
    lemma_days_before_year_mono(1, y);
    lemma_days_before_month_bounds(y, m);
    lemma_days_before_year_10000();
    lemma_days_before_year_mono(y + 1, 10000);
    assert(days_before_year(y + 1) == days_before_year(y) + days_in_year(y));
}

/// The year a day count (since 0001-01-01) falls in, searching upward from `y`.
pub open spec fn year_of_day_from(t: int, y: int) -> int
    decreases 10000 - y,
{
    if y >= 9999 || t < days_before_year(y) + days_in_year(y) {
        y
    } else {
        year_of_day_from(t, y + 1)
    }
}

/// The month a day offset `r` (days since the start of year `y`) falls in,
/// searching upward from `m`.
pub open spec fn month_of_rem_from(y: int, r: int, m: int) -> int
    decreases 12 - m,
{
    if m >= 12 || r < days_before_month(y, m) + days_in_month(y, m) {
        m
    } else {
        month_of_rem_from(y, r, m + 1)
    }
}

/// Calendar year of an epoch day number.
pub open spec fn civil_year(day: int) -> int {
    year_of_day_from(day + 719162, 1)
}

/// Calendar month of an epoch day number.
pub open spec fn civil_month(day: int) -> int {
    month_of_rem_from(civil_year(day), day + 719162 - days_before_year(civil_year(day)), 1)
}

/// Day of the month of an epoch day number.
pub open spec fn civil_dom(day: int) -> int {
    day + 719162 - days_before_year(civil_year(day)) - days_before_month(
        civil_year(day),
        civil_month(day),
    ) + 1
}

pub fn leap_year(y: u16) -> (r: bool)
    ensures
        r == is_leap_year(y as int),
{
    y % 4 == 0 && (y % 100 != 0 || y % 400 == 0)
}

pub fn month_length(y: u16, m: u8) -> (r: u8)
    ensures
        r == days_in_month(y as int, m as int),
{
    if m == 2 {
        if leap_year(y) {
            29
        } else {
            28
        }
    } else if m == 4 || m == 6 || m == 9 || m == 11 {
        30
    } else {
        31
    }
}

/// Day number since 1970-01-01 of a valid calendar date.
pub fn epoch_day_from_ymd(y: u16, m: u8, d: u8) -> (r: i64)
    requires
        valid_ymd(y as int, m as int, d as int),
    ensures
        r == epoch_day_of_ymd(y as int, m as int, d as int),
        -719162 <= r <= 2932896,
{
    proof {
        lemma_epoch_day_range(y as int, m as int, d as int);
    }
    let mut days: i64 = 0;
    let mut yy: u16 = 1;
    while yy < y
        invariant
            1 <= yy <= y <= 9999,
            days == days_before_year(yy as int),
            0 <= days <= 366 * (yy as int - 1),
        decreases y as int - yy as int,
    {
        proof {
            lemma_days_before_year_bounds(yy as int + 1);
        }
        days = days + if leap_year(yy) {
            366
        } else {
            365
        };
        yy = yy + 1;
    }
    let mut mm: u8 = 1;
    while mm < m
        invariant
            1 <= mm <= m <= 12,
            1 <= y <= 9999,
            days == days_before_year(y as int) + days_before_month(y as int, mm as int),
            days_before_year(y as int) <= 366 * 9998,
            0 <= days_before_month(y as int, mm as int) <= 366,
        decreases m as int - mm as int,
    {
        proof {
            lemma_days_before_month_bounds(y as int, mm as int);
        }
        days = days + month_length(y, mm) as i64;
        mm = mm + 1;
    }
    days + (d - 1) as i64 - EPOCH_OFFSET_DAYS
}

/// Calendar date of a day number since 1970-01-01, for days inside the
/// supported year range.
pub fn ymd_from_epoch_day(day: i64) -> (r: (u16, u8, u8))
    requires
        -719162 <= day <= 2932896,
    ensures
        r.0 == civil_year(day as int),
        r.1 == civil_month(day as int),
        r.2 == civil_dom(day as int),
        valid_ymd(r.0 as int, r.1 as int, r.2 as int),
        epoch_day_of_ymd(r.0 as int, r.1 as int, r.2 as int) == day,
{
    let t: i64 = day + EPOCH_OFFSET_DAYS;
    proof {
        lemma_days_before_year_10000();
    }
    let mut y: u16 = 1;
    let mut acc: i64 = 0;
    loop
        invariant
            1 <= y <= 9999,
            0 <= t <= 3652058,
            acc == days_before_year(y as int),
            acc <= t,
            t == day + 719162,
            year_of_day_from(t as int, 1) == year_of_day_from(t as int, y as int),
        ensures
            1 <= y <= 9999,
            acc == days_before_year(y as int),
            acc <= t,
            t == day + 719162,
            year_of_day_from(t as int, 1) == year_of_day_from(t as int, y as int),
            y >= 9999 || t < acc + days_in_year(y as int),
        decreases 9999 - y as int,
    {
        proof {
            lemma_days_before_year_bounds(y as int);
        }
        let len: i64 = if leap_year(y) {
            366
        } else {
            365
        };
        if y >= 9999 || t < acc + len {
            break ;
        }
        acc = acc + len;
        y = y + 1;
    }
    proof {
        if y == 9999 && t >= acc + days_in_year(9999) {
            assert(days_before_year(10000) == days_before_year(9999) + days_in_year(9999));
            assert(false);
        }
        assert(t < days_before_year(y as int) + days_in_year(y as int));
    }
    let rem: i64 = t - acc;
    let mut m: u8 = 1;
    let mut acc2: i64 = 0;
    loop
        invariant
            1 <= m <= 12,
            1 <= y <= 9999,
            0 <= rem < days_in_year(y as int),
            acc2 == days_before_month(y as int, m as int),
            acc2 <= rem,
            month_of_rem_from(y as int, rem as int, 1) == month_of_rem_from(
                y as int,
                rem as int,
                m as int,
            ),
        ensures
            1 <= m <= 12,
            acc2 == days_before_month(y as int, m as int),
            acc2 <= rem,
            0 <= rem < days_in_year(y as int),
            month_of_rem_from(y as int, rem as int, 1) == month_of_rem_from(
                y as int,
                rem as int,
                m as int,
            ),
            m >= 12 || rem < acc2 + days_in_month(y as int, m as int),
        decreases 12 - m as int,
    {
        proof {
            lemma_days_before_month_bounds(y as int, m as int);
        }
        let len: i64 = month_length(y, m) as i64;
        if m >= 12 || rem < acc2 + len {
            break ;
        }
        acc2 = acc2 + len;
        m = m + 1;
    }
    proof {
        lemma_days_before_month_bounds(y as int, m as int);
        if m == 12 && rem >= acc2 + days_in_month(y as int, 12) {
            assert(days_before_month(y as int, 13) == days_in_year(y as int)) by {
                reveal_with_fuel(days_before_month, 14);
            }
            assert(days_before_month(y as int, 13) == days_before_month(y as int, 12)
                + days_in_month(y as int, 12));
            assert(false);
        }
        assert(rem < acc2 + days_in_month(y as int, m as int));
    }
    let d: u8 = (rem - acc2 + 1) as u8;
    (y, m, d)
}

/// The day a timestamp falls on.
pub fn timestamp_day(ts: i64) -> (d: i64)
    requires
        TIMESTAMP_MIN <= ts <= TIMESTAMP_MAX,
    ensures
        d == day_of_timestamp(ts as int),
        -719162 <= d <= 2932896,
{
    let shifted: i64 = ts + 62135596800;
    let q: i64 = shifted / 86400;
    proof {
        lemma_mod_bound_exec_div(shifted as int, q as int);
    }
    q - EPOCH_OFFSET_DAYS
}

/// The second of its day a timestamp falls on.
pub fn timestamp_second_of_day(ts: i64) -> (s: i64)
    requires
        TIMESTAMP_MIN <= ts <= TIMESTAMP_MAX,
    ensures
        s == second_of_day(ts as int),
        0 <= s < 86400,
{
    let shifted: i64 = ts + 62135596800;
    let q: i64 = shifted / 86400;
    proof {
        lemma_mod_bound_exec_div(shifted as int, q as int);
    }
    shifted - q * 86400
}

/// Relates truncating division of the shifted (non-negative) second count to
/// the floor division and remainder the specification speaks of.
proof fn lemma_mod_bound_exec_div(shifted: int, q: int)
    requires
        0 <= shifted,
        shifted <= 315537897599,
        q == shifted / 86400,
    ensures
        shifted - 62135596800 == 86400 * (q - 719162) + (shifted - q * 86400),
        (shifted - 62135596800) / 86400 == q - 719162,
        (shifted - 62135596800) % 86400 == shifted - q * 86400,
        0 <= shifted - q * 86400 < 86400,
{
    lemma_fundamental_div_mod(shifted, 86400);
    vstd::arithmetic::div_mod::lemma_mod_bound(shifted, 86400);
    let r = shifted % 86400;
    assert(shifted - 62135596800 == (q - 719162) * 86400 + r) by (nonlinear_arith)
        requires
            shifted == 86400 * q + r,
    ;
    lemma_fundamental_div_mod_converse(shifted - 62135596800, 86400, q - 719162, r);
}

/// Timestamp of a valid calendar date and time of day.
pub fn timestamp_from_ymd_hms(y: u16, m: u8, d: u8, h: u8, mi: u8, s: u8) -> (r: i64)
    requires
        valid_ymd(y as int, m as int, d as int),
        h < 24,
        mi < 60,
        s < 60,
    ensures
        r == timestamp_of_ymd_hms(y as int, m as int, d as int, h as int, mi as int, s as int),
        TIMESTAMP_MIN <= r <= TIMESTAMP_MAX,
{
    let day = epoch_day_from_ymd(y, m, d);
    day * SECONDS_PER_DAY + (h as i64) * 3600 + (mi as i64) * 60 + s as i64
}

} // verus!
