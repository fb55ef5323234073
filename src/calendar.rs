//! The proleptic Gregorian calendar in UTC, as seconds since the Unix epoch.
//!
//! Timestamps are whole seconds since 1970-01-01T00:00:00Z, without leap seconds.
//! The representable range is the one of chrono's `DateTime<Utc>`: every instant from
//! the first second of year `MIN_YEAR` to the last second of year `MAX_YEAR`.
use vstd::prelude::*;

verus! {

/// The first year that a date may have.
pub const MIN_YEAR: i32 = -262143;

/// The last year that a date may have.
pub const MAX_YEAR: i32 = 262142;

/// The timestamp of `MIN_YEAR`-01-01T00:00:00Z.
pub const MIN_TIMESTAMP: i64 = -8334601228800;

/// The timestamp of `MAX_YEAR`-12-31T23:59:59Z.
pub const MAX_TIMESTAMP: i64 = 8210266876799;

pub open spec fn is_leap_year(y: int) -> bool {
    (y % 4 == 0 && y % 100 != 0) || y % 400 == 0
}

pub open spec fn year_length(y: int) -> int {
    if is_leap_year(y) {
        366
    } else {
        365
    }
}

pub open spec fn days_in_month(y: int, m: int) -> int {
    if m == 2 {
        if is_leap_year(y) {
            29
        } else {
            28
        }
    } else if m == 4 || m == 6 || m == 9 || m == 11 {
        30
    } else {
        31
    }
}

/// Days of year `y` that come before the first day of month `m` (1 to 12).
pub open spec fn days_before_month(y: int, m: int) -> int {
    let leap: int = if is_leap_year(y) && m > 2 {
        1
    } else {
        0
    };
    let common: int = if m <= 1 {
        0
    } else if m == 2 {
        31
    } else if m == 3 {
        59
    } else if m == 4 {
        90
    } else if m == 5 {
        120
    } else if m == 6 {
        151
    } else if m == 7 {
        181
    } else if m == 8 {
        212
    } else if m == 9 {
        243
    } else if m == 10 {
        273
    } else if m == 11 {
        304
    } else {
        334
    };
    common + leap
}

/// The number of leap years from year 1 up to year `y - 1` (negative when `y < 1`).
pub open spec fn leap_years_before(y: int) -> int {
    (y - 1) / 4 - (y - 1) / 100 + (y - 1) / 400
}

/// The number of days from 1970-01-01 to the date `y`-`m`-`d`.
pub open spec fn days_from_epoch(y: int, m: int, d: int) -> int {
    365 * (y - 1970) + leap_years_before(y) - leap_years_before(1970) + days_before_month(y, m) + d
        - 1
}

/// A date of the calendar, within the years that a timestamp can reach.
pub open spec fn is_valid_date(y: int, m: int, d: int) -> bool {
    &&& MIN_YEAR <= y <= MAX_YEAR
    &&& 1 <= m <= 12
    &&& 1 <= d <= days_in_month(y, m)
}

pub open spec fn is_valid_time(h: int, mi: int, s: int) -> bool {
    0 <= h < 24 && 0 <= mi < 60 && 0 <= s < 60
}

/// The timestamp of `y`-`m`-`d`T`h`:`mi`:`s`Z.
pub open spec fn timestamp_of(y: int, m: int, d: int, h: int, mi: int, s: int) -> int {
    days_from_epoch(y, m, d) * 86400 + h * 3600 + mi * 60 + s
}

pub open spec fn is_representable(t: int) -> bool {
    MIN_TIMESTAMP <= t <= MAX_TIMESTAMP
}

/// The seconds since midnight of the day that holds `t`.
pub open spec fn second_of_day(t: int) -> int {
    t % 86400
}

pub open spec fn hour_of(t: int) -> int {
    second_of_day(t) / 3600
}

pub open spec fn minute_of(t: int) -> int {
    (t % 3600) / 60
}

pub open spec fn second_of(t: int) -> int {
    t % 60
}

/// The day, counted from 1970-01-01, that holds `t`.
pub open spec fn day_of(t: int) -> int {
    t / 86400
}

/// The calendar date `(year, month, day)` of day number `n` counted from 1970-01-01.
pub open spec fn date_of_day(n: int) -> (int, int, int) {
    choose|date: (int, int, int)|
        is_valid_date(date.0, date.1, date.2) && days_from_epoch(date.0, date.1, date.2) == n
}

/// The bounds of the representable range are the first and the last second of the
/// years `MIN_YEAR` and `MAX_YEAR`.
pub proof fn lemma_range_bounds()
    ensures
        MIN_TIMESTAMP == timestamp_of(MIN_YEAR as int, 1, 1, 0, 0, 0),
        MAX_TIMESTAMP == timestamp_of(MAX_YEAR as int, 12, 31, 23, 59, 59),
        MIN_TIMESTAMP % 86400 == 0,
{
}

/// Relies on chrono's `NaiveDate::from_ymd_opt`, which gives a date exactly for the days of
/// the proleptic Gregorian calendar in years `MIN_YEAR..=MAX_YEAR`, and on
/// `DateTime::<Utc>::timestamp`, which counts the non-leap seconds since 1970-01-01T00:00:00Z.
/// `NaiveTime::from_hms_opt`, `NaiveDateTime::new` and `and_utc` only carry the time of day
/// over, which the precondition keeps valid.
#[verifier::external_body]
pub(crate) fn utc_timestamp(year: i32, month: u32, day: u32, hour: u32, min: u32, sec: u32) -> (r:
    Option<i64>)
    requires
        is_valid_time(hour as int, min as int, sec as int),
    ensures
        r.is_some() == is_valid_date(year as int, month as int, day as int),
        r matches Some(t) ==> t == timestamp_of(
            year as int,
            month as int,
            day as int,
            hour as int,
            min as int,
            sec as int,
        ),
{
    let time = chrono::NaiveTime::from_hms_opt(hour, min, sec)?;
    chrono::NaiveDate::from_ymd_opt(year, month, day).map(
        |date| chrono::NaiveDateTime::new(date, time).and_utc().timestamp(),
    )
}

/// Relies on chrono's `DateTime::<Utc>::checked_add_signed`, which gives the sum exactly when it
/// stays within the representable range, on `DateTime::from_timestamp`, which accepts every
/// representable timestamp, and on `timestamp`, which reads it back. `TimeDelta::seconds`
/// panics above `i64::MAX / 1000` seconds, which the precondition excludes.
#[verifier::external_body]
pub(crate) fn checked_add_seconds(t: i64, secs: i64) -> (r: Option<i64>)
    requires
        is_representable(t as int),
        0 <= secs <= i64::MAX / 1000,
    ensures
        r.is_some() == is_representable(t + secs),
        r matches Some(sum) ==> sum == t + secs,
{
    let start = chrono::DateTime::from_timestamp(t, 0)?;
    start.checked_add_signed(chrono::TimeDelta::seconds(secs)).map(|sum| sum.timestamp())
}

/// Whether `t` lies in the representable range.
pub fn is_representable_timestamp(t: i64) -> (r: bool)
    ensures
        r == is_representable(t as int),
{
    MIN_TIMESTAMP <= t && t <= MAX_TIMESTAMP
}

/// The hour, minute and second of the day that holds `t`.
pub fn time_of_day(t: i64) -> (r: (u32, u32, u32))
    requires
        is_representable(t as int),
    ensures
        r.0 as int == hour_of(t as int),
        r.1 as int == minute_of(t as int),
        r.2 as int == second_of(t as int),
        is_valid_time(r.0 as int, r.1 as int, r.2 as int),
{
    let shifted: u64 = (t - MIN_TIMESTAMP) as u64;
    let secs: u64 = shifted % 86400;
    proof {
        lemma_day_aligned_shift(t as int);
    }
    ((secs / 3600) as u32, ((secs % 3600) / 60) as u32, (secs % 60) as u32)
}

proof fn lemma_day_aligned_shift(t: int)
    requires
        is_representable(t),
    ensures
        (t - MIN_TIMESTAMP) % 86400 == t % 86400,
        ((t - MIN_TIMESTAMP) % 86400) % 3600 == t % 3600,
        ((t - MIN_TIMESTAMP) % 86400) % 60 == t % 60,
{
    let k: int = -96465292;
    lemma_range_bounds();
    assert(MIN_TIMESTAMP == k * 86400);
    assert((t - MIN_TIMESTAMP) % 86400 == t % 86400) by {
        vstd::arithmetic::div_mod::lemma_mod_multiples_vanish(-k, t, 86400);
        assert(t - MIN_TIMESTAMP == 86400 * (-k) + t) by (nonlinear_arith)
            requires
                MIN_TIMESTAMP == k * 86400,
        ;
    }
    assert((t % 86400) % 3600 == t % 3600) by {
        vstd::arithmetic::div_mod::lemma_mod_mod(t, 3600, 24);
    }
    assert((t % 86400) % 60 == t % 60) by {
        vstd::arithmetic::div_mod::lemma_mod_mod(t, 60, 1440);
    }
}


proof fn lemma_div_step(y: int, k: int)
    requires
        k > 0,
    ensures
        y / k - (y - 1) / k == (if y % k == 0 {
            1int
        } else {
            0int
        }),
{
    let q = y / k;
    let r = y % k;
    vstd::arithmetic::div_mod::lemma_fundamental_div_mod(y, k);
    if r == 0 {
        assert(y - 1 == (q - 1) * k + (k - 1)) by (nonlinear_arith)
            requires
                y == k * q + r,
                r == 0,
        ;
        vstd::arithmetic::div_mod::lemma_fundamental_div_mod_converse(y - 1, k, q - 1, k - 1);
    } else {
        assert(y - 1 == q * k + (r - 1)) by (nonlinear_arith)
            requires
                y == k * q + r,
        ;
        vstd::arithmetic::div_mod::lemma_fundamental_div_mod_converse(y - 1, k, q, r - 1);
    }
}

proof fn lemma_divisor_chain(y: int)
    ensures
        y % 400 == 0 ==> y % 100 == 0,
        y % 100 == 0 ==> y % 4 == 0,
{
    if y % 400 == 0 {
        vstd::arithmetic::div_mod::lemma_fundamental_div_mod(y, 400);
        let q = y / 400;
        assert(y == (4 * q) * 100 + 0) by (nonlinear_arith)
            requires
                y == 400 * q + y % 400,
                y % 400 == 0,
        ;
        vstd::arithmetic::div_mod::lemma_fundamental_div_mod_converse(y, 100, 4 * q, 0);
    }
    if y % 100 == 0 {
        vstd::arithmetic::div_mod::lemma_fundamental_div_mod(y, 100);
        let q = y / 100;
        assert(y == (25 * q) * 4 + 0) by (nonlinear_arith)
            requires
                y == 100 * q + y % 100,
                y % 100 == 0,
        ;
        vstd::arithmetic::div_mod::lemma_fundamental_div_mod_converse(y, 4, 25 * q, 0);
    }
}

/// The first day of year `y + 1` comes `year_length(y)` days after the first day of year `y`.
proof fn lemma_year_step(y: int)
    ensures
        days_from_epoch(y + 1, 1, 1) == days_from_epoch(y, 1, 1) + year_length(y),
{
    lemma_div_step(y, 4);
    lemma_div_step(y, 100);
    lemma_div_step(y, 400);
    lemma_divisor_chain(y);
}

proof fn lemma_years_ordered(y1: int, y2: int)
    requires
        y1 < y2,
    ensures
        days_from_epoch(y1, 1, 1) + year_length(y1) <= days_from_epoch(y2, 1, 1),
    decreases y2 - y1,
{
    lemma_year_step(y2 - 1);
    if y1 < y2 - 1 {
        lemma_years_ordered(y1, y2 - 1);
    }
}

/// A valid date falls within its year.
proof fn lemma_day_within_year(y: int, m: int, d: int)
    requires
        1 <= m <= 12,
        1 <= d <= days_in_month(y, m),
    ensures
        days_from_epoch(y, 1, 1) <= days_from_epoch(y, m, d) < days_from_epoch(y, 1, 1)
            + year_length(y),
{
}

/// Two valid dates of one year that are different fall on different days.
proof fn lemma_month_day_injective(y: int, m1: int, d1: int, m2: int, d2: int)
    requires
        1 <= m1 <= 12,
        1 <= d1 <= days_in_month(y, m1),
        1 <= m2 <= 12,
        1 <= d2 <= days_in_month(y, m2),
        days_before_month(y, m1) + d1 == days_before_month(y, m2) + d2,
    ensures
        m1 == m2,
        d1 == d2,
{
}

/// Different valid dates fall on different days.
pub proof fn lemma_days_from_epoch_injective(y1: int, m1: int, d1: int, y2: int, m2: int, d2: int)
    requires
        is_valid_date(y1, m1, d1),
        is_valid_date(y2, m2, d2),
        days_from_epoch(y1, m1, d1) == days_from_epoch(y2, m2, d2),
    ensures
        y1 == y2,
        m1 == m2,
        d1 == d2,
{
    lemma_day_within_year(y1, m1, d1);
    lemma_day_within_year(y2, m2, d2);
    if y1 < y2 {
        lemma_years_ordered(y1, y2);
    } else if y2 < y1 {
        lemma_years_ordered(y2, y1);
    } else {
        lemma_month_day_injective(y1, m1, d1, m2, d2);
    }
}

/// Reading the fields back from the timestamp of a valid date and time gives that date
/// and time.
pub proof fn lemma_timestamp_fields_round_trip(y: int, m: int, d: int, h: int, mi: int, s: int)
    requires
        is_valid_date(y, m, d),
        is_valid_time(h, mi, s),
    ensures
        ({
            let t = timestamp_of(y, m, d, h, mi, s);
            &&& date_of_day(day_of(t)) == (y, m, d)
            &&& hour_of(t) == h
            &&& minute_of(t) == mi
            &&& second_of(t) == s
        }),
{
    let n = days_from_epoch(y, m, d);
    let t = timestamp_of(y, m, d, h, mi, s);
    let tod = h * 3600 + mi * 60 + s;
    vstd::arithmetic::div_mod::lemma_fundamental_div_mod_converse(t, 86400, n, tod);
    vstd::arithmetic::div_mod::lemma_fundamental_div_mod_converse(tod, 3600, h, mi * 60 + s);
    assert(t == (n * 24 + h) * 3600 + (mi * 60 + s)) by (nonlinear_arith)
        requires
            t == n * 86400 + h * 3600 + mi * 60 + s,
    ;
    vstd::arithmetic::div_mod::lemma_fundamental_div_mod_converse(t, 3600, n * 24 + h, mi * 60 + s);
    vstd::arithmetic::div_mod::lemma_fundamental_div_mod_converse(mi * 60 + s, 60, mi, s);
    assert(t == (n * 1440 + h * 60 + mi) * 60 + s) by (nonlinear_arith)
        requires
            t == n * 86400 + h * 3600 + mi * 60 + s,
    ;
    vstd::arithmetic::div_mod::lemma_fundamental_div_mod_converse(t, 60, n * 1440 + h * 60 + mi, s);
    let witness = (y, m, d);
    assert(is_valid_date(witness.0, witness.1, witness.2) && days_from_epoch(
        witness.0,
        witness.1,
        witness.2,
    ) == n);
    let chosen = date_of_day(n);
    lemma_days_from_epoch_injective(chosen.0, chosen.1, chosen.2, y, m, d);
}

} // verus!
