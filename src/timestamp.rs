//! Timestamps of SER containers: counts of 100-nanosecond ticks since
//! 0001-01-01 00:00:00 in the proleptic Gregorian calendar.

use chrono::NaiveDate;
use vstd::arithmetic::div_mod::{
    lemma_fundamental_div_mod, lemma_fundamental_div_mod_converse, lemma_mod_mod,
};
use vstd::prelude::*;

verus! {

pub const TICKS_PER_SECOND: u64 = 10000000;

pub const TICKS_PER_MICROSECOND: u64 = 10;

pub const TICKS_PER_MINUTE: u64 = 600000000;

pub const TICKS_PER_HOUR: u64 = 36000000000;

pub const TICKS_PER_DAY: u64 = 864000000000;

pub const DAYS_PER_400_YEARS: u64 = 146097;

/// Number of days from 0001-01-01 to 1970-01-01.
pub const UNIX_EPOCH_DAY: i64 = 719162;

/// Number of seconds from 0001-01-01 00:00:00 to 1970-01-01 00:00:00.
pub const UNIX_EPOCH_SECONDS: i64 = 62135596800;

/// The last year that chrono's `NaiveDate` represents.
pub const LAST_CALENDAR_YEAR: i32 = 262142;

pub open spec fn is_leap(year: int) -> bool {
    year % 4 == 0 && (year % 100 != 0 || year % 400 == 0)
}

pub open spec fn year_length(year: int) -> int {
    if is_leap(year) {
        366
    } else {
        365
    }
}

pub open spec fn month_length(year: int, month: int) -> int {
    if month == 2 {
        if is_leap(year) {
            29
        } else {
            28
        }
    } else if month == 4 || month == 6 || month == 9 || month == 11 {
        30
    } else {
        31
    }
}

/// Days from 0001-01-01 to the first day of `year`.
pub open spec fn days_before_year(year: int) -> int {
    let p = year - 1;
    365 * p + p / 4 - p / 100 + p / 400
}

/// Days from the first day of `year` to the first day of `month`.
pub open spec fn days_before_month(year: int, month: int) -> int
    decreases month,
{
    if month <= 1 {
        0
    } else {
        days_before_month(year, month - 1) + month_length(year, month - 1)
    }
}

pub open spec fn valid_date(year: int, month: int, day: int) -> bool {
    1 <= year && 1 <= month <= 12 && 1 <= day <= month_length(year, month)
}

/// Days from 0001-01-01 to the given date.
pub open spec fn day_number(year: int, month: int, day: int) -> int {
    days_before_year(year) + days_before_month(year, month) + day - 1
}

/// Seconds from 1970-01-01 00:00:00 to the given date and time.
pub open spec fn unix_seconds(
    year: int,
    month: int,
    day: int,
    hour: int,
    minute: int,
    second: int,
) -> int {
    (day_number(year, month, day) - UNIX_EPOCH_DAY) * 86400 + hour * 3600 + minute * 60 + second
}

/// A calendar date and time of day, with the tick count it was decoded from.
#[derive(Debug, Copy, Clone, PartialEq, Eq, Structural)]
pub struct TimeStamp {
    pub timestamp: u64,
    pub year: i32,
    pub month: i32,
    pub day: i32,
    pub hour: i32,
    pub minute: i32,
    pub second: i32,
    pub microsecond: i32,
}

impl TimeStamp {
    /// The fields name an existing date and time of day.
    pub open spec fn wf(&self) -> bool {
        &&& valid_date(self.year as int, self.month as int, self.day as int)
        &&& self.year <= LAST_CALENDAR_YEAR
        &&& 0 <= self.hour < 24
        &&& 0 <= self.minute < 60
        &&& 0 <= self.second < 60
        &&& 0 <= self.microsecond < 1000000
    }

    /// The fields are the calendar reading of the tick count `t`.
    pub open spec fn decodes(&self, t: u64) -> bool {
        let ts = t % TICKS_PER_DAY;
        &&& self.timestamp == t
        &&& valid_date(self.year as int, self.month as int, self.day as int)
        &&& day_number(self.year as int, self.month as int, self.day as int) == t / TICKS_PER_DAY
        &&& self.hour == ts / TICKS_PER_HOUR
        &&& self.minute == (ts % TICKS_PER_HOUR) / TICKS_PER_MINUTE
        &&& self.second == (ts % TICKS_PER_MINUTE) / TICKS_PER_SECOND
        &&& self.microsecond == (ts % TICKS_PER_SECOND) / TICKS_PER_MICROSECOND
    }

    pub open spec fn unix_seconds_spec(&self) -> int {
        unix_seconds(
            self.year as int,
            self.month as int,
            self.day as int,
            self.hour as int,
            self.minute as int,
            self.second as int,
        )
    }

    pub fn is_leap_year(year: u64) -> (r: bool)
        ensures
            r == is_leap(year as int),
    {
        year % 4 == 0 && (year % 100 != 0 || year % 400 == 0)
    }

    fn days_in_year(year: u64) -> (r: u64)
        ensures
            r == year_length(year as int),
    {
        if TimeStamp::is_leap_year(year) {
            366
        } else {
            365
        }
    }

    fn days_in_month(year: u64, month: u64) -> (r: u64)
        ensures
            r == month_length(year as int, month as int),
    {
        if month == 2 {
            if TimeStamp::is_leap_year(year) {
                29
            } else {
                28
            }
        } else if month == 4 || month == 6 || month == 9 || month == 11 {
            30
        } else {
            31
        }
    }

    /// Decodes a tick count into calendar fields: whole 400-year blocks
    /// first, then single years, then months.
    pub fn from_u64(ts_u64: u64) -> (r: TimeStamp)
        ensures
            r.decodes(ts_u64),
            r.wf(),
    {
        let ts = ts_u64 % TICKS_PER_DAY;
        let hours = ts / TICKS_PER_HOUR;
        let minutes = (ts % TICKS_PER_HOUR) / TICKS_PER_MINUTE;
        let seconds = (ts % TICKS_PER_MINUTE) / TICKS_PER_SECOND;
        let microseconds = (ts % TICKS_PER_SECOND) / TICKS_PER_MICROSECOND;
        let days = ts_u64 / TICKS_PER_DAY;
        let blocks = days / DAYS_PER_400_YEARS;
        let mut days_ts = days % DAYS_PER_400_YEARS;
        let mut year: u64 = 1 + 400 * blocks;
        proof {
            lemma_days_before_block(blocks as int);
        }
        let mut days_this_year = TimeStamp::days_in_year(year);
        while days_ts >= days_this_year
            invariant
                days_before_year(year as int) + days_ts == days,
                1 + 400 * blocks <= year <= 1 + 400 * blocks + 400,
                days_ts + days_before_year(year as int) - days_before_year((1 + 400 * blocks) as int)
                    < DAYS_PER_400_YEARS,
                days_this_year == year_length(year as int),
                days <= u64::MAX / TICKS_PER_DAY,
            decreases days_ts,
        {
            proof {
                lemma_days_before_next_year(year as int);
                lemma_days_before_year_grows(year as int + 1, (1 + 400 * blocks) as int + 400);
                lemma_days_before_block((blocks + 1) as int);
            }
            days_ts -= days_this_year;
            year += 1;
            days_this_year = TimeStamp::days_in_year(year);
        }
        let mut month: u64 = 1;
        let mut days_this_month = TimeStamp::days_in_month(year, month);
        proof {
            lemma_days_before_month_bounds(year as int);
        }
        while days_ts >= days_this_month
            invariant
                1 <= month <= 12,
                days_before_month(year as int, month as int) + days_ts < year_length(year as int),
                days_before_year(year as int) + days_before_month(year as int, month as int)
                    + days_ts == days,
                days_this_month == month_length(year as int, month as int),
                days_before_month(year as int, 13) == year_length(year as int),
            decreases 12 - month,
        {
            proof {
                if month == 12 {
                    assert(days_before_month(year as int, 13) == days_before_month(year as int, 12)
                        + month_length(year as int, 12));
                }
            }
            days_ts -= days_this_month;
            month += 1;
            days_this_month = TimeStamp::days_in_month(year, month);
        }
        assert(year < 100000) by {
            assert(blocks <= 146);
        }
        TimeStamp {
            timestamp: ts_u64,
            year: year as i32,
            month: month as i32,
            day: days_ts as i32 + 1,
            hour: hours as i32,
            minute: minutes as i32,
            second: seconds as i32,
            microsecond: microseconds as i32,
        }
    }
}

/// Relies on chrono's `NaiveDate::from_ymd_opt`, `NaiveDate::and_hms_opt` and
/// `NaiveDateTime::timestamp`: a date of the proleptic Gregorian calendar up to
/// year 262142 and a time of day without leap second give the count of
/// non-leap seconds since 1970-01-01 00:00:00; any other input gives `None`.
#[verifier::external_body]
#[allow(deprecated)]
fn chrono_unix_seconds(year: i32, month: u32, day: u32, hour: u32, minute: u32, second: u32) -> (r:
    Option<i64>)
    requires
        year >= 1,
    ensures
        r == (if valid_date(year as int, month as int, day as int) && year <= LAST_CALENDAR_YEAR
            && hour < 24 && minute < 60 && second < 60 {
            Some(unix_seconds(year as int, month as int, day as int, hour as int, minute as int, second as int) as i64)
        } else {
            None
        }),
{
    NaiveDate::from_ymd_opt(year, month, day)
        .and_then(|d| d.and_hms_opt(hour, minute, second))
        .map(|dt| dt.timestamp())
}

impl TimeStamp {
    /// Seconds since 1970-01-01 00:00:00 of the date and time, ignoring the
    /// microseconds.
    pub fn to_unix_timestamp(&self) -> (r: i64)
        requires
            self.wf(),
        ensures
            r == self.unix_seconds_spec(),
    {
        proof {
            lemma_day_number_bounds(self.year as int, self.month as int, self.day as int);
        }
        let r = chrono_unix_seconds(
            self.year,
            self.month as u32,
            self.day as u32,
            self.hour as u32,
            self.minute as u32,
            self.second as u32,
        );
        match r {
            Some(v) => v,
            None => 0,
        }
    }
}

/// A decoded tick count and its Unix time agree: the Unix seconds of the
/// calendar fields are the whole seconds of the tick count, less the seconds
/// from year 1 to 1970.
pub proof fn lemma_unix_seconds_of_ticks(ts: TimeStamp, t: u64)
    requires
        ts.decodes(t),
    ensures
        ts.unix_seconds_spec() == t / TICKS_PER_SECOND - UNIX_EPOCH_SECONDS,
{
    let ti = t as int;
    let tpd = TICKS_PER_DAY as int;
    let tph = TICKS_PER_HOUR as int;
    let tpm = TICKS_PER_MINUTE as int;
    let tps = TICKS_PER_SECOND as int;
    let q = ti / tpd;
    let d = ti % tpd;
    lemma_fundamental_div_mod(ti, tpd);
    lemma_fundamental_div_mod(d, tph);
    lemma_fundamental_div_mod(d % tph, tpm);
    lemma_fundamental_div_mod(d % tpm, tps);
    lemma_mod_mod(d, tpm, 60);
    let h = d / tph;
    let m = (d % tph) / tpm;
    let s = (d % tpm) / tps;
    let r = (d % tpm) % tps;
    assert(d == h * tph + m * tpm + s * tps + r);
    assert(d / tps == h * 3600 + m * 60 + s) by {
        assert(d == (h * 3600 + m * 60 + s) * tps + r) by (nonlinear_arith)
            requires
                d == h * tph + m * tpm + s * tps + r,
                tph == 3600 * tps,
                tpm == 60 * tps,
        ;
        lemma_fundamental_div_mod_converse(d, tps, h * 3600 + m * 60 + s, r);
    }
    assert(ti / tps == q * 86400 + d / tps) by {
        let dr = d % tps;
        lemma_fundamental_div_mod(d, tps);
        let dq = d / tps;
        assert(ti == (q * 86400 + dq) * tps + dr) by (nonlinear_arith)
            requires
                ti == q * (86400 * tps) + d,
                d == dq * tps + dr,
        ;
        lemma_fundamental_div_mod_converse(ti, tps, q * 86400 + dq, dr);
    }
}

proof fn lemma_day_number_bounds(year: int, month: int, day: int)
    requires
        valid_date(year, month, day),
        year <= LAST_CALENDAR_YEAR,
    ensures
        0 <= day_number(year, month, day) < 100000000,
{
    lemma_days_before_year_grows(year, LAST_CALENDAR_YEAR as int + 1);
    lemma_days_before_month_bounds(year);
    lemma_days_before_month_grows(year, month, 13);
}

proof fn lemma_days_before_month_grows(year: int, a: int, b: int)
    requires
        1 <= a <= b,
    ensures
        0 <= days_before_month(year, a) <= days_before_month(year, b) - (b - a) * 28,
    decreases b - a,
{
    if a < b {
        lemma_days_before_month_grows(year, a, b - 1);
    } else {
        lemma_days_before_month_nonneg(year, a);
    }
}

proof fn lemma_days_before_month_nonneg(year: int, m: int)
    ensures
        0 <= days_before_month(year, m),
    decreases m,
{
    if m > 1 {
        lemma_days_before_month_nonneg(year, m - 1);
    }
}

proof fn lemma_days_before_block(k: int)
    requires
        k >= 0,
    ensures
        days_before_year(1 + 400 * k) == 146097 * k,
{
    let p = 400 * k;
    assert(p / 4 == 100 * k);
    assert(p / 100 == 4 * k);
    assert(p / 400 == k);
}

proof fn lemma_days_before_next_year(year: int)
    requires
        year >= 1,
    ensures
        days_before_year(year + 1) == days_before_year(year) + year_length(year),
{
    let p = year - 1;
    lemma_div_step(p, 4);
    lemma_div_step(p, 100);
    lemma_div_step(p, 400);
    assert(days_before_year(year) == 365 * p + p / 4 - p / 100 + p / 400);
    assert(days_before_year(year + 1) == 365 * p + 365 + (p + 1) / 4 - (p + 1) / 100 + (p + 1)
        / 400);
}

proof fn lemma_div_step(p: int, k: int)
    requires
        p >= 0,
        k > 0,
    ensures
        (p + 1) / k == p / k + (if (p + 1) % k == 0 { 1int } else { 0 }),
{
    let q = p / k;
    let r = p % k;
    lemma_fundamental_div_mod(p, k);
    if r == k - 1 {
        assert((q + 1) * k == q * k + k) by (nonlinear_arith);
        lemma_fundamental_div_mod_converse(p + 1, k, q + 1, 0);
    } else {
        lemma_fundamental_div_mod_converse(p + 1, k, q, r + 1);
    }
}

proof fn lemma_days_before_year_grows(a: int, b: int)
    requires
        1 <= a <= b,
    ensures
        days_before_year(a) <= days_before_year(b),
    decreases b - a,
{
    if a < b {
        lemma_days_before_next_year(b - 1);
        lemma_days_before_year_grows(a, b - 1);
    }
}

proof fn lemma_days_before_month_bounds(year: int)
    ensures
        days_before_month(year, 13) == year_length(year),
        days_before_month(year, 1) == 0,
{
    reveal_with_fuel(days_before_month, 13);
}

proof fn lemma_day_within_year(y: int, m: int, d: int)
    requires
        valid_date(y, m, d),
    ensures
        days_before_month(y, m) + d - 1 < days_before_month(y, m + 1),
        days_before_month(y, m + 1) <= days_before_month(y, 13),
        days_before_year(y) <= day_number(y, m, d) < days_before_year(y + 1),
{
    lemma_days_before_month_grows(y, m + 1, 13);
    lemma_days_before_month_bounds(y);
    lemma_days_before_month_nonneg(y, m);
    lemma_days_before_next_year(y);
}

/// Different dates have different day numbers.
pub proof fn lemma_day_number_injective(y1: int, m1: int, d1: int, y2: int, m2: int, d2: int)
    requires
        valid_date(y1, m1, d1),
        valid_date(y2, m2, d2),
        day_number(y1, m1, d1) == day_number(y2, m2, d2),
    ensures
        y1 == y2,
        m1 == m2,
        d1 == d2,
{
    lemma_day_within_year(y1, m1, d1);
    lemma_day_within_year(y2, m2, d2);
    if y1 < y2 {
        lemma_days_before_year_grows(y1 + 1, y2);
    } else if y2 < y1 {
        lemma_days_before_year_grows(y2 + 1, y1);
    }
    assert(y1 == y2);
    if m1 < m2 {
        lemma_days_before_month_grows(y1, m1 + 1, m2);
    } else if m2 < m1 {
        lemma_days_before_month_grows(y1, m2 + 1, m1);
    }
}

/// A tick count has one calendar reading: two time stamps that both decode
/// it are equal.
pub proof fn lemma_decoding_is_unique(a: TimeStamp, b: TimeStamp, t: u64)
    requires
        a.decodes(t),
        b.decodes(t),
    ensures
        a == b,
{
    lemma_day_number_injective(
        a.year as int,
        a.month as int,
        a.day as int,
        b.year as int,
        b.month as int,
        b.day as int,
    );
}

} // verus!
