//! Proleptic Gregorian calendar arithmetic on Unix time (UTC).

use vstd::prelude::*;

verus! {

pub open spec fn leap_year(year: int) -> bool {
    (year % 4 == 0 && year % 100 != 0) || year % 400 == 0
}

pub open spec fn year_len(year: int) -> int {
    if leap_year(year) { 366 } else { 365 }
}

/// Length of month `month` (1 = January) of `year`.
pub open spec fn month_len(year: int, month: int) -> int {
    if month == 2 {
        if leap_year(year) { 29 } else { 28 }
    } else if month == 4 || month == 6 || month == 9 || month == 11 {
        30
    } else {
        31
    }
}

/// Month and day of month reached by walking `days` days forward from the
/// first day of `month` in `year`.
pub open spec fn month_day_from(days: int, year: int, month: int) -> (int, int)
    decreases 13 - month,
{
    if month > 12 || days < month_len(year, month) {
        (month, days + 1)
    } else {
        month_day_from(days - month_len(year, month), year, month + 1)
    }
}

/// Days from the first day of `month` to the end of `year`.
pub open spec fn rest_of_year(year: int, month: int) -> int
    decreases 13 - month,
{
    if month > 12 || month < 1 { 0 } else { month_len(year, month) + rest_of_year(year, month + 1) }
}

pub proof fn lemma_rest_of_year_full(year: int)
    ensures
        rest_of_year(year, 1) == year_len(year),
{
    reveal_with_fuel(rest_of_year, 13);
}

/// Civil date (year, month, day) reached by walking `days` days forward from
/// January 1st of `year`.
pub open spec fn civil_from(days: int, year: int) -> (int, int, int)
    decreases days,
{
    if days < 0 {
        (year, 1, 1)
    } else if days < year_len(year) {
        (year, month_day_from(days, year, 1).0, month_day_from(days, year, 1).1)
    } else {
        civil_from(days - year_len(year), year + 1)
    }
}

/// Civil date of the day numbered `days` since 1970-01-01.
pub open spec fn civil(days: int) -> (int, int, int) {
    civil_from(days, 1970)
}

/// Number of days from 1970-01-01 to January 1st of `year`.
pub open spec fn days_before_year(year: int) -> int
    decreases year - 1970,
{
    if year <= 1970 { 0 } else { days_before_year(year - 1) + year_len(year - 1) }
}

pub fn is_leap(year: u32) -> (b: bool)
    ensures
        b == leap_year(year as int),
{
    (year % 4 == 0 && year % 100 != 0) || year % 400 == 0
}

pub proof fn lemma_days_before_year_step(year: int)
    requires
        year >= 1970,
    ensures
        days_before_year(year + 1) == days_before_year(year) + year_len(year),
{
}

pub proof fn lemma_days_before_year_lower(year: int)
    requires
        year >= 1970,
    ensures
        days_before_year(year) >= 365 * (year - 1970),
    decreases year - 1970,
{
    if year > 1970 {
        lemma_days_before_year_lower(year - 1);
    }
}

/// Decomposes a day count since 1970-01-01 into (year, month, day of month).
pub fn days_to_ymd(days: u64) -> (r: (u32, u32, u32))
    requires
        (days as int) < days_before_year(u32::MAX as int + 1),
    ensures
        (r.0 as int, r.1 as int, r.2 as int) == civil(days as int),
{
    let ghost total = days as int;
    let mut days = days;
    let mut year: u32 = 1970;
    loop
        invariant
            1970 <= year,
            days_before_year(year as int) + days == total,
            total < days_before_year(u32::MAX as int + 1),
            civil_from(days as int, year as int) == civil(total),
        ensures
            1970 <= year,
            days < year_len(year as int),
            civil_from(days as int, year as int) == civil(total),
        decreases days,
    {
        let dy: u64 = if is_leap(year) { 366 } else { 365 };
        if days < dy {
            break;
        }
        proof {
            lemma_days_before_year_step(year as int);
            if year == u32::MAX {
                assert(days_before_year(u32::MAX as int + 1) == days_before_year(year as int) + year_len(year as int));
            }
        }
        days -= dy;
        year += 1;
    }
    let ghost d0 = days as int;
    proof { lemma_rest_of_year_full(year as int); }
    let leap = is_leap(year);
    let months: [u64; 12] = [31, if leap { 29 } else { 28 }, 31, 30, 31, 30, 31, 31, 30, 31, 30, 31];
    let mut month: u32 = 1;
    let mut i: usize = 0;
    while i < 12
        invariant
            0 <= i <= 12,
            month == i + 1,
            days < year_len(year as int),
            leap == leap_year(year as int),
            forall|k: int| 0 <= k < 12 ==> #[trigger] months@[k] == month_len(year as int, k + 1),
            days <= d0,
            (days as int) < rest_of_year(year as int, month as int),
            d0 < year_len(year as int),
            civil_from(d0, year as int) == civil(total),
            month_day_from(days as int, year as int, month as int) == month_day_from(d0, year as int, 1),
        ensures
            month_day_from(days as int, year as int, month as int) == month_day_from(d0, year as int, 1),
            month_day_from(days as int, year as int, month as int) == (month as int, days + 1),
            days < 31,
        decreases 12 - i,
    {
        let dm = months[i];
        if days < dm {
            break;
        }
        days -= dm;
        month += 1;
        i += 1;
    }
    (year, month, days as u32 + 1)
}


pub proof fn lemma_month_len_bounds(year: int, month: int)
    ensures
        28 <= month_len(year, month) <= 31,
{
}

proof fn lemma_month_day_bounds(days: int, year: int, month: int)
    requires
        1 <= month <= 12,
        0 <= days < rest_of_year(year, month),
    ensures
        month <= month_day_from(days, year, month).0 <= 12,
        1 <= month_day_from(days, year, month).1 <= month_len(year, month_day_from(days, year, month).0),
    decreases 13 - month,
{
    assert(rest_of_year(year, month) == month_len(year, month) + rest_of_year(year, month + 1));
    assert(rest_of_year(year, 13) == 0);
    if days >= month_len(year, month) {
        lemma_month_day_bounds(days - month_len(year, month), year, month + 1);
    }
}

proof fn lemma_month_day_succ(days: int, year: int, month: int)
    requires
        1 <= month <= 12,
        0 <= days,
        days + 1 < rest_of_year(year, month),
    ensures
        ({
            let (m1, d1) = month_day_from(days, year, month);
            let (m2, d2) = month_day_from(days + 1, year, month);
            (m2 == m1 && d2 == d1 + 1) || (m2 == m1 + 1 && d2 == 1 && d1 == month_len(year, m1))
        }),
    decreases 13 - month,
{
    assert(rest_of_year(year, month) == month_len(year, month) + rest_of_year(year, month + 1));
    assert(rest_of_year(year, 13) == 0);
    if days >= month_len(year, month) {
        lemma_month_day_succ(days - month_len(year, month), year, month + 1);
    } else if days + 1 == month_len(year, month) {
        assert(month_day_from(0, year, month + 1) == (month + 1, 1int));
    }
}

proof fn lemma_last_day_of_year(year: int)
    ensures
        month_day_from(year_len(year) - 1, year, 1) == (12int, 31int),
{
    reveal_with_fuel(month_day_from, 13);
}

/// Every civil date has a month in 1..=12 and a day within that month.
pub proof fn lemma_civil_bounds(days: int, year: int)
    requires
        days >= 0,
    ensures
        1 <= civil_from(days, year).1 <= 12,
        1 <= civil_from(days, year).2 <= month_len(civil_from(days, year).0, civil_from(days, year).1),
    decreases days,
{
    if days < year_len(year) {
        lemma_rest_of_year_full(year);
        lemma_month_day_bounds(days, year, 1);
    } else {
        lemma_civil_bounds(days - year_len(year), year + 1);
    }
}

/// From one day to the next, either the day of month advances within the same
/// month, or the date moves to the first day of the following month
/// (December being followed by January).
pub proof fn lemma_civil_succ(days: int, year: int)
    requires
        days >= 0,
    ensures
        ({
            let c1 = civil_from(days, year);
            let c2 = civil_from(days + 1, year);
            (c2.1 == c1.1 && c2.2 == c1.2 + 1) || (c2.1 == c1.1 % 12 + 1 && c2.2 == 1)
        }),
    decreases days,
{
    if days + 1 < year_len(year) {
        lemma_rest_of_year_full(year);
        lemma_month_day_succ(days, year, 1);
        lemma_month_day_bounds(days, year, 1);
        lemma_month_day_bounds(days + 1, year, 1);
    } else if days + 1 == year_len(year) {
        lemma_last_day_of_year(year);
        assert(civil_from(days + 1, year) == civil_from(0, year + 1));
        reveal_with_fuel(month_day_from, 2);
    } else {
        lemma_civil_succ(days - year_len(year), year + 1);
    }
}

/// Calendar fields of a Unix timestamp, as used by cron matching.
pub struct TimeParts {
    pub minute: u32,
    pub hour: u32,
    pub dom: u32,
    pub month: u32,
    pub dow: u32,
}

pub open spec fn ts_minute(ts: int) -> int {
    (ts / 60) % 60
}

pub open spec fn ts_hour(ts: int) -> int {
    (ts / 3600) % 24
}

pub open spec fn ts_month(ts: int) -> int {
    civil(ts / 86400).1
}

pub open spec fn ts_dom(ts: int) -> int {
    civil(ts / 86400).2
}

/// Day of week, 0 = Sunday (1970-01-01 was a Thursday).
pub open spec fn ts_dow(ts: int) -> int {
    (ts / 86400 + 4) % 7
}

/// Timestamps whose year still fits the 32-bit year counter.
pub open spec fn ts_in_calendar_range(ts: int) -> bool {
    0 <= ts && ts / 86400 < days_before_year(u32::MAX as int + 1)
}

/// Splits a Unix timestamp (UTC) into minute, hour, day of month, month and
/// day of week.
pub fn unix_to_parts(ts: u64) -> (t: TimeParts)
    requires
        ts_in_calendar_range(ts as int),
    ensures
        t.minute == ts_minute(ts as int),
        t.hour == ts_hour(ts as int),
        t.dom == ts_dom(ts as int),
        t.month == ts_month(ts as int),
        t.dow == ts_dow(ts as int),
{
    let minute = ((ts / 60) % 60) as u32;
    let hour = ((ts / 3600) % 24) as u32;
    let days = ts / 86400;
    let dow = ((days + 4) % 7) as u32;
    let (_year, month, dom) = days_to_ymd(days);
    TimeParts { minute, hour, dom, month, dow }
}

} // verus!
