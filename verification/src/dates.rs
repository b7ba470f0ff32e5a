//! Proleptic Gregorian calendar arithmetic on unix seconds, and the
//! FILETIME (100 ns since 1601) conversions.

use vstd::prelude::*;

verus! {

/// Seconds per day.
pub const DAY: i64 = 86400;

/// FILETIME value of the unix epoch (1970-01-01T00:00:00Z).
pub const FILETIME_UNIX_EPOCH: i64 = 116_444_736_000_000_000;

/// Times the calendar functions accept without overflow: about ±31 million
/// years around 1970.
pub open spec fn sane_time(t: int) -> bool {
    -1_000_000_000_000_000 <= t <= 1_000_000_000_000_000
}

pub open spec fn spec_is_leap(y: int) -> bool {
    (y % 4 == 0 && y % 100 != 0) || y % 400 == 0
}

pub open spec fn year_len(y: int) -> int {
    if spec_is_leap(y) {
        366
    } else {
        365
    }
}

pub open spec fn spec_days_in_month(y: int, m: int) -> int {
    if m == 1 || m == 3 || m == 5 || m == 7 || m == 8 || m == 10 || m == 12 {
        31
    } else if m == 4 || m == 6 || m == 9 || m == 11 {
        30
    } else if m == 2 {
        if spec_is_leap(y) {
            29
        } else {
            28
        }
    } else {
        0
    }
}

/// Days from 1970-01-01 to January 1st of `y` (0 for years before 1970,
/// matching an empty `1970..y` range).
pub open spec fn days_before_year(y: int) -> int
    decreases y - 1970,
{
    if y <= 1970 {
        0
    } else {
        days_before_year(y - 1) + year_len(y - 1)
    }
}

/// Days in the months `1..m` of year `y` (0 when `m <= 1`).
pub open spec fn days_before_month(y: int, m: int) -> int
    decreases m,
{
    if m <= 1 {
        0
    } else {
        days_before_month(y, m - 1) + spec_days_in_month(y, m - 1)
    }
}

/// Unix seconds of midnight on `year-month-day`.
pub open spec fn spec_unix_from_ymd(y: int, m: int, d: int) -> int {
    (days_before_year(y) + days_before_month(y, m) + d - 1) * 86400
}

/// Rust's truncating remainder.
pub open spec fn trunc_rem(a: int, b: int) -> int {
    if a >= 0 {
        a % b
    } else {
        -((-a) % b)
    }
}

/// `unix - unix % 86400` with Rust's truncating `%`.
pub open spec fn spec_start_of_day(u: int) -> int {
    u - trunc_rem(u, 86400)
}

/// Year and remaining day count after whole years from `year` on.
pub open spec fn year_split(days: int, year: int) -> (int, int)
    decreases days,
{
    if days < year_len(year) || days < 0 {
        (year, days)
    } else {
        year_split(days - year_len(year), year + 1)
    }
}

/// Month and remaining day count after whole months from `month` on.
pub open spec fn month_split(days: int, y: int, month: int) -> (int, int)
    decreases 13 - month,
{
    if month >= 13 || days < spec_days_in_month(y, month) {
        (month, days)
    } else {
        month_split(days - spec_days_in_month(y, month), y, month + 1)
    }
}

/// (year, month, day) of the day containing unix second `u`.
pub open spec fn spec_unix_to_ymd(u: int) -> (int, int, int) {
    let days = u / 86400;
    let (y, rest) = year_split(days, 1970);
    let (m, d) = month_split(rest, y, 1);
    (y, m, d + 1)
}

pub fn is_leap(y: i64) -> (r: bool)
    ensures
        r == spec_is_leap(y as int),
{
    (y % 4 == 0 && y % 100 != 0) || y % 400 == 0
}

pub fn days_in_month(y: i64, m: i64) -> (r: i64)
    ensures
        r == spec_days_in_month(y as int, m as int),
{
    if m == 1 || m == 3 || m == 5 || m == 7 || m == 8 || m == 10 || m == 12 {
        31
    } else if m == 4 || m == 6 || m == 9 || m == 11 {
        30
    } else if m == 2 {
        if is_leap(y) {
            29
        } else {
            28
        }
    } else {
        0
    }
}

pub fn start_of_day(unix: i64) -> (r: i64)
    ensures
        r == spec_start_of_day(unix as int),
{
    if unix >= 0 {
        unix - unix % 86400
    } else {
        // -(unix + 1) cannot overflow; its remainder plus one is that of -unix.
        let pos: i64 = -(unix + 1);
        let s: i64 = pos % 86400;
        proof {
            let q = pos as int / 86400;
            assert(pos as int == 86400 * q + s) by (nonlinear_arith)
                requires
                    q == pos as int / 86400,
                    s == pos as int % 86400,
            ;
            assert(-(unix as int) == 86400 * q + s + 1);
            if s + 1 < 86400 {
                assert((-(unix as int)) % 86400 == s + 1) by (nonlinear_arith)
                    requires
                        -(unix as int) == 86400 * q + s + 1,
                        0 <= s + 1 < 86400,
                ;
            } else {
                assert((-(unix as int)) % 86400 == 0) by (nonlinear_arith)
                    requires
                        -(unix as int) == 86400 * (q + 1),
                ;
            }
        }
        let r: i64 = if s + 1 < 86400 {
            s + 1
        } else {
            0
        };
        unix + r
    }
}

pub proof fn lemma_days_before_year_bounds(y: int)
    ensures
        0 <= days_before_year(y),
        y > 1970 ==> days_before_year(y) <= 366 * (y - 1970),
        y > 1970 ==> days_before_year(y) >= 365 * (y - 1970),
    decreases y - 1970,
{
    if y > 1970 {
        lemma_days_before_year_bounds(y - 1);
    }
}

pub proof fn lemma_days_before_month_bounds(y: int, m: int)
    ensures
        0 <= days_before_month(y, m),
        days_before_month(y, m) <= 31 * (if m > 1 { m - 1 } else { 0 }),
    decreases m,
{
    if m > 1 {
        lemma_days_before_month_bounds(y, m - 1);
    }
}

/// Unix seconds of local midnight on `year-month-day` (days counted from
/// 1970; years before 1970 count as 1970, months past 12 add nothing).
pub fn unix_from_ymd(year: i64, month: i64, day: i64) -> (r: i64)
    requires
        -100_000_000 <= year <= 100_000_000,
        -1000 <= month <= 1000,
        -1000 <= day <= 1000,
    ensures
        r == spec_unix_from_ymd(year as int, month as int, day as int),
{
    let mut days: i64 = 0;
    let mut y: i64 = 1970;
    while y < year
        invariant
            1970 <= y,
            year <= 100_000_000,
            y <= year || year < 1970,
            year <= 1970 ==> y == 1970,
            days == days_before_year(y as int),
        decreases year - y,
    {
        proof {
            lemma_days_before_year_bounds(y as int);
        }
        days += if is_leap(y) {
            366
        } else {
            365
        };
        y += 1;
    }
    proof {
        if year <= 1970 {
            assert(days_before_year(year as int) == 0);
            assert(y == 1970);
        }
        assert(days == days_before_year(year as int));
        lemma_days_before_year_bounds(year as int);
        lemma_days_before_month_bounds(year as int, month as int);
    }
    let mut m: i64 = 1;
    let ghost base = days;
    while m < month
        invariant
            1 <= m,
            m <= month || month < 1,
            month <= 1 ==> m == 1,
            month <= 1000,
            0 <= base <= 366 * 100_000_000,
            days == base + days_before_month(year as int, m as int),
            days_before_month(year as int, m as int) <= 31 * (m - 1),
        decreases month - m,
    {
        proof {
            lemma_days_before_month_bounds(year as int, m as int);
        }
        days += days_in_month(year, m);
        m += 1;
    }
    proof {
        if month <= 1 {
            assert(m == 1);
        }
    }
    (days + day - 1) * 86400
}

/// (year, month, day) of the day containing unix second `unix`.
pub fn unix_to_ymd(unix: i64) -> (r: (i64, i64, i64))
    requires
        sane_time(unix as int),
    ensures
        (r.0 as int, r.1 as int, r.2 as int) == spec_unix_to_ymd(unix as int),
        r.0 <= 40_000_000,
        r.0 >= 1970,
{
    let mut days: i64 = unix_div_day(unix);
    let mut year: i64 = 1970;
    while days >= 0 && days >= year_length(year)
        invariant
            year >= 1970,
            days >= 0 || year == 1970,
            days <= 12_000_000_000 - 365 * (year - 1970),
            year_split(days as int, year as int) == year_split(unix as int / 86400, 1970),
        decreases days,
    {
        days -= if is_leap(year) {
            366
        } else {
            365
        };
        year += 1;
    }
    let mut month: i64 = 1;
    while month < 13 && days >= days_in_month(year, month)
        invariant
            1 <= month <= 13,
            days >= 0 || month == 1,
            month_split(days as int, year as int, month as int) == month_split(
                year_split(unix as int / 86400, 1970).1,
                year as int,
                1,
            ),
            year_split(unix as int / 86400, 1970) == (year as int, days as int + days_before_month(
                year as int,
                month as int,
            )),
            days < 400,
        decreases 13 - month,
    {
        days -= days_in_month(year, month);
        month += 1;
    }
    (year, month, days + 1)
}

fn year_length(y: i64) -> (r: i64)
    ensures
        r == year_len(y as int),
{
    if is_leap(y) {
        366
    } else {
        365
    }
}

/// Floor division of unix seconds by one day.
fn unix_div_day(unix: i64) -> (r: i64)
    requires
        sane_time(unix as int),
    ensures
        r == unix as int / 86400,
        -12_000_000_000 <= r <= 12_000_000_000,
{
    if unix >= 0 {
        unix / 86400
    } else {
        let pos: i64 = -unix;
        let q = pos / 86400;
        if pos % 86400 == 0 {
            -q
        } else {
            -q - 1
        }
    }
}

/// NTFS 100 ns intervals since 1601 -> unix seconds (0 before 1970).
pub fn windows_ts_to_unix(ts: i64) -> (r: i64)
    ensures
        r == (if ts < FILETIME_UNIX_EPOCH {
            0
        } else {
            (ts - FILETIME_UNIX_EPOCH) / 10_000_000
        }),
{
    if ts < FILETIME_UNIX_EPOCH {
        return 0;
    }
    (ts - FILETIME_UNIX_EPOCH) / 10_000_000
}

} // verus!
