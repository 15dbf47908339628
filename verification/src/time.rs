//! Calendar arithmetic for timestamps: the UTC date of a unix time and the
//! `%Y-%m-%d %H:%M:%S` style formatting of it.
use vstd::prelude::*;

use crate::collections::{replace_spec, replace_text};
use crate::numfmt::{dec, pad_left, u64_padded};

verus! {

/// Whether `y` is a leap year in the Gregorian calendar.
pub open spec fn is_leap(y: int) -> bool {
    (y % 4 == 0 && y % 100 != 0) || y % 400 == 0
}

pub open spec fn year_len(y: int) -> int {
    if is_leap(y) {
        366
    } else {
        365
    }
}

/// How many of the years `1..=x` are leap years (for `x >= 0`).
pub open spec fn leaps_through(x: int) -> int {
    x / 4 - x / 100 + x / 400
}

/// Days from 1970-01-01 to January 1st of year `y`.
pub open spec fn days_before_year(y: int) -> int {
    365 * (y - 1970) + leaps_through(y - 1) - leaps_through(1969)
}

pub open spec fn days_in_month(y: int, m: int) -> int {
    if m == 2 {
        if is_leap(y) {
            29
        } else {
            28
        }
    } else if m == 4 || m == 6 || m == 9 || m == 11 {
        30
    } else {
        31
    }
}

/// Days from January 1st to the first of month `m` of year `y`.
pub open spec fn days_before_month(y: int, m: int) -> int
    decreases m,
{
    if m <= 1 {
        0
    } else {
        days_before_month(y, m - 1) + days_in_month(y, m - 1)
    }
}

/// The number of days from 1970-01-01 to the date `y-m-d`.
pub open spec fn days_from_civil(y: int, m: int, d: int) -> int {
    days_before_year(y) + days_before_month(y, m) + d - 1
}

/// `(y, m, d)` is a calendar date on or after 1970-01-01.
pub open spec fn valid_date(y: int, m: int, d: int) -> bool {
    y >= 1970 && 1 <= m <= 12 && 1 <= d <= days_in_month(y, m)
}

proof fn lemma_div_step(y: int, k: int)
    requires
        y >= 1,
        k >= 1,
    ensures
        y / k - (y - 1) / k == if y % k == 0 {
            1int
        } else {
            0int
        },
{
    assert(y / k - (y - 1) / k == if y % k == 0 {
        1int
    } else {
        0int
    }) by (nonlinear_arith)
        requires
            y >= 1,
            k >= 1,
    {
        vstd::arithmetic::div_mod::lemma_fundamental_div_mod(y, k);
        vstd::arithmetic::div_mod::lemma_fundamental_div_mod(y - 1, k);
        vstd::arithmetic::div_mod::lemma_mod_bound(y, k);
        vstd::arithmetic::div_mod::lemma_mod_bound(y - 1, k);
    }
}

proof fn lemma_next_year(y: int)
    requires
        y >= 1970,
    ensures
        days_before_year(y + 1) == days_before_year(y) + year_len(y),
{
    lemma_div_step(y, 4);
    lemma_div_step(y, 100);
    lemma_div_step(y, 400);
    assert(y % 400 == 0 ==> y % 100 == 0) by {
        if y % 400 == 0 {
            vstd::arithmetic::div_mod::lemma_fundamental_div_mod(y, 400);
            assert(y == 400 * (y / 400));
            assert(y == 100 * (4 * (y / 400))) by (nonlinear_arith)
                requires
                    y == 400 * (y / 400),
            ;
            vstd::arithmetic::div_mod::lemma_mod_multiples_basic(4 * (y / 400), 100);
        }
    }
    assert(y % 100 == 0 ==> y % 4 == 0) by {
        if y % 100 == 0 {
            vstd::arithmetic::div_mod::lemma_fundamental_div_mod(y, 100);
            assert(y == 4 * (25 * (y / 100))) by (nonlinear_arith)
                requires
                    y == 100 * (y / 100),
            ;
            vstd::arithmetic::div_mod::lemma_mod_multiples_basic(25 * (y / 100), 4);
        }
    }
}

proof fn lemma_four_centuries(y: int)
    requires
        y >= 1970,
    ensures
        days_before_year(y + 400) == days_before_year(y) + 146097,
{
    assert((y + 399) / 4 == (y - 1) / 4 + 100);
    assert((y + 399) / 100 == (y - 1) / 100 + 4);
    assert((y + 399) / 400 == (y - 1) / 400 + 1);
}

proof fn lemma_year_start(k: int)
    requires
        k >= 0,
    ensures
        days_before_year(1970 + 400 * k) == 146097 * k,
    decreases k,
{
    if k > 0 {
        lemma_year_start(k - 1);
        lemma_four_centuries(1970 + 400 * (k - 1));
    }
}

proof fn lemma_month_total(y: int)
    ensures
        days_before_month(y, 13) == year_len(y),
{
    reveal_with_fuel(days_before_month, 13);
}

/// The Gregorian calendar the dates follow: thirty days hath September,
/// April, June and November, February has 28 days or 29 in a leap year, the
/// rest have 31; a year is a leap year when divisible by 4 but not by 100,
/// or by 400. The months of a year add up to its length, each year starts
/// where the one before it ends, and day zero is 1970-01-01.
pub proof fn law_gregorian_calendar(y: int)
    ensures
        days_in_month(y, 1) == 31,
        days_in_month(y, 2) == if is_leap(y) {
            29int
        } else {
            28int
        },
        days_in_month(y, 3) == 31,
        days_in_month(y, 4) == 30,
        days_in_month(y, 5) == 31,
        days_in_month(y, 6) == 30,
        days_in_month(y, 7) == 31,
        days_in_month(y, 8) == 31,
        days_in_month(y, 9) == 30,
        days_in_month(y, 10) == 31,
        days_in_month(y, 11) == 30,
        days_in_month(y, 12) == 31,
        is_leap(2024) && !is_leap(2023) && !is_leap(1900) && is_leap(2000) && !is_leap(2100),
        days_before_month(y, 13) == year_len(y),
        y >= 1970 ==> days_before_year(y + 1) == days_before_year(y) + year_len(y),
        days_from_civil(1970, 1, 1) == 0,
        valid_date(1970, 1, 1),
{
    lemma_month_total(y);
    if y >= 1970 {
        lemma_next_year(y);
    }
}

/// The UTC calendar date `(year, month, day)` of a unix timestamp.
pub fn unix_to_ymd(secs: u64) -> (r: (i64, u32, u32))
    ensures
        valid_date(r.0 as int, r.1 as int, r.2 as int),
        days_from_civil(r.0 as int, r.1 as int, r.2 as int) == secs as int / 86400,
{
    let days: u64 = secs / 86400;
    let cycles: u64 = days / 146097;
    let mut rem: u64 = days % 146097;
    assert(cycles <= 146000000000) by (nonlinear_arith)
        requires
            days == secs / 86400,
            cycles == days / 146097,
    ;
    let y0: u64 = 1970 + 400 * cycles;
    let mut y: u64 = y0;
    let r0 = rem;
    proof {
        lemma_year_start(cycles as int);
        assert(days == 146097 * cycles + r0) by (nonlinear_arith)
            requires
                cycles == days / 146097,
                r0 == days % 146097,
        ;
    }
    // whole years
    loop
        invariant
            y0 >= 1970,
            y0 <= 1970 + 400 * 146000000000,
            y >= y0,
            365 * (y - y0) + rem <= r0,
            r0 < 146097,
            days_before_year(y as int) + rem == days,
        ensures
            y >= 1970,
            y <= 1970 + 400 * 146000000000 + 400,
            days_before_year(y as int) + rem == days,
            rem < year_len(y as int),
        decreases rem,
    {
        let len: u64 = if (y % 4 == 0 && y % 100 != 0) || y % 400 == 0 {
            366
        } else {
            365
        };
        if rem < len {
            break;
        }
        proof {
            lemma_next_year(y as int);
        }
        rem -= len;
        y += 1;
    }
    let leap = (y % 4 == 0 && y % 100 != 0) || y % 400 == 0;
    // whole months
    let mut m: u32 = 1;
    proof {
        lemma_month_total(y as int);
    }
    loop
        invariant
            1 <= m <= 12,
            leap == is_leap(y as int),
            days_before_month(y as int, 13) == year_len(y as int),
            days_before_year(y as int) + days_before_month(y as int, m as int) + rem == days,
            days_before_month(y as int, m as int) + rem < year_len(y as int),
        ensures
            1 <= m <= 12,
            days_before_year(y as int) + days_before_month(y as int, m as int) + rem == days,
            rem < days_in_month(y as int, m as int),
        decreases 12 - m,
    {
        let dim: u64 = if m == 2 {
            if leap {
                29
            } else {
                28
            }
        } else if m == 4 || m == 6 || m == 9 || m == 11 {
            30
        } else {
            31
        };
        if rem < dim {
            break;
        }
        if m == 12 {
            proof {
                assert(days_before_month(y as int, 13) == days_before_month(y as int, 12)
                    + days_in_month(y as int, 12));
            }
            assert(false);
        }
        rem -= dim;
        m += 1;
    }
    (y as i64, m, (rem + 1) as u32)
}

/// Replaces each of `%Y %m %d %H %M %S` in `fmt`, in that order, by the
/// year (four digits), month, day, hour, minute and second (two digits).
pub open spec fn format_time_spec(
    fmt: Seq<char>,
    y: nat,
    mo: nat,
    d: nat,
    h: nat,
    mi: nat,
    s: nat,
) -> Seq<char> {
    let f1 = replace_spec(fmt, "%Y"@, pad_left(dec(y), 4, '0'));
    let f2 = replace_spec(f1, "%m"@, pad_left(dec(mo), 2, '0'));
    let f3 = replace_spec(f2, "%d"@, pad_left(dec(d), 2, '0'));
    let f4 = replace_spec(f3, "%H"@, pad_left(dec(h), 2, '0'));
    let f5 = replace_spec(f4, "%M"@, pad_left(dec(mi), 2, '0'));
    replace_spec(f5, "%S"@, pad_left(dec(s), 2, '0'))
}

/// Formats a unix timestamp (UTC) with a `strftime`-like pattern that knows
/// `%Y %m %d %H %M %S`.
pub fn format_time(ts: u64, fmt: &str) -> (r: String)
    ensures
        ({
            let s_of_day = ts as int % 86400;
            exists|y: int, mo: int, d: int|
                valid_date(y, mo, d) && days_from_civil(y, mo, d) == ts as int / 86400 && r@
                    == format_time_spec(
                    fmt@,
                    y as nat,
                    mo as nat,
                    d as nat,
                    (s_of_day / 3600) as nat,
                    ((s_of_day % 3600) / 60) as nat,
                    (s_of_day % 60) as nat,
                )
        }),
{
    let (y, m, d) = unix_to_ymd(ts);
    let s_of_day = ts % 86400;
    let h = s_of_day / 3600;
    let mi = (s_of_day % 3600) / 60;
    let s = s_of_day % 60;
    let ys = u64_padded(y as u64, 4, '0');
    let f1 = replace_text(fmt, "%Y", ys.as_str());
    let ms = u64_padded(m as u64, 2, '0');
    let f2 = replace_text(f1.as_str(), "%m", ms.as_str());
    let ds = u64_padded(d as u64, 2, '0');
    let f3 = replace_text(f2.as_str(), "%d", ds.as_str());
    let hs = u64_padded(h, 2, '0');
    let f4 = replace_text(f3.as_str(), "%H", hs.as_str());
    let mis = u64_padded(mi, 2, '0');
    let f5 = replace_text(f4.as_str(), "%M", mis.as_str());
    let ss = u64_padded(s, 2, '0');
    let f6 = replace_text(f5.as_str(), "%S", ss.as_str());
    assert(format_time_spec(fmt@, y as nat, m as nat, d as nat, h as nat, mi as nat, s as nat) == f6@);
    f6
}

} // verus!
