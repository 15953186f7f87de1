//! Easter Sunday computation (Gauss's algorithm in the Gregorian
//! form), together with a proof that the computed date always lies
//! between 22 March and 25 April and always falls on a Sunday.

use vstd::prelude::*;
use crate::date::Date;
use crate::date::MAX_YEAR;
use crate::date::days_before_month;
use crate::date::days_before_year;
use crate::date::is_leap_year;
use vstd::arithmetic::div_mod::lemma_fundamental_div_mod;
use vstd::arithmetic::div_mod::lemma_fundamental_div_mod_converse;

verus! {

/// First year for which the Easter computation is defined.
pub const EASTER_MIN_YEAR: i32 = 1583;

/// Gauss's Easter formula: the combined month-day index of Easter
/// Sunday in year `y`.  Month and day are read off by dividing by 31.
pub open spec fn easter_index(y: int) -> int {
    let a = y % 19;
    let b = y / 100;
    let c = y % 100;
    let d = b / 4;
    let e = b % 4;
    let f = (b + 8) / 25;
    let g = (b - f + 1) / 3;
    let h = (19 * a + b - d - g + 15) % 30;
    let i = c / 4;
    let k = c % 4;
    let l = (32 + 2 * e + 2 * i - h - k) % 7;
    let m = (a + 11 * h + 22 * l) / 451;
    h + l - 7 * m + 114
}

/// Month of Easter Sunday in year `y`.
pub open spec fn easter_month(y: int) -> int {
    easter_index(y) / 31
}

/// Day of month of Easter Sunday in year `y`.
pub open spec fn easter_day(y: int) -> int {
    easter_index(y) % 31 + 1
}

/// Easter Sunday of year `y` as a date.
pub open spec fn easter_date(y: int) -> Date {
    Date { year: y as i32, month: easter_month(y) as u32, day: easter_day(y) as u32 }
}

/// One unit per leap year, for day counting.
pub open spec fn leap01(y: int) -> int {
    if is_leap_year(y) {
        1
    } else {
        0
    }
}

/// Closed form for the days before year `y` plus its leap day, over
/// the decomposition of `y` into its 400-, 100- and 4-year cycles.
proof fn lemma_days_before_year_decomposition(y: int, dd: int, e: int, i: int, k: int)
    requires
        y == 400 * dd + 100 * e + 4 * i + k,
        dd >= 1,
        0 <= e < 4,
        0 <= i < 25,
        0 <= k < 4,
    ensures
        days_before_year(y) + leap01(y) == 146097 * dd + 36524 * e + 1461 * i + 365 * k - 365,
{
    if k >= 1 {
        lemma_fundamental_div_mod_converse(y - 1, 4, 100 * dd + 25 * e + i, k - 1);
        lemma_fundamental_div_mod_converse(y - 1, 100, 4 * dd + e, 4 * i + k - 1);
        lemma_fundamental_div_mod_converse(y - 1, 400, dd, 100 * e + 4 * i + k - 1);
        lemma_fundamental_div_mod_converse(y, 4, 100 * dd + 25 * e + i, k);
        assert(y % 4 == k);
        assert(!is_leap_year(y));
    } else if i >= 1 {
        lemma_fundamental_div_mod_converse(y - 1, 4, 100 * dd + 25 * e + i - 1, 3);
        lemma_fundamental_div_mod_converse(y - 1, 100, 4 * dd + e, 4 * i - 1);
        lemma_fundamental_div_mod_converse(y - 1, 400, dd, 100 * e + 4 * i - 1);
        lemma_fundamental_div_mod_converse(y, 4, 100 * dd + 25 * e + i, 0);
        lemma_fundamental_div_mod_converse(y, 100, 4 * dd + e, 4 * i);
        assert(is_leap_year(y));
    } else if e >= 1 {
        lemma_fundamental_div_mod_converse(y - 1, 4, 100 * dd + 25 * e - 1, 3);
        lemma_fundamental_div_mod_converse(y - 1, 100, 4 * dd + e - 1, 99);
        lemma_fundamental_div_mod_converse(y - 1, 400, dd, 100 * e - 1);
        lemma_fundamental_div_mod_converse(y, 100, 4 * dd + e, 0);
        lemma_fundamental_div_mod_converse(y, 400, dd, 100 * e);
        assert(!is_leap_year(y));
    } else {
        lemma_fundamental_div_mod_converse(y - 1, 4, 100 * dd - 1, 3);
        lemma_fundamental_div_mod_converse(y - 1, 100, 4 * dd - 1, 99);
        lemma_fundamental_div_mod_converse(y - 1, 400, dd - 1, 399);
        lemma_fundamental_div_mod_converse(y, 400, dd, 0);
        assert(is_leap_year(y));
    }
}

/// Easter Sunday falls between 22 March and 25 April inclusive, and
/// its weekday is Sunday, for every supported year from 1583 on.
pub proof fn lemma_easter_spring_sunday(y: int)
    requires
        EASTER_MIN_YEAR <= y <= MAX_YEAR,
    ensures
        easter_date(y).wf(),
        easter_date(y).year == y,
        easter_date(y).month == 3 || easter_date(y).month == 4,
        easter_date(y).month == 3 ==> 22 <= easter_date(y).day <= 31,
        easter_date(y).month == 4 ==> 1 <= easter_date(y).day <= 25,
        easter_date(y).weekday_index() == 6,
{
    let a = y % 19;
    let b = y / 100;
    let c = y % 100;
    let dd = b / 4;
    let e = b % 4;
    let f = (b + 8) / 25;
    let g = (b - f + 1) / 3;
    let h = (19 * a + b - dd - g + 15) % 30;
    let i = c / 4;
    let k = c % 4;
    let l0 = 32 + 2 * e + 2 * i - h - k;
    let l = l0 % 7;
    let m = (a + 11 * h + 22 * l) / 451;
    let x = h + l - 7 * m + 114;

    lemma_fundamental_div_mod(y, 19);
    lemma_fundamental_div_mod(y, 100);
    lemma_fundamental_div_mod(b, 4);
    lemma_fundamental_div_mod(c, 4);
    lemma_fundamental_div_mod(b + 8, 25);
    lemma_fundamental_div_mod(b - f + 1, 3);
    lemma_fundamental_div_mod(19 * a + b - dd - g + 15, 30);
    lemma_fundamental_div_mod(l0, 7);
    lemma_fundamental_div_mod(a + 11 * h + 22 * l, 451);

    assert(0 <= a < 19);
    assert(15 <= b <= 99);
    assert(0 <= c < 100);
    assert(0 <= e < 4);
    assert(0 <= k < 4);
    assert(0 <= i < 25);
    assert(0 <= h < 30);
    assert(0 <= l < 7);
    assert(0 <= m <= 1);

    // The correction term keeps the index at or below 25 April.
    if h == 29 && l == 6 {
        assert(m == 1);
    }
    if m == 1 {
        assert(11 * h + 22 * l >= 433);
        assert(h >= 28);
        assert(l == 6);
    }
    assert(114 <= x <= 148);
    assert(easter_index(y) == x);

    if x <= 123 {
        lemma_fundamental_div_mod_converse(x, 31, 3, x - 93);
    } else {
        lemma_fundamental_div_mod_converse(x, 31, 4, x - 124);
    }
    let ed = easter_date(y);
    assert(ed.wf());

    // Weekday: express the day index as 7 * kk + 6.
    assert(y == 400 * dd + 100 * e + 4 * i + k);
    assert(dd >= 3);
    lemma_days_before_year_decomposition(y, dd, e, i, k);
    reveal_with_fuel(days_before_month, 5);
    assert(days_before_month(y, 3) == 59 + leap01(y));
    assert(days_before_month(y, 4) == 90 + leap01(y));
    let ql = l0 / 7;
    assert(ed.day_index() == days_before_year(y) + leap01(y) + x - 34);
    assert(ed.day_index() == 146097 * dd + 36526 * e + 1463 * i + 364 * k - 7 * ql - 7 * m - 253);
    let kk = 20871 * dd + 5218 * e + 209 * i + 52 * k - ql - m - 37;
    assert(ed.day_index() == 7 * kk + 6);
    lemma_fundamental_div_mod_converse(ed.day_index(), 7, kk, 6);
}

/// Easter Sunday of the given year by Gauss's algorithm; `None`
/// exactly when the year lies before 1583 or beyond the supported
/// range.
pub fn calculate_easter_date(year: i32) -> (r: Option<Date>)
    ensures
        r is Some <==> EASTER_MIN_YEAR <= year <= MAX_YEAR,
        r is Some ==> r.unwrap() == easter_date(year as int) && r.unwrap().wf(),
{
    if year < EASTER_MIN_YEAR || year > MAX_YEAR {
        return None;
    }
    proof {
        lemma_easter_spring_sunday(year as int);
        lemma_fundamental_div_mod(year as int, 19);
        lemma_fundamental_div_mod(year as int, 100);
    }
    let a = year % 19;
    let b = year / 100;
    let c = year % 100;
    proof {
        lemma_fundamental_div_mod(b as int, 4);
        lemma_fundamental_div_mod(c as int, 4);
        lemma_fundamental_div_mod(b as int + 8, 25);
    }
    let d = b / 4;
    let e = b % 4;
    let f = (b + 8) / 25;
    proof {
        lemma_fundamental_div_mod(b as int - f as int + 1, 3);
    }
    let g = (b - f + 1) / 3;
    proof {
        lemma_fundamental_div_mod(19 * a as int + b as int - d as int - g as int + 15, 30);
    }
    let h = (19 * a + b - d - g + 15) % 30;
    let i = c / 4;
    let k = c % 4;
    proof {
        lemma_fundamental_div_mod(32 + 2 * e as int + 2 * i as int - h as int - k as int, 7);
    }
    let l = (32 + 2 * e + 2 * i - h - k) % 7;
    proof {
        lemma_fundamental_div_mod(a as int + 11 * h as int + 22 * l as int, 451);
    }
    let m = (a + 11 * h + 22 * l) / 451;
    let x = h + l - 7 * m + 114;
    let month = (x / 31) as u32;
    let day = (x % 31 + 1) as u32;
    Some(Date { year, month, day })
}

} // verus!
