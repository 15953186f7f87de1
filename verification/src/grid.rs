//! Week layout of a month: leading offset, week count, the day range
//! of each week row, and ISO week numbers.

use vstd::prelude::*;
use crate::date::Date;
use crate::date::MAX_YEAR;
use crate::date::day_number;
use crate::date::days_before_year;
use crate::date::days_in_month;
use crate::date::days_in_month_of;
use crate::date::lemma_day_index_bounds;
use crate::date::lemma_days_before_year_succ;
use crate::date::weekday;
use vstd::arithmetic::div_mod::lemma_fundamental_div_mod;

verus! {

/// Number of blank leading cells of a month: how far its first day
/// stands from the configured week start.
pub open spec fn week_offset_spec(first: Date, monday_first: bool) -> int {
    if monday_first {
        first.weekday_index()
    } else {
        (first.weekday_index() + 1) % 7
    }
}

/// Day of month at which week row `w` begins; zero or negative for
/// rows that start before the month.
pub open spec fn week_start_day_spec(first: Date, w: int, monday_first: bool) -> int {
    7 * w - week_offset_spec(first, monday_first) + 1
}

/// Number of week rows a month needs.
pub open spec fn weeks_in_month_spec(first: Date, monday_first: bool) -> int {
    (week_offset_spec(first, monday_first) + days_in_month_of(first.year as int, first.month as int)
        + 6) / 7
}

/// A week row shows nothing when its seven days all lie outside the
/// month.
pub open spec fn week_row_empty_spec(first: Date, w: int, monday_first: bool) -> bool {
    let start = week_start_day_spec(first, w, monday_first);
    start > days_in_month_of(first.year as int, first.month as int) || start + 6 < 1
}

/// Day of month at which a week row begins, possibly zero or negative.
pub fn get_week_start_day(month_start: &Date, week_num: usize, monday_first: bool) -> (r: i32)
    requires
        month_start.wf(),
        month_start.day == 1,
        week_num <= 6,
    ensures
        r == week_start_day_spec(*month_start, week_num as int, monday_first),
{
    let wd = weekday(month_start);
    let offset: u32 = if monday_first {
        wd
    } else {
        (wd + 1) % 7
    };
    7 * (week_num as i32) - offset as i32 + 1
}

/// Number of week rows needed to show the month; always four to six.
pub fn weeks_in_month(month_start: &Date, monday_first: bool) -> (r: usize)
    requires
        month_start.wf(),
        month_start.day == 1,
    ensures
        r == weeks_in_month_spec(*month_start, monday_first),
        4 <= r <= 6,
{
    let wd = weekday(month_start);
    let offset: u32 = if monday_first {
        wd
    } else {
        (wd + 1) % 7
    };
    let days = days_in_month(month_start.year, month_start.month);
    let r = ((offset + days + 6) / 7) as usize;
    proof {
        lemma_fundamental_div_mod(offset as int + days as int + 6, 7);
    }
    r
}

/// With weeks starting on Monday, a month that begins on a Sunday has
/// six blank leading cells: its first week row starts at day -5, so
/// only its last cell holds a day, namely day 1.
pub proof fn lemma_sunday_start_offset(first: Date)
    requires
        first.wf(),
        first.day == 1,
        first.weekday_index() == 6,
    ensures
        week_offset_spec(first, true) == 6,
        week_start_day_spec(first, 0, true) == -5,
        week_start_day_spec(first, 0, true) + 5 < 1,
        week_start_day_spec(first, 0, true) + 6 == 1,
        !week_row_empty_spec(first, 0, true),
{
}

/// Any month needs four, five or six week rows.
pub proof fn lemma_weeks_in_month_bounds(first: Date, monday_first: bool)
    ensures
        4 <= weeks_in_month_spec(first, monday_first) <= 6,
{
    vstd::arithmetic::div_mod::lemma_mod_bound(first.day_index(), 7);
    vstd::arithmetic::div_mod::lemma_mod_bound(first.weekday_index() + 1, 7);
    let off = week_offset_spec(first, monday_first);
    let dim = days_in_month_of(first.year as int, first.month as int);
    vstd::arithmetic::div_mod::lemma_fundamental_div_mod(off + dim + 6, 7);
}

/// ISO week number of a date: the week of its Thursday, counted in
/// that Thursday's year.
pub open spec fn iso_week_of(d: Date) -> int {
    let ti = d.day_index() + 3 - d.weekday_index();
    let iy = if ti >= days_before_year(d.year + 1) {
        d.year + 1
    } else if ti < days_before_year(d.year as int) {
        d.year - 1
    } else {
        d.year as int
    };
    (ti - days_before_year(iy)) / 7 + 1
}

/// Days before year `y`, for the years around the supported range.
fn days_before_year_num(y: i32) -> (r: i64)
    requires
        0 <= y <= MAX_YEAR + 2,
    ensures
        r == days_before_year(y as int),
{
    if y == 0 {
        proof {
            assert(days_before_year(0) == -366);
        }
        -366
    } else {
        let ym1: i64 = (y - 1) as i64;
        365 * ym1 + ym1 / 4 - ym1 / 100 + ym1 / 400
    }
}

/// ISO week number of a date, between 1 and 53.
pub fn iso_week_number(d: &Date) -> (r: u32)
    requires
        d.wf(),
    ensures
        r == iso_week_of(*d),
        1 <= r <= 53,
{
    let n = day_number(d);
    let wd = weekday(d);
    let ti: i64 = n + 3 - wd as i64;
    proof {
        lemma_day_index_bounds(*d);
        lemma_days_before_year_succ(d.year as int);
        lemma_days_before_year_succ(d.year as int + 1);
        if d.year > 1 {
            lemma_days_before_year_succ(d.year as int - 1);
        }
    }
    let dby_this = days_before_year_num(d.year);
    let dby_next = days_before_year_num(d.year + 1);
    let (iy, dby_iso): (i32, i64) = if ti >= dby_next {
        (d.year + 1, dby_next)
    } else if ti < dby_this {
        (d.year - 1, days_before_year_num(d.year - 1))
    } else {
        (d.year, dby_this)
    };
    let doy0: i64 = ti - dby_iso;
    proof {
        lemma_fundamental_div_mod(doy0 as int, 7);
        assert(0 <= doy0 <= 368);
    }
    (doy0 / 7 + 1) as u32
}

} // verus!
