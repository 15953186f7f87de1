//! Calendar dates in the proleptic Gregorian calendar, with leap-year
//! rules, day numbering, and weekday computation.
//!
//! A `Date` holds a year, month and day as plain integers.  Every
//! valid date maps to a *day index*: the number of days since
//! 1 January of year 1 (which has index 0).  Weekdays are derived from
//! the day index, with index `0` = Monday through `6` = Sunday.

use vstd::prelude::*;

verus! {

/// Smallest year a `Date` may hold.
pub const MIN_YEAR: i32 = 1;

/// Largest year a `Date` may hold.
pub const MAX_YEAR: i32 = 9999;

/// Day index of 31 December of `MAX_YEAR`, the largest representable day.
pub const MAX_DAY_NUMBER: i64 = 3652058;

/// A year is a leap year when it is divisible by 4 but not by 100,
/// or divisible by 400.
pub open spec fn is_leap_year(y: int) -> bool {
    (y % 4 == 0 && y % 100 != 0) || y % 400 == 0
}

/// Number of days in a year: 366 in leap years, 365 otherwise.
pub open spec fn days_in_year(y: int) -> int {
    if is_leap_year(y) {
        366
    } else {
        365
    }
}

/// Number of days in month `m` of year `y` (for `1 <= m <= 12`).
pub open spec fn days_in_month_of(y: int, m: int) -> int {
    if m == 2 {
        if is_leap_year(y) {
            29
        } else {
            28
        }
    } else if m == 4 || m == 6 || m == 9 || m == 11 {
        30
    } else {
        31
    }
}

/// Number of days in all years before year `y`, counting from year 1.
pub open spec fn days_before_year(y: int) -> int {
    365 * (y - 1) + (y - 1) / 4 - (y - 1) / 100 + (y - 1) / 400
}

/// Number of days in the months of year `y` that precede month `m`.
pub open spec fn days_before_month(y: int, m: int) -> int
    decreases m,
{
    if m <= 1 {
        0
    } else {
        days_before_month(y, m - 1) + days_in_month_of(y, m - 1)
    }
}

/// A calendar date.  Meaningful values satisfy `wf`.
#[derive(Clone, Copy, PartialEq, Eq, Structural, Debug)]
pub struct Date {
    pub year: i32,
    pub month: u32,
    pub day: u32,
}

impl Date {
    /// The date names an existing day of the proleptic Gregorian
    /// calendar within the supported year range.
    pub open spec fn wf(self) -> bool {
        &&& MIN_YEAR <= self.year <= MAX_YEAR
        &&& 1 <= self.month <= 12
        &&& 1 <= self.day <= days_in_month_of(self.year as int, self.month as int)
    }

    /// Days since 1 January of year 1, which has index 0.
    pub open spec fn day_index(self) -> int {
        days_before_year(self.year as int) + days_before_month(
            self.year as int,
            self.month as int,
        ) + self.day - 1
    }

    /// Weekday of the date: 0 = Monday .. 6 = Sunday.
    pub open spec fn weekday_index(self) -> int {
        self.day_index() % 7
    }

    /// Strictly earlier in the calendar, compared field by field.
    pub open spec fn lex_lt(self, other: Date) -> bool {
        ||| self.year < other.year
        ||| (self.year == other.year && self.month < other.month)
        ||| (self.year == other.year && self.month == other.month && self.day < other.day)
    }
}

/// Whether `year` is a leap year.
pub fn leap_year(year: i32) -> (r: bool)
    requires
        year >= 1,
    ensures
        r == is_leap_year(year as int),
{
    (year % 4 == 0 && year % 100 != 0) || year % 400 == 0
}

/// Number of days in the given month, accounting for leap years.
pub fn days_in_month(year: i32, month: u32) -> (r: u32)
    requires
        year >= 1,
        1 <= month <= 12,
    ensures
        r == days_in_month_of(year as int, month as int),
{
    if month == 2 {
        if leap_year(year) {
            29
        } else {
            28
        }
    } else if month == 4 || month == 6 || month == 9 || month == 11 {
        30
    } else {
        31
    }
}

/// Builds a date from its parts; `None` exactly when the parts do not
/// name an existing day in the supported range.
pub fn from_ymd(year: i32, month: u32, day: u32) -> (r: Option<Date>)
    ensures
        r is Some <==> (MIN_YEAR <= year <= MAX_YEAR && 1 <= month <= 12 && 1 <= day
            <= days_in_month_of(year as int, month as int)),
        r is Some ==> r.unwrap() == (Date { year, month, day }) && r.unwrap().wf(),
{
    if MIN_YEAR <= year && year <= MAX_YEAR && 1 <= month && month <= 12 && 1 <= day && day
        <= days_in_month(year, month) {
        Some(Date { year, month, day })
    } else {
        None
    }
}

/// Day index of a date: days since 1 January of year 1.
pub fn day_number(d: &Date) -> (r: i64)
    requires
        d.wf(),
    ensures
        r == d.day_index(),
        0 <= r <= MAX_DAY_NUMBER,
{
    let mut dbm: i64 = 0;
    let mut m: u32 = 1;
    while m < d.month
        invariant
            d.wf(),
            1 <= m <= d.month,
            dbm == days_before_month(d.year as int, m as int),
            0 <= dbm <= 366 * (m - 1),
        decreases d.month - m,
    {
        dbm = dbm + days_in_month(d.year, m) as i64;
        m = m + 1;
    }
    let ym1: i64 = (d.year - 1) as i64;
    let dby: i64 = 365 * ym1 + ym1 / 4 - ym1 / 100 + ym1 / 400;
    proof {
        lemma_day_index_bounds(*d);
    }
    dby + dbm + d.day as i64 - 1
}

/// For `y >= 1`, one more year before the cutoff adds exactly one
/// year's worth of days.
pub proof fn lemma_days_before_year_succ(y: int)
    requires
        y >= 1,
    ensures
        days_before_year(y + 1) == days_before_year(y) + days_in_year(y),
{
    lemma_div_step(y, 4);
    lemma_div_step(y, 100);
    lemma_div_step(y, 400);
}

/// Quotient step: moving the dividend down by one drops the quotient
/// exactly when the dividend was a multiple of the divisor.
proof fn lemma_div_step(n: int, d: int)
    requires
        n >= 1,
        d >= 1,
    ensures
        n / d == (n - 1) / d + (if n % d == 0 {
            1int
        } else {
            0int
        }),
{
    let q = n / d;
    let r = n % d;
    vstd::arithmetic::div_mod::lemma_fundamental_div_mod(n, d);
    if r == 0 {
        assert(n - 1 == (q - 1) * d + (d - 1)) by (nonlinear_arith)
            requires
                n == d * q + r,
                r == 0,
        ;
        vstd::arithmetic::div_mod::lemma_fundamental_div_mod_converse(n - 1, d, q - 1, d - 1);
    } else {
        assert(n - 1 == q * d + (r - 1)) by (nonlinear_arith)
            requires
                n == d * q + r,
        ;
        vstd::arithmetic::div_mod::lemma_fundamental_div_mod_converse(n - 1, d, q, r - 1);
    }
}

/// The months of a year account for all of its days.
pub proof fn lemma_days_before_month_full(y: int)
    ensures
        days_before_month(y, 13) == days_in_year(y),
{
    reveal_with_fuel(days_before_month, 13);
}

/// The days that precede a month stay within the year's length.
pub proof fn lemma_days_before_month_bounds(y: int, m: int)
    requires
        1 <= m <= 12,
    ensures
        0 <= days_before_month(y, m),
        days_before_month(y, m) + days_in_month_of(y, m) <= days_in_year(y),
        m > 1 ==> days_before_month(y, m - 1) < days_before_month(y, m),
{
    lemma_days_before_month_nonneg(y, m);
    lemma_days_before_month_upper(y, m);
}

proof fn lemma_days_before_month_nonneg(y: int, m: int)
    requires
        1 <= m,
    ensures
        0 <= days_before_month(y, m),
        m > 1 ==> days_before_month(y, m - 1) < days_before_month(y, m),
    decreases m,
{
    if m > 1 {
        lemma_days_before_month_nonneg(y, m - 1);
    }
}

proof fn lemma_days_before_month_upper(y: int, m: int)
    requires
        1 <= m <= 12,
    ensures
        days_before_month(y, m) + days_in_month_of(y, m) <= days_in_year(y),
    decreases 12 - m,
{
    if m == 12 {
        lemma_days_before_month_full(y);
    } else {
        lemma_days_before_month_upper(y, m + 1);
    }
}

/// Day indexes of well-formed dates stay within a year's slice of the
/// timeline and within the supported range overall.
pub proof fn lemma_day_index_bounds(d: Date)
    requires
        d.wf(),
    ensures
        days_before_year(d.year as int) <= d.day_index() < days_before_year(d.year as int + 1),
        0 <= d.day_index() <= MAX_DAY_NUMBER,
{
    lemma_days_before_month_bounds(d.year as int, d.month as int);
    lemma_days_before_year_succ(d.year as int);
    lemma_days_before_year_monotone(1, d.year as int);
    lemma_days_before_year_monotone(d.year as int + 1, (MAX_YEAR + 1) as int);
    assert(days_before_year(1) == 0);
    assert(days_before_year((MAX_YEAR + 1) as int) == MAX_DAY_NUMBER + 1);
}

/// Later cutoff years have at least 365 days per year in between.
pub proof fn lemma_days_before_year_monotone(y1: int, y2: int)
    requires
        1 <= y1 <= y2,
    ensures
        days_before_year(y1) + 365 * (y2 - y1) <= days_before_year(y2),
    decreases y2 - y1,
{
    if y1 < y2 {
        lemma_days_before_year_monotone(y1, y2 - 1);
        lemma_days_before_year_succ(y2 - 1);
    }
}

/// The day index orders dates exactly as the calendar does.
pub proof fn lemma_day_index_orders_dates(a: Date, b: Date)
    requires
        a.wf(),
        b.wf(),
    ensures
        a.lex_lt(b) <==> a.day_index() < b.day_index(),
        a == b <==> a.day_index() == b.day_index(),
{
    lemma_day_index_bounds(a);
    lemma_day_index_bounds(b);
    if a.year == b.year {
        if a.month == b.month {
        } else if a.month < b.month {
            lemma_days_before_month_chain(a.year as int, a.month as int, b.month as int);
        } else {
            lemma_days_before_month_chain(a.year as int, b.month as int, a.month as int);
        }
    } else if a.year < b.year {
        lemma_days_before_year_monotone(a.year as int + 1, b.year as int);
    } else {
        lemma_days_before_year_monotone(b.year as int + 1, a.year as int);
    }
}

/// Between two months of one year lies at least the earlier month.
proof fn lemma_days_before_month_chain(y: int, m1: int, m2: int)
    requires
        1 <= m1 < m2 <= 12,
    ensures
        days_before_month(y, m1) + days_in_month_of(y, m1) <= days_before_month(y, m2),
    decreases m2 - m1,
{
    if m1 + 1 < m2 {
        lemma_days_before_month_chain(y, m1 + 1, m2);
        lemma_days_before_month_bounds(y, m1 + 1);
    }
}

/// Weekday of a date: 0 = Monday .. 6 = Sunday.
pub fn weekday(d: &Date) -> (r: u32)
    requires
        d.wf(),
    ensures
        r == d.weekday_index(),
        r < 7,
{
    let n = day_number(d);
    (n % 7) as u32
}

/// Builds the date a given number of days after 1 January of year 1;
/// `None` exactly when the index lies outside the supported range.
pub fn from_day_number(n: i64) -> (r: Option<Date>)
    ensures
        r is Some <==> 0 <= n <= MAX_DAY_NUMBER,
        r is Some ==> r.unwrap().wf() && r.unwrap().day_index() == n,
{
    if n < 0 || n > MAX_DAY_NUMBER {
        return None;
    }
    assert(days_before_year((MAX_YEAR + 1) as int) == MAX_DAY_NUMBER + 1);
    let mut y: i32 = 1;
    let mut acc: i64 = 0;
    loop
        invariant
            1 <= y <= MAX_YEAR,
            acc == days_before_year(y as int),
            acc <= n <= MAX_DAY_NUMBER,
        ensures
            1 <= y <= MAX_YEAR,
            acc == days_before_year(y as int),
            acc <= n < acc + days_in_year(y as int),
        decreases MAX_YEAR - y,
    {
        let len: i64 = if leap_year(y) {
            366
        } else {
            365
        };
        proof {
            lemma_days_before_year_succ(y as int);
        }
        if acc + len <= n {
            proof {
                if y == MAX_YEAR {
                    assert(days_before_year((MAX_YEAR + 1) as int) == MAX_DAY_NUMBER + 1);
                }
                lemma_days_before_year_monotone(1, y as int);
            }
            acc = acc + len;
            y = y + 1;
        } else {
            break;
        }
    }
    let mut m: u32 = 1;
    let mut rem: i64 = n - acc;
    loop
        invariant
            1 <= m <= 12,
            1 <= y <= MAX_YEAR,
            rem == n - days_before_year(y as int) - days_before_month(y as int, m as int),
            0 <= rem,
            n < days_before_year(y as int) + days_in_year(y as int),
        ensures
            1 <= m <= 12,
            1 <= y <= MAX_YEAR,
            rem == n - days_before_year(y as int) - days_before_month(y as int, m as int),
            0 <= rem < days_in_month_of(y as int, m as int),
        decreases 12 - m,
    {
        let dim = days_in_month(y, m) as i64;
        if rem >= dim {
            proof {
                if m == 12 {
                    lemma_days_before_month_full(y as int);
                }
            }
            rem = rem - dim;
            m = m + 1;
        } else {
            break;
        }
    }
    let d = Date { year: y, month: m, day: (rem + 1) as u32 };
    proof {
        lemma_days_before_month_bounds(y as int, m as int);
    }
    Some(d)
}

/// The date `delta` days after (or, negative, before) `d`; `None`
/// exactly when the result leaves the supported range.
pub fn add_days(d: &Date, delta: i64) -> (r: Option<Date>)
    requires
        d.wf(),
        -4000000 <= delta <= 4000000,
    ensures
        r is Some <==> 0 <= d.day_index() + delta <= MAX_DAY_NUMBER,
        r is Some ==> r.unwrap().wf() && r.unwrap().day_index() == d.day_index() + delta,
{
    let n = day_number(d);
    from_day_number(n + delta)
}

/// Whether `a` is on or before `b` in the calendar.
pub fn date_le(a: &Date, b: &Date) -> (r: bool)
    requires
        a.wf(),
        b.wf(),
    ensures
        r == (a.day_index() <= b.day_index()),
        r == (a.lex_lt(*b) || *a == *b),
{
    proof {
        lemma_day_index_orders_dates(*a, *b);
    }
    if a.year != b.year {
        a.year < b.year
    } else if a.month != b.month {
        a.month < b.month
    } else {
        a.day <= b.day
    }
}

} // verus!
