//! Date rules: the Nth-weekday-of-month search, the compact rule
//! grammar, and its evaluation for a target year.

use vstd::prelude::*;
use crate::date::Date;
use crate::date::MAX_DAY_NUMBER;
use crate::date::MAX_YEAR;
use crate::date::MIN_YEAR;
use crate::date::add_days;
use crate::date::days_in_month;
use crate::date::days_in_month_of;
use crate::date::days_before_month;
use crate::date::days_before_year;
use crate::date::from_ymd;
use crate::date::lemma_day_index_bounds;
use crate::date::weekday;
use crate::easter::EASTER_MIN_YEAR;
use crate::easter::calculate_easter_date;
use crate::easter::easter_date;
use crate::text::clamp_days;
use crate::text::count_char_spec;
use crate::text::find_char_idx;
use crate::text::find_idx;
use crate::text::is_digit;
use crate::text::is_digits;
use crate::text::is_digits_str;
use crate::text::lemma_digits_val_small;
use crate::text::lemma_find_idx;
use crate::text::parse_days_offset;
use crate::text::parse_u32_clamped;
use crate::text::sint_grammar;
use crate::text::sint_value;
use crate::text::trim_spec;
use crate::text::trim_str;
use crate::text::uint_grammar;
use crate::text::uint_value;
use vstd::arithmetic::div_mod::lemma_fundamental_div_mod;
use vstd::arithmetic::div_mod::lemma_fundamental_div_mod_converse;

verus! {

/// Day of month of the first day whose weekday is `dow0`
/// (0 = Monday .. 6 = Sunday), in the given month.
pub open spec fn first_dow_day(y: int, m: int, dow0: int) -> int {
    1 + (dow0 - (Date { year: y as i32, month: m as u32, day: 1u32 }).weekday_index()) % 7
}

/// Day of month of the `n`th day with weekday `dow0`, counted from
/// the first, whether or not it still lies within the month.
pub open spec fn nth_dow_day(y: int, m: int, dow0: int, n: int) -> int {
    first_dow_day(y, m, dow0) + 7 * (n - 1)
}

/// Day of month selected by an Nth-weekday rule: the `n`th occurrence
/// where `n < 5`; for `n == 5` the fifth occurrence when the month has
/// one, otherwise the last (fourth).
pub open spec fn nth_rule_day(y: int, m: int, dow0: int, n: int) -> int {
    if n == 5 && nth_dow_day(y, m, dow0, 5) > days_in_month_of(y, m) {
        nth_dow_day(y, m, dow0, 4)
    } else {
        nth_dow_day(y, m, dow0, n)
    }
}

/// A day of the month has weekday `dow0` exactly when its distance
/// from the first such day is a multiple of seven.
pub proof fn lemma_dow_characterization(y: int, m: int, dow0: int, dday: int)
    requires
        MIN_YEAR <= y <= MAX_YEAR,
        1 <= m <= 12,
        0 <= dow0 <= 6,
        0 <= dday <= 0xffff_ffff,
    ensures
        1 <= first_dow_day(y, m, dow0) <= 7,
        (Date { year: y as i32, month: m as u32, day: dday as u32 }).weekday_index() == dow0 <==> (
        dday - first_dow_day(y, m, dow0)) % 7 == 0,
{
    let base = days_before_year(y) + days_before_month(y, m);
    let dv = Date { year: y as i32, month: m as u32, day: dday as u32 };
    assert(dv.day == dday);
    assert(dv.day_index() == base + dday - 1);
    let w1 = (Date { year: y as i32, month: m as u32, day: 1u32 }).weekday_index();
    let wd = dv.weekday_index();
    let f = first_dow_day(y, m, dow0);
    lemma_fundamental_div_mod(base, 7);
    let qb = base / 7;
    assert(base == 7 * qb + w1);
    lemma_fundamental_div_mod(dow0 - w1, 7);
    let qs = (dow0 - w1) / 7;
    let s7 = (dow0 - w1) % 7;
    assert(dow0 - w1 == 7 * qs + s7);
    assert(f == 1 + s7);
    lemma_fundamental_div_mod(base + dday - 1, 7);
    let q = (base + dday - 1) / 7;
    assert(base + dday - 1 == 7 * q + wd);
    if wd == dow0 {
        assert(dday - f == (q - qb + qs) * 7 + 0) by (nonlinear_arith)
            requires
                base == 7 * qb + w1,
                dow0 - w1 == 7 * qs + s7,
                f == 1 + s7,
                base + dday - 1 == 7 * q + dow0,
        ;
        lemma_fundamental_div_mod_converse(dday - f, 7, q - qb + qs, 0);
    }
    if (dday - f) % 7 == 0 {
        lemma_fundamental_div_mod(dday - f, 7);
        let t = (dday - f) / 7;
        assert(dday - f == 7 * t);
        assert(base + dday - 1 == (qb - qs + t) * 7 + dow0) by (nonlinear_arith)
            requires
                base == 7 * qb + w1,
                dow0 - w1 == 7 * qs + s7,
                f == 1 + s7,
                dday - f == 7 * t,
        ;
        lemma_fundamental_div_mod_converse(base + dday - 1, 7, qb - qs + t, dow0);
    }
}

/// The `n`th weekday `dow_num` (1 = Monday .. 7 = Sunday) of the given
/// month, with `n == 5` meaning "fifth when it exists, else last".
/// `None` exactly when an argument is out of range.
pub fn find_nth_dow(year: i32, month: u32, dow_num: u32, n: u32) -> (r: Option<Date>)
    ensures
        r is Some <==> (MIN_YEAR <= year <= MAX_YEAR && 1 <= month <= 12 && 1 <= dow_num <= 7 && 1
            <= n <= 5),
        r is Some ==> ({
            let dd = r.unwrap();
            &&& dd.wf()
            &&& dd.year == year
            &&& dd.month == month
            &&& dd.day == nth_rule_day(year as int, month as int, dow_num as int - 1, n as int)
            &&& dd.weekday_index() == dow_num - 1
        }),
{
    if n == 0 || n > 5 || dow_num == 0 || dow_num > 7 {
        return None;
    }
    let first = match from_ymd(year, month, 1) {
        Some(d) => d,
        None => {
            return None;
        },
    };
    let w1 = weekday(&first);
    let dow0 = dow_num - 1;
    let fday = 1 + (dow0 + 7 - w1) % 7;
    proof {
        let v = dow0 as int - w1 as int;
        if v >= 0 {
            lemma_fundamental_div_mod_converse(v, 7, 0, v);
            lemma_fundamental_div_mod_converse(v + 7, 7, 1, v);
        } else {
            lemma_fundamental_div_mod_converse(v, 7, -1, v + 7);
            lemma_fundamental_div_mod_converse(v + 7, 7, 0, v + 7);
        }
        assert(fday == first_dow_day(year as int, month as int, dow0 as int));
    }
    let mut day = fday + 7 * (n - 1);
    let dim = days_in_month(year, month);
    if n == 5 && day > dim {
        day = day - 7;
    }
    proof {
        lemma_dow_characterization(year as int, month as int, dow0 as int, day as int);
        lemma_fundamental_div_mod_converse(
            day as int - first_dow_day(year as int, month as int, dow0 as int),
            7,
            if n == 5 && fday + 28 > dim {
                3int
            } else {
                n as int - 1
            },
            0,
        );
    }
    if day <= dim {
        Some(Date { year, month, day })
    } else {
        None
    }
}

/// An Nth-weekday rule with `n == 5` selects the fifth occurrence of
/// the weekday when the month has five, and the month's last
/// occurrence when it has only four.
pub proof fn lemma_fifth_dow_is_fifth_or_last(y: int, m: int, dow0: int)
    requires
        MIN_YEAR <= y <= MAX_YEAR,
        1 <= m <= 12,
        0 <= dow0 <= 6,
    ensures
        1 <= nth_rule_day(y, m, dow0, 5) <= days_in_month_of(y, m),
        (Date {
            year: y as i32,
            month: m as u32,
            day: nth_rule_day(y, m, dow0, 5) as u32,
        }).weekday_index() == dow0,
        nth_dow_day(y, m, dow0, 5) <= days_in_month_of(y, m) ==> nth_rule_day(y, m, dow0, 5)
            == nth_dow_day(y, m, dow0, 5),
        nth_dow_day(y, m, dow0, 5) > days_in_month_of(y, m) ==> forall|d2: int|
            nth_rule_day(y, m, dow0, 5) < d2 <= days_in_month_of(y, m) ==> (#[trigger] (Date {
                year: y as i32,
                month: m as u32,
                day: d2 as u32,
            }).weekday_index()) != dow0,
{
    let f = first_dow_day(y, m, dow0);
    let rday = nth_rule_day(y, m, dow0, 5);
    let dim = days_in_month_of(y, m);
    lemma_dow_characterization(y, m, dow0, rday);
    if nth_dow_day(y, m, dow0, 5) > dim {
        lemma_fundamental_div_mod_converse(rday - f, 7, 3, 0);
        assert forall|d2: int| rday < d2 <= dim implies (#[trigger] (Date {
            year: y as i32,
            month: m as u32,
            day: d2 as u32,
        }).weekday_index()) != dow0 by {
            lemma_dow_characterization(y, m, dow0, d2);
            if (d2 - f) % 7 == 0 {
                lemma_fundamental_div_mod(d2 - f, 7);
                assert(d2 - f >= 7 * 5) by {
                    assert(d2 - f > 28);
                    assert((d2 - f) / 7 >= 5);
                };
            }
        }
    } else {
        lemma_fundamental_div_mod_converse(rday - f, 7, 4, 0);
    }
}

/// The parts name an existing day in the supported range.
pub open spec fn valid_ymd(y: int, m: int, d: int) -> bool {
    MIN_YEAR <= y <= MAX_YEAR && 1 <= m <= 12 && 1 <= d <= days_in_month_of(y, m)
}

/// The result a rule naming the plain date `y-m-d` must have.
pub open spec fn plain_date_matches(y: int, m: int, d: int, r: Option<Date>) -> bool {
    if valid_ymd(y, m, d) {
        r == Some(Date { year: y as i32, month: m as u32, day: d as u32 })
    } else {
        r is None
    }
}

/// The result a rule naming the day `off` days after day index
/// `base_index` must have: that day, or nothing when it leaves the
/// supported range.
pub open spec fn offset_date_matches(base_index: int, off: int, r: Option<Date>) -> bool {
    if 0 <= base_index + off <= MAX_DAY_NUMBER {
        r is Some && r.unwrap().wf() && r.unwrap().day_index() == base_index + off
    } else {
        r is None
    }
}

/// Easter-relative rule at a resolved offset.
pub open spec fn easter_offset_matches(y: int, off: int, r: Option<Date>) -> bool {
    if EASTER_MIN_YEAR <= y <= MAX_YEAR {
        offset_date_matches(easter_date(y).day_index(), off, r)
    } else {
        r is None
    }
}

/// Easter-relative rule: `E` alone, or `E` followed by a signed
/// integer day offset.
pub open spec fn easter_rule_matches(s: Seq<char>, y: int, r: Option<Date>) -> bool {
    if s.len() == 1 {
        easter_offset_matches(y, 0, r)
    } else if sint_grammar(s.drop_first()) {
        easter_offset_matches(y, sint_value(s.drop_first()), r)
    } else {
        r is None
    }
}

/// `MM/DD`-shaped text: two unsigned numbers around a single slash.
pub open spec fn md_grammar(s: Seq<char>) -> bool {
    let sp = find_idx(s, '/');
    &&& sp >= 0
    &&& count_char_spec(s, '/') == 1
    &&& uint_grammar(s.subrange(0, sp))
    &&& uint_grammar(s.subrange(sp + 1, s.len() as int))
}

/// First number of an `MM/DD`-shaped text.
pub open spec fn md_first(s: Seq<char>) -> int {
    uint_value(s.subrange(0, find_idx(s, '/')))
}

/// Second number of an `MM/DD`-shaped text.
pub open spec fn md_second(s: Seq<char>) -> int {
    uint_value(s.subrange(find_idx(s, '/') + 1, s.len() as int))
}

/// Nth-weekday rule `MM/DOW#N`, with weekday 1 = Monday .. 6 =
/// Saturday and 0 = Sunday.
pub open spec fn nth_rule_matches(s: Seq<char>, y: int, r: Option<Date>) -> bool {
    let hp = find_idx(s, '#');
    let date_part = s.subrange(0, hp);
    let n_part = s.subrange(hp + 1, s.len() as int);
    if md_grammar(date_part) && uint_grammar(n_part) {
        let month = md_first(date_part);
        let dow_raw = md_second(date_part);
        let dow = if dow_raw == 0 {
            7int
        } else {
            dow_raw
        };
        let n = uint_value(n_part);
        if MIN_YEAR <= y <= MAX_YEAR && 1 <= month <= 12 && dow <= 7 && 1 <= n <= 5 {
            r == Some(
                Date {
                    year: y as i32,
                    month: month as u32,
                    day: nth_rule_day(y, month, dow - 1, n) as u32,
                },
            )
        } else {
            r is None
        }
    } else {
        r is None
    }
}

/// The weekday written in conditional rules: 0 = Sunday .. 6 =
/// Saturday.
pub open spec fn sunday_based_weekday(d: Date) -> int {
    (d.weekday_index() + 1) % 7
}

/// A `D[+-]N` condition applied to a date that names an existing day.
pub open spec fn cond_shift_matches(target: Date, cond: Seq<char>, r: Option<Date>) -> bool {
    let d0 = cond[0] as u32 - 48;
    let op = cond[1];
    let rest = cond.subrange(2, cond.len() as int);
    if crate::text::is_digit_char(cond[0]) && d0 <= 6 && (op == '+' || op == '-') && sint_grammar(
        rest,
    ) {
        if sunday_based_weekday(target) == d0 {
            offset_date_matches(
                target.day_index(),
                if op == '-' {
                    -sint_value(rest)
                } else {
                    sint_value(rest)
                },
                r,
            )
        } else {
            r is None
        }
    } else {
        r is None
    }
}

/// Conditional rule `MM/DD?D[+-]N`, and the `MM/DD?` / `MM/DD?YYYY`
/// shorthands that degrade to the plain date.
pub open spec fn cond_rule_matches(s: Seq<char>, y: int, r: Option<Date>) -> bool {
    let qp = find_idx(s, '?');
    let date_part = s.subrange(0, qp);
    let cond = s.subrange(qp + 1, s.len() as int);
    if md_grammar(date_part) {
        let month = md_first(date_part);
        let dayv = md_second(date_part);
        if valid_ymd(y, month, dayv) {
            let target = Date { year: y as i32, month: month as u32, day: dayv as u32 };
            if cond.len() == 0 || is_digits(cond) {
                r == Some(target)
            } else if cond.len() >= 3 {
                cond_shift_matches(target, cond, r)
            } else {
                r is None
            }
        } else {
            r is None
        }
    } else {
        r is None
    }
}

/// Annual rule `MM/DD`: the plain date in the target year.
pub open spec fn annual_rule_matches(s: Seq<char>, y: int, r: Option<Date>) -> bool {
    if md_grammar(s) {
        plain_date_matches(y, md_first(s), md_second(s), r)
    } else {
        r is None
    }
}

/// What evaluating one (already trimmed) rule text for a target year
/// must return.  The rule kinds are tried in a fixed order: Easter,
/// Nth-weekday, conditional, annual; unrecognised text yields nothing.
pub open spec fn rule_eval_matches(s: Seq<char>, y: int, r: Option<Date>) -> bool {
    if s.len() > 0 && s[0] == 'E' {
        easter_rule_matches(s, y, r)
    } else if find_idx(s, '#') >= 0 {
        nth_rule_matches(s, y, r)
    } else if find_idx(s, '?') >= 0 {
        cond_rule_matches(s, y, r)
    } else if count_char_spec(s, '/') == 1 {
        annual_rule_matches(s, y, r)
    } else {
        r is None
    }
}

/// Reads an `MM/DD`-shaped text into its two numbers, clamped at
/// `u32::MAX`; `None` exactly when the text has another shape.
fn parse_md(s: &str) -> (r: Option<(u32, u32)>)
    ensures
        r is Some <==> md_grammar(s@),
        r is Some ==> r.unwrap().0 == vstd::math::min(md_first(s@), 0xffff_ffffint) && r.unwrap().1
            == vstd::math::min(md_second(s@), 0xffff_ffffint),
{
    let len = s.unicode_len();
    if crate::text::count_char(s, '/') != 1 {
        return None;
    }
    let sp = match find_char_idx(s, '/') {
        Some(i) => i,
        None => {
            proof {
                crate::text::lemma_count_char_zero(s@, '/');
                lemma_find_idx(s@, '/');
            }
            return None;
        },
    };
    let left = s.substring_char(0, sp);
    let right = s.substring_char(sp + 1, len);
    match (parse_u32_clamped(left), parse_u32_clamped(right)) {
        (Some(a), Some(b)) => Some((a, b)),
        _ => None,
    }
}

/// Evaluates one rule text for a target year, as `rule_eval_matches`
/// states; `None` when the rule is malformed or yields no date that
/// year.
pub fn calculate_date_from_rule(rule: &str, year: i32) -> (r: Option<Date>)
    ensures
        rule_eval_matches(trim_spec(rule@), year as int, r),
        r is Some ==> r.unwrap().wf(),
{
    let rt = trim_str(rule);
    let len = rt.unicode_len();

    // Easter-relative rule.
    if len > 0 && rt.get_char(0) == 'E' {
        let off: i64 = if len == 1 {
            0
        } else {
            proof {
                assert(rt@.drop_first() =~= rt@.subrange(1, len as int));
            }
            match parse_days_offset(rt.substring_char(1, len)) {
                Some(o) => o,
                None => {
                    return None;
                },
            }
        };
        let ed = match calculate_easter_date(year) {
            Some(e) => e,
            None => {
                return None;
            },
        };
        proof {
            lemma_day_index_bounds(ed);
        }
        let res = add_days(&ed, off);
        proof {
            let true_off: int = if len == 1 {
                0
            } else {
                sint_value(rt@.drop_first())
            };
            assert(off == clamp_days(true_off));
            assert((0 <= ed.day_index() + off <= MAX_DAY_NUMBER) == (0 <= ed.day_index()
                + true_off <= MAX_DAY_NUMBER));
        }
        return res;
    }

    // Nth-weekday rule.
    if let Some(hp) = find_char_idx(rt, '#') {
        let date_part = rt.substring_char(0, hp);
        let n_part = rt.substring_char(hp + 1, len);
        let md = parse_md(date_part);
        let nn = parse_u32_clamped(n_part);
        match (md, nn) {
            (Some((month, dow_raw)), Some(n)) => {
                let dow = if dow_raw == 0 {
                    7
                } else {
                    dow_raw
                };
                let res = find_nth_dow(year, month, dow, n);
                proof {
                    let s = trim_spec(rule@);
                    let dp = s.subrange(0, hp as int);
                    let true_raw = md_second(dp);
                    let true_dow: int = if true_raw == 0 {
                        7int
                    } else {
                        true_raw
                    };
                    assert(dow as int == if true_dow <= 0xffff_ffff {
                        true_dow
                    } else {
                        0xffff_ffffint
                    });
                }
                return res;
            },
            _ => {
                return None;
            },
        }
    }

    // Conditional rule.
    if let Some(qp) = find_char_idx(rt, '?') {
        let date_part = rt.substring_char(0, qp);
        let cond = rt.substring_char(qp + 1, len);
        let (month, dayv) = match parse_md(date_part) {
            Some(p) => p,
            None => {
                return None;
            },
        };
        let target = match from_ymd(year, month, dayv) {
            Some(t) => t,
            None => {
                return None;
            },
        };
        let clen = cond.unicode_len();
        if clen == 0 {
            return Some(target);
        }
        if is_digits_str(cond) {
            return Some(target);
        }
        if clen >= 3 {
            let c0 = cond.get_char(0);
            if !is_digit(c0) {
                return None;
            }
            let d0 = c0 as u32 - 48;
            if d0 > 6 {
                return None;
            }
            let op = cond.get_char(1);
            if op != '+' && op != '-' {
                return None;
            }
            proof {
                assert(cond@.subrange(2, clen as int) =~= cond@.subrange(2, cond@.len() as int));
            }
            let off = match parse_days_offset(cond.substring_char(2, clen)) {
                Some(o) => o,
                None => {
                    return None;
                },
            };
            let wd = weekday(&target);
            if (wd + 1) % 7 != d0 {
                return None;
            }
            let eff: i64 = if op == '-' {
                -off
            } else {
                off
            };
            proof {
                lemma_day_index_bounds(target);
                let rest = cond@.subrange(2, cond@.len() as int);
                let true_eff: int = if op == '-' {
                    -sint_value(rest)
                } else {
                    sint_value(rest)
                };
                assert(eff == clamp_days(true_eff));
                assert((0 <= target.day_index() + eff <= MAX_DAY_NUMBER) == (0 <= target.day_index()
                    + true_eff <= MAX_DAY_NUMBER));
            }
            let res = add_days(&target, eff);
            return res;
        }
        return None;
    }

    // Annual rule.
    if crate::text::count_char(rt, '/') == 1 {
        match parse_md(rt) {
            Some((month, dayv)) => {
                let res = from_ymd(year, month, dayv);
                return res;
            },
            None => {
                return None;
            },
        }
    }
    None
}

/// Fixed date written with dashes: `DD-MM-YYYY`, or `YYYY-MM-DD` when
/// the first field is too long for a day of month.
pub open spec fn dash_fixed_matches(s: Seq<char>, r: Option<Date>) -> bool {
    let p1 = find_idx(s, '-');
    let rest = s.subrange(p1 + 1, s.len() as int);
    let p2 = find_idx(rest, '-');
    let f1 = s.subrange(0, p1);
    let f2 = rest.subrange(0, p2);
    let f3 = rest.subrange(p2 + 1, rest.len() as int);
    if p1 >= 0 && p2 >= 0 && is_digits(f1) && is_digits(f2) && is_digits(f3) {
        let v1 = crate::text::digits_val(f1);
        let v2 = crate::text::digits_val(f2);
        let v3 = crate::text::digits_val(f3);
        if f1.len() <= 2 && f2.len() <= 2 && f3.len() <= 4 && valid_ymd(v3, v2, v1) {
            r == Some(Date { year: v3 as i32, month: v2 as u32, day: v1 as u32 })
        } else if f1.len() <= 4 && f2.len() <= 2 && f3.len() <= 2 && valid_ymd(v1, v2, v3) {
            r == Some(Date { year: v1 as i32, month: v2 as u32, day: v3 as u32 })
        } else {
            r is None
        }
    } else {
        r is None
    }
}

/// Fixed date written with slashes: `MM/DD/YYYY`.
pub open spec fn slash_fixed_matches(s: Seq<char>, r: Option<Date>) -> bool {
    let p1 = find_idx(s, '/');
    let rest = s.subrange(p1 + 1, s.len() as int);
    let p2 = find_idx(rest, '/');
    let f1 = s.subrange(0, p1);
    let f2 = rest.subrange(0, p2);
    let f3 = rest.subrange(p2 + 1, rest.len() as int);
    if p1 >= 0 && p2 >= 0 && is_digits(f1) && is_digits(f2) && is_digits(f3) {
        let v1 = crate::text::digits_val(f1);
        let v2 = crate::text::digits_val(f2);
        let v3 = crate::text::digits_val(f3);
        if f1.len() <= 2 && f2.len() <= 2 && f3.len() <= 4 && valid_ymd(v3, v1, v2) {
            r == Some(Date { year: v3 as i32, month: v1 as u32, day: v2 as u32 })
        } else {
            r is None
        }
    } else {
        r is None
    }
}

/// Whether the text is a three-field dashed date shape.
pub open spec fn is_dash_shape(s: Seq<char>) -> bool {
    let p1 = find_idx(s, '-');
    p1 >= 0 && find_idx(s.subrange(p1 + 1, s.len() as int), '-') >= 0
}

/// Whether the text is a three-field slashed date shape.
pub open spec fn is_slash_shape(s: Seq<char>) -> bool {
    let p1 = find_idx(s, '/');
    p1 >= 0 && find_idx(s.subrange(p1 + 1, s.len() as int), '/') >= 0
}

/// What reading a fixed calendar date from rule text must return.
pub open spec fn fixed_rule_matches(s: Seq<char>, r: Option<Date>) -> bool {
    if is_dash_shape(s) {
        dash_fixed_matches(s, r)
    } else if is_slash_shape(s) {
        slash_fixed_matches(s, r)
    } else {
        r is None
    }
}

/// A rule text and a year admit only one evaluation result.
pub proof fn lemma_rule_eval_unique(s: Seq<char>, y: int, r1: Option<Date>, r2: Option<Date>)
    requires
        rule_eval_matches(s, y, r1),
        rule_eval_matches(s, y, r2),
    ensures
        r1 == r2,
{
    if r1 is Some && r2 is Some && r1.unwrap().wf() && r2.unwrap().wf() {
        crate::date::lemma_day_index_orders_dates(r1.unwrap(), r2.unwrap());
    }
}

/// A rule text admits only one fixed-date reading.
pub proof fn lemma_fixed_rule_unique(s: Seq<char>, r1: Option<Date>, r2: Option<Date>)
    requires
        fixed_rule_matches(s, r1),
        fixed_rule_matches(s, r2),
    ensures
        r1 == r2,
{
}

/// A dash anywhere in the text lands inside one of the slash format's
/// fields, so no slash-format date can be read from it.
proof fn lemma_dash_poisons_slash_fields(s: Seq<char>, pd: int)
    requires
        0 <= pd < s.len(),
        s[pd] == '-',
    ensures
        slash_fixed_matches(s, None::<Date>),
{
    if is_slash_shape(s) {
        let q1 = find_idx(s, '/');
        lemma_find_idx(s, '/');
        let rest = s.subrange(q1 + 1, s.len() as int);
        let q2 = find_idx(rest, '/');
        lemma_find_idx(rest, '/');
        let f1 = s.subrange(0, q1);
        let f2 = rest.subrange(0, q2);
        let f3 = rest.subrange(q2 + 1, rest.len() as int);
        if pd < q1 {
            assert(f1[pd] == '-');
            assert(!is_digits(f1));
        } else {
            let pdr = pd - q1 - 1;
            assert(rest[pdr] == '-');
            if pdr < q2 {
                assert(f2[pdr] == '-');
                assert(!is_digits(f2));
            } else {
                assert(f3[pdr - q2 - 1] == '-');
                assert(!is_digits(f3));
            }
        }
    }
}

/// Reads one field of a fixed date: digits only, at most `max_len` of
/// them.  The value then always fits well under `u32::MAX`.
fn parse_fixed_field(s: &str, max_len: usize) -> (r: Option<u32>)
    requires
        1 <= max_len <= 4,
    ensures
        r is Some <==> (is_digits(s@) && s@.len() <= max_len),
        r is Some ==> r.unwrap() == crate::text::digits_val(s@) && r.unwrap() < 10000,
{
    if s.unicode_len() > max_len {
        return None;
    }
    if !is_digits_str(s) {
        return None;
    }
    proof {
        lemma_digits_val_small(s@);
        assert(s@ =~= crate::text::uint_digits(s@));
    }
    match parse_u32_clamped(s) {
        Some(v) => Some(v),
        None => None,
    }
}

/// Reads a fixed calendar date: `DD-MM-YYYY`, `MM/DD/YYYY` or
/// `YYYY-MM-DD`; `None` exactly when the text has none of the three
/// shapes or names no existing day.
pub fn parse_fixed_date_rule(rule: &str) -> (r: Option<Date>)
    ensures
        fixed_rule_matches(rule@, r),
        r is Some ==> r.unwrap().wf(),
{
    let len = rule.unicode_len();
    let dash1 = find_char_idx(rule, '-');
    if let Some(p1) = dash1 {
        let rest = rule.substring_char(p1 + 1, len);
        if let Some(p2) = find_char_idx(rest, '-') {
            let rlen = rest.unicode_len();
            let f1 = rule.substring_char(0, p1);
            let f2 = rest.substring_char(0, p2);
            let f3 = rest.substring_char(p2 + 1, rlen);
            // DD-MM-YYYY.
            if let (Some(dv), Some(mv), Some(yv)) = (
                parse_fixed_field(f1, 2),
                parse_fixed_field(f2, 2),
                parse_fixed_field(f3, 4),
            ) {
                if let Some(d) = from_ymd(yv as i32, mv, dv) {
                    return Some(d);
                }
            }
            // YYYY-MM-DD.
            if let (Some(yv), Some(mv), Some(dv)) = (
                parse_fixed_field(f1, 4),
                parse_fixed_field(f2, 2),
                parse_fixed_field(f3, 2),
            ) {
                if let Some(d) = from_ymd(yv as i32, mv, dv) {
                    return Some(d);
                }
            }
            return None;
        }
        // A lone dash rules the slash format out as well: it would
        // land inside one of its all-digit fields.
        proof {
            lemma_dash_poisons_slash_fields(rule@, p1 as int);
        }
        return None;
    }
    let slash1 = find_char_idx(rule, '/');
    if let Some(p1) = slash1 {
        let rest = rule.substring_char(p1 + 1, len);
        if let Some(p2) = find_char_idx(rest, '/') {
            let rlen = rest.unicode_len();
            let f1 = rule.substring_char(0, p1);
            let f2 = rest.substring_char(0, p2);
            let f3 = rest.substring_char(p2 + 1, rlen);
            // MM/DD/YYYY.
            if let (Some(mv), Some(dv), Some(yv)) = (
                parse_fixed_field(f1, 2),
                parse_fixed_field(f2, 2),
                parse_fixed_field(f3, 4),
            ) {
                if let Some(d) = from_ymd(yv as i32, mv, dv) {
                    return Some(d);
                }
            }
            return None;
        }
        return None;
    }
    None
}

} // verus!
