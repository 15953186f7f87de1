//! Rule-file lines, events, recurrence expansion and the stable sort
//! of the final event list.
//!
//! A rule line has the shape `RULE[;[ [category,fg,bg,emoji] ]DESC]`.
//! Blank lines and lines starting with `#` carry no rule.  A rule
//! whose text is a fixed calendar date recurs yearly when its category
//! is `bday` or `anni`, and otherwise names a single day; any other
//! rule text is evaluated once per year of the span.

use vstd::prelude::*;
use crate::date::Date;
use crate::date::MAX_YEAR;
use crate::date::MIN_YEAR;
use crate::date::from_ymd;
use crate::date::day_number;
use crate::rules::calculate_date_from_rule;
use crate::rules::fixed_rule_matches;
use crate::rules::lemma_rule_eval_unique;
use crate::rules::parse_fixed_date_rule;
use crate::rules::rule_eval_matches;
use crate::rules::valid_ymd;
use crate::text::find_char_idx;
use crate::text::find_idx;
use crate::text::find_space;
use crate::text::find_space_idx;
use crate::text::str_eq;
use crate::text::trim_spec;
use crate::text::trim_str;

verus! {

/// One parsed rule line: the rule text and its metadata.
pub struct Rule {
    pub rule_text: String,
    pub description: String,
    pub category: Option<String>,
    pub fg_color: Option<String>,
    pub bg_color: Option<String>,
}

/// One concrete occurrence of a rule.  `original_year` is set only for
/// anniversary rules, to the year of the first occurrence.
pub struct Event {
    pub date: Date,
    pub description: String,
    pub category: Option<String>,
    pub fg_color: Option<String>,
    pub bg_color: Option<String>,
    pub original_year: Option<i32>,
}

/// An optional string field holds the expected text.
pub open spec fn opt_str_is(o: Option<String>, e: Option<Seq<char>>) -> bool {
    match o {
        Some(s) => e is Some && s@ == e.unwrap(),
        None => e is None,
    }
}

/// The `k`-th comma-separated field of a metadata block, if the block
/// has that many fields.
pub open spec fn meta_field_opt(meta: Seq<char>, k: int) -> Option<Seq<char>>
    decreases k,
{
    let cp = find_idx(meta, ',');
    if k <= 0 {
        Some(
            if cp >= 0 {
                meta.subrange(0, cp)
            } else {
                meta
            },
        )
    } else if cp >= 0 {
        meta_field_opt(meta.subrange(cp + 1, meta.len() as int), k - 1)
    } else {
        None
    }
}

/// The `k`-th metadata field, trimmed, with empty fields meaning
/// "unset".
pub open spec fn meta_value(meta: Seq<char>, k: int) -> Option<Seq<char>> {
    match meta_field_opt(meta, k) {
        Some(f) => if trim_spec(f).len() > 0 {
            Some(trim_spec(f))
        } else {
            None
        },
        None => None,
    }
}

/// What parsing one raw rule-file line must yield: nothing for blank
/// and comment lines; otherwise the rule text before the first `;`,
/// the metadata of a leading well-formed `[...]` block after it, and
/// the description.
pub open spec fn line_parse_matches(line: Seq<char>, r: Option<Rule>) -> bool {
    let t = trim_spec(line);
    if t.len() == 0 || t[0] == '#' {
        r is None
    } else {
        let semi = find_idx(t, ';');
        if semi >= 0 {
            let rest = trim_spec(t.subrange(semi + 1, t.len() as int));
            let close = find_idx(rest, ']');
            &&& r is Some
            &&& r.unwrap().rule_text@ == trim_spec(t.subrange(0, semi))
            &&& if rest.len() > 0 && rest[0] == '[' && close >= 0 {
                let meta = rest.subrange(1, close);
                &&& r.unwrap().description@ == trim_spec(
                    rest.subrange(close + 1, rest.len() as int),
                )
                &&& opt_str_is(r.unwrap().category, meta_value(meta, 0))
                &&& opt_str_is(r.unwrap().fg_color, meta_value(meta, 1))
                &&& opt_str_is(r.unwrap().bg_color, meta_value(meta, 2))
            } else {
                &&& r.unwrap().description@ == rest
                &&& r.unwrap().category is None
                &&& r.unwrap().fg_color is None
                &&& r.unwrap().bg_color is None
            }
        } else {
            let w = find_space_idx(t);
            &&& r is Some
            &&& r.unwrap().rule_text@ == t
            &&& r.unwrap().description@ == (if w >= 0 {
                trim_spec(t.subrange(w + 1, t.len() as int))
            } else {
                Seq::<char>::empty()
            })
            &&& r.unwrap().category is None
            &&& r.unwrap().fg_color is None
            &&& r.unwrap().bg_color is None
        }
    }
}

/// Reads one metadata field: the text before the first comma, and the
/// rest when a comma is there.
fn split_meta_head<'a>(meta: &'a str) -> (r: (&'a str, Option<&'a str>))
    ensures
        ({
            let cp = find_idx(meta@, ',');
            &&& r.0@ == (if cp >= 0 {
                meta@.subrange(0, cp)
            } else {
                meta@
            })
            &&& (r.1 is Some <==> cp >= 0)
            &&& r.1 is Some ==> r.1.unwrap()@ == meta@.subrange(cp + 1, meta@.len() as int)
        }),
{
    let len = meta.unicode_len();
    match find_char_idx(meta, ',') {
        Some(cp) => {
            proof {
                assert(meta@ =~= meta@.subrange(0, meta@.len() as int));
            }
            (meta.substring_char(0, cp), Some(meta.substring_char(cp + 1, len)))
        },
        None => {
            (meta, None)
        },
    }
}

/// Trims a field and keeps it only when something is left.
fn field_value(f: &str) -> (r: Option<String>)
    ensures
        opt_str_is(
            r,
            if trim_spec(f@).len() > 0 {
                Some(trim_spec(f@))
            } else {
                None
            },
        ),
{
    let t = trim_str(f);
    if t.unicode_len() > 0 {
        Some(t.to_owned())
    } else {
        None
    }
}

/// Parses one raw rule-file line; `None` exactly for blank lines and
/// comments.
pub fn parse_rule_line(line: &str) -> (r: Option<Rule>)
    ensures
        line_parse_matches(line@, r),
{
    let t = trim_str(line);
    let tlen = t.unicode_len();
    if tlen == 0 || t.get_char(0) == '#' {
        return None;
    }
    match find_char_idx(t, ';') {
        Some(semi) => {
            let rule_text = trim_str(t.substring_char(0, semi)).to_owned();
            let rest = trim_str(t.substring_char(semi + 1, tlen));
            let rlen = rest.unicode_len();
            if rlen > 0 && rest.get_char(0) == '[' {
                if let Some(close) = find_char_idx(rest, ']') {
                    proof {
                        reveal_with_fuel(meta_field_opt, 4);
                    }
                    let meta = rest.substring_char(1, close);
                    let description = trim_str(rest.substring_char(close + 1, rlen)).to_owned();
                    let (f0, tail0) = split_meta_head(meta);
                    let category = field_value(f0);
                    let (fg_color, bg_color) = match tail0 {
                        Some(m1) => {
                            let (f1, tail1) = split_meta_head(m1);
                            let fg = field_value(f1);
                            let bg = match tail1 {
                                Some(m2) => {
                                    let (f2, _tail2) = split_meta_head(m2);
                                    field_value(f2)
                                },
                                None => None,
                            };
                            (fg, bg)
                        },
                        None => (None, None),
                    };
                    return Some(
                        Rule { rule_text, description, category, fg_color, bg_color },
                    );
                }
                return Some(
                    Rule {
                        rule_text,
                        description: rest.to_owned(),
                        category: None,
                        fg_color: None,
                        bg_color: None,
                    },
                );
            }
            Some(
                Rule {
                    rule_text,
                    description: rest.to_owned(),
                    category: None,
                    fg_color: None,
                    bg_color: None,
                },
            )
        },
        None => {
            let description = match find_space(t) {
                Some(w) => trim_str(t.substring_char(w + 1, tlen)).to_owned(),
                None => String::new(),
            };
            Some(
                Rule {
                    rule_text: t.to_owned(),
                    description,
                    category: None,
                    fg_color: None,
                    bg_color: None,
                },
            )
        },
    }
}

/// The category labels that make a fixed date recur yearly.
pub open spec fn is_anniversary_category(c: Option<String>) -> bool {
    match c {
        Some(s) => s@ == "bday"@ || s@ == "anni"@,
        None => false,
    }
}

/// Two optional strings hold the same text.
pub open spec fn opt_view_eq(a: Option<String>, b: Option<String>) -> bool {
    match (a, b) {
        (Some(x), Some(y)) => x@ == y@,
        (None, None) => true,
        _ => false,
    }
}

/// The event carries the rule's description and metadata.
pub open spec fn same_meta(e: Event, rule: Rule) -> bool {
    &&& e.description@ == rule.description@
    &&& opt_view_eq(e.category, rule.category)
    &&& opt_view_eq(e.fg_color, rule.fg_color)
    &&& opt_view_eq(e.bg_color, rule.bg_color)
}

/// The event's date names an existing day, and a recorded original
/// year is a supported year.
pub open spec fn event_wf(e: Event) -> bool {
    &&& e.date.wf()
    &&& match e.original_year {
        Some(oy) => MIN_YEAR <= oy <= MAX_YEAR,
        None => true,
    }
}

/// The event is a legitimate occurrence of the rule over the year
/// span: an anniversary of a fixed date, the fixed date itself, or a
/// date its rule text evaluates to in some year of the span.
pub open spec fn event_from_rule(e: Event, rule: Rule, start: int, end: int) -> bool {
    let s = rule.rule_text@;
    &&& same_meta(e, rule)
    &&& event_wf(e)
    &&& if !fixed_rule_matches(s, None::<Date>) {
        exists|base: Date|
            #[trigger] fixed_rule_matches(s, Some(base)) && (if is_anniversary_category(
                rule.category,
            ) {
                &&& e.original_year == Some(base.year)
                &&& e.date.month == base.month
                &&& e.date.day == base.day
                &&& start <= e.date.year <= end
                &&& e.date.year >= base.year
            } else {
                &&& e.date == base
                &&& e.original_year is None
                &&& start <= base.year <= end
            })
    } else {
        &&& e.original_year is None
        &&& exists|yy: int|
            start <= yy <= end && #[trigger] rule_eval_matches(trim_spec(s), yy, Some(e.date))
    }
}

/// Some event in the list has this date and the rule's metadata.
pub open spec fn has_date_for(res: Seq<Event>, rule: Rule, d: Date) -> bool {
    exists|i: int| 0 <= i < res.len() && (#[trigger] res[i]).date == d && same_meta(res[i], rule)
}

/// Some event in the list falls in this year and has the rule's
/// metadata.
pub open spec fn has_year_for(res: Seq<Event>, rule: Rule, yy: int) -> bool {
    exists|i: int|
        0 <= i < res.len() && (#[trigger] res[i]).date.year == yy && same_meta(res[i], rule)
}

/// Every occurrence the rule owes over the span is present, with the
/// rule's metadata.
pub open spec fn expansion_complete(res: Seq<Event>, rule: Rule, start: int, end: int) -> bool {
    let s = rule.rule_text@;
    if !fixed_rule_matches(s, None::<Date>) {
        forall|base: Date|
            #[trigger] fixed_rule_matches(s, Some(base)) ==> (if is_anniversary_category(
                rule.category,
            ) {
                forall|yy: int|
                    start <= yy <= end && yy >= base.year && #[trigger] valid_ymd(
                        yy,
                        base.month as int,
                        base.day as int,
                    ) ==> has_year_for(res, rule, yy)
            } else {
                start <= base.year <= end ==> has_date_for(res, rule, base)
            })
    } else {
        forall|yy: int, d: Date|
            start <= yy <= end && #[trigger] rule_eval_matches(trim_spec(s), yy, Some(d))
                ==> has_date_for(res, rule, d)
    }
}

/// What expanding one rule over a year span must produce: legitimate
/// occurrences only, no two on the same date, and nothing owed left
/// out.
pub open spec fn rule_expansion_ok(res: Seq<Event>, rule: Rule, start: int, end: int) -> bool {
    &&& forall|i: int| 0 <= i < res.len() ==> event_from_rule(#[trigger] res[i], rule, start, end)
    &&& forall|i: int, j: int|
        0 <= i < j < res.len() ==> (#[trigger] res[i]).date != (#[trigger] res[j]).date
    &&& expansion_complete(res, rule, start, end)
}

/// The two rules read the same: every field holds the same text.
pub open spec fn rule_views_eq(a: Rule, b: Rule) -> bool {
    &&& a.rule_text@ == b.rule_text@
    &&& a.description@ == b.description@
    &&& opt_view_eq(a.category, b.category)
    &&& opt_view_eq(a.fg_color, b.fg_color)
    &&& opt_view_eq(a.bg_color, b.bg_color)
}

/// One line reads as one rule: two parses agree field for field.
pub proof fn lemma_line_parse_determined(line: Seq<char>, a: Rule, b: Rule)
    requires
        line_parse_matches(line, Some(a)),
        line_parse_matches(line, Some(b)),
    ensures
        rule_views_eq(a, b),
{
}

/// A date found among the events survives any reordering or
/// extension that keeps its element.
proof fn lemma_has_date_for_transfer(x: Seq<Event>, y: Seq<Event>, rule: Rule, d: Date)
    requires
        has_date_for(x, rule, d),
        forall|e: Event| x.contains(e) ==> y.contains(e),
    ensures
        has_date_for(y, rule, d),
{
    let i0 = choose|i: int|
        0 <= i < x.len() && (#[trigger] x[i]).date == d && same_meta(x[i], rule);
    let e0 = x[i0];
    assert(x.contains(e0));
    assert(y.contains(e0));
    let j0 = choose|j: int| 0 <= j < y.len() && y[j] == e0;
    assert(y[j0].date == d && same_meta(y[j0], rule));
}

proof fn lemma_has_year_for_transfer(x: Seq<Event>, y: Seq<Event>, rule: Rule, yy: int)
    requires
        has_year_for(x, rule, yy),
        forall|e: Event| x.contains(e) ==> y.contains(e),
    ensures
        has_year_for(y, rule, yy),
{
    let i0 = choose|i: int|
        0 <= i < x.len() && (#[trigger] x[i]).date.year == yy && same_meta(x[i], rule);
    let e0 = x[i0];
    assert(x.contains(e0));
    assert(y.contains(e0));
    let j0 = choose|j: int| 0 <= j < y.len() && y[j] == e0;
    assert(y[j0].date.year == yy && same_meta(y[j0], rule));
}

/// Completeness survives any element-preserving rearrangement, and
/// holds for any rule that reads the same.
pub proof fn lemma_complete_transfer(
    x: Seq<Event>,
    y: Seq<Event>,
    a: Rule,
    b: Rule,
    start: int,
    end: int,
)
    requires
        expansion_complete(x, a, start, end),
        rule_views_eq(a, b),
        forall|e: Event| x.contains(e) ==> y.contains(e),
    ensures
        expansion_complete(y, b, start, end),
{
    let s = a.rule_text@;
    assert(forall|e: Event| same_meta(e, a) == same_meta(e, b));
    assert(is_anniversary_category(a.category) == is_anniversary_category(b.category));
    if !fixed_rule_matches(s, None::<Date>) {
        if is_anniversary_category(a.category) {
            assert forall|base: Date, yy: int|
                #[trigger] fixed_rule_matches(s, Some(base)) && start <= yy <= end && yy
                    >= base.year && #[trigger] valid_ymd(
                    yy,
                    base.month as int,
                    base.day as int,
                ) implies has_year_for(y, b, yy) by {
                let i0 = choose|i: int|
                    0 <= i < x.len() && (#[trigger] x[i]).date.year == yy && same_meta(x[i], a);
                assert(has_year_for(x, b, yy));
                lemma_has_year_for_transfer(x, y, b, yy);
            }
        } else {
            assert forall|base: Date|
                #[trigger] fixed_rule_matches(s, Some(base)) && start <= base.year
                    <= end implies has_date_for(y, b, base) by {
                let i0 = choose|i: int|
                    0 <= i < x.len() && (#[trigger] x[i]).date == base && same_meta(x[i], a);
                assert(has_date_for(x, b, base));
                lemma_has_date_for_transfer(x, y, b, base);
            }
        }
    } else {
        assert forall|yy: int, d: Date|
            start <= yy <= end && #[trigger] rule_eval_matches(
                trim_spec(s),
                yy,
                Some(d),
            ) implies has_date_for(y, b, d) by {
            let i0 = choose|i: int|
                0 <= i < x.len() && (#[trigger] x[i]).date == d && same_meta(x[i], a);
            assert(has_date_for(x, b, d));
            lemma_has_date_for_transfer(x, y, b, d);
        }
    }
}

/// Both halves of a concatenation keep their elements.
proof fn lemma_concat_contains(a: Seq<Event>, b: Seq<Event>)
    ensures
        forall|e: Event| a.contains(e) ==> (a + b).contains(e),
        forall|e: Event| b.contains(e) ==> (a + b).contains(e),
{
    assert forall|e: Event| a.contains(e) implies (a + b).contains(e) by {
        let i0 = choose|i: int| 0 <= i < a.len() && a[i] == e;
        assert((a + b)[i0] == e);
    }
    assert forall|e: Event| b.contains(e) implies (a + b).contains(e) by {
        let i0 = choose|i: int| 0 <= i < b.len() && b[i] == e;
        assert((a + b)[a.len() + i0] == e);
    }
}

/// Sequences with equal multisets hold the same elements.
proof fn lemma_multiset_contains(x: Seq<Event>, y: Seq<Event>)
    requires
        x.to_multiset() == y.to_multiset(),
    ensures
        forall|e: Event| x.contains(e) ==> y.contains(e),
        forall|e: Event| y.contains(e) ==> x.contains(e),
{
    broadcast use vstd::seq_lib::group_to_multiset_ensures;

    assert forall|e: Event| x.contains(e) implies y.contains(e) by {
        assert(x.to_multiset().count(e) > 0);
        assert(y.to_multiset().count(e) > 0);
    }
    assert forall|e: Event| y.contains(e) implies x.contains(e) by {
        assert(y.to_multiset().count(e) > 0);
        assert(x.to_multiset().count(e) > 0);
    }
}

fn clone_opt_string(o: &Option<String>) -> (r: Option<String>)
    ensures
        opt_view_eq(r, *o),
{
    match o {
        Some(s) => Some(s.clone()),
        None => None,
    }
}

fn make_event(rule: &Rule, date: Date, original_year: Option<i32>) -> (e: Event)
    ensures
        same_meta(e, *rule),
        e.date == date,
        e.original_year == original_year,
{
    Event {
        date,
        description: rule.description.clone(),
        category: clone_opt_string(&rule.category),
        fg_color: clone_opt_string(&rule.fg_color),
        bg_color: clone_opt_string(&rule.bg_color),
        original_year,
    }
}

/// Whether some event in the list already has this date.
fn contains_date(res: &Vec<Event>, d: &Date) -> (r: bool)
    ensures
        r == exists|i: int| 0 <= i < res@.len() && (#[trigger] res@[i]).date == *d,
{
    let mut i: usize = 0;
    while i < res.len()
        invariant
            i <= res@.len(),
            forall|j: int| 0 <= j < i ==> (#[trigger] res@[j]).date != *d,
        decreases res@.len() - i,
    {
        if res[i].date == *d {
            return true;
        }
        i = i + 1;
    }
    false
}

/// Expands an anniversary rule: one event per year of the span from
/// the base year on, whenever the month and day exist that year.
fn expand_anniversary(rule: &Rule, base: Date, start_year: i32, end_year: i32) -> (res: Vec<Event>)
    requires
        base.wf(),
    ensures
        forall|i: int|
            0 <= i < res@.len() ==> {
                let e = #[trigger] res@[i];
                &&& same_meta(e, *rule)
                &&& e.date.wf()
                &&& e.original_year == Some(base.year)
                &&& e.date.month == base.month
                &&& e.date.day == base.day
                &&& start_year <= e.date.year <= end_year
                &&& e.date.year >= base.year
            },
        forall|i: int, j: int|
            0 <= i < j < res@.len() ==> (#[trigger] res@[i]).date.year < (
            #[trigger] res@[j]).date.year,
        forall|yy: int|
            start_year <= yy <= end_year && yy >= base.year && #[trigger] valid_ymd(
                yy,
                base.month as int,
                base.day as int,
            ) ==> has_year_for(res@, *rule, yy),
{
    let mut res: Vec<Event> = Vec::new();
    let mut y: i64 = start_year as i64;
    while y <= end_year as i64
        invariant
            y >= start_year as i64,
            y <= end_year as i64 + 1 || y == start_year as i64,
            forall|i: int|
                0 <= i < res@.len() ==> {
                    let e = #[trigger] res@[i];
                    &&& same_meta(e, *rule)
                    &&& e.date.wf()
                    &&& e.original_year == Some(base.year)
                    &&& e.date.month == base.month
                    &&& e.date.day == base.day
                    &&& start_year <= e.date.year <= end_year
                    &&& e.date.year >= base.year
                    &&& e.date.year < y
                },
            forall|i: int, j: int|
                0 <= i < j < res@.len() ==> (#[trigger] res@[i]).date.year < (
                #[trigger] res@[j]).date.year,
            forall|yy: int|
                start_year <= yy < y && yy >= base.year && #[trigger] valid_ymd(
                    yy,
                    base.month as int,
                    base.day as int,
                ) ==> has_year_for(res@, *rule, yy),
        decreases end_year as i64 + 1 - y,
    {
        let ghost res0 = res@;
        if y >= base.year as i64 {
            if let Some(dd) = from_ymd(y as i32, base.month, base.day) {
                res.push(make_event(rule, dd, Some(base.year)));
                proof {
                    assert(res@[res@.len() - 1].date == dd);
                    assert forall|yy: int|
                        start_year <= yy < y + 1 && yy >= base.year && #[trigger] valid_ymd(
                            yy,
                            base.month as int,
                            base.day as int,
                        ) implies has_year_for(res@, *rule, yy) by {
                        if yy < y {
                            let i0 = choose|i: int|
                                0 <= i < res0.len() && (#[trigger] res0[i]).date.year == yy
                                    && same_meta(res0[i], *rule);
                            assert(res@[i0] == res0[i0]);
                            assert(res@[i0].date.year == yy && same_meta(res@[i0], *rule));
                        } else {
                            assert(res@[res@.len() - 1].date.year == yy && same_meta(
                                res@[res@.len() - 1],
                                *rule,
                            ));
                        }
                    }
                }
            }
        }
        y = y + 1;
    }
    res
}

/// Expands a rule whose text is no fixed date: one evaluation per
/// year of the span, with duplicate dates dropped.
fn expand_eval(rule: &Rule, start_year: i32, end_year: i32) -> (res: Vec<Event>)
    ensures
        forall|i: int|
            0 <= i < res@.len() ==> {
                let e = #[trigger] res@[i];
                &&& same_meta(e, *rule)
                &&& e.date.wf()
                &&& e.original_year is None
                &&& exists|yy: int|
                    start_year <= yy <= end_year && #[trigger] rule_eval_matches(
                        trim_spec(rule.rule_text@),
                        yy,
                        Some(e.date),
                    )
            },
        forall|i: int, j: int|
            0 <= i < j < res@.len() ==> (#[trigger] res@[i]).date != (#[trigger] res@[j]).date,
        forall|yy: int, d: Date|
            start_year <= yy <= end_year && #[trigger] rule_eval_matches(
                trim_spec(rule.rule_text@),
                yy,
                Some(d),
            ) ==> has_date_for(res@, *rule, d),
{
    let ghost s2 = trim_spec(rule.rule_text@);
    let mut res: Vec<Event> = Vec::new();
    let mut y: i64 = start_year as i64;
    while y <= end_year as i64
        invariant
            s2 == trim_spec(rule.rule_text@),
            y >= start_year as i64,
            y <= end_year as i64 + 1 || y == start_year as i64,
            forall|i: int|
                0 <= i < res@.len() ==> {
                    let e = #[trigger] res@[i];
                    &&& same_meta(e, *rule)
                    &&& e.date.wf()
                    &&& e.original_year is None
                    &&& exists|yy: int|
                        start_year <= yy < y && #[trigger] rule_eval_matches(s2, yy, Some(e.date))
                },
            forall|i: int, j: int|
                0 <= i < j < res@.len() ==> (#[trigger] res@[i]).date != (#[trigger] res@[j]).date,
            forall|yy: int, d: Date|
                start_year <= yy < y && #[trigger] rule_eval_matches(s2, yy, Some(d)) ==> has_date_for(
                    res@,
                    *rule,
                    d,
                ),
        decreases end_year as i64 + 1 - y,
    {
        let ghost res0 = res@;
        match calculate_date_from_rule(rule.rule_text.as_str(), y as i32) {
            Some(d) => {
                proof {
                    assert forall|d2: Date| rule_eval_matches(s2, y as int, Some(d2)) implies d2
                        == d by {
                        lemma_rule_eval_unique(s2, y as int, Some(d2), Some(d));
                    }
                }
                let dup = contains_date(&res, &d);
                proof {
                    if dup {
                        let i0 = choose|i: int| 0 <= i < res@.len() && (#[trigger] res@[i]).date == d;
                        assert(same_meta(res@[i0], *rule));
                        assert(has_date_for(res@, *rule, d));
                    }
                }
                if !dup {
                    res.push(make_event(rule, d, None));
                    proof {
                        assert(res@[res@.len() - 1].date == d);
                        assert forall|yy: int, d2: Date|
                            start_year <= yy < y + 1 && #[trigger] rule_eval_matches(
                                s2,
                                yy,
                                Some(d2),
                            ) implies has_date_for(res@, *rule, d2) by {
                            if yy < y {
                                let i0 = choose|i: int|
                                    0 <= i < res0.len() && (#[trigger] res0[i]).date == d2
                                        && same_meta(res0[i], *rule);
                                assert(res@[i0] == res0[i0]);
                                assert(res@[i0].date == d2 && same_meta(res@[i0], *rule));
                            } else {
                                assert(res@[res@.len() - 1].date == d2 && same_meta(
                                    res@[res@.len() - 1],
                                    *rule,
                                ));
                            }
                        }
                    }
                }
            },
            None => {
                proof {
                    assert forall|d2: Date|
                        rule_eval_matches(s2, y as int, Some(d2)) implies false by {
                        lemma_rule_eval_unique(s2, y as int, Some(d2), None::<Date>);
                    }
                }
            },
        }
        y = y + 1;
    }
    res
}

/// Expands one rule over the year span `[start_year, end_year]`.
pub fn expand_rule(rule: &Rule, start_year: i32, end_year: i32) -> (res: Vec<Event>)
    ensures
        rule_expansion_ok(res@, *rule, start_year as int, end_year as int),
{
    let ghost start = start_year as int;
    let ghost end = end_year as int;
    let ghost s = rule.rule_text@;
    match parse_fixed_date_rule(rule.rule_text.as_str()) {
        Some(base) => {
            proof {
                assert forall|b2: Date| fixed_rule_matches(s, Some(b2)) implies b2 == base by {
                    crate::rules::lemma_fixed_rule_unique(s, Some(b2), Some(base));
                }
                assert(!fixed_rule_matches(s, None::<Date>)) by {
                    if fixed_rule_matches(s, None::<Date>) {
                        crate::rules::lemma_fixed_rule_unique(s, None::<Date>, Some(base));
                    }
                }
            }
            let is_anni = match &rule.category {
                Some(c) => str_eq(c.as_str(), "bday") || str_eq(c.as_str(), "anni"),
                None => false,
            };
            if !is_anni {
                let mut res: Vec<Event> = Vec::new();
                if start_year <= base.year && base.year <= end_year {
                    res.push(make_event(rule, base, None));
                    proof {
                        assert(res@[0].date == base);
                    }
                }
                res
            } else {
                let res = expand_anniversary(rule, base, start_year, end_year);
                proof {
                    assert forall|i: int| 0 <= i < res@.len() implies event_from_rule(
                        #[trigger] res@[i],
                        *rule,
                        start,
                        end,
                    ) by {
                        assert(fixed_rule_matches(s, Some(base)));
                    }
                }
                res
            }
        },
        None => {
            expand_eval(rule, start_year, end_year)
        },
    }
}

/// Events in ascending date order.
pub open spec fn sorted_by_date(s: Seq<Event>) -> bool {
    forall|i: int, j: int|
        #![trigger s[i], s[j]]
        0 <= i < j < s.len() ==> s[i].date.day_index() <= s[j].date.day_index()
}

/// Inserts an event behind every event with the same or an earlier
/// date, keeping insertion order among equals.
pub open spec fn stable_insert(s: Seq<Event>, e: Event) -> Seq<Event>
    decreases s.len(),
{
    if s.len() > 0 && s.last().date.day_index() > e.date.day_index() {
        stable_insert(s.drop_last(), e).push(s.last())
    } else {
        s.push(e)
    }
}

/// The event list in ascending date order, events on one date keeping
/// their original relative order.
pub open spec fn sort_events_spec(s: Seq<Event>) -> Seq<Event>
    decreases s.len(),
{
    if s.len() == 0 {
        Seq::empty()
    } else {
        stable_insert(sort_events_spec(s.drop_last()), s.last())
    }
}

/// Stable insertion adds exactly the inserted event.
proof fn lemma_stable_insert_multiset(s: Seq<Event>, e: Event)
    ensures
        stable_insert(s, e).to_multiset() == s.to_multiset().insert(e),
    decreases s.len(),
{
    broadcast use vstd::seq_lib::group_to_multiset_ensures;

    if s.len() > 0 && s.last().date.day_index() > e.date.day_index() {
        lemma_stable_insert_multiset(s.drop_last(), e);
        assert(s.drop_last().push(s.last()) =~= s);
        assert(s.to_multiset() =~= s.drop_last().to_multiset().insert(s.last()));
        assert(stable_insert(s, e).to_multiset() =~= s.drop_last().to_multiset().insert(e).insert(
            s.last(),
        ));
        assert(s.drop_last().to_multiset().insert(e).insert(s.last())
            =~= s.drop_last().to_multiset().insert(s.last()).insert(e));
    }
}

/// Sorting rearranges the events and loses none.
pub proof fn lemma_sort_events_spec_multiset(s: Seq<Event>)
    ensures
        sort_events_spec(s).to_multiset() == s.to_multiset(),
    decreases s.len(),
{
    broadcast use vstd::seq_lib::group_to_multiset_ensures;

    if s.len() > 0 {
        lemma_sort_events_spec_multiset(s.drop_last());
        lemma_stable_insert_multiset(sort_events_spec(s.drop_last()), s.last());
        assert(s.drop_last().push(s.last()) =~= s);
        assert(s.to_multiset() =~= s.drop_last().to_multiset().insert(s.last()));
    }
}

/// The stable insertion point is where the strictly later events
/// start.
proof fn lemma_stable_insert_at(s: Seq<Event>, e: Event, pos: int)
    requires
        0 <= pos <= s.len(),
        forall|j: int|
            pos <= j < s.len() ==> (#[trigger] s[j]).date.day_index() > e.date.day_index(),
        pos > 0 ==> s[pos - 1].date.day_index() <= e.date.day_index(),
    ensures
        stable_insert(s, e) == s.insert(pos, e),
    decreases s.len(),
{
    if pos == s.len() {
        assert(stable_insert(s, e) == s.push(e));
        assert(s.push(e) =~= s.insert(pos, e));
    } else {
        assert(s[s.len() - 1].date.day_index() > e.date.day_index());
        lemma_stable_insert_at(s.drop_last(), e, pos);
        assert(forall|j: int| 0 <= j < s.len() - 1 ==> s.drop_last()[j] == s[j]);
        assert(stable_insert(s, e) == stable_insert(s.drop_last(), e).push(s.last()));
        assert(s.drop_last().insert(pos, e).push(s.last()) =~= s.insert(pos, e));
    }
}

/// Sorts events by date, stably: events on one date keep their
/// relative order.
pub fn sort_events(events: Vec<Event>) -> (res: Vec<Event>)
    requires
        events_all_wf(events@),
    ensures
        res@ == sort_events_spec(events@),
        sorted_by_date(res@),
        res@.to_multiset() == events@.to_multiset(),
        events_all_wf(res@),
{
    let ghost orig = events@;
    let mut input = events;
    let mut out: Vec<Event> = Vec::new();
    proof {
        assert(orig.subrange(0, 0) =~= Seq::<Event>::empty());
        assert(input@ =~= orig.subrange(0, orig.len() as int));
    }
    while input.len() > 0
        invariant
            events_all_wf(orig),
            input@.len() <= orig.len(),
            input@ == orig.subrange(orig.len() - input@.len(), orig.len() as int),
            out@ == sort_events_spec(orig.subrange(0, orig.len() - input@.len())),
            sorted_by_date(out@),
            events_all_wf(out@),
        decreases input@.len(),
    {
        let ghost done = orig.len() - input@.len();
        let ghost pre = orig.subrange(0, done);
        let e = input.remove(0);
        proof {
            assert(e == orig[done]);
            assert(input@ =~= orig.subrange(done + 1, orig.len() as int));
        }
        let en = day_number(&e.date);
        let mut pos: usize = out.len();
        while pos > 0 && day_number(&out[pos - 1].date) > en
            invariant
                pos <= out@.len(),
                en == e.date.day_index(),
                event_wf(e),
                sorted_by_date(out@),
                events_all_wf(out@),
                forall|j: int|
                    pos <= j < out@.len() ==> (#[trigger] out@[j]).date.day_index()
                        > e.date.day_index(),
            decreases pos,
        {
            pos = pos - 1;
        }
        let ghost out0 = out@;
        out.insert(pos, e);
        proof {
            lemma_stable_insert_at(out0, e, pos as int);
            assert(out@ == stable_insert(out0, e));
            assert(orig.subrange(0, done + 1).drop_last() =~= pre);
            assert(orig.subrange(0, done + 1).last() == e);
            assert(out@ == sort_events_spec(orig.subrange(0, done + 1)));
            assert forall|i: int, j: int|
                #![trigger out@[i], out@[j]]
                0 <= i < j < out@.len() implies out@[i].date.day_index()
                <= out@[j].date.day_index() by {
                assert(out@ == out0.insert(pos as int, e));
                if i < pos && j == pos {
                    assert(out@[i] == out0[i]);
                    assert(out0[i].date.day_index() <= out0[pos - 1].date.day_index());
                } else if i == pos && j > pos {
                    assert(out@[j] == out0[j - 1]);
                } else if i < pos && j > pos {
                    assert(out@[i] == out0[i]);
                    assert(out@[j] == out0[j - 1]);
                } else if i < pos && j < pos {
                    assert(out@[i] == out0[i]);
                    assert(out@[j] == out0[j]);
                } else if i > pos && j > pos {
                    assert(out@[i] == out0[i - 1]);
                    assert(out@[j] == out0[j - 1]);
                }
            }
        }
    }
    proof {
        assert(orig.subrange(0, orig.len() as int) =~= orig);
        lemma_sort_events_spec_multiset(orig);
    }
    out
}

/// Every event's date names an existing day, and a recorded original
/// year is a supported year.
pub open spec fn events_all_wf(s: Seq<Event>) -> bool {
    forall|i: int| 0 <= i < s.len() ==> event_wf(#[trigger] s[i])
}

/// The event is a legitimate occurrence of some rule of the file.
pub open spec fn event_from_some_line(e: Event, lines: Seq<String>, start: int, end: int) -> bool {
    exists|k: int, rule: Rule|
        0 <= k < lines.len() && #[trigger] line_parse_matches(lines[k]@, Some(rule))
            && event_from_rule(e, rule, start, end)
}

/// The block is what one raw line contributes: nothing for blank and
/// comment lines, a full rule expansion otherwise.
pub open spec fn line_block_ok(line: Seq<char>, block: Seq<Event>, start: int, end: int) -> bool {
    if line_parse_matches(line, None::<Rule>) {
        block.len() == 0
    } else {
        exists|rule: Rule|
            #[trigger] line_parse_matches(line, Some(rule)) && rule_expansion_ok(
                block,
                rule,
                start,
                end,
            )
    }
}

/// One block per raw line, each the line's own contribution.
pub open spec fn blocks_expand_lines(
    blocks: Seq<Seq<Event>>,
    lines: Seq<String>,
    start: int,
    end: int,
) -> bool {
    &&& blocks.len() == lines.len()
    &&& forall|k: int|
        0 <= k < lines.len() ==> #[trigger] line_block_ok(lines[k]@, blocks[k], start, end)
}

/// The blocks joined in line order.
pub open spec fn concat_blocks(blocks: Seq<Seq<Event>>) -> Seq<Event>
    decreases blocks.len(),
{
    if blocks.len() == 0 {
        Seq::<Event>::empty()
    } else {
        concat_blocks(blocks.drop_last()) + blocks.last()
    }
}

/// Builds the sorted event list for a window from raw rule-file
/// lines: each line is parsed, each rule expanded over the window's
/// year span, and the whole list stably sorted by date.  The result
/// is exactly the stable sort of the lines' blocks joined in file
/// order, so every occurrence appears once per line that owes it.
pub fn load_events(lines: &Vec<String>, config: &crate::Config) -> (res: Vec<Event>)
    requires
        config.wf(),
    ensures
        sorted_by_date(res@),
        events_all_wf(res@),
        exists|blocks: Seq<Seq<Event>>|
            #[trigger] blocks_expand_lines(
                blocks,
                lines@,
                config.start_year as int,
                config.end_year_spec(),
            ) && res@ == sort_events_spec(concat_blocks(blocks)),
        forall|i: int|
            0 <= i < res@.len() ==> event_from_some_line(
                #[trigger] res@[i],
                lines@,
                config.start_year as int,
                config.end_year_spec(),
            ),
        forall|k: int, rule: Rule|
            0 <= k < lines@.len() && #[trigger] line_parse_matches(lines@[k]@, Some(rule))
                ==> expansion_complete(res@, rule, config.start_year as int, config.end_year_spec()),
{
    let start_year = config.start_year;
    let end_year = crate::end_year_check(config);
    let ghost start = start_year as int;
    let ghost end = end_year as int;
    let mut all: Vec<Event> = Vec::new();
    let ghost mut blocks: Seq<Seq<Event>> = Seq::empty();
    let mut k: usize = 0;
    while k < lines.len()
        invariant
            start == start_year as int,
            end == end_year as int,
            k <= lines@.len(),
            events_all_wf(all@),
            blocks.len() == k,
            forall|k2: int| 0 <= k2 < k ==> #[trigger] line_block_ok(
                lines@[k2]@,
                blocks[k2],
                start,
                end,
            ),
            all@ == concat_blocks(blocks),
            forall|i: int|
                0 <= i < all@.len() ==> event_from_some_line(#[trigger] all@[i], lines@, start, end),
            forall|k2: int, rule: Rule|
                0 <= k2 < k && #[trigger] line_parse_matches(lines@[k2]@, Some(rule))
                    ==> expansion_complete(all@, rule, start, end),
        decreases lines@.len() - k,
    {
        let ghost all0 = all@;
        let ghost blocks0 = blocks;
        match parse_rule_line(lines[k].as_str()) {
            Some(rule) => {
                let mut add = expand_rule(&rule, start_year, end_year);
                let ghost add0 = add@;
                all.append(&mut add);
                proof {
                    blocks = blocks0.push(add0);
                    assert(blocks.drop_last() =~= blocks0);
                    assert(concat_blocks(blocks) == concat_blocks(blocks0) + add0);
                    assert(forall|k2: int| 0 <= k2 < k ==> blocks[k2] == blocks0[k2]);
                    assert(line_block_ok(lines@[k as int]@, blocks[k as int], start, end));
                    assert(all@ == all0 + add0);
                    assert(forall|i: int| 0 <= i < all0.len() ==> all@[i] == all0[i]);
                    assert(forall|i: int|
                        0 <= i < add0.len() ==> all@[all0.len() + i] == add0[i]);
                    lemma_concat_contains(all0, add0);
                    assert(line_parse_matches(lines@[k as int]@, Some(rule)));
                    assert forall|i: int| 0 <= i < all@.len() implies event_from_some_line(
                        #[trigger] all@[i],
                        lines@,
                        start,
                        end,
                    ) by {
                        if i < all0.len() {
                            assert(all@[i] == all0[i]);
                            assert(event_from_some_line(all0[i], lines@, start, end));
                        } else {
                            assert(all@[i] == add0[i - all0.len()]);
                            assert(event_from_rule(all@[i], rule, start, end));
                            assert(line_parse_matches(lines@[k as int]@, Some(rule)));
                        }
                    }
                    assert forall|k2: int, rule2: Rule|
                        0 <= k2 < k + 1 && #[trigger] line_parse_matches(
                            lines@[k2]@,
                            Some(rule2),
                        ) implies expansion_complete(all@, rule2, start, end) by {
                        if k2 < k {
                            lemma_complete_transfer(all0, all@, rule2, rule2, start, end);
                        } else {
                            lemma_line_parse_determined(lines@[k2]@, rule, rule2);
                            lemma_complete_transfer(add0, all@, rule, rule2, start, end);
                        }
                    }
                }
            },
            None => {
                proof {
                    blocks = blocks0.push(Seq::<Event>::empty());
                    assert(blocks.drop_last() =~= blocks0);
                    assert(concat_blocks(blocks) =~= concat_blocks(blocks0)
                        + Seq::<Event>::empty());
                    assert(concat_blocks(blocks) =~= concat_blocks(blocks0));
                    assert(forall|k2: int| 0 <= k2 < k ==> blocks[k2] == blocks0[k2]);
                    assert(line_block_ok(lines@[k as int]@, blocks[k as int], start, end));
                    assert forall|k2: int, rule2: Rule|
                        0 <= k2 < k + 1 && #[trigger] line_parse_matches(
                            lines@[k2]@,
                            Some(rule2),
                        ) implies expansion_complete(all@, rule2, start, end) by {
                        if k2 == k {
                            assert(line_parse_matches(lines@[k2]@, None::<Rule>));
                            assert(false);
                        }
                    }
                }
            },
        }
        k = k + 1;
    }
    let ghost allg = all@;
    let res = sort_events(all);
    proof {
        assert(blocks_expand_lines(blocks, lines@, start, end));
        assert(res@ == sort_events_spec(concat_blocks(blocks)));
        lemma_multiset_contains(allg, res@);
        assert forall|i: int| 0 <= i < res@.len() implies event_from_some_line(
            #[trigger] res@[i],
            lines@,
            start,
            end,
        ) by {
            let e0 = res@[i];
            assert(res@.contains(e0));
            assert(allg.contains(e0));
            let j0 = choose|j: int| 0 <= j < allg.len() && allg[j] == e0;
            assert(event_from_some_line(allg[j0], lines@, start, end));
        }
        assert forall|k2: int, rule2: Rule|
            0 <= k2 < lines@.len() && #[trigger] line_parse_matches(
                lines@[k2]@,
                Some(rule2),
            ) implies expansion_complete(res@, rule2, start, end) by {
            lemma_complete_transfer(allg, res@, rule2, rule2, start, end);
        }
    }
    res
}

} // verus!
