//! Text output: the annotated events list and the calendar grid.
//!
//! Every rendering function returns the exact text its specification
//! names; printing is left to the caller.  The current date is passed
//! in explicitly, so rendering is deterministic.

use vstd::prelude::*;
use crate::Config;
use crate::date::Date;
use crate::date::day_number;
use crate::date::days_in_month;
use crate::date::days_in_month_of;
use crate::date::lemma_day_index_orders_dates;
use crate::date::weekday;
use crate::events::Event;
use crate::events::events_all_wf;
use crate::style::ansi_color_spec;
use crate::style::cell_style;
use crate::style::cell_style_spec;
use crate::style::get_ansi_color_code;
use crate::style::get_ordinal_suffix;
use crate::style::month_abbrev;
use crate::style::month_abbrev_spec;
use crate::style::month_name;
use crate::style::month_name_spec;
use crate::style::ordinal_suffix_spec;
use crate::style::weekday_abbrev;
use crate::style::weekday_abbrev_spec;
use crate::text::dec_str;
use crate::text::spaces;
use crate::text::spaces_spec;
use crate::text::uint_to_string;

verus! {

/// Decimal text padded with a space to width two.
pub open spec fn pad2_spec(n: int) -> Seq<char> {
    if 0 <= n < 10 {
        " "@ + dec_str(n)
    } else {
        dec_str(n)
    }
}

/// Decimal text padded with a space to width two.
pub fn pad2(n: u32) -> (r: String)
    requires
        n <= 99,
    ensures
        r@ == pad2_spec(n as int),
{
    if n < 10 {
        let mut s = " ".to_owned();
        s.append(uint_to_string(n as u64).as_str());
        s
    } else {
        uint_to_string(n as u64)
    }
}

/// Decimal text padded with zeros to width two.
pub open spec fn zero2_spec(n: int) -> Seq<char> {
    if 0 <= n < 10 {
        "0"@ + dec_str(n)
    } else {
        dec_str(n)
    }
}

/// Decimal text padded with zeros to width two.
pub fn zero2(n: u32) -> (r: String)
    requires
        n <= 99,
    ensures
        r@ == zero2_spec(n as int),
{
    if n < 10 {
        let mut s = "0".to_owned();
        s.append(uint_to_string(n as u64).as_str());
        s
    } else {
        uint_to_string(n as u64)
    }
}

/// Decimal text padded with zeros to width four.
pub open spec fn year4_spec(n: int) -> Seq<char> {
    if 0 <= n < 10 {
        "000"@ + dec_str(n)
    } else if 10 <= n < 100 {
        "00"@ + dec_str(n)
    } else if 100 <= n < 1000 {
        "0"@ + dec_str(n)
    } else {
        dec_str(n)
    }
}

/// Decimal text padded with zeros to width four.
pub fn year4(n: u32) -> (r: String)
    requires
        n <= 9999,
    ensures
        r@ == year4_spec(n as int),
{
    let prefix: &'static str = if n < 10 {
        "000"
    } else if n < 100 {
        "00"
    } else if n < 1000 {
        "0"
    } else {
        ""
    };
    let mut s = prefix.to_owned();
    s.append(uint_to_string(n as u64).as_str());
    proof {
        if n >= 1000 {
            reveal_strlit("");
            assert(""@ + dec_str(n as int) =~= dec_str(n as int));
        }
    }
    s
}

/// Zero-based month count of a date, from month 1 of year 0.
pub open spec fn month_index_of(d: Date) -> int {
    d.year * 12 + d.month - 1
}

/// Zero-based month count of the window's first month.
pub open spec fn window_start_index(c: Config) -> int {
    c.start_year * 12 + c.start_month - 1
}

/// The event falls inside the window of displayed months.
pub open spec fn in_window(e: Event, c: Config) -> bool {
    window_start_index(c) <= month_index_of(e.date) < window_start_index(c) + c.num_months
}

/// Whether the event falls inside the window of displayed months.
pub fn in_window_check(e: &Event, config: &Config) -> (r: bool)
    requires
        config.wf(),
    ensures
        r == in_window(*e, *config),
{
    let mi: i64 = e.date.year as i64 * 12 + e.date.month as i64 - 1;
    let ws: i64 = config.start_year as i64 * 12 + config.start_month as i64 - 1;
    ws <= mi && mi < ws + config.num_months as i64
}

/// The window keeps exactly the dates from its first day up to, and
/// excluding, the first day of the month after it.  In particular an
/// event dated exactly on that end day is left out.
pub proof fn lemma_window_is_half_open(c: Config, e: Event, sd: Date, ed: Date)
    requires
        c.wf(),
        e.date.wf(),
        sd.wf(),
        sd.day == 1,
        month_index_of(sd) == window_start_index(c),
        ed.wf(),
        ed.day == 1,
        month_index_of(ed) == window_start_index(c) + c.num_months,
    ensures
        in_window(e, c) <==> (sd.day_index() <= e.date.day_index() < ed.day_index()),
        e.date == ed ==> !in_window(e, c),
{
    lemma_day_index_orders_dates(e.date, ed);
    lemma_day_index_orders_dates(sd, e.date);
}

/// The escape code of an optional color name; empty when unset or
/// unknown.
pub open spec fn color_code_of(oc: Option<String>, is_fg: bool) -> Seq<char> {
    match oc {
        Some(n) => match ansi_color_spec(n@, is_fg) {
            Some(c) => c,
            None => Seq::<char>::empty(),
        },
        None => Seq::<char>::empty(),
    }
}

/// Resolves an optional color name to its escape code.
fn color_code(oc: &Option<String>, is_fg: bool) -> (r: &'static str)
    ensures
        r@ == color_code_of(*oc, is_fg),
{
    proof {
        reveal_strlit("");
    }
    match oc {
        Some(n) => match get_ansi_color_code(n.as_str(), is_fg) {
            Some(c) => c,
            None => "",
        },
        None => "",
    }
}

/// The "(Nth Birthday)" / "(Nth Anniversary)" note of an event that
/// recurs from an original year; empty otherwise.
pub open spec fn annotation_spec(e: Event) -> Seq<char> {
    match e.original_year {
        Some(oy) => match e.category {
            Some(c) => {
                let label = if c@ == "bday"@ {
                    "Birthday"@
                } else if c@ == "anni"@ {
                    "Anniversary"@
                } else {
                    Seq::<char>::empty()
                };
                let n = e.date.year - oy;
                if label.len() > 0 && n > 0 {
                    " ("@ + dec_str(n as int) + ordinal_suffix_spec(n as int) + " "@ + label + ")"@
                } else {
                    Seq::<char>::empty()
                }
            },
            None => Seq::<char>::empty(),
        },
        None => Seq::<char>::empty(),
    }
}

/// The relative-day note of an event: "(In N days)" or "(N days ago)",
/// and nothing for today.
pub open spec fn relative_spec(e: Event, today: Date) -> Seq<char> {
    let diff = e.date.day_index() - today.day_index();
    if diff == 0 {
        Seq::<char>::empty()
    } else if diff > 0 {
        " \u{1b}[32m(In \u{1b}[1m"@ + dec_str(diff) + "\u{1b}[0m\u{1b}[32m days)\u{1b}[0m"@
    } else {
        " \u{1b}[34m(\u{1b}[1m"@ + dec_str(-diff) + "\u{1b}[0m\u{1b}[34m days ago)\u{1b}[0m"@
    }
}

/// A date written as weekday, zero-padded day, month name and year.
pub open spec fn date_text_spec(d: Date) -> Seq<char> {
    weekday_abbrev_spec(d.weekday_index()) + ", "@ + zero2_spec(d.day as int) + " "@
        + month_abbrev_spec(d.month as int) + " "@ + year4_spec(d.year as int)
}

/// One line of the events list: colors, the date, the description,
/// and the anniversary and relative-day notes.
pub open spec fn event_line_spec(e: Event, today: Date) -> Seq<char> {
    color_code_of(e.bg_color, false) + color_code_of(e.fg_color, true) + date_text_spec(e.date)
        + "\u{1b}[0m"@ + " - "@ + e.description@ + annotation_spec(e) + relative_spec(e, today)
}

/// Renders one line of the events list.
pub fn render_event_line(e: &Event, today: &Date) -> (r: String)
    requires
        crate::events::event_wf(*e),
        today.wf(),
    ensures
        r@ == event_line_spec(*e, *today),
{
    let mut s = color_code(&e.bg_color, false).to_owned();
    s.append(color_code(&e.fg_color, true));
    s.append(weekday_abbrev(weekday(&e.date)));
    s.append(", ");
    s.append(zero2(e.date.day).as_str());
    s.append(" ");
    s.append(month_abbrev(e.date.month));
    s.append(" ");
    s.append(year4(e.date.year as u32).as_str());
    s.append("\u{1b}[0m");
    s.append(" - ");
    s.append(e.description.as_str());
    let ghost head = color_code_of(e.bg_color, false) + color_code_of(e.fg_color, true)
        + date_text_spec(e.date) + "\u{1b}[0m"@ + " - "@ + e.description@;
    proof {
        assert(s@ =~= head);
    }
    // Anniversary note.
    if let Some(oy) = e.original_year {
        if let Some(c) = &e.category {
            let is_bday = crate::text::str_eq(c.as_str(), "bday");
            let is_anni = crate::text::str_eq(c.as_str(), "anni");
            let n: i32 = e.date.year - oy;
            if (is_bday || is_anni) && n > 0 {
                s.append(" (");
                s.append(uint_to_string(n as u64).as_str());
                s.append(get_ordinal_suffix(n));
                s.append(" ");
                s.append(
                    if is_bday {
                        "Birthday"
                    } else {
                        "Anniversary"
                    },
                );
                s.append(")");
            }
        }
    }
    proof {
        reveal_strlit("Birthday");
        reveal_strlit("Anniversary");
        assert(s@ =~= head + annotation_spec(*e));
    }
    // Relative-day note.
    let diff: i64 = day_number(&e.date) - day_number(today);
    if diff > 0 {
        s.append(" \u{1b}[32m(In \u{1b}[1m");
        s.append(uint_to_string(diff as u64).as_str());
        s.append("\u{1b}[0m\u{1b}[32m days)\u{1b}[0m");
    } else if diff < 0 {
        s.append(" \u{1b}[34m(\u{1b}[1m");
        s.append(uint_to_string((-diff) as u64).as_str());
        s.append("\u{1b}[0m\u{1b}[34m days ago)\u{1b}[0m");
    }
    proof {
        assert(s@ =~= event_line_spec(*e, *today));
    }
    s
}

/// The lines of the events list, one per event inside the window, in
/// the order given.
pub open spec fn event_lines_spec(s: Seq<Event>, c: Config, today: Date, i: int) -> Seq<char>
    decreases s.len() - i,
{
    if i < 0 || i >= s.len() {
        Seq::<char>::empty()
    } else {
        (if in_window(s[i], c) {
            event_line_spec(s[i], today) + "\n"@
        } else {
            Seq::<char>::empty()
        }) + event_lines_spec(s, c, today, i + 1)
    }
}

/// The full events list: a heading, a separator and one line per
/// event inside the window; empty when no event falls inside it.
pub open spec fn events_list_spec(s: Seq<Event>, c: Config, today: Date) -> Seq<char> {
    if forall|i: int| 0 <= i < s.len() ==> !in_window(#[trigger] s[i], c) {
        Seq::<char>::empty()
    } else {
        "\n\u{1b}[1mEvents:\u{1b}[0m\n"@ + spec_dashes(80) + "\n"@ + event_lines_spec(
            s,
            c,
            today,
            0,
        )
    }
}

/// `n` dashes.
pub open spec fn spec_dashes(n: int) -> Seq<char>
    decreases n,
{
    if n <= 0 {
        Seq::<char>::empty()
    } else {
        spec_dashes(n - 1).push('-')
    }
}

/// A string of `n` dashes.
fn dashes(n: usize) -> (r: String)
    ensures
        r@ == spec_dashes(n as int),
{
    let mut s = String::new();
    let mut i: usize = 0;
    while i < n
        invariant
            i <= n,
            s@ == spec_dashes(i as int),
        decreases n - i,
    {
        s.append("-");
        proof {
            reveal_strlit("-");
            assert(spec_dashes(i as int + 1) =~= spec_dashes(i as int) + "-"@);
        }
        i = i + 1;
    }
    s
}

/// Renders the events list for the window: each event inside it, in
/// order, annotated; nothing at all when the window holds no event.
pub fn display_events_list(config: &Config, events: &Vec<Event>, today: &Date) -> (r: String)
    requires
        config.wf(),
        events_all_wf(events@),
        today.wf(),
    ensures
        r@ == events_list_spec(events@, *config, *today),
{
    let mut any = false;
    let mut i: usize = 0;
    while i < events.len()
        invariant
            i <= events@.len(),
            config.wf(),
            any == !(forall|j: int| 0 <= j < i ==> !in_window(#[trigger] events@[j], *config)),
        decreases events@.len() - i,
    {
        if in_window_check(&events[i], config) {
            any = true;
        }
        i = i + 1;
    }
    if !any {
        return String::new();
    }
    let mut s = "\n\u{1b}[1mEvents:\u{1b}[0m\n".to_owned();
    s.append(dashes(80).as_str());
    s.append("\n");
    let mut k: usize = 0;
    proof {
        assert(s@ =~= "\n\u{1b}[1mEvents:\u{1b}[0m\n"@ + spec_dashes(80) + "\n"@);
    }
    while k < events.len()
        invariant
            k <= events@.len(),
            config.wf(),
            events_all_wf(events@),
            today.wf(),
            s@ + event_lines_spec(events@, *config, *today, k as int)
                == "\n\u{1b}[1mEvents:\u{1b}[0m\n"@ + spec_dashes(80) + "\n"@ + event_lines_spec(
                events@,
                *config,
                *today,
                0,
            ),
        decreases events@.len() - k,
    {
        let ghost s0 = s@;
        if in_window_check(&events[k], config) {
            s.append(render_event_line(&events[k], today).as_str());
            s.append("\n");
        }
        proof {
            assert(event_lines_spec(events@, *config, *today, k as int) == (if in_window(
                events@[k as int],
                *config,
            ) {
                event_line_spec(events@[k as int], *today) + "\n"@
            } else {
                Seq::<char>::empty()
            }) + event_lines_spec(events@, *config, *today, k as int + 1));
            assert(s@ + event_lines_spec(events@, *config, *today, k as int + 1) =~= s0
                + event_lines_spec(events@, *config, *today, k as int));
        }
        k = k + 1;
    }
    proof {
        assert(event_lines_spec(events@, *config, *today, events@.len() as int)
            == Seq::<char>::empty());
        assert(s@ =~= s@ + event_lines_spec(events@, *config, *today, events@.len() as int));
        assert(s@ =~= events_list_spec(events@, *config, *today));
    }
    s
}

/// Index of the first event on the given date, or `-1`.
pub open spec fn find_event_idx(s: Seq<Event>, d: Date) -> int
    decreases s.len(),
{
    if s.len() == 0 {
        -1
    } else if s[0].date == d {
        0
    } else {
        let r = find_event_idx(s.drop_first(), d);
        if r < 0 {
            -1
        } else {
            r + 1
        }
    }
}

proof fn lemma_find_event_idx(s: Seq<Event>, d: Date)
    ensures
        find_event_idx(s, d) >= -1,
        find_event_idx(s, d) == -1 ==> forall|j: int| 0 <= j < s.len() ==> (#[trigger] s[j]).date
            != d,
        find_event_idx(s, d) >= 0 ==> find_event_idx(s, d) < s.len() && s[find_event_idx(
            s,
            d,
        )].date == d && forall|j: int| 0 <= j < find_event_idx(s, d) ==> (#[trigger] s[j]).date
            != d,
    decreases s.len(),
{
    if s.len() > 0 && s[0].date != d {
        lemma_find_event_idx(s.drop_first(), d);
        let r = find_event_idx(s.drop_first(), d);
        assert(forall|j: int| 0 <= j < s.len() - 1 ==> s.drop_first()[j] == s[j + 1]);
        if r == -1 {
            assert forall|j: int| 0 <= j < s.len() implies (#[trigger] s[j]).date != d by {
                if j >= 1 {
                    assert(s.drop_first()[j - 1] == s[j]);
                }
            }
        } else {
            assert forall|j: int| 0 <= j < r + 1 implies (#[trigger] s[j]).date != d by {
                if j >= 1 {
                    assert(s.drop_first()[j - 1] == s[j]);
                }
            }
        }
    }
}

/// Index of the first event on the given date, agreeing with
/// `find_event_idx`.
fn find_event(events: &Vec<Event>, d: &Date) -> (r: Option<usize>)
    ensures
        r is Some <==> find_event_idx(events@, *d) >= 0,
        r is Some ==> r.unwrap() == find_event_idx(events@, *d) && r.unwrap() < events@.len(),
{
    proof {
        lemma_find_event_idx(events@, *d);
    }
    let mut i: usize = 0;
    while i < events.len()
        invariant
            i <= events@.len(),
            forall|j: int| 0 <= j < i ==> (#[trigger] events@[j]).date != *d,
        decreases events@.len() - i,
    {
        if events[i].date == *d {
            proof {
                lemma_find_event_idx(events@, *d);
                assert(events@[i as int].date == *d);
                let fi = find_event_idx(events@, *d);
                if fi == -1 {
                    assert(events@[i as int].date != *d);
                }
                assert(fi >= 0);
                if fi < i {
                    assert(events@[fi].date != *d);
                }
                if fi > i {
                    assert(events@[i as int].date != *d);
                }
                assert(fi == i);
            }
            return Some(i);
        }
        i = i + 1;
    }
    None
}

/// First day of the `idx`-th displayed month.
pub open spec fn month_first_spec(c: Config, idx: int) -> Date {
    let mi = window_start_index(c) + idx;
    Date { year: (mi / 12) as i32, month: (mi % 12 + 1) as u32, day: 1u32 }
}

/// First day of the `idx`-th displayed month.
pub fn month_of_offset(config: &Config, idx: usize) -> (r: Date)
    requires
        config.wf(),
        idx < config.num_months,
    ensures
        r == month_first_spec(*config, idx as int),
        r.wf(),
        r.day == 1,
{
    let mi: i64 = config.start_year as i64 * 12 + config.start_month as i64 - 1 + idx as i64;
    proof {
        vstd::arithmetic::div_mod::lemma_fundamental_div_mod(mi as int, 12);
    }
    let year = (mi / 12) as i32;
    let month = (mi % 12 + 1) as u32;
    Date { year, month, day: 1 }
}

/// A month-and-year heading, bold, centered over the given width.
pub open spec fn month_header_spec(d: Date, width: int) -> Seq<char> {
    let name = month_name_spec(d.month as int) + " "@ + dec_str(d.year as int);
    let pad = (width - name.len()) / 2;
    spaces_spec(pad) + "\u{1b}[1m"@ + name + "\u{1b}[0m"@ + spaces_spec(width - pad - name.len())
}

/// The decimal text of a supported year has one to four digits.
proof fn lemma_dec_str_len(n: int)
    requires
        0 <= n <= 9999,
    ensures
        1 <= dec_str(n).len() <= 4,
        n < 10 ==> dec_str(n).len() == 1,
        n < 100 ==> dec_str(n).len() <= 2,
        n < 1000 ==> dec_str(n).len() <= 3,
    decreases n,
{
    if n >= 10 {
        vstd::arithmetic::div_mod::lemma_fundamental_div_mod(n, 10);
        lemma_dec_str_len(n / 10);
    }
}

/// Renders a month-and-year heading centered over the given width.
pub fn month_header(d: &Date, width: usize) -> (r: String)
    requires
        d.wf(),
        21 <= width <= 24,
    ensures
        r@ == month_header_spec(*d, width as int),
{
    let mut name = month_name(d.month).to_owned();
    name.append(" ");
    name.append(uint_to_string(d.year as u64).as_str());
    proof {
        reveal_strlit("January");
        reveal_strlit("February");
        reveal_strlit("March");
        reveal_strlit("April");
        reveal_strlit("May");
        reveal_strlit("June");
        reveal_strlit("July");
        reveal_strlit("August");
        reveal_strlit("September");
        reveal_strlit("October");
        reveal_strlit("November");
        reveal_strlit("December");
        reveal_strlit("Unknown");
        reveal_strlit(" ");
        lemma_dec_str_len(d.year as int);
    }
    let len = name.unicode_len();
    let pad = (width - len) / 2;
    let mut s = spaces(pad);
    s.append("\u{1b}[1m");
    s.append(name.as_str());
    s.append("\u{1b}[0m");
    s.append(spaces(width - pad - len).as_str());
    proof {
        vstd::arithmetic::div_mod::lemma_fundamental_div_mod(width as int - len as int, 2);
        assert(s@ =~= month_header_spec(*d, width as int));
    }
    s
}

/// The weekday header row for the chosen week start, with or without
/// the week-number column.
pub open spec fn weekday_header_spec(monday_first: bool, show_week_numbers: bool) -> Seq<char> {
    if show_week_numbers {
        if monday_first {
            "\u{1b}[34mWk\u{1b}[0m Mo Tu We Th Fr \u{1b}[31mSa Su\u{1b}[0m"@
        } else {
            "\u{1b}[34mWk\u{1b}[0m \u{1b}[31mSu\u{1b}[0m Mo Tu We Th Fr \u{1b}[31mSa\u{1b}[0m"@
        }
    } else {
        if monday_first {
            "Mo Tu We Th Fr \u{1b}[31mSa Su\u{1b}[0m"@
        } else {
            "\u{1b}[31mSu\u{1b}[0m Mo Tu We Th Fr \u{1b}[31mSa\u{1b}[0m"@
        }
    }
}

/// The weekday header row, weekend days marked.
pub fn print_weekday_header(config: &Config) -> (r: &'static str)
    ensures
        r@ == weekday_header_spec(config.monday_first, config.show_week_numbers),
{
    if config.show_week_numbers {
        if config.monday_first {
            "\u{1b}[34mWk\u{1b}[0m Mo Tu We Th Fr \u{1b}[31mSa Su\u{1b}[0m"
        } else {
            "\u{1b}[34mWk\u{1b}[0m \u{1b}[31mSu\u{1b}[0m Mo Tu We Th Fr \u{1b}[31mSa\u{1b}[0m"
        }
    } else {
        if config.monday_first {
            "Mo Tu We Th Fr \u{1b}[31mSa Su\u{1b}[0m"
        } else {
            "\u{1b}[31mSu\u{1b}[0m Mo Tu We Th Fr \u{1b}[31mSa\u{1b}[0m"
        }
    }
}

/// The week-number column of one week row: the ISO week of the row's
/// first in-month day, blank for rows without one, and nothing at all
/// when week numbers are off.
pub open spec fn week_number_cell_spec(
    first: Date,
    w: int,
    monday_first: bool,
    show_week_numbers: bool,
) -> Seq<char> {
    if !show_week_numbers {
        Seq::<char>::empty()
    } else {
        let start = crate::grid::week_start_day_spec(first, w, monday_first);
        if start <= days_in_month_of(first.year as int, first.month as int) && start + 6 >= 1 {
            let wd = Date {
                year: first.year,
                month: first.month,
                day: (if start < 1 {
                    1int
                } else {
                    start
                }) as u32,
            };
            "\u{1b}[34m"@ + pad2_spec(crate::grid::iso_week_of(wd)) + "\u{1b}[0m "@
        } else {
            "   "@
        }
    }
}

/// Renders the week-number column of one week row.
fn week_number_cell(first: &Date, week_num: usize, config: &Config) -> (r: String)
    requires
        first.wf(),
        first.day == 1,
        week_num <= 6,
    ensures
        r@ == week_number_cell_spec(
            *first,
            week_num as int,
            config.monday_first,
            config.show_week_numbers,
        ),
{
    if !config.show_week_numbers {
        return String::new();
    }
    let start = crate::grid::get_week_start_day(first, week_num, config.monday_first);
    let dim = days_in_month(first.year, first.month);
    if start <= dim as i32 && start + 6 >= 1 {
        let day: u32 = if start < 1 {
            1
        } else {
            start as u32
        };
        let wd = Date { year: first.year, month: first.month, day };
        let iso = crate::grid::iso_week_number(&wd);
        let mut s = "\u{1b}[34m".to_owned();
        s.append(pad2(iso).as_str());
        s.append("\u{1b}[0m ");
        proof {
            assert(s@ =~= week_number_cell_spec(
                *first,
                week_num as int,
                config.monday_first,
                config.show_week_numbers,
            ));
        }
        s
    } else {
        "   ".to_owned()
    }
}

/// One day cell of a week row: the styled day number for days of the
/// month, blanks elsewhere.
pub open spec fn day_cell_spec(first: Date, day: int, events: Seq<Event>, today: Date) -> Seq<
    char,
> {
    if 1 <= day <= days_in_month_of(first.year as int, first.month as int) {
        let date = Date { year: first.year, month: first.month, day: day as u32 };
        let fi = find_event_idx(events, date);
        let has_event = fi >= 0;
        let fg = if has_event {
            color_code_of(events[fi].fg_color, true)
        } else {
            Seq::<char>::empty()
        };
        let bg = if has_event {
            color_code_of(events[fi].bg_color, false)
        } else {
            Seq::<char>::empty()
        };
        let is_weekend = date.weekday_index() == 5 || date.weekday_index() == 6;
        cell_style_spec(is_weekend, date == today, has_event, fg, bg) + pad2_spec(day)
            + "\u{1b}[0m "@
    } else {
        "   "@
    }
}

/// Renders one day cell.
fn day_cell(first: &Date, day: i32, events: &Vec<Event>, today: &Date) -> (r: String)
    requires
        first.wf(),
        first.day == 1,
        -50 <= day <= 50,
    ensures
        r@ == day_cell_spec(*first, day as int, events@, *today),
{
    let dim = days_in_month(first.year, first.month);
    if 1 <= day && day <= dim as i32 {
        let date = Date { year: first.year, month: first.month, day: day as u32 };
        let (has_event, fg, bg): (bool, &'static str, &'static str) = match find_event(
            events,
            &date,
        ) {
            Some(i) => (
                true,
                color_code(&events[i].fg_color, true),
                color_code(&events[i].bg_color, false),
            ),
            None => (false, "", ""),
        };
        let wd = weekday(&date);
        let is_weekend = wd == 5 || wd == 6;
        let is_today = date == *today;
        let mut s = cell_style(is_weekend, is_today, has_event, fg, bg);
        s.append(pad2(day as u32).as_str());
        s.append("\u{1b}[0m ");
        proof {
            reveal_strlit("");
            assert(s@ =~= day_cell_spec(*first, day as int, events@, *today));
        }
        s
    } else {
        "   ".to_owned()
    }
}

/// The seven day cells of a week row, from cell `k` on.
pub open spec fn day_cells_spec(
    first: Date,
    start: int,
    k: int,
    events: Seq<Event>,
    today: Date,
) -> Seq<char>
    decreases 7 - k,
{
    if k < 0 || k >= 7 {
        Seq::<char>::empty()
    } else {
        day_cell_spec(first, start + k, events, today) + day_cells_spec(
            first,
            start,
            k + 1,
            events,
            today,
        )
    }
}

/// One week row of one month: the week-number column and seven day
/// cells.
pub open spec fn week_row_spec(
    first: Date,
    w: int,
    monday_first: bool,
    show_week_numbers: bool,
    events: Seq<Event>,
    today: Date,
) -> Seq<char> {
    week_number_cell_spec(first, w, monday_first, show_week_numbers) + day_cells_spec(
        first,
        crate::grid::week_start_day_spec(first, w, monday_first),
        0,
        events,
        today,
    )
}

/// Renders one week row of one month.
pub fn print_week_row(
    month_start: &Date,
    week_num: usize,
    config: &Config,
    events: &Vec<Event>,
    today: &Date,
) -> (r: String)
    requires
        month_start.wf(),
        month_start.day == 1,
        week_num <= 6,
    ensures
        r@ == week_row_spec(
            *month_start,
            week_num as int,
            config.monday_first,
            config.show_week_numbers,
            events@,
            *today,
        ),
{
    let mut s = week_number_cell(month_start, week_num, config);
    let start = crate::grid::get_week_start_day(month_start, week_num, config.monday_first);
    let ghost wn = week_number_cell_spec(
        *month_start,
        week_num as int,
        config.monday_first,
        config.show_week_numbers,
    );
    let mut k: usize = 0;
    while k < 7
        invariant
            k <= 7,
            month_start.wf(),
            month_start.day == 1,
            start == crate::grid::week_start_day_spec(
                *month_start,
                week_num as int,
                config.monday_first,
            ),
            -6 <= start <= 43,
            s@ + day_cells_spec(*month_start, start as int, k as int, events@, *today) == wn
                + day_cells_spec(*month_start, start as int, 0, events@, *today),
        decreases 7 - k,
    {
        let ghost s0 = s@;
        s.append(day_cell(month_start, start + k as i32, events, today).as_str());
        proof {
            assert(s@ + day_cells_spec(*month_start, start as int, k as int + 1, events@, *today)
                =~= s0 + day_cells_spec(*month_start, start as int, k as int, events@, *today));
        }
        k = k + 1;
    }
    proof {
        assert(day_cells_spec(*month_start, start as int, 7, events@, *today)
            == Seq::<char>::empty());
        assert(s@ =~= s@ + day_cells_spec(*month_start, start as int, 7, events@, *today));
        assert(s@ =~= wn + day_cells_spec(*month_start, start as int, 0, events@, *today));
    }
    s
}

/// The heading line of a row of months, from month `i` on.
pub open spec fn headers_line_spec(c: Config, s: int, e: int, i: int, width: int) -> Seq<char>
    decreases e - i,
{
    if i < s || i >= e {
        Seq::<char>::empty()
    } else {
        month_header_spec(month_first_spec(c, i), width) + (if i + 1 < e {
            "    "@
        } else {
            Seq::<char>::empty()
        }) + headers_line_spec(c, s, e, i + 1, width)
    }
}

/// The weekday header line of a row of months, from month `i` on.
pub open spec fn weekday_line_spec(c: Config, s: int, e: int, i: int) -> Seq<char>
    decreases e - i,
{
    if i < s || i >= e {
        Seq::<char>::empty()
    } else {
        weekday_header_spec(c.monday_first, c.show_week_numbers) + (if i + 1 < e {
            "     "@
        } else {
            Seq::<char>::empty()
        }) + weekday_line_spec(c, s, e, i + 1)
    }
}

/// The largest week count among the months `i` to `e` of the window.
pub open spec fn max_weeks_spec(c: Config, e: int, i: int) -> int
    decreases e - i,
{
    if i >= e {
        0
    } else {
        let w0 = crate::grid::weeks_in_month_spec(month_first_spec(c, i), c.monday_first);
        let rest = max_weeks_spec(c, e, i + 1);
        if w0 >= rest {
            w0
        } else {
            rest
        }
    }
}

/// Whether week row `w` is empty in every month `i` to `e`.
pub open spec fn row_all_empty_spec(c: Config, e: int, i: int, w: int) -> bool
    decreases e - i,
{
    if i >= e {
        true
    } else {
        crate::grid::week_row_empty_spec(month_first_spec(c, i), w, c.monday_first)
            && row_all_empty_spec(c, e, i + 1, w)
    }
}

/// Week row `w` across the months `i` to `e`, cells side by side.
pub open spec fn cells_line_spec(
    c: Config,
    s: int,
    e: int,
    i: int,
    w: int,
    events: Seq<Event>,
    today: Date,
) -> Seq<char>
    decreases e - i,
{
    if i < s || i >= e {
        Seq::<char>::empty()
    } else {
        week_row_spec(
            month_first_spec(c, i),
            w,
            c.monday_first,
            c.show_week_numbers,
            events,
            today,
        ) + (if i + 1 < e {
            "    "@
        } else {
            Seq::<char>::empty()
        }) + cells_line_spec(c, s, e, i + 1, w, events, today)
    }
}

/// The week rows of a row of months, from week `w` up to the row's
/// largest week count, skipping rows empty in every month.
pub open spec fn weeks_block_spec(
    c: Config,
    s: int,
    e: int,
    w: int,
    maxw: int,
    events: Seq<Event>,
    today: Date,
) -> Seq<char>
    decreases maxw - w,
{
    if w < 0 || w >= maxw {
        Seq::<char>::empty()
    } else {
        (if row_all_empty_spec(c, e, s, w) {
            Seq::<char>::empty()
        } else {
            cells_line_spec(c, s, e, s, w, events, today) + "\n"@
        }) + weeks_block_spec(c, s, e, w + 1, maxw, events, today)
    }
}

/// One row of months: headings, weekday headers, and the week rows,
/// with a blank line when the row needs fewer than six week rows.
pub open spec fn month_row_spec(
    c: Config,
    s: int,
    e: int,
    events: Seq<Event>,
    today: Date,
) -> Seq<char> {
    let width: int = if c.show_week_numbers {
        24
    } else {
        21
    };
    let maxw = max_weeks_spec(c, e, s);
    headers_line_spec(c, s, e, s, width) + "\n"@ + weekday_line_spec(c, s, e, s) + "\n"@
        + weeks_block_spec(c, s, e, 0, maxw, events, today) + (if maxw < 6 {
        "\n"@
    } else {
        Seq::<char>::empty()
    })
}

/// Renders one row of months side by side.
pub fn display_month_row(
    config: &Config,
    events: &Vec<Event>,
    today: &Date,
    start_idx: usize,
    end_idx: usize,
) -> (r: String)
    requires
        config.wf(),
        start_idx < end_idx <= config.num_months,
    ensures
        r@ == month_row_spec(*config, start_idx as int, end_idx as int, events@, *today),
{
    let ghost c = *config;
    let ghost s_ = start_idx as int;
    let ghost e_ = end_idx as int;
    let width: usize = if config.show_week_numbers {
        24
    } else {
        21
    };

    // Month headings.
    let mut out = String::new();
    let mut i: usize = start_idx;
    while i < end_idx
        invariant
            config.wf(),
            c == *config,
            s_ == start_idx as int,
            e_ == end_idx as int,
            start_idx <= i <= end_idx,
            end_idx <= config.num_months,
            width == (if config.show_week_numbers {
                24int
            } else {
                21int
            }),
            out@ + headers_line_spec(c, s_, e_, i as int, width as int) == headers_line_spec(
                c,
                s_,
                e_,
                s_,
                width as int,
            ),
        decreases end_idx - i,
    {
        let ghost out0 = out@;
        let first = month_of_offset(config, i);
        out.append(month_header(&first, width).as_str());
        if i + 1 < end_idx {
            out.append("    ");
        }
        proof {
            assert(out@ + headers_line_spec(c, s_, e_, i as int + 1, width as int) =~= out0
                + headers_line_spec(c, s_, e_, i as int, width as int));
        }
        i = i + 1;
    }
    out.append("\n");
    proof {
        assert(headers_line_spec(c, s_, e_, e_, width as int) == Seq::<char>::empty());
        assert(out@ =~= headers_line_spec(c, s_, e_, s_, width as int) + "\n"@);
    }

    // Weekday headers.
    let ghost after_headers = out@;
    let mut i2: usize = start_idx;
    while i2 < end_idx
        invariant
            config.wf(),
            c == *config,
            s_ == start_idx as int,
            e_ == end_idx as int,
            start_idx <= i2 <= end_idx,
            out@ + weekday_line_spec(c, s_, e_, i2 as int) == after_headers + weekday_line_spec(
                c,
                s_,
                e_,
                s_,
            ),
        decreases end_idx - i2,
    {
        let ghost out0 = out@;
        out.append(print_weekday_header(config));
        if i2 + 1 < end_idx {
            out.append("     ");
        }
        proof {
            assert(out@ + weekday_line_spec(c, s_, e_, i2 as int + 1) =~= out0 + weekday_line_spec(
                c,
                s_,
                e_,
                i2 as int,
            ));
        }
        i2 = i2 + 1;
    }
    out.append("\n");
    proof {
        assert(weekday_line_spec(c, s_, e_, e_) == Seq::<char>::empty());
        assert(out@ =~= after_headers + weekday_line_spec(c, s_, e_, s_) + "\n"@);
    }

    // Largest week count of the row.
    let mut max_weeks: usize = 0;
    let mut i3: usize = start_idx;
    while i3 < end_idx
        invariant
            config.wf(),
            c == *config,
            s_ == start_idx as int,
            e_ == end_idx as int,
            start_idx <= i3 <= end_idx,
            end_idx <= config.num_months,
            i3 == start_idx ==> max_weeks == 0,
            i3 > start_idx ==> 4 <= max_weeks <= 6,
            max_weeks_spec(c, e_, s_) == (if max_weeks as int >= max_weeks_spec(c, e_, i3 as int) {
                max_weeks as int
            } else {
                max_weeks_spec(c, e_, i3 as int)
            }),
        decreases end_idx - i3,
    {
        let first = month_of_offset(config, i3);
        let w = crate::grid::weeks_in_month(&first, config.monday_first);
        if w > max_weeks {
            max_weeks = w;
        }
        i3 = i3 + 1;
    }
    proof {
        assert(max_weeks_spec(c, e_, e_) == 0);
        assert(max_weeks as int == max_weeks_spec(c, e_, s_));
        lemma_max_weeks_bounds(c, e_, s_);
    }

    // Week rows.
    let ghost after_wkhdr = out@;
    let mut w: usize = 0;
    while w < max_weeks
        invariant
            config.wf(),
            c == *config,
            s_ == start_idx as int,
            e_ == end_idx as int,
            start_idx < end_idx <= config.num_months,
            w <= max_weeks,
            max_weeks as int == max_weeks_spec(c, e_, s_),
            4 <= max_weeks <= 6,
            out@ + weeks_block_spec(c, s_, e_, w as int, max_weeks as int, events@, *today)
                == after_wkhdr + weeks_block_spec(
                c,
                s_,
                e_,
                0,
                max_weeks as int,
                events@,
                *today,
            ),
        decreases max_weeks - w,
    {
        let ghost out0 = out@;
        // Is this week row empty in every month of the row?
        let mut all_empty = true;
        let mut i4: usize = start_idx;
        while i4 < end_idx
            invariant
                config.wf(),
                c == *config,
                s_ == start_idx as int,
                e_ == end_idx as int,
                start_idx <= i4 <= end_idx,
                end_idx <= config.num_months,
                w <= 6,
                row_all_empty_spec(c, e_, s_, w as int) == (all_empty && row_all_empty_spec(
                    c,
                    e_,
                    i4 as int,
                    w as int,
                )),
            decreases end_idx - i4,
        {
            let first = month_of_offset(config, i4);
            let start_day = crate::grid::get_week_start_day(&first, w, config.monday_first);
            let dim = days_in_month(first.year, first.month);
            if !(start_day > dim as i32 || start_day + 6 < 1) {
                all_empty = false;
            }
            i4 = i4 + 1;
        }
        proof {
            assert(row_all_empty_spec(c, e_, e_, w as int) == true);
        }
        if !all_empty {
            let mut i5: usize = start_idx;
            while i5 < end_idx
                invariant
                    config.wf(),
                    c == *config,
                    s_ == start_idx as int,
                    e_ == end_idx as int,
                    start_idx <= i5 <= end_idx,
                    end_idx <= config.num_months,
                    w <= 6,
                    out@ + cells_line_spec(c, s_, e_, i5 as int, w as int, events@, *today) == out0
                        + cells_line_spec(c, s_, e_, s_, w as int, events@, *today),
                decreases end_idx - i5,
            {
                let ghost outp = out@;
                let first = month_of_offset(config, i5);
                out.append(print_week_row(&first, w, config, events, today).as_str());
                if i5 + 1 < end_idx {
                    out.append("    ");
                }
                proof {
                    assert(out@ + cells_line_spec(c, s_, e_, i5 as int + 1, w as int, events@,
                    *today) =~= outp + cells_line_spec(
                        c,
                        s_,
                        e_,
                        i5 as int,
                        w as int,
                        events@,
                        *today,
                    ));
                }
                i5 = i5 + 1;
            }
            out.append("\n");
            proof {
                assert(cells_line_spec(c, s_, e_, e_, w as int, events@, *today)
                    == Seq::<char>::empty());
                assert(out@ =~= out0 + cells_line_spec(c, s_, e_, s_, w as int, events@, *today)
                    + "\n"@);
            }
        }
        proof {
            assert(out@ + weeks_block_spec(
                c,
                s_,
                e_,
                w as int + 1,
                max_weeks as int,
                events@,
                *today,
            ) =~= out0 + weeks_block_spec(
                c,
                s_,
                e_,
                w as int,
                max_weeks as int,
                events@,
                *today,
            ));
        }
        w = w + 1;
    }
    if max_weeks < 6 {
        out.append("\n");
    }
    proof {
        assert(weeks_block_spec(c, s_, e_, max_weeks as int, max_weeks as int, events@, *today)
            == Seq::<char>::empty());
        assert(out@ =~= month_row_spec(c, s_, e_, events@, *today));
    }
    out
}

/// A nonempty row of months needs four to six week rows.
proof fn lemma_max_weeks_bounds(c: Config, e: int, i: int)
    requires
        i < e,
    ensures
        4 <= max_weeks_spec(c, e, i) <= 6,
    decreases e - i,
{
    crate::grid::lemma_weeks_in_month_bounds(month_first_spec(c, i), c.monday_first);
    assert(max_weeks_spec(c, e, e) == 0);
    if i + 1 < e {
        lemma_max_weeks_bounds(c, e, i + 1);
    }
}

/// The whole calendar: the months of the window laid out in rows, from
/// row `row` on, with a blank line between rows.
pub open spec fn calendars_spec(
    c: Config,
    events: Seq<Event>,
    today: Date,
    row: int,
    num_rows: int,
    mpr: int,
) -> Seq<char>
    decreases num_rows - row,
{
    if row < 0 || row >= num_rows {
        Seq::<char>::empty()
    } else {
        let s = row * mpr;
        let e = if s + mpr <= c.num_months {
            s + mpr
        } else {
            c.num_months as int
        };
        month_row_spec(c, s, e, events, today) + (if row + 1 < num_rows {
            "\n"@
        } else {
            Seq::<char>::empty()
        }) + calendars_spec(c, events, today, row + 1, num_rows, mpr)
    }
}

/// Months per row: one when only one month is shown, else the
/// configured column count.
pub open spec fn months_per_row_spec(c: Config) -> int {
    if c.num_months == 1 {
        1
    } else {
        c.num_columns as int
    }
}

/// Number of month rows the window needs.
pub open spec fn num_rows_spec(c: Config) -> int {
    (c.num_months + months_per_row_spec(c) - 1) / months_per_row_spec(c)
}

/// Renders the whole calendar grid for the window.
#[verifier::rlimit(50)]
pub fn display_calendars(config: &Config, events: &Vec<Event>, today: &Date) -> (r: String)
    requires
        config.wf(),
    ensures
        r@ == calendars_spec(
            *config,
            events@,
            *today,
            0,
            num_rows_spec(*config),
            months_per_row_spec(*config),
        ),
{
    let ghost c = *config;
    let months_per_row: usize = if config.num_months == 1 {
        1
    } else {
        config.num_columns
    };
    proof {
        vstd::arithmetic::div_mod::lemma_fundamental_div_mod(
            c.num_months + months_per_row_spec(c) - 1,
            months_per_row_spec(c),
        );
    }
    let num_rows: usize = (config.num_months + months_per_row - 1) / months_per_row;
    let mut out = String::new();
    let mut row: usize = 0;
    while row < num_rows
        invariant
            config.wf(),
            c == *config,
            months_per_row as int == months_per_row_spec(c),
            num_rows as int == num_rows_spec(c),
            num_rows * months_per_row >= config.num_months,
            row <= num_rows,
            out@ + calendars_spec(c, events@, *today, row as int, num_rows as int,
                months_per_row as int,
            ) == calendars_spec(c, events@, *today, 0, num_rows as int, months_per_row as int),
        decreases num_rows - row,
    {
        let ghost out0 = out@;
        proof {
            let nm = c.num_months as int;
            let mpr = months_per_row as int;
            let nr = num_rows as int;
            vstd::arithmetic::div_mod::lemma_fundamental_div_mod(nm + mpr - 1, mpr);
            vstd::arithmetic::div_mod::lemma_mod_bound(nm + mpr - 1, mpr);
            assert(mpr * nr == (nr - 1) * mpr + mpr) by (nonlinear_arith);
            assert(row as int * mpr <= (nr - 1) * mpr) by (nonlinear_arith)
                requires
                    row as int <= nr - 1,
                    mpr >= 1,
            ;
            assert(row as int * mpr < nm);
        }
        let start_idx = row * months_per_row;
        let end_idx = if config.num_months - start_idx <= months_per_row {
            config.num_months
        } else {
            start_idx + months_per_row
        };
        out.append(display_month_row(config, events, today, start_idx, end_idx).as_str());
        if row + 1 < num_rows {
            out.append("\n");
        }
        proof {
            assert(out@ + calendars_spec(c, events@, *today, row as int + 1, num_rows as int,
                months_per_row as int,
            ) =~= out0 + calendars_spec(c, events@, *today, row as int, num_rows as int,
                months_per_row as int,
            ));
        }
        row = row + 1;
    }
    proof {
        assert(calendars_spec(c, events@, *today, num_rows as int, num_rows as int,
            months_per_row as int,
        ) == Seq::<char>::empty());
        assert(out@ =~= calendars_spec(c, events@, *today, 0, num_rows as int,
            months_per_row as int,
        ));
    }
    out
}

} // verus!
