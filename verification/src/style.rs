//! Terminal emphasis: named colors, month and weekday names, ordinal
//! suffixes, and the layered per-cell styling rules.

use vstd::prelude::*;

verus! {

/// The two characters match after folding an ASCII capital in the
/// first to lower case.
pub open spec fn char_matches_folded(a: char, b: char) -> bool {
    a == b || (65 <= a as u32 <= 90 && a as u32 + 32 == b as u32)
}

/// The text equals the (lower-case) reference after ASCII case
/// folding.
pub open spec fn eq_folded(s: Seq<char>, t: Seq<char>) -> bool {
    s.len() == t.len() && forall|i: int| 0 <= i < s.len() ==> char_matches_folded(s[i], t[i])
}

/// Case-insensitive comparison against a lower-case reference.
fn eq_folded_str(s: &str, t: &str) -> (r: bool)
    ensures
        r == eq_folded(s@, t@),
{
    let ls = s.unicode_len();
    let lt = t.unicode_len();
    if ls != lt {
        return false;
    }
    let mut i: usize = 0;
    while i < ls
        invariant
            i <= ls,
            ls == s@.len(),
            ls == t@.len(),
            forall|j: int| 0 <= j < i ==> char_matches_folded(s@[j], t@[j]),
        decreases ls - i,
    {
        let a = s.get_char(i);
        let b = t.get_char(i);
        let au = a as u32;
        if !(a == b || (65 <= au && au <= 90 && au + 32 == b as u32)) {
            return false;
        }
        i = i + 1;
    }
    true
}

/// The escape code a color name resolves to; `None` for unknown names.
pub open spec fn ansi_color_spec(name: Seq<char>, is_fg: bool) -> Option<Seq<char>> {
    if eq_folded(name, "black"@) {
        Some(
            if is_fg {
                "\u{1b}[30m"@
            } else {
                "\u{1b}[40m"@
            },
        )
    } else if eq_folded(name, "red"@) {
        Some(
            if is_fg {
                "\u{1b}[31m"@
            } else {
                "\u{1b}[41m"@
            },
        )
    } else if eq_folded(name, "green"@) {
        Some(
            if is_fg {
                "\u{1b}[32m"@
            } else {
                "\u{1b}[42m"@
            },
        )
    } else if eq_folded(name, "yellow"@) {
        Some(
            if is_fg {
                "\u{1b}[33m"@
            } else {
                "\u{1b}[43m"@
            },
        )
    } else if eq_folded(name, "blue"@) {
        Some(
            if is_fg {
                "\u{1b}[34m"@
            } else {
                "\u{1b}[44m"@
            },
        )
    } else if eq_folded(name, "magenta"@) {
        Some(
            if is_fg {
                "\u{1b}[35m"@
            } else {
                "\u{1b}[45m"@
            },
        )
    } else if eq_folded(name, "cyan"@) {
        Some(
            if is_fg {
                "\u{1b}[36m"@
            } else {
                "\u{1b}[46m"@
            },
        )
    } else if eq_folded(name, "white"@) {
        Some(
            if is_fg {
                "\u{1b}[37m"@
            } else {
                "\u{1b}[47m"@
            },
        )
    } else {
        None
    }
}

/// Maps a color name, case-insensitively, to its foreground or
/// background escape code; unknown names mean "no color".
pub fn get_ansi_color_code(color_name: &str, is_fg: bool) -> (r: Option<&'static str>)
    ensures
        r is Some <==> ansi_color_spec(color_name@, is_fg) is Some,
        r is Some ==> r.unwrap()@ == ansi_color_spec(color_name@, is_fg).unwrap(),
{
    if eq_folded_str(color_name, "black") {
        Some(
            if is_fg {
                "\u{1b}[30m"
            } else {
                "\u{1b}[40m"
            },
        )
    } else if eq_folded_str(color_name, "red") {
        Some(
            if is_fg {
                "\u{1b}[31m"
            } else {
                "\u{1b}[41m"
            },
        )
    } else if eq_folded_str(color_name, "green") {
        Some(
            if is_fg {
                "\u{1b}[32m"
            } else {
                "\u{1b}[42m"
            },
        )
    } else if eq_folded_str(color_name, "yellow") {
        Some(
            if is_fg {
                "\u{1b}[33m"
            } else {
                "\u{1b}[43m"
            },
        )
    } else if eq_folded_str(color_name, "blue") {
        Some(
            if is_fg {
                "\u{1b}[34m"
            } else {
                "\u{1b}[44m"
            },
        )
    } else if eq_folded_str(color_name, "magenta") {
        Some(
            if is_fg {
                "\u{1b}[35m"
            } else {
                "\u{1b}[45m"
            },
        )
    } else if eq_folded_str(color_name, "cyan") {
        Some(
            if is_fg {
                "\u{1b}[36m"
            } else {
                "\u{1b}[46m"
            },
        )
    } else if eq_folded_str(color_name, "white") {
        Some(
            if is_fg {
                "\u{1b}[37m"
            } else {
                "\u{1b}[47m"
            },
        )
    } else {
        None
    }
}

/// Full month name; `Unknown` outside 1 to 12.
pub open spec fn month_name_spec(m: int) -> Seq<char> {
    if m == 1 {
        "January"@
    } else if m == 2 {
        "February"@
    } else if m == 3 {
        "March"@
    } else if m == 4 {
        "April"@
    } else if m == 5 {
        "May"@
    } else if m == 6 {
        "June"@
    } else if m == 7 {
        "July"@
    } else if m == 8 {
        "August"@
    } else if m == 9 {
        "September"@
    } else if m == 10 {
        "October"@
    } else if m == 11 {
        "November"@
    } else if m == 12 {
        "December"@
    } else {
        "Unknown"@
    }
}

/// Full month name; `Unknown` outside 1 to 12.
pub fn month_name(month: u32) -> (r: &'static str)
    ensures
        r@ == month_name_spec(month as int),
{
    match month {
        1 => "January",
        2 => "February",
        3 => "March",
        4 => "April",
        5 => "May",
        6 => "June",
        7 => "July",
        8 => "August",
        9 => "September",
        10 => "October",
        11 => "November",
        12 => "December",
        _ => "Unknown",
    }
}

/// Three-letter month name; `???` outside 1 to 12.
pub open spec fn month_abbrev_spec(m: int) -> Seq<char> {
    if m == 1 {
        "Jan"@
    } else if m == 2 {
        "Feb"@
    } else if m == 3 {
        "Mar"@
    } else if m == 4 {
        "Apr"@
    } else if m == 5 {
        "May"@
    } else if m == 6 {
        "Jun"@
    } else if m == 7 {
        "Jul"@
    } else if m == 8 {
        "Aug"@
    } else if m == 9 {
        "Sep"@
    } else if m == 10 {
        "Oct"@
    } else if m == 11 {
        "Nov"@
    } else if m == 12 {
        "Dec"@
    } else {
        "???"@
    }
}

/// Three-letter month name; `???` outside 1 to 12.
pub fn month_abbrev(month: u32) -> (r: &'static str)
    ensures
        r@ == month_abbrev_spec(month as int),
{
    match month {
        1 => "Jan",
        2 => "Feb",
        3 => "Mar",
        4 => "Apr",
        5 => "May",
        6 => "Jun",
        7 => "Jul",
        8 => "Aug",
        9 => "Sep",
        10 => "Oct",
        11 => "Nov",
        12 => "Dec",
        _ => "???",
    }
}

/// Three-letter weekday name for a weekday index 0 = Monday .. 6 =
/// Sunday; `???` outside that range.
pub open spec fn weekday_abbrev_spec(w: int) -> Seq<char> {
    if w == 0 {
        "Mon"@
    } else if w == 1 {
        "Tue"@
    } else if w == 2 {
        "Wed"@
    } else if w == 3 {
        "Thu"@
    } else if w == 4 {
        "Fri"@
    } else if w == 5 {
        "Sat"@
    } else if w == 6 {
        "Sun"@
    } else {
        "???"@
    }
}

/// Three-letter weekday name for a weekday index 0 = Monday .. 6 =
/// Sunday.
pub fn weekday_abbrev(w: u32) -> (r: &'static str)
    ensures
        r@ == weekday_abbrev_spec(w as int),
{
    match w {
        0 => "Mon",
        1 => "Tue",
        2 => "Wed",
        3 => "Thu",
        4 => "Fri",
        5 => "Sat",
        6 => "Sun",
        _ => "???",
    }
}

/// Ordinal suffix of a number: `st`, `nd`, `rd` or `th`, with the
/// teens always taking `th`.
pub open spec fn ordinal_suffix_spec(n: int) -> Seq<char> {
    if 11 <= n % 100 <= 13 {
        "th"@
    } else if n % 10 == 1 {
        "st"@
    } else if n % 10 == 2 {
        "nd"@
    } else if n % 10 == 3 {
        "rd"@
    } else {
        "th"@
    }
}

/// Ordinal suffix of a non-negative number.
pub fn get_ordinal_suffix(n: i32) -> (r: &'static str)
    requires
        n >= 0,
    ensures
        r@ == ordinal_suffix_spec(n as int),
{
    if n % 100 >= 11 && n % 100 <= 13 {
        "th"
    } else {
        let m = n % 10;
        if m == 1 {
            "st"
        } else if m == 2 {
            "nd"
        } else if m == 3 {
            "rd"
        } else {
            "th"
        }
    }
}

/// Styling prefix of one day cell, layered in a fixed order: weekend
/// red (bold when an event falls on it), then event colors or the
/// default inverted highlight, then — overriding everything — the
/// "today" colors.  `fg` and `bg` are the event's resolved color
/// codes, empty when unset.
pub open spec fn cell_style_spec(
    is_weekend: bool,
    is_today: bool,
    has_event: bool,
    fg: Seq<char>,
    bg: Seq<char>,
) -> Seq<char> {
    let base = if is_weekend {
        if has_event {
            "\u{1b}[31m"@ + "\u{1b}[1m"@
        } else {
            "\u{1b}[31m"@
        }
    } else {
        Seq::<char>::empty()
    };
    let with_event = if has_event && !is_weekend {
        if fg.len() > 0 || bg.len() > 0 {
            base + bg + fg + "\u{1b}[1m"@
        } else if bg.len() == 0 {
            base + "\u{1b}[7m"@
        } else {
            base
        }
    } else {
        base
    };
    if is_today {
        (if bg.len() == 0 {
            "\u{1b}[43m"@
        } else {
            bg
        }) + (if fg.len() == 0 {
            "\u{1b}[30m"@
        } else {
            fg
        })
    } else {
        with_event
    }
}

/// Builds the styling prefix of one day cell.
pub fn cell_style(is_weekend: bool, is_today: bool, has_event: bool, fg: &str, bg: &str) -> (r:
    String)
    ensures
        r@ == cell_style_spec(is_weekend, is_today, has_event, fg@, bg@),
{
    let mut codes = String::new();
    if is_weekend {
        codes.append("\u{1b}[31m");
        if has_event {
            codes.append("\u{1b}[1m");
        }
    }
    if has_event && !is_weekend {
        if fg.unicode_len() > 0 || bg.unicode_len() > 0 {
            codes.append(bg);
            codes.append(fg);
            codes.append("\u{1b}[1m");
        } else if bg.unicode_len() == 0 {
            codes.append("\u{1b}[7m");
        }
    }
    if is_today {
        let mut today_codes = String::new();
        if bg.unicode_len() == 0 {
            today_codes.append("\u{1b}[43m");
        } else {
            today_codes.append(bg);
        }
        if fg.unicode_len() == 0 {
            today_codes.append("\u{1b}[30m");
        } else {
            today_codes.append(fg);
        }
        proof {
            assert(today_codes@ =~= cell_style_spec(is_weekend, is_today, has_event, fg@, bg@));
        }
        return today_codes;
    }
    proof {
        assert(codes@ =~= cell_style_spec(is_weekend, is_today, has_event, fg@, bg@));
    }
    codes
}

} // verus!
