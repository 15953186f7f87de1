use ecal::date::{from_ymd, Date};
use ecal::events::{load_events, Event};
use ecal::render::{
    display_calendars, display_events_list, in_window_check, month_header, month_of_offset, pad2,
    print_week_row, print_weekday_header, render_event_line, year4, zero2,
};
use ecal::style::{cell_style, get_ansi_color_code, get_ordinal_suffix, month_abbrev, month_name, weekday_abbrev};
use ecal::text::uint_to_string;
use ecal::Config;

fn d(y: i32, m: u32, day: u32) -> Date {
    from_ymd(y, m, day).expect("valid date")
}

fn config(start_year: i32, start_month: u32, num_months: usize) -> Config {
    Config {
        num_months,
        start_month,
        start_year,
        monday_first: true,
        show_calendar: true,
        show_events: true,
        num_columns: 3,
        show_week_numbers: true,
    }
}

fn mk_event(date: Date, description: &str) -> Event {
    Event {
        date,
        description: description.to_string(),
        category: None,
        fg_color: None,
        bg_color: None,
        original_year: None,
    }
}

#[test]
fn number_padding() {
    assert_eq!(pad2(5), " 5");
    assert_eq!(pad2(31), "31");
    assert_eq!(zero2(4), "04");
    assert_eq!(zero2(25), "25");
    assert_eq!(year4(1990), "1990");
    assert_eq!(year4(90), "0090");
    assert_eq!(uint_to_string(0), "0");
    assert_eq!(uint_to_string(12345), "12345");
}

#[test]
fn names_and_suffixes() {
    assert_eq!(month_name(1), "January");
    assert_eq!(month_name(12), "December");
    assert_eq!(month_name(13), "Unknown");
    assert_eq!(month_abbrev(7), "Jul");
    assert_eq!(weekday_abbrev(0), "Mon");
    assert_eq!(weekday_abbrev(6), "Sun");
    assert_eq!(get_ordinal_suffix(1), "st");
    assert_eq!(get_ordinal_suffix(2), "nd");
    assert_eq!(get_ordinal_suffix(3), "rd");
    assert_eq!(get_ordinal_suffix(4), "th");
    assert_eq!(get_ordinal_suffix(11), "th");
    assert_eq!(get_ordinal_suffix(12), "th");
    assert_eq!(get_ordinal_suffix(13), "th");
    assert_eq!(get_ordinal_suffix(21), "st");
    assert_eq!(get_ordinal_suffix(34), "th");
    assert_eq!(get_ordinal_suffix(111), "th");
}

#[test]
fn color_names_fold_case_and_reject_unknowns() {
    assert_eq!(get_ansi_color_code("red", true), Some("\u{1b}[31m"));
    assert_eq!(get_ansi_color_code("RED", true), Some("\u{1b}[31m"));
    assert_eq!(get_ansi_color_code("Red", false), Some("\u{1b}[41m"));
    assert_eq!(get_ansi_color_code("yellow", false), Some("\u{1b}[43m"));
    assert_eq!(get_ansi_color_code("turquoise", true), None);
    assert_eq!(get_ansi_color_code("", true), None);
}

#[test]
fn cell_style_precedence() {
    // Plain weekday, no event, not today: no styling.
    assert_eq!(cell_style(false, false, false, "", ""), "");
    // Weekend alone: red.
    assert_eq!(cell_style(true, false, false, "", ""), "\u{1b}[31m");
    // Weekend with an event: red and bold.
    assert_eq!(cell_style(true, false, true, "", ""), "\u{1b}[31m\u{1b}[1m");
    // Weekday event without custom colors: inverted highlight.
    assert_eq!(cell_style(false, false, true, "", ""), "\u{1b}[7m");
    // Weekday event with custom colors: background, foreground, bold.
    assert_eq!(
        cell_style(false, false, true, "\u{1b}[31m", "\u{1b}[44m"),
        "\u{1b}[44m\u{1b}[31m\u{1b}[1m"
    );
    // Today overrides everything with default highlight colors.
    assert_eq!(cell_style(true, true, true, "", ""), "\u{1b}[43m\u{1b}[30m");
    // Today keeps custom colors when set.
    assert_eq!(
        cell_style(false, true, true, "\u{1b}[31m", "\u{1b}[44m"),
        "\u{1b}[44m\u{1b}[31m"
    );
}

#[test]
fn event_line_carries_birthday_annotation() {
    let lines = vec!["04-07-1990;[bday]Alice's Birthday".to_string()];
    let events = load_events(&lines, &config(2024, 7, 1));
    let on_day = |e: &&Event| e.date == d(2024, 7, 4);
    let event = events.iter().find(on_day).expect("the 2024 occurrence");
    let line = render_event_line(event, &d(2024, 7, 4));
    assert!(line.contains("Alice's Birthday (34th Birthday)"), "line: {:?}", line);
    assert!(line.contains("Thu, 04 Jul 2024"));
    // Dated today: no relative-day note.
    assert!(!line.contains("days"));
}

#[test]
fn event_line_relative_days() {
    let e = mk_event(d(2024, 7, 4), "Picnic");
    let future = render_event_line(&e, &d(2024, 7, 1));
    assert!(future.contains("(In \u{1b}[1m3\u{1b}[0m\u{1b}[32m days)"), "line: {:?}", future);
    let past = render_event_line(&e, &d(2024, 7, 10));
    assert!(past.contains("(\u{1b}[1m6\u{1b}[0m\u{1b}[34m days ago)"), "line: {:?}", past);
}

#[test]
fn window_is_half_open() {
    let c = config(2024, 1, 1);
    // End of the window is 1 February 2024, excluded.
    assert!(in_window_check(&mk_event(d(2024, 1, 1), "x"), &c));
    assert!(in_window_check(&mk_event(d(2024, 1, 31), "x"), &c));
    assert!(!in_window_check(&mk_event(d(2024, 2, 1), "x"), &c));
    assert!(!in_window_check(&mk_event(d(2023, 12, 31), "x"), &c));
}

#[test]
fn events_list_excludes_event_on_end_date() {
    let c = config(2024, 1, 1);
    let inside = vec![mk_event(d(2024, 1, 31), "inside")];
    let on_end = vec![mk_event(d(2024, 2, 1), "outside")];
    let today = d(2024, 1, 15);
    let shown = display_events_list(&c, &inside, &today);
    assert!(shown.contains("inside"));
    assert!(shown.contains("Events:"));
    let hidden = display_events_list(&c, &on_end, &today);
    assert_eq!(hidden, "");
}

#[test]
fn month_offsets_wrap_years() {
    let c = config(2024, 11, 4);
    assert_eq!(month_of_offset(&c, 0), d(2024, 11, 1));
    assert_eq!(month_of_offset(&c, 1), d(2024, 12, 1));
    assert_eq!(month_of_offset(&c, 2), d(2025, 1, 1));
    assert_eq!(month_of_offset(&c, 3), d(2025, 2, 1));
}

#[test]
fn month_header_is_centered() {
    let h = month_header(&d(2024, 9, 1), 24);
    assert_eq!(h, "     \u{1b}[1mSeptember 2024\u{1b}[0m     ");
    let h21 = month_header(&d(2024, 5, 1), 21);
    assert_eq!(h21, "      \u{1b}[1mMay 2024\u{1b}[0m       ");
}

#[test]
fn weekday_header_variants() {
    let mut c = config(2024, 1, 1);
    assert_eq!(
        print_weekday_header(&c),
        "\u{1b}[34mWk\u{1b}[0m Mo Tu We Th Fr \u{1b}[31mSa Su\u{1b}[0m"
    );
    c.monday_first = false;
    assert_eq!(
        print_weekday_header(&c),
        "\u{1b}[34mWk\u{1b}[0m \u{1b}[31mSu\u{1b}[0m Mo Tu We Th Fr \u{1b}[31mSa\u{1b}[0m"
    );
    c.show_week_numbers = false;
    assert_eq!(
        print_weekday_header(&c),
        "\u{1b}[31mSu\u{1b}[0m Mo Tu We Th Fr \u{1b}[31mSa\u{1b}[0m"
    );
}

#[test]
fn sunday_start_first_week_row_shows_only_day_one() {
    // September 2024 starts on a Sunday; week numbers on, Monday first.
    let c = config(2024, 9, 1);
    let events: Vec<Event> = Vec::new();
    let today = d(2024, 1, 1);
    let row = print_week_row(&d(2024, 9, 1), 0, &c, &events, &today);
    // ISO week 35, six blank cells, then day 1 marked as a weekend.
    assert_eq!(
        row,
        "\u{1b}[34m35\u{1b}[0m                   \u{1b}[31m 1\u{1b}[0m "
    );
}

#[test]
fn week_row_applies_custom_event_colors() {
    // 15 January 2024 is a Monday with a green-on-blue event.
    let c = config(2024, 1, 1);
    let lines = vec!["1/15;[ ,green,blue]Fancy".to_string()];
    let events = load_events(&lines, &c);
    let today = d(2024, 2, 20);
    // Week row 2 of January 2024 runs from the 15th to the 21st.
    let row = print_week_row(&d(2024, 1, 1), 2, &c, &events, &today);
    assert!(
        row.contains("\u{1b}[44m\u{1b}[32m\u{1b}[1m15\u{1b}[0m "),
        "row: {:?}",
        row
    );
}

#[test]
fn week_row_today_overrides_event_styling() {
    let c = config(2024, 1, 1);
    let lines = vec!["1/15;[ ,green,blue]Fancy".to_string()];
    let events = load_events(&lines, &c);
    let today = d(2024, 1, 15);
    let row = print_week_row(&d(2024, 1, 1), 2, &c, &events, &today);
    // Today keeps the custom colors but drops the bold.
    assert!(
        row.contains("\u{1b}[44m\u{1b}[32m15\u{1b}[0m "),
        "row: {:?}",
        row
    );
}

#[test]
fn today_date_is_plausible() {
    let today = ecal::clock::today_date().expect("clock within supported years");
    assert!(1 <= today.month && today.month <= 12);
    assert!(1 <= today.day && today.day <= 31);
    assert!(1583 <= today.year && today.year <= 9999);
}

#[test]
fn calendar_smoke_test() {
    let c = config(2024, 1, 2);
    let lines = vec!["1/15;Mid January".to_string()];
    let events = load_events(&lines, &c);
    let today = d(2024, 1, 10);
    let cal = display_calendars(&c, &events, &today);
    assert!(cal.contains("January 2024"));
    assert!(cal.contains("February 2024"));
    assert!(cal.contains("\u{1b}[34mWk\u{1b}[0m Mo Tu We Th Fr"));
    // Today, 10 January, carries the default highlight.
    assert!(cal.contains("\u{1b}[43m\u{1b}[30m10\u{1b}[0m"));
    // The event day, 15 January, carries the inverted highlight.
    assert!(cal.contains("\u{1b}[7m15\u{1b}[0m"));
}
