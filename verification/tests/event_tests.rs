use ecal::date::{from_ymd, Date};
use ecal::events::{expand_rule, load_events, parse_rule_line, sort_events, Event, Rule};
use ecal::Config;

fn d(y: i32, m: u32, day: u32) -> Date {
    from_ymd(y, m, day).expect("valid date")
}

fn config(start_year: i32, start_month: u32, num_months: usize) -> Config {
    Config {
        num_months,
        start_month,
        start_year,
        monday_first: true,
        show_calendar: true,
        show_events: true,
        num_columns: 3,
        show_week_numbers: true,
    }
}

fn mk_event(date: Date, description: &str) -> Event {
    Event {
        date,
        description: description.to_string(),
        category: None,
        fg_color: None,
        bg_color: None,
        original_year: None,
    }
}

#[test]
fn parse_line_with_metadata_block() {
    let rule = parse_rule_line("04-07-1990;[bday]Alice's Birthday").expect("a rule");
    assert_eq!(rule.rule_text, "04-07-1990");
    assert_eq!(rule.description, "Alice's Birthday");
    assert_eq!(rule.category.as_deref(), Some("bday"));
    assert!(rule.fg_color.is_none());
    assert!(rule.bg_color.is_none());
}

#[test]
fn parse_line_with_colors_and_emoji() {
    let rule = parse_rule_line("7/4; [ , red , blue , star ] Independence Day").expect("a rule");
    assert_eq!(rule.rule_text, "7/4");
    assert_eq!(rule.description, "Independence Day");
    assert!(rule.category.is_none());
    assert_eq!(rule.fg_color.as_deref(), Some("red"));
    assert_eq!(rule.bg_color.as_deref(), Some("blue"));
}

#[test]
fn parse_line_without_metadata() {
    let rule = parse_rule_line("7/4;Independence Day").expect("a rule");
    assert_eq!(rule.rule_text, "7/4");
    assert_eq!(rule.description, "Independence Day");
    assert!(rule.category.is_none());
}

#[test]
fn parse_line_skips_comments_and_blanks() {
    assert!(parse_rule_line("# a comment").is_none());
    assert!(parse_rule_line("   ").is_none());
    assert!(parse_rule_line("").is_none());
}

#[test]
fn parse_line_tolerates_missing_close_bracket() {
    let rule = parse_rule_line("7/4;[red Independence").expect("a rule");
    assert_eq!(rule.description, "[red Independence");
    assert!(rule.category.is_none());
}

#[test]
fn parse_line_without_semicolon_splits_on_whitespace() {
    let rule = parse_rule_line("7/4 picnic day").expect("a rule");
    assert_eq!(rule.rule_text, "7/4 picnic day");
    assert_eq!(rule.description, "picnic day");
}

#[test]
fn annual_rule_expands_to_one_event_per_year() {
    let rule = parse_rule_line("7/4;Independence Day").expect("a rule");
    let events = expand_rule(&rule, 2024, 2024);
    assert_eq!(events.len(), 1);
    assert_eq!(events[0].date, d(2024, 7, 4));
    assert_eq!(events[0].description, "Independence Day");
    assert!(events[0].original_year.is_none());
}

#[test]
fn anniversary_rule_recurs_from_original_year() {
    let rule = parse_rule_line("04-07-1990;[bday]Alice's Birthday").expect("a rule");
    let events = expand_rule(&rule, 2020, 2025);
    assert_eq!(events.len(), 6);
    for (i, year) in (2020..=2025).enumerate() {
        assert_eq!(events[i].date, d(year, 7, 4));
        assert_eq!(events[i].original_year, Some(1990));
        assert_eq!(events[i].description, "Alice's Birthday");
        assert_eq!(events[i].category.as_deref(), Some("bday"));
    }
}

#[test]
fn anniversary_rule_starts_no_earlier_than_its_base_year() {
    let rule = parse_rule_line("04-07-1990;[bday]Alice's Birthday").expect("a rule");
    let events = expand_rule(&rule, 1988, 1991);
    assert_eq!(events.len(), 2);
    assert_eq!(events[0].date, d(1990, 7, 4));
    assert_eq!(events[1].date, d(1991, 7, 4));
}

#[test]
fn leap_day_anniversary_skips_common_years() {
    let rule = parse_rule_line("29-02-2020;[anni]Leap Wedding").expect("a rule");
    let events = expand_rule(&rule, 2020, 2025);
    assert_eq!(events.len(), 2);
    assert_eq!(events[0].date, d(2020, 2, 29));
    assert_eq!(events[1].date, d(2024, 2, 29));
}

#[test]
fn one_shot_fixed_date_needs_its_year_in_range() {
    let rule = parse_rule_line("12/25/2024;Family visit").expect("a rule");
    assert_eq!(expand_rule(&rule, 2024, 2024).len(), 1);
    assert_eq!(expand_rule(&rule, 2025, 2026).len(), 0);
    assert_eq!(expand_rule(&rule, 2020, 2030).len(), 1);
}

#[test]
fn expansion_never_repeats_a_date() {
    let rules = [
        "E+1;Easter Monday",
        "2/29?;Leap day",
        "5/1#1;First Monday",
        "04-07-1990;[bday]Alice",
    ];
    for text in rules.iter() {
        let rule = parse_rule_line(text).expect("a rule");
        let events = expand_rule(&rule, 2019, 2026);
        for i in 0..events.len() {
            for j in 0..i {
                assert_ne!(events[i].date, events[j].date, "rule {}", text);
            }
        }
    }
}

#[test]
fn sorting_is_stable_by_date() {
    let events = vec![
        mk_event(d(2024, 5, 1), "b"),
        mk_event(d(2024, 1, 1), "a"),
        mk_event(d(2024, 5, 1), "c"),
        mk_event(d(2023, 12, 31), "z"),
    ];
    let sorted = sort_events(events);
    let names: Vec<&str> = sorted.iter().map(|e| e.description.as_str()).collect();
    assert_eq!(names, ["z", "a", "b", "c"]);
}

#[test]
fn load_events_parses_expands_and_sorts() {
    let lines = vec![
        "# holidays".to_string(),
        "12/25;Christmas".to_string(),
        "".to_string(),
        "7/4;Independence Day".to_string(),
        "E+1;Easter Monday".to_string(),
    ];
    // The expansion span runs one month past the window, so it also
    // covers the first days of 2025.
    let events = load_events(&lines, &config(2024, 1, 12));
    assert_eq!(events.len(), 6);
    assert_eq!(events[0].date, d(2024, 4, 1));
    assert_eq!(events[0].description, "Easter Monday");
    assert_eq!(events[1].date, d(2024, 7, 4));
    assert_eq!(events[2].date, d(2024, 12, 25));
    assert_eq!(events[3].date, d(2025, 4, 21));
    assert_eq!(events[4].date, d(2025, 7, 4));
    assert_eq!(events[5].date, d(2025, 12, 25));
}

#[test]
fn load_events_round_trip_yields_exactly_one_event() {
    // Window January through November 2024: the year span is {2024}.
    let lines = vec!["7/4;Independence Day".to_string()];
    let events = load_events(&lines, &config(2024, 1, 11));
    assert_eq!(events.len(), 1);
    assert_eq!(events[0].date, d(2024, 7, 4));
    assert_eq!(events[0].description, "Independence Day");
    assert!(events[0].category.is_none());
    assert!(events[0].original_year.is_none());
}

#[test]
fn load_events_metadata_line_yields_exactly_one_event() {
    let lines = vec!["7/4;[cat,red,blue,star] Party".to_string()];
    let events = load_events(&lines, &config(2024, 1, 11));
    assert_eq!(events.len(), 1);
    assert_eq!(events[0].date, d(2024, 7, 4));
    assert_eq!(events[0].description, "Party");
    assert_eq!(events[0].category.as_deref(), Some("cat"));
    assert_eq!(events[0].fg_color.as_deref(), Some("red"));
    assert_eq!(events[0].bg_color.as_deref(), Some("blue"));
}

#[test]
fn load_events_malformed_metadata_yields_exactly_one_event() {
    let lines = vec!["7/4;[red Oops".to_string()];
    let events = load_events(&lines, &config(2024, 1, 11));
    assert_eq!(events.len(), 1);
    assert_eq!(events[0].date, d(2024, 7, 4));
    assert_eq!(events[0].description, "[red Oops");
    assert!(events[0].category.is_none());
    assert!(events[0].fg_color.is_none());
    assert!(events[0].bg_color.is_none());
}

#[test]
fn load_events_one_shot_contributes_exactly_one_event() {
    let lines = vec!["12/25/2024;Family visit".to_string()];
    let inside = load_events(&lines, &config(2024, 1, 12));
    assert_eq!(inside.len(), 1);
    assert_eq!(inside[0].date, d(2024, 12, 25));
    let outside = load_events(&lines, &config(2026, 1, 11));
    assert_eq!(outside.len(), 0);
}

#[test]
fn load_events_leap_day_anniversary_yields_exactly_two() {
    let lines = vec!["29-02-2020;[bday]X".to_string()];
    let events = load_events(&lines, &config(2020, 1, 61));
    assert_eq!(events.len(), 2);
    assert_eq!(events[0].date, d(2020, 2, 29));
    assert_eq!(events[1].date, d(2024, 2, 29));
    assert_eq!(events[0].original_year, Some(2020));
    assert_eq!(events[1].original_year, Some(2020));
}

#[test]
fn load_events_covers_the_final_displayed_month() {
    // Window December 2024 through January 2025: both years expanded.
    let lines = vec!["1/1;New Year".to_string(), "12/25;Christmas".to_string()];
    let events = load_events(&lines, &config(2024, 12, 2));
    let dates: Vec<Date> = events.iter().map(|e| e.date).collect();
    assert!(dates.contains(&d(2024, 12, 25)));
    assert!(dates.contains(&d(2025, 1, 1)));
}
