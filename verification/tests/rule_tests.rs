use ecal::date::{from_ymd, Date};
use ecal::rules::{calculate_date_from_rule, find_nth_dow, parse_fixed_date_rule};

fn d(y: i32, m: u32, day: u32) -> Date {
    from_ymd(y, m, day).expect("valid date")
}

#[test]
fn first_monday_of_may() {
    assert_eq!(calculate_date_from_rule("5/1#1", 2023), Some(d(2023, 5, 1)));
}

#[test]
fn fifth_monday_falls_back_to_last() {
    // January 2021 has four Mondays, so the rule takes the last one.
    assert_eq!(calculate_date_from_rule("1/1#5", 2021), Some(d(2021, 1, 25)));
    // January 2024 has five Mondays (the 1st through the 29th), so
    // the literal fifth is kept.
    assert_eq!(calculate_date_from_rule("1/1#5", 2024), Some(d(2024, 1, 29)));
}

#[test]
fn fifth_thursday_of_november_2024_is_the_last() {
    // November 2024 has four Thursdays; the rule falls back to the 28th.
    assert_eq!(find_nth_dow(2024, 11, 4, 5), Some(d(2024, 11, 28)));
    // A month with five occurrences keeps the literal fifth.
    // October 2024 has five Thursdays: 3, 10, 17, 24, 31.
    assert_eq!(find_nth_dow(2024, 10, 4, 5), Some(d(2024, 10, 31)));
}

#[test]
fn nth_weekday_rejects_bad_arguments() {
    assert!(find_nth_dow(2024, 13, 1, 1).is_none());
    assert!(find_nth_dow(2024, 1, 8, 1).is_none());
    assert!(find_nth_dow(2024, 1, 0, 1).is_none());
    assert!(find_nth_dow(2024, 1, 1, 0).is_none());
    assert!(find_nth_dow(2024, 1, 1, 6).is_none());
}

#[test]
fn sunday_weekday_code_zero_maps_to_seven() {
    // First Sunday of September 2024 is the 1st.
    assert_eq!(calculate_date_from_rule("9/0#1", 2024), Some(d(2024, 9, 1)));
}

#[test]
fn easter_rules_with_offsets() {
    assert_eq!(calculate_date_from_rule("E", 2024), Some(d(2024, 3, 31)));
    assert_eq!(calculate_date_from_rule("E+1", 2024), Some(d(2024, 4, 1)));
    assert_eq!(calculate_date_from_rule("E-2", 2024), Some(d(2024, 3, 29)));
    assert_eq!(calculate_date_from_rule("E50", 2024), Some(d(2024, 5, 20)));
    assert!(calculate_date_from_rule("E", 1582).is_none());
    assert!(calculate_date_from_rule("Easter", 2024).is_none());
    assert!(calculate_date_from_rule("E+", 2024).is_none());
}

#[test]
fn annual_rules() {
    assert_eq!(calculate_date_from_rule("7/4", 2024), Some(d(2024, 7, 4)));
    assert_eq!(calculate_date_from_rule(" 12/25 ", 2024), Some(d(2024, 12, 25)));
    assert!(calculate_date_from_rule("2/30", 2024).is_none());
    assert!(calculate_date_from_rule("13/1", 2024).is_none());
    assert!(calculate_date_from_rule("7-4", 2024).is_none());
    assert!(calculate_date_from_rule("hello", 2024).is_none());
    assert!(calculate_date_from_rule("", 2024).is_none());
}

#[test]
fn conditional_rules_fire_only_on_the_named_weekday() {
    // 4 July 2024 is a Thursday (weekday code 4, Sunday being 0).
    assert_eq!(calculate_date_from_rule("7/4?4+1", 2024), Some(d(2024, 7, 5)));
    assert_eq!(calculate_date_from_rule("7/4?4-2", 2024), Some(d(2024, 7, 2)));
    // Not a Friday that year: no event.
    assert!(calculate_date_from_rule("7/4?5+1", 2024).is_none());
    // Weekday digit out of range: malformed.
    assert!(calculate_date_from_rule("7/4?7+1", 2024).is_none());
    // Bad operator: malformed.
    assert!(calculate_date_from_rule("7/4?4*1", 2024).is_none());
}

#[test]
fn conditional_shorthand_degrades_to_plain_date() {
    assert_eq!(calculate_date_from_rule("12/26?", 2024), Some(d(2024, 12, 26)));
    assert_eq!(calculate_date_from_rule("12/26?2024", 2024), Some(d(2024, 12, 26)));
    assert_eq!(calculate_date_from_rule("12/26?2024", 2025), Some(d(2025, 12, 26)));
}

#[test]
fn fixed_date_formats() {
    assert_eq!(parse_fixed_date_rule("04-07-1990"), Some(d(1990, 7, 4)));
    assert_eq!(parse_fixed_date_rule("12/25/2024"), Some(d(2024, 12, 25)));
    assert_eq!(parse_fixed_date_rule("2024-05-17"), Some(d(2024, 5, 17)));
    assert_eq!(parse_fixed_date_rule("4-7-1990"), Some(d(1990, 7, 4)));
    assert!(parse_fixed_date_rule("31-02-2020").is_none());
    assert!(parse_fixed_date_rule("7/4").is_none());
    assert!(parse_fixed_date_rule("2024-13-01").is_none());
    assert!(parse_fixed_date_rule("hello").is_none());
}

#[test]
fn huge_numbers_never_panic() {
    assert!(calculate_date_from_rule("E+99999999999999999999", 2024).is_none());
    assert!(calculate_date_from_rule("99999999999/1", 2024).is_none());
    assert!(calculate_date_from_rule("1/1#99999999999", 2024).is_none());
}
