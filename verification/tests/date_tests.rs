use chrono::Datelike;
use ecal::date::{add_days, date_le, day_number, days_in_month, from_day_number, from_ymd, leap_year, weekday, Date};
use ecal::easter::calculate_easter_date;
use ecal::grid::{get_week_start_day, iso_week_number, weeks_in_month};

fn d(y: i32, m: u32, day: u32) -> Date {
    from_ymd(y, m, day).expect("valid date")
}

#[test]
fn leap_years_follow_gregorian_rules() {
    assert!(leap_year(2024));
    assert!(!leap_year(2023));
    assert!(!leap_year(1900));
    assert!(leap_year(2000));
}

#[test]
fn month_lengths_handle_february() {
    assert_eq!(days_in_month(2024, 2), 29);
    assert_eq!(days_in_month(2023, 2), 28);
    assert_eq!(days_in_month(2024, 9), 30);
    assert_eq!(days_in_month(2024, 12), 31);
}

#[test]
fn from_ymd_rejects_nonexistent_days() {
    assert!(from_ymd(2024, 2, 30).is_none());
    assert!(from_ymd(2023, 2, 29).is_none());
    assert!(from_ymd(2024, 13, 1).is_none());
    assert!(from_ymd(2024, 0, 1).is_none());
    assert!(from_ymd(0, 1, 1).is_none());
    assert!(from_ymd(10000, 1, 1).is_none());
    assert!(from_ymd(2024, 2, 29).is_some());
}

#[test]
fn weekdays_match_chrono() {
    let samples = [
        (2024, 7, 4),
        (2024, 1, 1),
        (2023, 12, 31),
        (1990, 7, 4),
        (1600, 2, 29),
        (2024, 9, 1),
        (1583, 10, 4),
    ];
    for &(y, m, day) in samples.iter() {
        let mine = weekday(&d(y, m, day));
        let theirs = chrono::NaiveDate::from_ymd_opt(y, m, day)
            .unwrap()
            .weekday()
            .num_days_from_monday();
        assert_eq!(mine, theirs, "weekday of {}-{}-{}", y, m, day);
    }
}

#[test]
fn day_numbers_round_trip() {
    let samples = [(1, 1, 1), (2024, 7, 4), (9999, 12, 31), (1990, 2, 28)];
    for &(y, m, day) in samples.iter() {
        let dd = d(y, m, day);
        let n = day_number(&dd);
        assert_eq!(from_day_number(n), Some(dd));
    }
    assert_eq!(day_number(&d(1, 1, 1)), 0);
    assert!(from_day_number(-1).is_none());
}

#[test]
fn add_days_crosses_month_and_year_bounds() {
    assert_eq!(add_days(&d(2024, 12, 31), 1), Some(d(2025, 1, 1)));
    assert_eq!(add_days(&d(2024, 3, 1), -1), Some(d(2024, 2, 29)));
    assert_eq!(add_days(&d(2024, 1, 1), 0), Some(d(2024, 1, 1)));
    assert!(add_days(&d(9999, 12, 31), 1).is_none());
    assert!(add_days(&d(1, 1, 1), -1).is_none());
}

#[test]
fn date_ordering_is_calendar_order() {
    assert!(date_le(&d(2024, 1, 31), &d(2024, 2, 1)));
    assert!(date_le(&d(2024, 2, 1), &d(2024, 2, 1)));
    assert!(!date_le(&d(2025, 1, 1), &d(2024, 12, 31)));
}

#[test]
fn easter_dates_match_known_years() {
    assert_eq!(calculate_easter_date(2024), Some(d(2024, 3, 31)));
    assert_eq!(calculate_easter_date(2025), Some(d(2025, 4, 20)));
    assert_eq!(calculate_easter_date(2000), Some(d(2000, 4, 23)));
    assert_eq!(calculate_easter_date(1818), Some(d(1818, 3, 22)));
    assert!(calculate_easter_date(1582).is_none());
    assert!(calculate_easter_date(0).is_none());
}

#[test]
fn easter_falls_on_sunday_in_spring() {
    for y in 1583..2200 {
        let e = calculate_easter_date(y).expect("easter exists");
        assert_eq!(weekday(&e), 6, "easter {} on a Sunday", y);
        let after_march_21 = e.month == 4 || (e.month == 3 && e.day >= 22);
        let before_april_26 = e.month == 3 || (e.month == 4 && e.day <= 25);
        assert!(after_march_21 && before_april_26, "easter {} in spring window", y);
    }
}

#[test]
fn iso_weeks_match_chrono() {
    let samples = [
        (2024, 1, 1),
        (2023, 1, 1),
        (2024, 12, 31),
        (2021, 1, 1),
        (2024, 9, 1),
        (2020, 12, 31),
        (2019, 12, 30),
    ];
    for &(y, m, day) in samples.iter() {
        let mine = iso_week_number(&d(y, m, day));
        let theirs = chrono::NaiveDate::from_ymd_opt(y, m, day).unwrap().iso_week().week();
        assert_eq!(mine, theirs, "iso week of {}-{}-{}", y, m, day);
    }
}

#[test]
fn sunday_start_month_grid() {
    // September 2024 starts on a Sunday.
    let first = d(2024, 9, 1);
    assert_eq!(get_week_start_day(&first, 0, true), -5);
    assert_eq!(weeks_in_month(&first, true), 6);
    // Cells 0..5 of week row 0 hold no day; cell 6 holds day 1.
    for c in 0..6 {
        assert!(get_week_start_day(&first, 0, true) + c < 1);
    }
    assert_eq!(get_week_start_day(&first, 0, true) + 6, 1);
    // With Sunday as week start the offset vanishes.
    assert_eq!(get_week_start_day(&first, 0, false), 1);
    assert_eq!(weeks_in_month(&first, false), 5);
}
