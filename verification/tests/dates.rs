use leave_digest::date::{parse_date, Date, FRIDAY, MONDAY, SATURDAY, SUNDAY, THURSDAY, WEDNESDAY};

fn d(year: u32, month: u32, day: u32) -> Date {
    Date { year, month, day }
}

#[test]
fn weekdays_of_known_dates() {
    assert_eq!(d(2024, 4, 1).weekday_from_monday(), MONDAY);
    assert_eq!(d(2024, 4, 3).weekday_from_monday(), WEDNESDAY);
    assert_eq!(d(2024, 4, 5).weekday_from_monday(), FRIDAY);
    assert_eq!(d(2024, 4, 6).weekday_from_monday(), SATURDAY);
    assert_eq!(d(2024, 4, 7).weekday_from_monday(), SUNDAY);
    assert_eq!(d(2024, 4, 8).weekday_from_monday(), MONDAY);
    assert_eq!(d(2001, 1, 1).weekday_from_monday(), MONDAY);
    assert_eq!(d(1970, 1, 1).weekday_from_monday(), THURSDAY);
}

#[test]
fn next_day_rolls_over_months_and_years() {
    assert_eq!(d(2024, 4, 30).next_day(), d(2024, 5, 1));
    assert_eq!(d(2024, 12, 31).next_day(), d(2025, 1, 1));
    assert_eq!(d(2024, 2, 28).next_day(), d(2024, 2, 29));
    assert_eq!(d(2024, 2, 29).next_day(), d(2024, 3, 1));
    assert_eq!(d(2023, 2, 28).next_day(), d(2023, 3, 1));
    assert_eq!(d(2100, 2, 28).next_day(), d(2100, 3, 1));
    assert_eq!(d(2000, 2, 28).next_day(), d(2000, 2, 29));
}

#[test]
fn add_days_spans_months() {
    assert_eq!(d(2024, 4, 3).add_days(7), d(2024, 4, 10));
    assert_eq!(d(2024, 4, 3).add_days(365), d(2025, 4, 3));
    assert_eq!(d(2024, 1, 31).add_days(30), d(2024, 3, 1));
}

#[test]
fn checked_add_days_at_the_range_end() {
    assert_eq!(d(9999, 12, 30).checked_add_days(1), Some(d(9999, 12, 31)));
    assert_eq!(d(9999, 12, 31).checked_add_days(1), None);
    assert_eq!(d(9999, 12, 31).checked_add_days(0), Some(d(9999, 12, 31)));
}

#[test]
fn calendar_order() {
    assert!(d(2024, 4, 3).on_or_before(&d(2024, 4, 3)));
    assert!(d(2024, 4, 3).on_or_before(&d(2024, 4, 4)));
    assert!(!d(2024, 4, 4).on_or_before(&d(2024, 4, 3)));
    assert!(d(2023, 12, 31).on_or_before(&d(2024, 1, 1)));
}

#[test]
fn parse_date_accepts_the_exact_shape() {
    assert_eq!(parse_date("2024-04-03"), Some(d(2024, 4, 3)));
    assert_eq!(parse_date("2024-12-31"), Some(d(2024, 12, 31)));
    assert_eq!(parse_date("0001-01-01"), Some(d(1, 1, 1)));
}

#[test]
fn parse_date_rejects_malformed_text() {
    assert_eq!(parse_date(""), None);
    assert_eq!(parse_date("2024-4-3"), None);
    assert_eq!(parse_date("2024/04/03"), None);
    assert_eq!(parse_date("2024-04-03x"), None);
    assert_eq!(parse_date("yyyy-mm-dd"), None);
}

#[test]
fn parse_date_rejects_impossible_dates() {
    assert_eq!(parse_date("2024-13-01"), None);
    assert_eq!(parse_date("2024-00-10"), None);
    assert_eq!(parse_date("2024-02-30"), None);
    assert_eq!(parse_date("2023-02-29"), None);
    assert_eq!(parse_date("0000-01-01"), None);
}

#[test]
fn iso_rendering_round_trips() {
    assert_eq!(d(2024, 4, 3).iso_string(), "2024-04-03");
    assert_eq!(d(1, 1, 1).iso_string(), "0001-01-01");
    assert_eq!(d(9999, 12, 31).iso_string(), "9999-12-31");
    for date in [d(2024, 4, 3), d(1, 1, 1), d(9999, 12, 31), d(2000, 2, 29)] {
        assert_eq!(parse_date(&date.iso_string()), Some(date));
    }
}

#[test]
fn validity_check() {
    assert!(d(2024, 2, 29).check_valid());
    assert!(!d(2023, 2, 29).check_valid());
    assert!(!d(2024, 4, 31).check_valid());
    assert!(!d(2024, 0, 1).check_valid());
    assert!(d(9999, 12, 31).check_valid());
}
