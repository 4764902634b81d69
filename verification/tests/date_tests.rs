use exchange_engine::date::{day_from_ymd, format_date, parse_date, ymd_from_day};

#[test]
fn day_numbers_match_the_civil_calendar() {
    // January 1 of year 1 is day 1; year 1 has 365 days.
    assert_eq!(day_from_ymd(1, 1, 1), 1);
    assert_eq!(day_from_ymd(2, 1, 1), 366);
    // The Unix epoch, as counted from year 1.
    assert_eq!(day_from_ymd(1970, 1, 1), 719_163);
    // A leap day exists in 2024 but not in 1900.
    assert_eq!(day_from_ymd(2024, 3, 1) - day_from_ymd(2024, 2, 1), 29);
    assert_eq!(day_from_ymd(1900, 3, 1) - day_from_ymd(1900, 2, 1), 28);
}

#[test]
fn civil_round_trip() {
    for &(y, m, d) in &[(2024, 2, 29), (1999, 12, 31), (1, 1, 1), (9999, 12, 31), (2000, 2, 29)] {
        let day = day_from_ymd(y, m, d);
        assert_eq!(ymd_from_day(day), (y, m, d));
    }
}

#[test]
fn formats_dates_fixed_width() {
    assert_eq!(format_date(day_from_ymd(2024, 1, 5)), "2024-01-05");
    assert_eq!(format_date(day_from_ymd(987, 11, 30)), "0987-11-30");
    assert_eq!(format_date(1), "0001-01-01");
}

#[test]
fn parses_valid_dates() {
    assert_eq!(parse_date("2024-01-05"), Some(day_from_ymd(2024, 1, 5)));
    assert_eq!(parse_date("0001-01-01"), Some(1));
    assert_eq!(parse_date("2024-02-29"), Some(day_from_ymd(2024, 2, 29)));
}

#[test]
fn rejects_invalid_dates() {
    assert_eq!(parse_date("2023-02-29"), None);
    assert_eq!(parse_date("2024-13-01"), None);
    assert_eq!(parse_date("2024-00-10"), None);
    assert_eq!(parse_date("2024-1-05"), None);
    assert_eq!(parse_date("20240105"), None);
    assert_eq!(parse_date(""), None);
    assert_eq!(parse_date("not a date"), None);
    assert_eq!(parse_date("0000-01-01"), None);
}
