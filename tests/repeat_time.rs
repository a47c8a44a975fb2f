use todo_txt::date::{Date, Weekday};
use todo_txt::repeat_time::{compute_month, next_date, next_weekday};

fn ymd(y: i32, m: u32, d: u32) -> Date {
    Date::from_ymd(y, m, d).unwrap()
}

#[test]
fn test_1_day() {
    let repeat_pattern = "1d";
    let n = next_date(repeat_pattern, Some(ymd(2021, 1, 1))).unwrap();

    assert_eq!(n.year, 2021);
    assert_eq!(n.month, 1);
    assert_eq!(n.day, 2);
}

#[test]
fn test_14_days() {
    let repeat_pattern = "14d";
    let n = next_date(repeat_pattern, Some(ymd(2021, 1, 1))).unwrap();

    assert_eq!(n.year, 2021);
    assert_eq!(n.month, 1);
    assert_eq!(n.day, 15);
}

#[test]
fn test_1_week() {
    let repeat_pattern = "1w";
    let n = next_date(repeat_pattern, Some(ymd(2021, 1, 1))).unwrap();

    assert_eq!(n.year, 2021);
    assert_eq!(n.month, 1);
    assert_eq!(n.day, 8);
}

#[test]
fn test_10_weeks() {
    let repeat_pattern = "10w";
    let n = next_date(repeat_pattern, Some(ymd(2021, 1, 1))).unwrap();

    assert_eq!(n.year, 2021, "year");
    assert_eq!(n.month, 3, "month");
    assert_eq!(n.day, 12, "day");
}

#[test]
fn test_1_month() {
    let repeat_pattern = "1m";
    let n = next_date(repeat_pattern, Some(ymd(2021, 1, 1))).unwrap();

    assert_eq!(n.year, 2021);
    assert_eq!(n.month, 2);
    assert_eq!(n.day, 1);
}

#[test]
fn test_2_months() {
    let repeat_pattern = "2m";
    let n = next_date(repeat_pattern, Some(ymd(2021, 1, 1))).unwrap();

    assert_eq!(n.year, 2021, "year");
    assert_eq!(n.month, 3, "month");
    assert_eq!(n.day, 1, "day");
}

#[test]
fn test_13_months() {
    let repeat_pattern = "13m";
    let n = next_date(repeat_pattern, Some(ymd(2021, 1, 1))).unwrap();

    assert_eq!(n.year, 2022, "year");
    assert_eq!(n.month, 2, "month");
    assert_eq!(n.day, 1, "day");
}

#[test]
fn test_1_year() {
    let repeat_pattern = "1y";
    let n = next_date(repeat_pattern, Some(ymd(2021, 1, 1))).unwrap();

    assert_eq!(n.year, 2022);
    assert_eq!(n.month, 1);
    assert_eq!(n.day, 1);
}

#[test]
fn test_next_weekday_fri_to_sat() {
    let n = next_weekday(Weekday::Sat, Some(ymd(2021, 1, 1))).unwrap();

    assert_eq!(n.year, 2021);
    assert_eq!(n.month, 1);
    assert_eq!(n.day, 2);
}

#[test]
fn test_next_weekday_fri_to_sun() {
    let n = next_weekday(Weekday::Sun, Some(ymd(2021, 1, 1))).unwrap();

    assert_eq!(n.year, 2021);
    assert_eq!(n.month, 1);
    assert_eq!(n.day, 3);
}

#[test]
fn test_next_weekday_fri_to_mon() {
    let n = next_weekday(Weekday::Mon, Some(ymd(2021, 1, 1))).unwrap();

    assert_eq!(n.year, 2021);
    assert_eq!(n.month, 1);
    assert_eq!(n.day, 4);
}

#[test]
fn test_next_weekday_fri_to_tue() {
    let n = next_weekday(Weekday::Tue, Some(ymd(2021, 1, 1))).unwrap();

    assert_eq!(n.year, 2021);
    assert_eq!(n.month, 1);
    assert_eq!(n.day, 5);
}

#[test]
fn test_next_weekday_fri_to_wed() {
    let n = next_weekday(Weekday::Wed, Some(ymd(2021, 1, 1))).unwrap();

    assert_eq!(n.year, 2021);
    assert_eq!(n.month, 1);
    assert_eq!(n.day, 6);
}

#[test]
fn test_next_weekday_fri_to_thu() {
    let n = next_weekday(Weekday::Thu, Some(ymd(2021, 1, 1))).unwrap();

    assert_eq!(n.year, 2021);
    assert_eq!(n.month, 1);
    assert_eq!(n.day, 7);
}

#[test]
fn test_next_weekday_fri_to_fri() {
    let n = next_weekday(Weekday::Fri, Some(ymd(2021, 1, 1))).unwrap();

    assert_eq!(n.year, 2021);
    assert_eq!(n.month, 1);
    assert_eq!(n.day, 1);
}

#[test]
fn next_weekday_without_reference_lands_on_weekday() {
    let n = next_weekday(Weekday::Wed, None).unwrap();
    let again = next_weekday(Weekday::Wed, Some(n)).unwrap();
    assert_eq!(again, n);
}

#[test]
fn next_weekday_crosses_month_and_year() {
    // 2021-12-31 is a Friday
    let n = next_weekday(Weekday::Mon, Some(ymd(2021, 12, 31))).unwrap();
    assert_eq!(n, ymd(2022, 1, 3));
}

#[test]
fn month_step_clamps_to_month_end() {
    assert_eq!(next_date("1m", Some(ymd(2021, 1, 31))), Some(ymd(2021, 2, 28)));
    assert_eq!(next_date("1m", Some(ymd(2024, 1, 31))), Some(ymd(2024, 2, 29)));
    assert_eq!(compute_month(ymd(2021, 12, 15), 1), Some(ymd(2022, 1, 15)));
    assert_eq!(compute_month(ymd(2021, 5, 31), 0), Some(ymd(2021, 5, 31)));
}

#[test]
fn year_step_clamps_leap_day() {
    assert_eq!(next_date("1y", Some(ymd(2024, 2, 29))), Some(ymd(2025, 2, 28)));
    assert_eq!(next_date("4y", Some(ymd(2024, 2, 29))), Some(ymd(2028, 2, 29)));
}

#[test]
fn days_cross_leap_february() {
    assert_eq!(next_date("1d", Some(ymd(2024, 2, 28))), Some(ymd(2024, 2, 29)));
    assert_eq!(next_date("1d", Some(ymd(2023, 2, 28))), Some(ymd(2023, 3, 1)));
    assert_eq!(next_date("365d", Some(ymd(2021, 1, 1))), Some(ymd(2022, 1, 1)));
}

#[test]
fn bad_patterns_give_none() {
    let d = ymd(2021, 1, 1);
    assert_eq!(next_date("", Some(d)), None);
    assert_eq!(next_date("d", Some(d)), None);
    assert_eq!(next_date("1x", Some(d)), None);
    assert_eq!(next_date("1 d", Some(d)), None);
    assert_eq!(next_date("-1d", Some(d)), None);
    assert_eq!(next_date("99999999999d", Some(d)), None);
}

#[test]
fn later_than_reference_for_positive_frequency() {
    let d = ymd(2021, 3, 31);
    for p in ["1d", "3w", "1m", "11m", "1y"] {
        let n = next_date(p, Some(d)).unwrap();
        assert!((n.year, n.month, n.day) > (d.year, d.month, d.day), "{}", p);
    }
    for p in ["0d", "0w", "00m", "0y"] {
        assert_eq!(next_date(p, Some(d)), None, "{}", p);
    }
}

#[test]
fn invalid_dates_are_refused() {
    assert_eq!(Date::from_ymd(2021, 2, 29), None);
    assert_eq!(Date::from_ymd(2021, 13, 1), None);
    assert_eq!(Date::from_ymd(2021, 4, 31), None);
    assert!(Date::from_ymd(2000, 2, 29).is_some());
    assert_eq!(Date::from_ymd(1900, 2, 29), None);
}

#[test]
fn iso_text_of_dates() {
    assert_eq!(ymd(2021, 1, 2).to_iso_string(), "2021-01-02");
    assert_eq!(ymd(33, 11, 30).to_iso_string(), "0033-11-30");
}
