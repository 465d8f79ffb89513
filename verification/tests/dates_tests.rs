use sync_server::dates::{
    civil_from_days, day_num_from_unix_ms, day_utc_from_unix_ms, days_from_civil,
    format_day_utc_from_days, month_utc_from_unix_ms, parse_day_utc, parse_ymd,
};

#[test]
fn day_round_trip_examples() {
    assert_eq!(day_utc_from_unix_ms(0), "1970-01-01");
    assert_eq!(parse_day_utc("1970-01-01"), Some(0));
    assert_eq!(format_day_utc_from_days(0), "1970-01-01");

    let day = parse_day_utc("2025-12-29").expect("parse");
    assert_eq!(format_day_utc_from_days(day), "2025-12-29");

    let day2 = parse_day_utc("2000-02-29").expect("leap");
    assert_eq!(format_day_utc_from_days(day2), "2000-02-29");
}

#[test]
fn civil_conversion_examples() {
    assert_eq!(civil_from_days(0), (1970, 1, 1));
    assert_eq!(days_from_civil(1970, 1, 1), 0);
    assert_eq!(civil_from_days(19723), (2024, 1, 1));
    assert_eq!(days_from_civil(2024, 1, 1), 19723);
    // A day before the epoch.
    assert_eq!(civil_from_days(-1), (1969, 12, 31));
    assert_eq!(days_from_civil(1969, 12, 31), -1);
}

#[test]
fn day_number_floors_negative_timestamps() {
    assert_eq!(day_num_from_unix_ms(0), 0);
    assert_eq!(day_num_from_unix_ms(86_400_000), 1);
    assert_eq!(day_num_from_unix_ms(-1), -1);
    assert_eq!(day_num_from_unix_ms(-86_400_000), -1);
    assert_eq!(day_num_from_unix_ms(-86_400_001), -2);
}

#[test]
fn month_key_is_year_times_hundred_plus_month() {
    // 2024-01-15 12:00:00 UTC
    let ms = (19723i64 + 14) * 86_400_000 + 43_200_000;
    assert_eq!(month_utc_from_unix_ms(ms), 202401);
    assert_eq!(month_utc_from_unix_ms(0), 197001);
}

#[test]
fn parse_ymd_rejects_malformed_input() {
    assert_eq!(parse_ymd("2024-01-15"), Some((2024, 1, 15)));
    assert_eq!(parse_ymd("  2024-01-15  "), Some((2024, 1, 15)));
    assert_eq!(parse_ymd("2024-13-01"), None);
    assert_eq!(parse_ymd("2024-00-01"), None);
    assert_eq!(parse_ymd("2024-01-32"), None);
    assert_eq!(parse_ymd("2024-01"), None);
    assert_eq!(parse_ymd("2024-01-15-16"), None);
    assert_eq!(parse_ymd("abcd-01-15"), None);
    assert_eq!(parse_ymd(""), None);
}
