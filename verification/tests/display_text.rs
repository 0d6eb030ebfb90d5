use maelstrom_desktop::display::{
    format_display_datetime, format_display_datetime_opt, format_optional_number,
    format_optional_string, preferred_reading, DateTimeParts,
};

#[test]
fn rfc3339_timestamp_is_shown_in_its_own_offset() {
    assert_eq!(
        format_display_datetime("2024-01-02T03:04:05Z"),
        Some("2024-01-02 03:04:05".to_string())
    );
    assert_eq!(
        format_display_datetime("2023-12-31T23:59:58+02:00"),
        Some("2023-12-31 23:59:58".to_string())
    );
    assert_eq!(
        format_display_datetime("2024-06-07T08:09:10.123456Z"),
        Some("2024-06-07 08:09:10".to_string())
    );
}

#[test]
fn camera_timestamp_is_shown_with_dashes() {
    assert_eq!(
        format_display_datetime("2021:07:15 18:30:00"),
        Some("2021-07-15 18:30:00".to_string())
    );
}

#[test]
fn unreadable_timestamp_gives_none() {
    assert_eq!(format_display_datetime("yesterday"), None);
    assert_eq!(format_display_datetime(""), None);
    assert_eq!(format_display_datetime("2021-07-15 18:30:00"), None);
    assert_eq!(format_display_datetime("2021:13:15 18:30:00"), None);
}

#[test]
fn optional_timestamp_falls_back_to_raw_or_na() {
    assert_eq!(format_display_datetime_opt(None), "N/A");
    assert_eq!(format_display_datetime_opt(Some("not a date")), "not a date");
    assert_eq!(format_display_datetime_opt(Some("2020:02:29 00:00:01")), "2020-02-29 00:00:01");
}

#[test]
fn optional_string_or_na() {
    assert_eq!(format_optional_string(None), "N/A");
    assert_eq!(format_optional_string(Some("Canon".to_string())), "Canon");
    assert_eq!(format_optional_string(Some(String::new())), "");
}

#[test]
fn rfc3339_reading_is_preferred() {
    let a = DateTimeParts { year: 2024, month: 1, day: 2, hour: 3, minute: 4, second: 5, nanosecond: 0 };
    let b = DateTimeParts { year: 1999, month: 12, day: 31, hour: 0, minute: 0, second: 0, nanosecond: 0 };
    assert_eq!(preferred_reading(Some(a), Some(b)), Some(a));
    assert_eq!(preferred_reading(None, Some(b)), Some(b));
    assert_eq!(preferred_reading(Some(a), None), Some(a));
    assert_eq!(preferred_reading(None, None), None);
}

#[test]
fn optional_number_in_decimal_or_na() {
    assert_eq!(format_optional_number(None), "N/A");
    assert_eq!(format_optional_number(Some(0)), "0");
    assert_eq!(format_optional_number(Some(400)), "400");
    assert_eq!(format_optional_number(Some(u64::MAX)), "18446744073709551615");
}
