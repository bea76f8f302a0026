use musiq::time::{
    add_offset, civil_from_days, days_in_month, is_leap_year, ymd_hms_to_unix_seconds, Day, Time,
};

#[test]
fn epoch_day_was_a_thursday() {
    assert_eq!(Day::from_days_since_epoch(0), Day::Thursday);
    assert_eq!(Day::from_days_since_epoch(1), Day::Friday);
    assert_eq!(Day::from_days_since_epoch(4), Day::Monday);
}

#[test]
fn weekday_of_known_timestamps() {
    // 2024-01-01T00:00:00 UTC was a Monday.
    assert_eq!(Day::from_timestamp(1704067200, 0), Day::Monday);
    // One second before midnight, shifted one hour east, is already Tuesday.
    assert_eq!(Day::from_timestamp(1704067200 + 82800, 1), Day::Tuesday);
    // 1970-01-01 with no offset.
    assert_eq!(Day::from_timestamp(0, 0), Day::Thursday);
}

#[test]
fn day_number_roundtrip() {
    for n in 0u8..7 {
        let d = Day::from_day_number(n).unwrap();
        assert_eq!(d.as_day_number(), n);
    }
    assert!(Day::from_day_number(7).is_none());
}

#[test]
fn time_of_day_from_timestamp() {
    let t = Time::from_timestamp(1704067200 + 3600 * 5 + 61, 0);
    assert_eq!(t.hours(), 5);
    assert_eq!(t.minutes(), 1);
    assert_eq!(t.seconds(), 1);
    let shifted = Time::from_timestamp(1704067200, -1);
    assert_eq!(shifted.hours(), 23);
}

#[test]
fn time_from_hms_validates() {
    assert!(Time::from_hms(24, 0, 0).is_none());
    assert!(Time::from_hms(0, 60, 0).is_none());
    assert!(Time::from_hms(0, 0, 60).is_none());
    let t = Time::from_hms(23, 59, 59).unwrap();
    assert_eq!(t.elapsed_seconds(), 86399);
    assert_eq!(t.to_hms(), (23, 59, 59));
}

#[test]
fn add_offset_saturates() {
    assert_eq!(add_offset(10, -20), 0);
    assert_eq!(add_offset(10, 20), 30);
    assert_eq!(add_offset(u64::MAX, 1), u64::MAX);
    assert_eq!(add_offset(100, -100), 0);
}

#[test]
fn leap_year_rule() {
    assert!(is_leap_year(2024));
    assert!(!is_leap_year(2023));
    assert!(is_leap_year(2000));
    assert!(!is_leap_year(1900));
    assert_eq!(days_in_month(2024, 2), Some(29));
    assert_eq!(days_in_month(2023, 2), Some(28));
    assert_eq!(days_in_month(2023, 4), Some(30));
    assert_eq!(days_in_month(2023, 1), Some(31));
    assert_eq!(days_in_month(2023, 0), None);
    assert_eq!(days_in_month(2023, 13), None);
}

#[test]
fn civil_to_unix_known_values() {
    assert_eq!(ymd_hms_to_unix_seconds(1970, 1, 1, 0, 0, 0), Some(0));
    assert_eq!(ymd_hms_to_unix_seconds(2000, 1, 1, 0, 0, 0), Some(946684800));
    assert_eq!(ymd_hms_to_unix_seconds(2000, 2, 29, 0, 0, 0), Some(951782400));
    assert_eq!(
        ymd_hms_to_unix_seconds(2024, 1, 1, 12, 30, 15),
        Some(1704067200 + 12 * 3600 + 30 * 60 + 15)
    );
}

#[test]
fn civil_to_unix_rejects_bad_fields() {
    assert_eq!(ymd_hms_to_unix_seconds(2023, 2, 29, 0, 0, 0), None);
    assert_eq!(ymd_hms_to_unix_seconds(2023, 13, 1, 0, 0, 0), None);
    assert_eq!(ymd_hms_to_unix_seconds(2023, 0, 1, 0, 0, 0), None);
    assert_eq!(ymd_hms_to_unix_seconds(2023, 1, 0, 0, 0, 0), None);
    assert_eq!(ymd_hms_to_unix_seconds(2023, 1, 32, 0, 0, 0), None);
    assert_eq!(ymd_hms_to_unix_seconds(2023, 1, 1, 24, 0, 0), None);
    assert_eq!(ymd_hms_to_unix_seconds(2023, 1, 1, 0, 60, 0), None);
    assert_eq!(ymd_hms_to_unix_seconds(2023, 1, 1, 0, 0, 60), None);
    // Before the epoch.
    assert_eq!(ymd_hms_to_unix_seconds(1969, 12, 31, 23, 59, 59), None);
    assert_eq!(ymd_hms_to_unix_seconds(1900, 2, 28, 0, 0, 0), None);
}

#[test]
fn civil_roundtrip_on_samples() {
    let samples = [
        (1970u64, 1u64, 1u64),
        (2000, 2, 29),
        (2023, 2, 28),
        (2024, 2, 29),
        (2024, 12, 31),
        (2100, 3, 1),
    ];
    for (y, m, d) in samples {
        let secs = ymd_hms_to_unix_seconds(y, m, d, 0, 0, 0).unwrap();
        assert_eq!(civil_from_days(secs / 86400), (y, m, d));
    }
}

#[test]
fn now_smoke() {
    // The clock-dependent constructors only promise a well-formed value.
    let t = Time::now(2);
    assert!(t.elapsed_seconds() < 86400);
    let _ = Day::today(2);
}

#[test]
fn civil_roundtrip_sweep() {
    // Every day across several decades, including the century leap rules.
    let start = ymd_hms_to_unix_seconds(1999, 1, 1, 0, 0, 0).unwrap() / 86400;
    let end = ymd_hms_to_unix_seconds(2101, 1, 1, 0, 0, 0).unwrap() / 86400;
    for day in start..end {
        let (y, m, d) = civil_from_days(day);
        assert_eq!(ymd_hms_to_unix_seconds(y, m, d, 0, 0, 0), Some(day * 86400));
    }
}
