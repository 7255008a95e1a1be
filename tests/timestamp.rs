use solhat::timestamp::TimeStamp;

#[test]
fn decodes_calendar_fields() {
    let ts = TimeStamp::from_u64(637648348476340000);
    assert_eq!(ts.timestamp, 637648348476340000);
    assert_eq!((ts.year, ts.month, ts.day), (2021, 8, 17));
    assert_eq!((ts.hour, ts.minute, ts.second), (22, 7, 27));
    assert_eq!(ts.microsecond, 634000);
}

#[test]
fn decodes_epochs() {
    let zero = TimeStamp::from_u64(0);
    assert_eq!((zero.year, zero.month, zero.day, zero.hour), (1, 1, 1, 0));
    let unix = TimeStamp::from_u64(621355968000000000);
    assert_eq!((unix.year, unix.month, unix.day), (1970, 1, 1));
    assert_eq!(unix.to_unix_timestamp(), 0);
}

#[test]
fn leap_years() {
    assert!(TimeStamp::is_leap_year(2000));
    assert!(!TimeStamp::is_leap_year(1900));
    assert!(TimeStamp::is_leap_year(2024));
    assert!(!TimeStamp::is_leap_year(2023));
    let feb29 = TimeStamp::from_u64(630822816000000000 + 59 * 864000000000);
    assert_eq!((feb29.year, feb29.month, feb29.day), (2000, 2, 29));
    let mar1 = TimeStamp::from_u64(630822816000000000 + 60 * 864000000000);
    assert_eq!((mar1.year, mar1.month, mar1.day), (2000, 3, 1));
}

#[test]
fn unix_time_of_ticks() {
    assert_eq!(TimeStamp::from_u64(637648348476340000).to_unix_timestamp(), 1629238047);
    assert_eq!(TimeStamp::from_u64(630822816000000000).to_unix_timestamp(), 946684800);
    assert_eq!(TimeStamp::from_u64(0).to_unix_timestamp(), -62135596800);
    let last = TimeStamp::from_u64(u64::MAX);
    assert_eq!(last.to_unix_timestamp(), (u64::MAX / 10000000) as i64 - 62135596800);
}
