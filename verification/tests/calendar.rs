use samepic::timestamp::{
    epoch_day_from_ymd, leap_year, month_length, timestamp_day, timestamp_from_ymd_hms,
    timestamp_second_of_day, ymd_from_epoch_day,
};

#[test]
fn epoch_day_of_known_dates() {
    assert_eq!(epoch_day_from_ymd(1970, 1, 1), 0);
    assert_eq!(epoch_day_from_ymd(1970, 1, 2), 1);
    assert_eq!(epoch_day_from_ymd(1969, 12, 31), -1);
    assert_eq!(epoch_day_from_ymd(2000, 3, 1), 11017);
    assert_eq!(epoch_day_from_ymd(2024, 1, 1), 19723);
    assert_eq!(epoch_day_from_ymd(1, 1, 1), -719162);
    assert_eq!(epoch_day_from_ymd(9999, 12, 31), 2932896);
}

#[test]
fn ymd_of_known_days() {
    assert_eq!(ymd_from_epoch_day(0), (1970, 1, 1));
    assert_eq!(ymd_from_epoch_day(-1), (1969, 12, 31));
    assert_eq!(ymd_from_epoch_day(19723), (2024, 1, 1));
    assert_eq!(ymd_from_epoch_day(11017), (2000, 3, 1));
    assert_eq!(ymd_from_epoch_day(-719162), (1, 1, 1));
    assert_eq!(ymd_from_epoch_day(2932896), (9999, 12, 31));
}

#[test]
fn day_conversions_round_trip() {
    for day in [-719162i64, -1, 0, 59, 11016, 11017, 19723, 2932896] {
        let (y, m, d) = ymd_from_epoch_day(day);
        assert_eq!(epoch_day_from_ymd(y, m, d), day);
    }
}

#[test]
fn leap_year_rules() {
    assert!(leap_year(2000));
    assert!(leap_year(2024));
    assert!(!leap_year(1900));
    assert!(!leap_year(2023));
    assert_eq!(month_length(2024, 2), 29);
    assert_eq!(month_length(2023, 2), 28);
    assert_eq!(month_length(2023, 4), 30);
    assert_eq!(month_length(2023, 12), 31);
}

#[test]
fn timestamp_of_known_moment() {
    assert_eq!(timestamp_from_ymd_hms(2016, 5, 4, 3, 2, 1), 1462330921);
    assert_eq!(timestamp_from_ymd_hms(1970, 1, 1, 0, 0, 0), 0);
}

#[test]
fn timestamp_day_and_second() {
    assert_eq!(timestamp_day(0), 0);
    assert_eq!(timestamp_day(86399), 0);
    assert_eq!(timestamp_day(86400), 1);
    assert_eq!(timestamp_day(-1), -1);
    assert_eq!(timestamp_second_of_day(-1), 86399);
    assert_eq!(timestamp_second_of_day(1462330921), 3 * 3600 + 2 * 60 + 1);
}
