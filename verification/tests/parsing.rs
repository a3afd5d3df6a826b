use samepic::exif_datetime::parse_exif_datetime;

#[test]
fn well_formed_values_parse() {
    assert_eq!(parse_exif_datetime("2016:05:04 03:02:01"), Some(1462330921));
    assert_eq!(parse_exif_datetime("1970:01:01 00:00:00"), Some(0));
    assert_eq!(parse_exif_datetime("9999:12:31 23:59:59"), Some(253402300799));
    assert_eq!(parse_exif_datetime("0001:01:01 00:00:00"), Some(-62135596800));
}

#[test]
fn trailing_characters_are_ignored() {
    assert_eq!(
        parse_exif_datetime("2016:05:04 03:02:01.500"),
        Some(1462330921)
    );
}

#[test]
fn malformed_values_do_not_parse() {
    assert_eq!(parse_exif_datetime(""), None);
    assert_eq!(parse_exif_datetime("2016:05:04"), None);
    assert_eq!(parse_exif_datetime("2016-05-04 03:02:01"), None);
    assert_eq!(parse_exif_datetime("2016:05:04T03:02:01"), None);
    assert_eq!(parse_exif_datetime("    :  :     :  :  "), None);
    assert_eq!(parse_exif_datetime("20x6:05:04 03:02:01"), None);
}

#[test]
fn out_of_range_fields_do_not_parse() {
    assert_eq!(parse_exif_datetime("2016:13:04 03:02:01"), None);
    assert_eq!(parse_exif_datetime("2016:00:04 03:02:01"), None);
    assert_eq!(parse_exif_datetime("2016:02:30 03:02:01"), None);
    assert_eq!(parse_exif_datetime("2016:05:00 03:02:01"), None);
    assert_eq!(parse_exif_datetime("2016:05:04 24:02:01"), None);
    assert_eq!(parse_exif_datetime("2016:05:04 03:60:01"), None);
    assert_eq!(parse_exif_datetime("2016:05:04 03:02:60"), None);
    assert_eq!(parse_exif_datetime("0000:01:01 00:00:00"), None);
}

#[test]
fn leap_days_parse_only_in_leap_years() {
    assert_eq!(parse_exif_datetime("2024:02:29 12:00:00"), Some(1709208000));
    assert_eq!(parse_exif_datetime("2023:02:29 12:00:00"), None);
}
