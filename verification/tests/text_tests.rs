use hsstats::parse_i64;
use hsstats::parse_label_num;
use hsstats::parse_timestamp;
use hsstats::Timestamp;

#[test]
fn parses_plain_integers() {
    assert_eq!(parse_i64("0"), Some(0));
    assert_eq!(parse_i64("12"), Some(12));
    assert_eq!(parse_i64("-5"), Some(-5));
    assert_eq!(parse_i64("007"), Some(7));
}

#[test]
fn rejects_non_numeric_tokens() {
    assert_eq!(parse_i64(""), None);
    assert_eq!(parse_i64("-"), None);
    assert_eq!(parse_i64("3a"), None);
    assert_eq!(parse_i64("a3"), None);
    assert_eq!(parse_i64("+3"), None);
    assert_eq!(parse_i64("1 2"), None);
}

#[test]
fn rejects_overflowing_integers() {
    assert_eq!(parse_i64("9223372036854775807"), Some(i64::MAX));
    assert_eq!(parse_i64("-9223372036854775807"), Some(-i64::MAX));
    assert_eq!(parse_i64("9223372036854775808"), None);
    assert_eq!(parse_i64("99999999999999999999999"), None);
}

#[test]
fn reads_the_number_after_the_first_space() {
    assert_eq!(parse_label_num("Season 42"), Some(42));
    assert_eq!(parse_label_num("Season 3 extra"), Some(3));
    assert_eq!(parse_label_num("Season"), None);
    assert_eq!(parse_label_num("SeasonX"), None);
    assert_eq!(parse_label_num("Season  3"), None);
    assert_eq!(parse_label_num("Season abc"), None);
}

#[test]
fn parses_a_full_timestamp() {
    let t = parse_timestamp("2015-03-27 18:02:42").unwrap();
    let expected = Timestamp { year: 2015, month: 3, day: 27, hour: 18, minute: 2, second: 42 };
    assert!(t == expected);
}

#[test]
fn rejects_badly_shaped_timestamps() {
    assert!(parse_timestamp("").is_none());
    assert!(parse_timestamp("2015-03-27").is_none());
    assert!(parse_timestamp("2015/03/27 18:02:42").is_none());
    assert!(parse_timestamp("2015-03-27 18:02:4x").is_none());
    assert!(parse_timestamp("2015-03-27  8:02:42").is_none());
}

#[test]
fn rejects_out_of_range_timestamps() {
    assert!(parse_timestamp("2015-00-10 00:00:00").is_none());
    assert!(parse_timestamp("2015-13-10 00:00:00").is_none());
    assert!(parse_timestamp("2015-01-00 00:00:00").is_none());
    assert!(parse_timestamp("2015-01-32 00:00:00").is_none());
    assert!(parse_timestamp("2015-04-31 00:00:00").is_none());
    assert!(parse_timestamp("2015-01-10 24:00:00").is_none());
    assert!(parse_timestamp("2015-01-10 00:60:00").is_none());
    assert!(parse_timestamp("2015-01-10 00:00:60").is_none());
}

#[test]
fn applies_leap_year_rules() {
    assert!(parse_timestamp("2016-02-29 00:00:00").is_some());
    assert!(parse_timestamp("2015-02-29 00:00:00").is_none());
    assert!(parse_timestamp("2000-02-29 00:00:00").is_some());
    assert!(parse_timestamp("1900-02-29 00:00:00").is_none());
}
