use hledger_parse::date::parse_date;
use hledger_parse::{Date, HLParserError, ParseFailure, ValidationError};

fn d(y: i32, m: u32, day: u32) -> Date {
    Date::from_ymd_opt(y, m, day).unwrap()
}

#[test]
fn test_parse_date_dash() {
    let s = "2020-01-01";
    assert_eq!(parse_date(s, 0).unwrap(), (d(2020, 1, 1), None, 10));
}

#[test]
fn test_parse_date_slash() {
    let s = "2020/01/01";
    assert_eq!(parse_date(s, 0).unwrap(), (d(2020, 1, 1), None, 10));
}

#[test]
fn test_parse_date_dot() {
    let s = "2020.01.01";
    assert_eq!(parse_date(s, 0).unwrap(), (d(2020, 1, 1), None, 10));
}

#[test]
fn test_parse_date_invalid_month() {
    assert!(matches!(
        parse_date("2020.13.01", 0),
        Err(ParseFailure::Fatal(HLParserError::Validation(
            ValidationError::InvalidDateComponents(Some(2020), 13, 1)
        )))
    ));
    assert!(matches!(
        parse_date("2020.00.01", 0),
        Err(ParseFailure::Fatal(HLParserError::Validation(
            ValidationError::InvalidDateComponents(Some(2020), 0, 1)
        )))
    ));
}

#[test]
fn test_parse_date_invalid_day() {
    assert!(parse_date("2021.02.29", 0).is_err());
    assert!(parse_date("2021.02.60", 0).is_err());
}

#[test]
fn test_parse_date_mix_separator() {
    assert!(parse_date("2021/02.29", 0).is_err());
}

#[test]
fn test_parse_date_secondary_dash() {
    let s = "2021-01-01=2021-01-05";
    assert_eq!(
        parse_date(s, 0).unwrap(),
        (d(2021, 1, 1), Some(d(2021, 1, 5)), 21)
    );
}

#[test]
fn test_parse_date_secondary_slash() {
    let s = "2021/01/01=2021/01/05";
    assert_eq!(
        parse_date(s, 0).unwrap(),
        (d(2021, 1, 1), Some(d(2021, 1, 5)), 21)
    );
}

#[test]
fn test_parse_date_secondary_dot() {
    let s = "2021.01.01=2021.01.05";
    assert_eq!(
        parse_date(s, 0).unwrap(),
        (d(2021, 1, 1), Some(d(2021, 1, 5)), 21)
    );
}

#[test]
fn test_parse_date_secondary_smart_date() {
    let s = "2021-01-01=01-05";
    assert_eq!(
        parse_date(s, 0).unwrap(),
        (d(2021, 1, 1), Some(d(2021, 1, 5)), 16)
    );
    let s2 = "2021-01-01=12-5";
    assert_eq!(
        parse_date(s2, 0).unwrap(),
        (d(2021, 1, 1), Some(d(2021, 12, 5)), 15)
    );
}

#[test]
fn test_parse_date_dash_rest() {
    // the date parser leaves what follows untouched
    let s = "2020-01-01 income";
    assert_eq!(parse_date(s, 0).unwrap(), (d(2020, 1, 1), None, 10));
}

#[test]
fn test_leap_year_feb() {
    let s = "2020.02.29";
    assert_eq!(parse_date(s, 0).unwrap(), (d(2020, 2, 29), None, 10));
    assert!(parse_date("1900.02.29", 0).is_err());
    let s2 = "2000.02.29";
    assert_eq!(parse_date(s2, 0).unwrap(), (d(2000, 2, 29), None, 10));
}

#[test]
fn test_parse_date_year_zero() {
    // a zero year is a date like any other, under every separator
    assert_eq!(parse_date("0-1-2", 0).unwrap(), (d(0, 1, 2), None, 5));
    assert_eq!(parse_date("0000-01-02", 0).unwrap(), (d(0, 1, 2), None, 10));
    assert_eq!(parse_date("0000/01/02", 0).unwrap(), (d(0, 1, 2), None, 10));
    assert_eq!(parse_date("0000.01.02", 0).unwrap(), (d(0, 1, 2), None, 10));
}

#[test]
fn test_from_ymd_opt_bounds() {
    assert!(Date::from_ymd_opt(2021, 2, 29).is_none());
    assert!(Date::from_ymd_opt(2021, 0, 1).is_none());
    assert!(Date::from_ymd_opt(2021, 13, 1).is_none());
    assert!(Date::from_ymd_opt(2021, 4, 31).is_none());
    assert!(Date::from_ymd_opt(2021, 4, 30).is_some());
}
