use chrono::{Local, TimeZone};
use kindle_to_notion::date::{parse_date, LocalDateTime};
use kindle_to_notion::error::ParseError;

#[test]
fn test_parse_date() {
    let test_date = "1 December 2020 16:58:58";

    let parsed_date = parse_date(test_date).expect("Cannot parse input");

    assert_eq!(
        parsed_date,
        LocalDateTime { year: 2020, month: 12, day: 1, hour: 16, minute: 58, second: 58 }
    );
    let d = parsed_date;
    assert_eq!(
        Local.with_ymd_and_hms(d.year, d.month, d.day, d.hour, d.minute, d.second).unwrap(),
        Local.with_ymd_and_hms(2020, 12, 1, 16, 58, 58).unwrap()
    );
}

#[test]
fn day_with_leading_zero_is_accepted() {
    assert_eq!(parse_date("01 December 2020 16:58:58"), parse_date("1 December 2020 16:58:58"));
    assert_eq!(parse_date("31 January 1999 00:00:00").unwrap().day, 31);
}

#[test]
fn unknown_month_is_an_error() {
    assert_eq!(parse_date("1 Decembre 2020 16:58:58"), Err(ParseError::UnknownMonthError));
    assert_eq!(parse_date("1 december 2020 16:58:58"), Err(ParseError::UnknownMonthError));
    assert_eq!(parse_date("x Dec 20 1:2:3"), Err(ParseError::UnknownMonthError));
}

#[test]
fn every_month_name_is_known() {
    let names = [
        "January", "February", "March", "April", "May", "June", "July", "August", "September",
        "October", "November", "December",
    ];
    for (i, name) in names.iter().enumerate() {
        let d = parse_date(&format!("2 {name} 2021 03:04:05")).unwrap();
        assert_eq!(d.month, i as u32 + 1);
    }
}

#[test]
fn calendar_days_are_checked() {
    assert_eq!(parse_date("31 February 2020 10:00:00"), Err(ParseError::NumericFormatError));
    assert_eq!(parse_date("31 April 2021 10:00:00"), Err(ParseError::NumericFormatError));
    assert_eq!(parse_date("29 February 2021 10:00:00"), Err(ParseError::NumericFormatError));
    assert_eq!(parse_date("29 February 2020 10:00:00").unwrap().day, 29);
    assert_eq!(parse_date("29 February 2000 10:00:00").unwrap().day, 29);
    assert_eq!(parse_date("29 February 1900 10:00:00"), Err(ParseError::NumericFormatError));
    assert_eq!(parse_date("0 March 2020 10:00:00"), Err(ParseError::NumericFormatError));
}

#[test]
fn time_ranges_are_checked() {
    assert_eq!(parse_date("1 March 2020 24:00:00"), Err(ParseError::NumericFormatError));
    assert_eq!(parse_date("1 March 2020 23:60:00"), Err(ParseError::NumericFormatError));
    assert_eq!(parse_date("1 March 2020 23:59:60"), Err(ParseError::NumericFormatError));
    assert_eq!(
        parse_date("1 March 2020 23:59:59"),
        Ok(LocalDateTime { year: 2020, month: 3, day: 1, hour: 23, minute: 59, second: 59 })
    );
}

#[test]
fn number_widths_are_checked() {
    assert_eq!(parse_date("123 March 2020 10:00:00"), Err(ParseError::NumericFormatError));
    assert_eq!(parse_date("1 March 20 10:00:00"), Err(ParseError::NumericFormatError));
    assert_eq!(parse_date("1 March 2020 1:00:00"), Err(ParseError::NumericFormatError));
    assert_eq!(parse_date("a March 2020 10:00:00"), Err(ParseError::NumericFormatError));
}

#[test]
fn date_layout_is_checked() {
    assert_eq!(parse_date("1 March 2020"), Err(ParseError::StructuralParseError));
    assert_eq!(parse_date("1  March 2020 10:00:00"), Err(ParseError::StructuralParseError));
    assert_eq!(parse_date("1 March 2020 10:00"), Err(ParseError::StructuralParseError));
    assert_eq!(parse_date("1 March 2020 10:00:00 "), Err(ParseError::StructuralParseError));
    assert_eq!(parse_date(""), Err(ParseError::StructuralParseError));
}
