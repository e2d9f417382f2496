//! The date-time types: reading, writing and checking ranges.

use tomlproc::datetime::scan;
use tomlproc::{Date, Datetime, DatetimeKind, Time};

fn parse(s: &str) -> Datetime {
    s.parse()
        .unwrap_or_else(|e| panic!("expected `{s}` to parse, got: {e:?}"))
}

fn chars(s: &str) -> Vec<char> {
    s.chars().collect()
}

#[test]
fn round_trips() {
    for s in [
        "1979-05-27T07:32:00Z",
        "1979-05-27T00:32:00-07:00",
        "1979-05-27T00:32:00.999999+01:30",
        "1979-05-27T07:32:00",
        "1979-05-27",
        "07:32:00",
        "00:32:00.999",
        "2024-02-29T23:59:60Z",
    ] {
        assert_eq!(parse(s).to_string(), s, "{s}");
    }
}

#[test]
fn the_written_form_is_normalized() {
    assert_eq!(
        parse("1979-05-27 07:32:00Z").to_string(),
        "1979-05-27T07:32:00Z"
    );
    assert_eq!(
        parse("1979-05-27t07:32:00z").to_string(),
        "1979-05-27T07:32:00Z"
    );
    assert_eq!(parse("14:15").to_string(), "14:15:00");
    assert_eq!(parse("2010-02-03 14:15").to_string(), "2010-02-03T14:15:00");
}

#[test]
fn kinds() {
    assert_eq!(
        parse("1979-05-27T07:32:00Z").kind(),
        DatetimeKind::OffsetDatetime
    );
    assert_eq!(
        parse("1979-05-27T07:32:00").kind(),
        DatetimeKind::LocalDatetime
    );
    assert_eq!(parse("1979-05-27").kind(), DatetimeKind::LocalDate);
    assert_eq!(parse("07:32:00").kind(), DatetimeKind::LocalTime);
}

#[test]
fn fractional_seconds_beyond_nanoseconds_are_truncated() {
    assert_eq!(
        parse("07:32:00.1234567891").time.unwrap().nanosecond,
        123_456_789
    );
    assert_eq!(parse("07:32:00.5").to_string(), "07:32:00.5");
}

#[test]
fn seconds_are_optional() {
    assert_eq!(parse("07:32").time.unwrap().second, 0);
    assert_eq!(
        parse("2010-02-03T14:15Z").kind(),
        DatetimeKind::OffsetDatetime
    );
    assert!("07:32.5".parse::<Datetime>().is_err());
}

#[test]
fn rejects_invalid() {
    for s in [
        "1979-05-32",
        "1979-13-01",
        "2023-02-29",
        "1979-05-27T24:00:00",
        "1979-05-27T07:61:00",
        "1979-05-27T07:32:00+24:00",
        "1979-05-27T07:32:00.",
        "1979-05-2",
        "1979-05-27T07:32:00Z trailing",
    ] {
        assert!(s.parse::<Datetime>().is_err(), "{s} should not parse");
    }
}

#[test]
fn errors_are_readable() {
    let error = "1979-05-32".parse::<Datetime>().unwrap_err();
    assert_eq!(error.message(), "date is out of range");
    assert!(!error.has_position());
}

#[test]
fn bare_date_stops_before_a_non_time() {
    let (dt, used) = scan(&chars("1979-05-27 , 1"), 0).unwrap().unwrap();
    assert_eq!(used, 10);
    assert_eq!(dt.kind(), DatetimeKind::LocalDate);
}

#[test]
fn not_a_datetime() {
    assert!(scan(&chars("1234"), 0).unwrap().is_none());
    assert!(scan(&chars("1.5e3"), 0).unwrap().is_none());
    assert!(scan(&chars("-17"), 0).unwrap().is_none());
}

#[test]
fn ranges_are_checked() {
    assert!(Date::new(2024, 2, 29).is_some());
    assert!(Date::new(2023, 2, 29).is_none());
    assert!(Date::new(2023, 13, 1).is_none());
    assert!(Date::new(2023, 1, 0).is_none());

    assert!(Time::new(23, 59, 60, 0).is_some());
    assert!(Time::new(23, 59, 61, 0).is_none());
    assert!(Time::new(24, 0, 0, 0).is_none());
    assert!(Time::new(0, 0, 0, 1_000_000_000).is_none());
}

#[test]
fn parses_without_an_allocator() {
    for s in [
        "1979-05-27T07:32:00Z",
        "1979-05-27",
        "07:32",
        "2010-02-03 14:15",
    ] {
        assert!(s.parse::<Datetime>().is_ok(), "{s}");
    }
    for s in ["1979-05-32", "07:32.5", "not a date"] {
        assert!(s.parse::<Datetime>().is_err(), "{s}");
    }
}

#[test]
fn leap_years_follow_the_gregorian_rules() {
    assert!(Date::is_leap_year(2024));
    assert!(!Date::is_leap_year(2023));
    assert!(!Date::is_leap_year(1900));
    assert!(Date::is_leap_year(2000));
    assert_eq!(Date::days_in_month(2023, 2), Some(28));
    assert_eq!(Date::days_in_month(2024, 2), Some(29));
    assert_eq!(Date::days_in_month(2024, 4), Some(30));
    assert_eq!(Date::days_in_month(2024, 13), None);
}

#[test]
fn writing_then_reading_gives_the_same_datetime() {
    for s in [
        "1979-05-27T07:32:00.000001-00:30",
        "0000-01-01T00:00:00Z",
        "9999-12-31T23:59:60.999999999+23:59",
        "12:00:00.100",
    ] {
        let dt = parse(s);
        assert_eq!(parse(&dt.to_string()), dt, "{s}");
    }
}
