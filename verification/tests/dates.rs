use sales_cleaning::date::{parse_date, settle_date, CalendarDate, ParsedDate};

fn date(text: &str, month_first_fallback: bool) -> Option<CalendarDate> {
    match parse_date(text, month_first_fallback) {
        ParsedDate::Date(d) => Some(d),
        _ => None,
    }
}

#[test]
fn date_day_month_year() {
    assert_eq!(date("05/09/2015", false), Some(CalendarDate { year: 2015, month: 9, day: 5 }));
    assert_eq!(date("31/12/1999", false), Some(CalendarDate { year: 1999, month: 12, day: 31 }));
    assert_eq!(date("  1/2/2014  ", false), Some(CalendarDate { year: 2014, month: 2, day: 1 }));
    assert_eq!(date("29/02/2020", false), Some(CalendarDate { year: 2020, month: 2, day: 29 }));
}

#[test]
fn date_missing_is_absent() {
    assert!(matches!(parse_date("", false), ParsedDate::Absent));
    assert!(matches!(parse_date("   ", true), ParsedDate::Absent));
    assert!(matches!(parse_date("null", false), ParsedDate::Absent));
    assert!(matches!(parse_date(" null ", true), ParsedDate::Absent));
}

#[test]
fn date_malformed_is_not_absent() {
    assert!(matches!(parse_date("yesterday", false), ParsedDate::Malformed(_)));
    assert!(matches!(parse_date("NULL", false), ParsedDate::Malformed(_)));
    assert!(matches!(parse_date("31/02/2020", false), ParsedDate::Malformed(_)));
    assert!(matches!(parse_date("29/02/2019", false), ParsedDate::Malformed(_)));
    assert!(matches!(parse_date("05/09/2015 10:00", false), ParsedDate::Malformed(_)));
    assert!(matches!(parse_date("05-09-2015", false), ParsedDate::Malformed(_)));
}

#[test]
fn date_in_iso_form_is_not_accepted() {
    assert!(matches!(parse_date("2015-09-05", false), ParsedDate::Malformed(_)));
    assert!(matches!(parse_date("2015-09-05", true), ParsedDate::Malformed(_)));
}

#[test]
fn date_month_first_only_as_a_fallback() {
    assert!(matches!(parse_date("12/31/2020", false), ParsedDate::Malformed(_)));
    assert_eq!(date("12/31/2020", true), Some(CalendarDate { year: 2020, month: 12, day: 31 }));
    // Where both patterns fit, the day comes first.
    assert_eq!(date("03/04/2020", true), Some(CalendarDate { year: 2020, month: 4, day: 3 }));
    assert!(matches!(parse_date("31/31/2020", true), ParsedDate::Malformed(_)));
}

#[test]
fn date_malformed_keeps_the_cause() {
    match parse_date("31/02/2020", false) {
        ParsedDate::Malformed(cause) => assert_eq!(cause.kind(), chrono::format::ParseErrorKind::OutOfRange),
        other => panic!("{:?}", other),
    }
    match parse_date("5", true) {
        ParsedDate::Malformed(cause) => assert_eq!(cause.kind(), chrono::format::ParseErrorKind::TooShort),
        other => panic!("{:?}", other),
    }
}

#[test]
fn date_iso_text() {
    assert_eq!(CalendarDate { year: 2015, month: 9, day: 5 }.to_iso(), "2015-09-05");
    assert_eq!(CalendarDate { year: 1999, month: 12, day: 31 }.to_iso(), "1999-12-31");
    assert_eq!(CalendarDate { year: 7, month: 1, day: 2 }.to_iso(), "0007-01-02");
    assert_eq!(CalendarDate { year: 0, month: 1, day: 1 }.to_iso(), "0000-01-01");
}

#[test]
fn date_iso_text_is_what_chrono_writes() {
    for (year, month, day) in [(2015, 9, 5), (1, 1, 1), (0, 2, 29), (-5, 3, 4), (9999, 12, 31), (10000, 1, 1), (-12345, 6, 7), (262142, 12, 31)] {
        let written = chrono::NaiveDate::from_ymd_opt(year, month, day).unwrap().format("%Y-%m-%d").to_string();
        assert_eq!(CalendarDate { year, month, day }.to_iso(), written);
    }
}

#[test]
fn date_ordinals_follow_the_calendar() {
    let days = [
        CalendarDate { year: -1, month: 12, day: 31 },
        CalendarDate { year: 2014, month: 1, day: 31 },
        CalendarDate { year: 2014, month: 2, day: 1 },
        CalendarDate { year: 2014, month: 2, day: 2 },
        CalendarDate { year: 2014, month: 12, day: 1 },
        CalendarDate { year: 2015, month: 1, day: 1 },
    ];
    for i in 0..days.len() {
        for j in 0..days.len() {
            assert_eq!(days[i].ordinal() < days[j].ordinal(), i < j);
            assert_eq!(days[i].ordinal() == days[j].ordinal(), i == j);
        }
    }
}

#[test]
fn date_settled_from_the_readings() {
    let first = CalendarDate { year: 2020, month: 4, day: 3 };
    let second = CalendarDate { year: 2020, month: 3, day: 4 };
    let invalid = chrono::NaiveDate::parse_from_str("x", "%d").unwrap_err();
    let too_short = chrono::NaiveDate::parse_from_str("", "%d").unwrap_err();
    assert!(matches!(settle_date(Ok(first), None), ParsedDate::Date(d) if d == first));
    assert!(matches!(settle_date(Ok(first), Some(Ok(second))), ParsedDate::Date(d) if d == first));
    assert!(matches!(settle_date(Err(invalid), Some(Ok(second))), ParsedDate::Date(d) if d == second));
    assert!(matches!(settle_date(Err(invalid), None), ParsedDate::Malformed(e) if e == invalid));
    assert!(matches!(settle_date(Err(invalid), Some(Err(too_short))), ParsedDate::Malformed(e) if e == invalid));
}
