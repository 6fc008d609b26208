use sales_cleaning::decimal::{Decimal, UNIT};
use sales_cleaning::digits::integer_chars;
use sales_cleaning::money::{parse_money, strip_glyphs, ParsedValue};
use sales_cleaning::text::{chars_of, is_missing_text, is_space_char, string_of, trim_chars};

fn units(whole: i128, fraction: i128) -> Decimal {
    Decimal { units: whole * (UNIT as i128) + fraction }
}

fn number(text: &str) -> Decimal {
    match parse_money(text) {
        ParsedValue::Number(d) => d,
        other => panic!("{:?} is no number: {:?}", text, other),
    }
}

#[test]
fn money_with_dollar_and_separator() {
    assert_eq!(parse_money("$1,234.50"), ParsedValue::Number(units(1234, 500_000_000_000_000_000)));
}

#[test]
fn money_with_pound_sign() {
    assert_eq!(parse_money("£0"), ParsedValue::Number(units(0, 0)));
    assert_eq!(parse_money("£12.25"), ParsedValue::Number(units(12, 250_000_000_000_000_000)));
}

#[test]
fn money_glyphs_are_removed_wherever_they_stand() {
    assert_eq!(parse_money("1$2,3£4"), ParsedValue::Number(units(1234, 0)));
    assert_eq!(parse_money(" $ 12 "), ParsedValue::Number(units(12, 0)));
    assert_eq!(parse_money("12.5 $"), ParsedValue::Number(units(12, 500_000_000_000_000_000)));
    assert_eq!(parse_money(",,7,,"), ParsedValue::Number(units(7, 0)));
}

#[test]
fn money_empty_is_absent() {
    assert_eq!(parse_money(""), ParsedValue::Absent);
    assert_eq!(parse_money("   "), ParsedValue::Absent);
    assert_eq!(parse_money("$"), ParsedValue::Absent);
    assert_eq!(parse_money(" £ , "), ParsedValue::Absent);
}

#[test]
fn money_null_is_absent() {
    assert_eq!(parse_money("null"), ParsedValue::Absent);
    assert_eq!(parse_money("  null  "), ParsedValue::Absent);
    assert_eq!(parse_money("$null"), ParsedValue::Absent);
    assert_eq!(parse_money("n,ull"), ParsedValue::Absent);
}

#[test]
fn money_null_is_case_sensitive() {
    assert_eq!(parse_money("NULL"), ParsedValue::Malformed);
    assert_eq!(parse_money("Null"), ParsedValue::Malformed);
    assert_eq!(parse_money("nul"), ParsedValue::Malformed);
    assert_eq!(parse_money("nulls"), ParsedValue::Malformed);
}

#[test]
fn money_malformed_is_not_absent() {
    assert_eq!(parse_money("abc"), ParsedValue::Malformed);
    assert_eq!(parse_money("12a"), ParsedValue::Malformed);
    assert_eq!(parse_money("1 234"), ParsedValue::Malformed);
    assert_eq!(parse_money("1.2.3"), ParsedValue::Malformed);
    assert_eq!(parse_money("."), ParsedValue::Malformed);
    assert_eq!(parse_money("-"), ParsedValue::Malformed);
    assert_eq!(parse_money("+"), ParsedValue::Malformed);
    assert_eq!(parse_money("--1"), ParsedValue::Malformed);
    assert_eq!(parse_money("1-"), ParsedValue::Malformed);
    assert_eq!(parse_money("1e"), ParsedValue::Malformed);
    assert_eq!(parse_money("e3"), ParsedValue::Malformed);
    assert_eq!(parse_money("1e+"), ParsedValue::Malformed);
    assert_eq!(parse_money("1e3.0"), ParsedValue::Malformed);
    assert_eq!(parse_money("1e 3"), ParsedValue::Malformed);
    assert_eq!(parse_money("1e3e3"), ParsedValue::Malformed);
    assert_eq!(parse_money(".e3"), ParsedValue::Malformed);
    assert_eq!(parse_money("1x3"), ParsedValue::Malformed);
    assert_eq!(parse_money("inf"), ParsedValue::Malformed);
    assert_eq!(parse_money("NaN"), ParsedValue::Malformed);
    assert_eq!(parse_money("€5"), ParsedValue::Malformed);
}

#[test]
fn money_signs_and_bare_points() {
    assert_eq!(parse_money("-0.1"), ParsedValue::Number(Decimal { units: -100_000_000_000_000_000 }));
    assert_eq!(parse_money("+7"), ParsedValue::Number(units(7, 0)));
    assert_eq!(parse_money("7."), ParsedValue::Number(units(7, 0)));
    assert_eq!(parse_money(".5"), ParsedValue::Number(units(0, 500_000_000_000_000_000)));
    assert_eq!(parse_money("-.5"), ParsedValue::Number(Decimal { units: -500_000_000_000_000_000 }));
    assert_eq!(parse_money("-0"), ParsedValue::Number(units(0, 0)));
    assert_eq!(parse_money("007"), ParsedValue::Number(units(7, 0)));
}

#[test]
fn money_limits_of_the_range() {
    assert_eq!(
        parse_money("999999999999999999.999999999999999999"),
        ParsedValue::Number(Decimal { units: 999_999_999_999_999_999_999_999_999_999_999_999 })
    );
    assert_eq!(parse_money("1000000000000000000"), ParsedValue::Malformed);
    assert_eq!(parse_money("0.0000000000000000001"), ParsedValue::Malformed);
    assert_eq!(parse_money("0.000000000000000001"), ParsedValue::Number(Decimal { units: 1 }));
    assert_eq!(parse_money("0.5000000000000000000000"), ParsedValue::Number(units(0, 500_000_000_000_000_000)));
    assert_eq!(parse_money("0000000000000000000000001"), ParsedValue::Number(units(1, 0)));
}

#[test]
fn money_unicode_white_space_is_trimmed() {
    assert_eq!(parse_money("\u{a0}42\u{2003}"), ParsedValue::Number(units(42, 0)));
    assert_eq!(parse_money("\t42\r\n"), ParsedValue::Number(units(42, 0)));
    assert_eq!(parse_money("\u{3000}"), ParsedValue::Absent);
}

#[test]
fn floor_rounds_down_not_towards_zero() {
    assert_eq!(number("4.9").floor(), 4);
    assert_eq!(number("5.0").floor(), 5);
    assert_eq!(number("-0.1").floor(), -1);
}

#[test]
fn floor_at_half_boundaries() {
    assert_eq!(number("4.5").floor(), 4);
    assert_eq!(number("0.5").floor(), 0);
    assert_eq!(number("-0.5").floor(), -1);
    assert_eq!(number("-4.5").floor(), -5);
    assert_eq!(number("-5").floor(), -5);
    assert_eq!(number("-5.000000000000000001").floor(), -6);
    assert_eq!(number("999999999999999999.9").floor(), 999_999_999_999_999_999);
    assert_eq!(number("-999999999999999999.9").floor(), -1_000_000_000_000_000_000);
}

#[test]
fn decimal_text_is_plain() {
    assert_eq!(number("$1,234.50").to_text(), "1234.5");
    assert_eq!(number("£0").to_text(), "0");
    assert_eq!(number("-0.1").to_text(), "-0.1");
    assert_eq!(number("-0").to_text(), "0");
    assert_eq!(number("007.0700").to_text(), "7.07");
    assert_eq!(number("0.000000000000000001").to_text(), "0.000000000000000001");
    assert_eq!(number("100").to_text(), "100");
    assert_eq!(Decimal::zero().to_text(), "0");
}

#[test]
fn decimal_text_reads_back_unchanged() {
    for text in ["1234.5", "0", "-0.1", "7.07", "999999999999999999.999999999999999999", "-12"] {
        let first = number(text);
        let written = first.to_text();
        assert_eq!(written, text);
        assert_eq!(parse_money(&written), ParsedValue::Number(first));
    }
}

#[test]
fn decimal_from_text_takes_no_glyphs() {
    assert_eq!(Decimal::from_text("12.5"), Some(units(12, 500_000_000_000_000_000)));
    assert_eq!(Decimal::from_text("$12.5"), None);
    assert_eq!(Decimal::from_text(" 12.5"), None);
    assert_eq!(Decimal::from_text(""), None);
    assert_eq!(Decimal::from_text("null"), None);
}

#[test]
fn integer_text_of_whole_numbers() {
    assert_eq!(string_of(&integer_chars(0)), "0");
    assert_eq!(string_of(&integer_chars(42)), "42");
    assert_eq!(string_of(&integer_chars(-42)), "-42");
    assert_eq!(string_of(&integer_chars(i128::MIN)), i128::MIN.to_string());
    assert_eq!(string_of(&integer_chars(i128::MAX)), i128::MAX.to_string());
}

#[test]
fn integer_text_reads_back_unchanged() {
    for n in [0i64, 4, -1, 5, 999_999_999_999_999_999, -999_999_999_999_999_999] {
        let written = string_of(&integer_chars(n as i128));
        assert_eq!(number(&written).floor(), n);
        assert_eq!(number(&written).to_text(), written);
    }
}

#[test]
fn white_space_is_what_std_calls_white_space() {
    let mut code: u32 = 0;
    while code <= 0x3100 {
        if let Some(c) = char::from_u32(code) {
            assert_eq!(is_space_char(c), c.is_whitespace(), "U+{:04X}", code);
        }
        code += 1;
    }
}

#[test]
fn trimming_and_missing_cells() {
    assert_eq!(string_of(&trim_chars(&chars_of("  a b \t"))), "a b");
    assert_eq!(string_of(&trim_chars(&chars_of(" \n "))), "");
    assert_eq!(string_of(&trim_chars(&chars_of("x"))), "x");
    assert_eq!(string_of(&strip_glyphs(&chars_of("$1,0£0"))), "100");
    assert!(is_missing_text(""));
    assert!(is_missing_text("  "));
    assert!(is_missing_text(" null "));
    assert!(!is_missing_text("nu ll"));
    assert!(!is_missing_text("0"));
}

#[test]
fn money_with_an_exponent() {
    assert_eq!(parse_money("1e3"), ParsedValue::Number(units(1000, 0)));
    assert_eq!(parse_money("1E3"), ParsedValue::Number(units(1000, 0)));
    assert_eq!(parse_money("$1.5e+2"), ParsedValue::Number(units(150, 0)));
    assert_eq!(parse_money("25e-1"), ParsedValue::Number(units(2, 500_000_000_000_000_000)));
    assert_eq!(parse_money("-2.5E-3"), ParsedValue::Number(Decimal { units: -2_500_000_000_000_000 }));
    assert_eq!(parse_money(".5e1"), ParsedValue::Number(units(5, 0)));
    assert_eq!(parse_money("5.e1"), ParsedValue::Number(units(50, 0)));
    assert_eq!(parse_money("1.5e0"), ParsedValue::Number(units(1, 500_000_000_000_000_000)));
    assert_eq!(parse_money("1.5e-0"), ParsedValue::Number(units(1, 500_000_000_000_000_000)));
    assert_eq!(parse_money("0.00001e5"), ParsedValue::Number(units(1, 0)));
    assert_eq!(parse_money("100e-2"), ParsedValue::Number(units(1, 0)));
    assert_eq!(parse_money("1e007"), ParsedValue::Number(units(10_000_000, 0)));
    assert_eq!(
        parse_money("12345678901234567890e-10"),
        ParsedValue::Number(units(1234567890, 123_456_789_000_000_000))
    );
}

#[test]
fn money_with_an_exponent_at_the_limits() {
    assert_eq!(parse_money("1e-18"), ParsedValue::Number(Decimal { units: 1 }));
    assert_eq!(parse_money("1e-19"), ParsedValue::Malformed);
    assert_eq!(parse_money("10e-19"), ParsedValue::Number(Decimal { units: 1 }));
    assert_eq!(parse_money("1e17"), ParsedValue::Number(units(100_000_000_000_000_000, 0)));
    assert_eq!(parse_money("9.99e17"), ParsedValue::Number(units(999_000_000_000_000_000, 0)));
    assert_eq!(parse_money("1e18"), ParsedValue::Malformed);
    assert_eq!(parse_money("0.1e19"), ParsedValue::Malformed);
    assert_eq!(parse_money("0.01e19"), ParsedValue::Number(units(100_000_000_000_000_000, 0)));
    assert_eq!(
        parse_money("999999999999999999999999999999999999e-18"),
        ParsedValue::Number(Decimal { units: 999_999_999_999_999_999_999_999_999_999_999_999 })
    );
    assert_eq!(parse_money("1e99999999999999999999999999999999999999999"), ParsedValue::Malformed);
    assert_eq!(parse_money("1e-99999999999999999999999999999999999999999"), ParsedValue::Malformed);
    assert_eq!(parse_money("0e99999999999999999999999999999999999999999"), ParsedValue::Number(units(0, 0)));
    assert_eq!(parse_money("-0.000e-99999999999999999999999999999"), ParsedValue::Number(units(0, 0)));
    assert_eq!(parse_money("0e10000000000000000000000000"), ParsedValue::Number(units(0, 0)));
    assert_eq!(parse_money("1e9999999999999999999999999"), ParsedValue::Malformed);
}

#[test]
fn money_agrees_with_the_float_reading() {
    let texts = [
        "0", "1", "-1", "1234.5", "0.1", "-0.25", "1e3", "2.5E-3", "12e+4", ".5", "5.", "+7.75",
        "007", "1.50", "123456789.125", "1e-18", "9.99e17", "0.00001e5", "100e-2", "-3e0",
    ];
    for text in texts {
        let written = number(text).to_text();
        assert_eq!(written.parse::<f64>().unwrap(), text.parse::<f64>().unwrap(), "{}", text);
    }
    for text in ["", "abc", "1e", "e3", ".", "1.2.3", "--1", "1e+", "1 2", "0x10", "1_000"] {
        assert!(text.parse::<f64>().is_err(), "{}", text);
        assert!(Decimal::from_text(text).is_none(), "{}", text);
    }
}
