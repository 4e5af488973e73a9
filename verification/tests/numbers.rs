use node_scene::{parse_fixed, parse_i32, Fixed, NumberError};
use std::num::IntErrorKind;

fn fixed(text: &str) -> Result<Fixed, NumberError> {
    parse_fixed(text.as_bytes())
}

fn units(text: &str) -> i64 {
    match fixed(text) {
        Ok(v) => v.units,
        Err(e) => panic!("{:?} is refused: {:?}", text, e),
    }
}

fn kind_of(e: &std::num::ParseIntError) -> NumberError {
    match e.kind() {
        IntErrorKind::Empty => NumberError::Empty,
        IntErrorKind::InvalidDigit => NumberError::Invalid,
        IntErrorKind::PosOverflow => NumberError::TooLarge,
        IntErrorKind::NegOverflow => NumberError::TooSmall,
        other => panic!("unexpected kind {:?}", other),
    }
}

#[test]
fn integers_are_read() {
    assert_eq!(parse_i32(b"0"), Ok(0));
    assert_eq!(parse_i32(b"12"), Ok(12));
    assert_eq!(parse_i32(b"-5"), Ok(-5));
    assert_eq!(parse_i32(b"+7"), Ok(7));
    assert_eq!(parse_i32(b"007"), Ok(7));
    assert_eq!(parse_i32(b"-0"), Ok(0));
    assert_eq!(parse_i32(b"00000000000000000000000000000012"), Ok(12));
}

#[test]
fn integers_at_the_limits() {
    assert_eq!(parse_i32(b"2147483647"), Ok(i32::MAX));
    assert_eq!(parse_i32(b"-2147483648"), Ok(i32::MIN));
    assert_eq!(parse_i32(b"2147483648"), Err(NumberError::TooLarge));
    assert_eq!(parse_i32(b"-2147483649"), Err(NumberError::TooSmall));
    assert_eq!(parse_i32(b"99999999999999999999999999"), Err(NumberError::TooLarge));
    assert_eq!(parse_i32(b"-99999999999999999999999999"), Err(NumberError::TooSmall));
}

#[test]
fn integer_faults() {
    assert_eq!(parse_i32(b""), Err(NumberError::Empty));
    assert_eq!(parse_i32(b"+"), Err(NumberError::Invalid));
    assert_eq!(parse_i32(b"-"), Err(NumberError::Invalid));
    assert_eq!(parse_i32(b"bad"), Err(NumberError::Invalid));
    assert_eq!(parse_i32(b"12a"), Err(NumberError::Invalid));
    assert_eq!(parse_i32(b" 1"), Err(NumberError::Invalid));
    assert_eq!(parse_i32(b"1 "), Err(NumberError::Invalid));
    assert_eq!(parse_i32(b"1.5"), Err(NumberError::Invalid));
}

#[test]
fn leftmost_integer_fault_decides() {
    assert_eq!(parse_i32(b"99999999999a"), Err(NumberError::TooLarge));
    assert_eq!(parse_i32(b"-99999999999a"), Err(NumberError::TooSmall));
    assert_eq!(parse_i32(b"2147483647a"), Err(NumberError::Invalid));
    assert_eq!(parse_i32(b"a99999999999"), Err(NumberError::Invalid));
}

#[test]
fn integers_agree_with_the_standard_parser() {
    let texts = [
        "", "0", "1", "-1", "+1", "+", "-", "--1", "+-1", "-+1", "12", "0012", "-0012", "12a",
        "a12", "1 2", " 12", "12 ", "1_000", "1,000", "1.0", "0x10", "2147483647", "2147483648",
        "+2147483647", "+2147483648", "-2147483648", "-2147483649", "21474836470", "214748364",
        "99999999999", "99999999999a", "-99999999999a", "2147483647a", "a99999999999",
        "000000000002147483647", "000000000002147483648", "-000000000002147483648",
        "-000000000002147483649", "\u{663}", "1\u{663}", "4294967296", "-4294967296",
    ];
    for text in texts {
        let ours = parse_i32(text.as_bytes());
        match i32::from_str_radix(text, 10) {
            Ok(v) => assert_eq!(ours, Ok(v), "{:?}", text),
            Err(e) => assert_eq!(ours, Err(kind_of(&e)), "{:?}", text),
        }
    }
}

#[test]
fn decimals_are_read() {
    assert_eq!(units("1.5"), 1_500_000);
    assert_eq!(units("2.5"), 2_500_000);
    assert_eq!(units("3.5"), 3_500_000);
    assert_eq!(units("-3.0"), -3_000_000);
    assert_eq!(units("7"), 7_000_000);
    assert_eq!(units("+7"), 7_000_000);
    assert_eq!(units("007"), 7_000_000);
    assert_eq!(units(".5"), 500_000);
    assert_eq!(units("5."), 5_000_000);
    assert_eq!(units("-.25"), -250_000);
    assert_eq!(units("0"), 0);
    assert_eq!(units("-0"), 0);
    assert_eq!(units("0.000001"), 1);
    assert_eq!(units("123.456789"), 123_456_789);
}

#[test]
fn decimals_with_exponent() {
    assert_eq!(units("1e3"), 1_000_000_000);
    assert_eq!(units("1E3"), 1_000_000_000);
    assert_eq!(units("1e+3"), 1_000_000_000);
    assert_eq!(units("1.5e-3"), 1_500);
    assert_eq!(units("2.5E10"), 25_000_000_000_000_000);
    assert_eq!(units("1.e2"), 100_000_000);
    assert_eq!(units(".5e1"), 5_000_000);
    assert_eq!(units("1e0"), 1_000_000);
    assert_eq!(units("1e-0"), 1_000_000);
    assert_eq!(units("12345e-5"), 123_450);
    assert_eq!(units("0.000000000000000000000000000000000000000000001e45"), 1_000_000);
    assert_eq!(units("1000000000000000000000000000000e-30"), 1_000_000);
}

#[test]
fn decimals_round_to_the_nearest_millionth() {
    assert_eq!(units("0.0000004"), 0);
    assert_eq!(units("0.0000005"), 1);
    assert_eq!(units("-0.0000005"), -1);
    assert_eq!(units("-0.0000004"), 0);
    assert_eq!(units("0.1234564"), 123_456);
    assert_eq!(units("0.1234565"), 123_457);
    assert_eq!(units("0.12345649999999"), 123_456);
    assert_eq!(units("0.9999995"), 1_000_000);
    assert_eq!(units("5e-7"), 1);
    assert_eq!(units("4.9e-7"), 0);
    assert_eq!(units("1e-7"), 0);
    assert_eq!(units("9e-8"), 0);
    assert_eq!(units("0.30000000000000004"), 300_000);
    assert_eq!(units("0.29999999999999999"), 300_000);
}

#[test]
fn decimals_at_the_limits() {
    assert_eq!(units("9223372036854.775807"), i64::MAX);
    assert_eq!(units("-9223372036854.775808"), i64::MIN);
    assert_eq!(units("9223372036854.7758074"), i64::MAX);
    assert_eq!(fixed("9223372036854.7758075"), Err(NumberError::TooLarge));
    assert_eq!(fixed("9223372036854.775808"), Err(NumberError::TooLarge));
    assert_eq!(units("-9223372036854.7758084"), i64::MIN);
    assert_eq!(fixed("-9223372036854.7758085"), Err(NumberError::TooSmall));
    assert_eq!(fixed("-9223372036854.775809"), Err(NumberError::TooSmall));
    assert_eq!(fixed("1e13"), Err(NumberError::TooLarge));
    assert_eq!(fixed("-1e13"), Err(NumberError::TooSmall));
    assert_eq!(units("9e12"), 9_000_000_000_000_000_000);
    assert_eq!(fixed("18446744073709.551616"), Err(NumberError::TooLarge));
    assert_eq!(fixed("340282366920938463463374607431768211456"), Err(NumberError::TooLarge));
}

#[test]
fn decimals_with_huge_exponents() {
    assert_eq!(fixed("1e999999999999999999999999999999"), Err(NumberError::TooLarge));
    assert_eq!(fixed("-1e999999999999999999999999999999"), Err(NumberError::TooSmall));
    assert_eq!(units("0e999999999999999999999999999999"), 0);
    assert_eq!(units("0.000e999999999999999999999999999999"), 0);
    assert_eq!(units("1e-999999999999999999999999999999"), 0);
    assert_eq!(units("-1e-999999999999999999999999999999"), 0);
    assert_eq!(units("123456789e-340282366920938463463374607431768211456"), 0);
    assert_eq!(fixed("1e340282366920938463463374607431768211456"), Err(NumberError::TooLarge));
    assert_eq!(units("1e-30"), 0);
    assert_eq!(fixed("1e30"), Err(NumberError::TooLarge));
}

#[test]
fn decimal_faults() {
    assert_eq!(fixed(""), Err(NumberError::Empty));
    let texts = [
        "+", "-", ".", "+.", "-.", "e5", ".e5", "1e", "1e+", "1e-", "1.5.2", "1..5", "abc", "bad",
        "data", "1,5", " 1", "1 ", "1_0", "0x10", "1e5.5", "1e5e5", "++1", "+-1", "1-", "1+",
        "1.5f", "\u{661}", "1\u{661}", "1e\u{661}",
    ];
    for text in texts {
        assert_eq!(fixed(text), Err(NumberError::Invalid), "{:?}", text);
    }
}

#[test]
fn values_that_are_no_numbers_are_refused() {
    let texts = [
        "inf", "+inf", "-inf", "infinity", "+infinity", "-infinity", "nan", "NaN", "-nan", "INF",
        "Infinity",
    ];
    for text in texts {
        assert_eq!(fixed(text), Err(NumberError::Invalid), "{:?}", text);
    }
}

#[test]
fn decimals_agree_with_the_standard_parser() {
    let texts = [
        "", "0", "1", "-1", "+1", "+", "-", ".", "1.", ".1", "+.1", "-.1", "+1.", "1.5", "-1.5",
        "1e5", "1E5", "1e+5", "1e-5", "1e", "1e+", "e5", ".e5", "1.e5", ".5e5", "1.5e", "1.5e-",
        "1.5e2", "1..5", "1.5.5", "1e5e5", "1e5.5", " 1", "1 ", "1 .5", "abc", "bad", "data", "1,5",
        "1_0", "0x10", "--1", "+-1", "3.14", "-3.14", "2.5E-3", "007", "7", "0.000001",
        "0.0000001", "1234567.125", "-1234567.125", "0.5", "0.25", "0.125", "100", "1e2", "1e-2",
        "12.0e1", "0e0", "-0.0", "12a", "a12",
    ];
    for text in texts {
        let ours = fixed(text);
        match text.parse::<f64>() {
            Err(e) => {
                let fault = match ours {
                    Err(fault) => fault,
                    Ok(v) => panic!("{:?} is read as {:?}", text, v),
                };
                let report = node_scene::ParseError::Coordinate(fault).message();
                assert_eq!(report, format!("failed to parse float in: {}", e), "{:?}", text);
            }
            Ok(v) => {
                let got = match ours {
                    Ok(got) => got,
                    Err(fault) => panic!("{:?} is refused: {:?}", text, fault),
                };
                assert_eq!(got.units, (v * 1e6).round() as i64, "{:?}", text);
            }
        }
    }
}
