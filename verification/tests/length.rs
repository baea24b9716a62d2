use size_expr::{Length, ParseError};

fn text(length: &Length) -> String {
    String::from_utf8(length.to_bytes()).unwrap()
}

#[test]
fn a_length_is_written_in_normal_form() {
    assert_eq!(text(&Length::parse("123").unwrap()), "123");
    assert_eq!(text(&Length::parse("78.123").unwrap()), "78.123");
    assert_eq!(text(&Length::parse("+7").unwrap()), "7");
    assert_eq!(text(&Length::parse("-7").unwrap()), "-7");
    assert_eq!(text(&Length::parse("007.500").unwrap()), "7.5");
    assert_eq!(text(&Length::parse("0.50").unwrap()), "0.5");
    assert_eq!(text(&Length::parse("10.0").unwrap()), "10");
    assert_eq!(text(&Length::parse("-0").unwrap()), "0");
    assert_eq!(text(&Length::parse("-0.000").unwrap()), "0");
    assert_eq!(text(&Length::parse("000").unwrap()), "0");
    assert_eq!(text(&Length::parse("-0.001").unwrap()), "-0.001");
    assert_eq!(text(&Length::one()), "1");
}

#[test]
fn equal_numbers_are_equal_lengths() {
    assert_eq!(Length::parse("1.50"), Length::parse("1.5"));
    assert_eq!(Length::parse("+1"), Length::parse("1"));
    assert_eq!(Length::parse("-0"), Length::parse("0"));
    assert_eq!(Length::parse("0010"), Length::parse("10.00"));
    assert_eq!(Length::parse("1").unwrap(), Length::one());
    assert_ne!(Length::parse("1"), Length::parse("-1"));
    assert_ne!(Length::parse("1"), Length::parse("10"));
    assert_ne!(Length::parse("1.5"), Length::parse("1.05"));
    assert_ne!(Length::parse("0.1"), Length::parse("0.01"));
    let copy = Length::parse("12.75").unwrap().clone();
    assert_eq!(copy, Length::parse("12.75").unwrap());
}

#[test]
fn what_is_no_numeral_is_malformed() {
    for input in [
        "", "+", "-", ".", ".5", "5.", "1.2.3", "1e5", "5%", " 5", "5 ", "--5", "abc", "1,5",
    ] {
        assert_eq!(Length::parse(input), Err(ParseError::MalformedNumber));
    }
}

#[test]
fn the_sign_of_a_length() {
    assert!(Length::parse("-1").unwrap().is_negative());
    assert!(Length::parse("-0.5").unwrap().is_negative());
    assert!(!Length::parse("1").unwrap().is_negative());
    assert!(!Length::parse("-0").unwrap().is_negative());
}

#[test]
fn a_length_converts_to_the_nearest_binary64() {
    for input in [
        "0",
        "1",
        "-1",
        "100",
        "0.1",
        "0.2",
        "123.6",
        "78.123",
        "3.141592653589793238462643383279",
        "9007199254740993",
        "0.000000000000000000000000000001",
        "179769313486231570000000000000000000000000000000000000000000000000000000000000000000000000000000000000000000000000000000000000000000000000000000000000000000000000000000000000000000000000000000000000000000000000000000000000000000000000000000000000000000000000000000000000000000000000000000000000000000000000000000000",
        "-2.2250738585072014",
        "4.35",
        "0.3",
        "1.25",
    ] {
        let expected: f64 = input.parse().unwrap();
        let length = Length::parse(input).unwrap();
        assert_eq!(length.to_binary64(), expected.to_bits(), "{}", input);
    }
}

#[test]
fn a_number_too_large_for_binary64_is_infinite() {
    let huge = format!("1{}", "0".repeat(400));
    assert_eq!(Length::parse(&huge).unwrap().to_binary64(), f64::INFINITY.to_bits());
    let tiny = format!("0.{}1", "0".repeat(400));
    assert_eq!(Length::parse(&tiny).unwrap().to_binary64(), 0);
}
