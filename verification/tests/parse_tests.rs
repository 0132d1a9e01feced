use numbase::{parse_user_input, strip_spaces, ParseError};

#[test]
fn parses_plain_decimal() {
    assert_eq!(parse_user_input("42"), Ok(42));
    assert_eq!(parse_user_input("0"), Ok(0));
    assert_eq!(parse_user_input("7"), Ok(7));
    assert_eq!(parse_user_input("1000"), Ok(1000));
}

#[test]
fn parses_negative_decimal() {
    assert_eq!(parse_user_input("-1"), Ok(-1));
    assert_eq!(parse_user_input("-42"), Ok(-42));
    assert_eq!(parse_user_input("-9223372036854775808"), Ok(i64::MIN));
}

#[test]
fn parses_decimal_extremes() {
    assert_eq!(parse_user_input("9223372036854775807"), Ok(i64::MAX));
    assert_eq!(parse_user_input("9223372036854775808"), Err(ParseError::OutOfRange));
    assert_eq!(parse_user_input("-9223372036854775809"), Err(ParseError::OutOfRange));
}

#[test]
fn parses_hex_literals() {
    assert_eq!(parse_user_input("0xFF"), Ok(255));
    assert_eq!(parse_user_input("0x2A"), Ok(42));
    assert_eq!(parse_user_input("0x2a"), Ok(42));
    assert_eq!(parse_user_input("0x0"), Ok(0));
}

#[test]
fn hex_literals_fill_the_bit_pattern() {
    assert_eq!(parse_user_input("0xFFFFFFFFFFFFFFFF"), Ok(-1));
    assert_eq!(parse_user_input("0xFFFFFFFFFFFFFFD6"), Ok(-42));
    assert_eq!(parse_user_input("0x8000000000000000"), Ok(i64::MIN));
    assert_eq!(parse_user_input("0x7FFFFFFFFFFFFFFF"), Ok(i64::MAX));
}

#[test]
fn parses_binary_literals() {
    assert_eq!(parse_user_input("0b01101010"), Ok(106));
    assert_eq!(parse_user_input("0b101010"), Ok(42));
    let ones = format!("0b{}", "1".repeat(64));
    assert_eq!(parse_user_input(&ones), Ok(-1));
}

#[test]
fn parses_octal_literals() {
    assert_eq!(parse_user_input("0o52"), Ok(42));
    assert_eq!(parse_user_input("0o377"), Ok(255));
    assert_eq!(parse_user_input("0o1777777777777777777726"), Ok(-42));
}

#[test]
fn empty_input_fails() {
    assert_eq!(parse_user_input(""), Err(ParseError::EmptyDigits));
}

#[test]
fn prefix_without_digits_fails() {
    assert_eq!(parse_user_input("0x"), Err(ParseError::EmptyDigits));
    assert_eq!(parse_user_input("0b"), Err(ParseError::EmptyDigits));
    assert_eq!(parse_user_input("0o"), Err(ParseError::EmptyDigits));
}

#[test]
fn oversized_pattern_fails() {
    assert_eq!(parse_user_input("0x10000000000000000"), Err(ParseError::OutOfRange));
    let bits = format!("0b1{}", "0".repeat(64));
    assert_eq!(parse_user_input(&bits), Err(ParseError::OutOfRange));
    assert_eq!(parse_user_input("0o2000000000000000000000"), Err(ParseError::OutOfRange));
}

#[test]
fn invalid_digits_fail() {
    assert_eq!(parse_user_input("0xG1"), Err(ParseError::InvalidDigit));
    assert_eq!(parse_user_input("0b12"), Err(ParseError::InvalidDigit));
    assert_eq!(parse_user_input("0o8"), Err(ParseError::InvalidDigit));
    assert_eq!(parse_user_input("twelve"), Err(ParseError::InvalidDigit));
}

#[test]
fn unrecognized_prefixes_fall_through_to_decimal() {
    assert_eq!(parse_user_input("0X1A"), Err(ParseError::InvalidDigit));
    assert_eq!(parse_user_input("0B11"), Err(ParseError::InvalidDigit));
    assert_eq!(parse_user_input("-0x10"), Err(ParseError::InvalidDigit));
}

#[test]
fn spaces_are_removed_before_parsing() {
    assert_eq!(parse_user_input(&strip_spaces("0b0110 1010")), Ok(106));
    assert_eq!(strip_spaces("0b0110 1010"), "0b01101010");
    assert_eq!(strip_spaces("  42  "), "42");
    assert_eq!(strip_spaces("no spaces"), "nospaces");
}

#[test]
fn sign_without_digits_fails() {
    assert_eq!(parse_user_input("-"), Err(ParseError::EmptyDigits));
    assert_eq!(parse_user_input("+5"), Err(ParseError::InvalidDigit));
}

#[test]
fn error_descriptions() {
    assert_eq!(ParseError::InvalidDigit.description(), "invalid digit found in string");
    assert_eq!(
        ParseError::EmptyDigits.description(),
        "cannot parse integer from empty string"
    );
    assert_eq!(
        ParseError::OutOfRange.description(),
        "number too large to fit in target type"
    );
}
