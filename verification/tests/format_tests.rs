use numbase::{
    format_binary, format_decimal, format_hex, format_octal, parse_user_input,
    render_output_block, strip_spaces,
};

#[test]
fn renders_forty_two() {
    assert_eq!(format_decimal(42), "42");
    assert_eq!(format_hex(42), "002A");
    assert_eq!(format_binary(42), "0010 1010");
    assert_eq!(format_octal(42), "52");
}

#[test]
fn renders_two_hundred_fifty_five() {
    assert_eq!(format_decimal(255), "255");
    assert_eq!(format_hex(255), "00FF");
    assert_eq!(format_binary(255), "1111 1111");
    assert_eq!(format_octal(255), "377");
}

#[test]
fn renders_one_hundred_six() {
    assert_eq!(parse_user_input(&strip_spaces("0b0110 1010")), Ok(106));
    assert_eq!(format_decimal(106), "106");
    assert_eq!(format_hex(106), "006A");
    assert_eq!(format_binary(106), "0110 1010");
    assert_eq!(format_octal(106), "152");
}

#[test]
fn renders_one_thousand() {
    assert_eq!(format_decimal(1000), "1 000");
    assert_eq!(format_hex(1000), "03E8");
    assert_eq!(format_binary(1000), "0011 1110 1000");
    assert_eq!(format_octal(1000), "1750");
}

#[test]
fn renders_minus_one() {
    assert_eq!(format_decimal(-1), "-1");
    assert_eq!(format_hex(-1), "000F");
    assert_eq!(format_binary(-1), "1111");
    assert_eq!(format_octal(-1), "17[7]7");
}

#[test]
fn renders_minus_forty_two() {
    assert_eq!(format_decimal(-42), "-42");
    assert_eq!(format_hex(-42), "0FD6");
    assert_eq!(format_binary(-42), "1111 1101 0110");
    assert_eq!(format_octal(-42), "17[7]726");
}

#[test]
fn keeps_significant_ones_groups() {
    // Pattern 0xFFFFFFFFFFFFFF0F: only the sign-extension run collapses;
    // the trailing all-ones group carries data and stays.
    assert_eq!(parse_user_input("-241"), Ok(-241));
    assert_eq!(format_binary(-241), "1111 0000 1111");
    assert_eq!(format_hex(-241), "0F0F");
    assert_eq!(format_decimal(-241), "-241");
}

#[test]
fn minus_sign_stays_outside_the_groups() {
    assert_eq!(format_decimal(-100000), "-100 000");
    assert_eq!(format_decimal(-123456789), "-123 456 789");
    assert_eq!(format_decimal(100000), "100 000");
}

#[test]
fn renders_grouped_decimals() {
    assert_eq!(format_decimal(999), "999");
    assert_eq!(format_decimal(-999), "-999");
    assert_eq!(format_decimal(-1000), "-1 000");
    assert_eq!(format_decimal(1234567), "1 234 567");
    assert_eq!(format_decimal(i64::MAX), "9 223 372 036 854 775 807");
    assert_eq!(format_decimal(i64::MIN), "-9 223 372 036 854 775 808");
}

#[test]
fn renders_zero() {
    assert_eq!(format_decimal(0), "0");
    assert_eq!(format_hex(0), "0000");
    assert_eq!(format_binary(0), "0000");
    assert_eq!(format_octal(0), "0");
}

#[test]
fn renders_the_smallest_value() {
    assert_eq!(format_hex(i64::MIN), "000F 8000 0000 0000 0000");
    assert_eq!(format_octal(i64::MIN), "17[7]700000000000000000000");
}

#[test]
fn hex_round_trip_through_strings() {
    assert_eq!(parse_user_input("0x00FF"), Ok(255));
    assert_eq!(parse_user_input(&format!("0x{}", strip_spaces(&format_hex(255)))), Ok(255));
    assert_eq!(parse_user_input("0xFFFFFFFFFFFFFFD6"), Ok(-42));
}

#[test]
fn binary_round_trip_through_strings() {
    assert_eq!(
        parse_user_input(&format!("0b{}", strip_spaces(&format_binary(106)))),
        Ok(106)
    );
}

#[test]
fn decimal_round_trip_through_strings() {
    assert_eq!(parse_user_input(&format_decimal(-42)), Ok(-42));
    assert_eq!(parse_user_input(&strip_spaces(&format_decimal(1234567))), Ok(1234567));
}

#[test]
fn output_block_shape() {
    let expected = "Here's different representations of your number:\n\
                    Dec:  42\n\
                    Hex:  0x002A\n\
                    Bin:  0b0010 1010\n\
                    Oct:  0o52\n\
                    --------------------\n";
    assert_eq!(render_output_block(42), expected);
}

#[test]
fn output_block_shape_for_a_negative_number() {
    let expected = "Here's different representations of your number:\n\
                    Dec:  -42\n\
                    Hex:  0x0FD6\n\
                    Bin:  0b1111 1101 0110\n\
                    Oct:  0o17[7]726\n\
                    --------------------\n";
    assert_eq!(render_output_block(-42), expected);
}
