use numbase::{group_into, is_clear_command};

#[test]
fn groups_with_zero_padding() {
    assert_eq!(group_into(String::from("101011"), 4, " ", Some('0')), "0010 1011");
    assert_eq!(group_into(String::from("2A"), 4, " ", Some('0')), "002A");
    assert_eq!(group_into(String::from("F"), 4, " ", Some('0')), "000F");
    assert_eq!(group_into(String::from("ABCD"), 4, " ", Some('0')), "ABCD");
}

#[test]
fn groups_without_padding() {
    assert_eq!(group_into(String::from("1000"), 3, " ", None), "1 000");
    assert_eq!(group_into(String::from("123456"), 3, " ", None), "123 456");
    assert_eq!(group_into(String::from("42"), 3, " ", None), "42");
}

#[test]
fn grouped_length_matches_the_formula() {
    // ceil(10 / 4) = 3 groups of 4 and 2 separators: 14 characters.
    let r = group_into(String::from("1111101000"), 4, " ", Some('0'));
    assert_eq!(r.len(), 3 * 4 + 3 - 1);
    assert_eq!(r, "0011 1110 1000");
}

#[test]
fn rightmost_group_is_always_full() {
    let r = group_into(String::from("12345"), 4, " ", Some('0'));
    assert_eq!(r, "0001 2345");
    let tail: Vec<char> = r.chars().rev().take(4).collect();
    assert!(tail.iter().all(|c| *c != ' '));
    let r2 = group_into(String::from("12345"), 4, " ", None);
    assert_eq!(r2, "1 2345");
}

#[test]
fn no_padding_leaves_no_sentinel() {
    let r = group_into(String::from("987654321"), 2, " ", None);
    assert_eq!(r, "9 87 65 43 21");
    assert!(r.chars().all(|c| c == ' ' || c.is_ascii_digit()));
}

#[test]
fn other_separators_work() {
    assert_eq!(group_into(String::from("12345678"), 4, "_", Some('0')), "1234_5678");
    assert_eq!(group_into(String::from("123"), 2, ", ", None), "1, 23");
}

#[test]
fn clear_commands_are_recognized() {
    assert!(is_clear_command("c"));
    assert!(is_clear_command("clear"));
    assert!(is_clear_command("cls"));
    assert!(!is_clear_command(""));
    assert!(!is_clear_command("clearx"));
    assert!(!is_clear_command("42"));
}
