use scheduler::text::{chars_of, parse_number, push_decimal, push_str, split_commas, trim_chars};

fn chars(s: &str) -> Vec<char> {
    s.chars().collect()
}

#[test]
fn split_keeps_empty_pieces() {
    let parts = split_commas(&chars("a,,b c,"));
    let expected: Vec<Vec<char>> = vec![chars("a"), chars(""), chars("b c"), chars("")];
    assert_eq!(parts, expected);
    assert_eq!(split_commas(&chars("")), vec![Vec::<char>::new()]);
}

#[test]
fn trim_strips_unicode_white_space_at_both_ends() {
    assert_eq!(trim_chars(&chars(" \t x y \n")), chars("x y"));
    assert_eq!(trim_chars(&chars("\u{3000}z\u{a0}")), chars("z"));
    assert_eq!(trim_chars(&chars("   ")), Vec::<char>::new());
}

#[test]
fn parse_number_bounds_and_signs() {
    assert_eq!(parse_number(&chars("255"), 255), Some(255));
    assert_eq!(parse_number(&chars("256"), 255), None);
    assert_eq!(parse_number(&chars("007"), 255), Some(7));
    assert_eq!(parse_number(&chars("+9"), 255), Some(9));
    assert_eq!(parse_number(&chars("+"), 255), None);
    assert_eq!(parse_number(&chars(""), 255), None);
    assert_eq!(parse_number(&chars("-1"), 255), None);
    assert_eq!(parse_number(&chars("4294967295"), u32::MAX), Some(u32::MAX));
    assert_eq!(parse_number(&chars("4294967296"), u32::MAX), None);
    assert_eq!(parse_number(&chars("99999999999999"), u32::MAX), None);
}

#[test]
fn decimal_writing() {
    let mut out = chars("t=");
    push_decimal(0, &mut out);
    push_str(",", &mut out);
    push_decimal(4294967295, &mut out);
    assert_eq!(out, chars("t=0,4294967295"));
    assert_eq!(chars_of("héllo"), chars("héllo"));
}
