use hledger_parse::utils::{
    decu32_leading_zeros, deci32_leading_zeros, eq_str, find_space_before_char, in_quotes,
    is_char_minus, repeated_zero, str_le,
};

fn cnt(s: &str) -> usize {
    s.chars().count()
}

#[test]
fn test_find_space_before_non_ascii_needle() {
    // the needle itself may be any character; the result is a byte index
    assert_eq!(find_space_before_char("преди източник", 'и'), None);
    assert_eq!(find_space_before_char("аб вгд", 'г'), Some(4));
}

#[test]
fn test_split_on_space_before_char() {
    assert_eq!(
        find_space_before_char("before before source:salary", ':'),
        Some(13)
    );
    assert_eq!(
        find_space_before_char("преди преди източник:заплата", ':'),
        Some(21)
    );
    assert_eq!(find_space_before_char("", ':'), None);
}

#[test]
fn test_repeated_zero_parser() {
    assert_eq!(repeated_zero("0", 0), 1);
    assert_eq!(repeated_zero("00000", 0), 5);
}

#[test]
fn test_parse_decu32_leading_zeros() {
    assert_eq!(decu32_leading_zeros("0", 0), (0, 1));
    assert_eq!(decu32_leading_zeros("00000", 0), (0, 5));
    assert_eq!(decu32_leading_zeros("01", 0), (1, 2));
    assert_eq!(decu32_leading_zeros("000001", 0), (1, 6));
}

#[test]
fn test_parse_deci32_leading_zeros() {
    assert_eq!(deci32_leading_zeros("0", 0), (0, 1));
    assert_eq!(deci32_leading_zeros("00000", 0), (0, 5));
    assert_eq!(deci32_leading_zeros("01", 0), (1, 2));
    assert_eq!(deci32_leading_zeros("000001", 0), (1, 6));
    assert_eq!(deci32_leading_zeros("-42", 0), (-42, 3));
}

#[test]
fn test_is_char_minus() {
    assert!(is_char_minus('-'));
    assert!(!is_char_minus('x'));
}

#[test]
fn test_in_quotes() {
    let s = "\"silver coins\" rest";
    let (t, np) = in_quotes(s, 0, cnt(s)).unwrap();
    assert_eq!(t, "silver coins");
    assert_eq!(np, 14);
    let s2 = "\" padded \"";
    let (t2, np2) = in_quotes(s2, 0, cnt(s2)).unwrap();
    assert_eq!(t2, "padded");
    assert_eq!(np2, cnt(s2));
    let s3 = "\"both ends \" x";
    let (t3, _np3) = in_quotes(s3, 0, cnt(s3)).unwrap();
    assert_eq!(t3, "both ends");
    assert!(in_quotes("no quote", 0, 8).is_none());
    assert!(in_quotes("\"unterminated", 0, 13).is_none());
}

#[test]
fn test_eq_str_and_order() {
    assert!(eq_str("abc", "abc"));
    assert!(!eq_str("abc", "abd"));
    assert!(!eq_str("abc", "abcd"));
    assert!(str_le("abc", "abd"));
    assert!(str_le("ab", "abc"));
    assert!(str_le("abc", "abc"));
    assert!(!str_le("b", "abc"));
}
