use hledger_parse::amount::{parse_amount, parse_currency_string, parse_money_amount};
use hledger_parse::{Amount, Decimal};

fn cnt(s: &str) -> usize {
    s.chars().count()
}

fn amt(cur: &str, m: i64, sc: u32) -> Amount {
    Amount {
        currency: cur.to_string(),
        value: Decimal::new(m, sc),
    }
}

fn parse_all(s: &str) -> (Amount, usize) {
    parse_amount(s, 0, cnt(s)).unwrap()
}

#[test]
fn test_parse_amount_currency_prefixed() {
    assert_eq!(parse_all("$100"), (amt("$", 100, 0), 4));
    assert_eq!(parse_all("$ 100"), (amt("$", 100, 0), 5));
    assert_eq!(parse_all("$  100"), (amt("$", 100, 0), 6));
    assert_eq!(
        parse_all("\"silver coins\" 100"),
        (amt("silver coins", 100, 0), 18)
    );
    assert_eq!(
        parse_all("\"silver coins\"  100"),
        (amt("silver coins", 100, 0), 19)
    );
}

#[test]
fn amounts_test_parse_amount_currency_prefixed() {
    assert_eq!(parse_all("$100"), (amt("$", 100, 0), 4));
    assert_eq!(parse_all("$ 100"), (amt("$", 100, 0), 5));
    assert_eq!(parse_all("$  100"), (amt("$", 100, 0), 6));
}

#[test]
fn test_parse_amount_currency_suffixed() {
    assert_eq!(parse_all("100EUR"), (amt("EUR", 100, 0), 6));
    assert_eq!(parse_all("100 EUR"), (amt("EUR", 100, 0), 7));
    assert_eq!(parse_all("100  EUR"), (amt("EUR", 100, 0), 8));
    assert_eq!(
        parse_all("100 \"silver coins\""),
        (amt("silver coins", 100, 0), 18)
    );
    assert_eq!(
        parse_all("100  \"silver coins\""),
        (amt("silver coins", 100, 0), 19)
    );
}

#[test]
fn amounts_test_parse_amount_currency_suffixed() {
    assert_eq!(parse_all("100EUR"), (amt("EUR", 100, 0), 6));
    assert_eq!(parse_all("100 EUR"), (amt("EUR", 100, 0), 7));
}

#[test]
fn test_parse_amount_negative_currency_suffixed() {
    assert_eq!(parse_all("-100EUR"), (amt("EUR", -100, 0), 7));
    assert_eq!(parse_all("- 100EUR"), (amt("EUR", -100, 0), 8));
    assert_eq!(parse_all("-  100EUR"), (amt("EUR", -100, 0), 9));
    assert_eq!(parse_all("-100 EUR"), (amt("EUR", -100, 0), 8));
    assert_eq!(parse_all("-100  EUR"), (amt("EUR", -100, 0), 9));
    assert_eq!(parse_all("- 100 EUR"), (amt("EUR", -100, 0), 9));
    assert_eq!(parse_all("-  100 EUR"), (amt("EUR", -100, 0), 10));
}

#[test]
fn amounts_test_parse_amount_negative_currency_suffixed() {
    assert_eq!(parse_all("-100EUR"), (amt("EUR", -100, 0), 7));
    assert_eq!(parse_all("- 100EUR"), (amt("EUR", -100, 0), 8));
}

#[test]
fn test_parse_amount_negative_currency_prefixed() {
    assert_eq!(parse_all("-$100"), (amt("$", -100, 0), 5));
    assert_eq!(parse_all("$-100"), (amt("$", -100, 0), 5));
}

#[test]
fn amounts_test_parse_amount_negative_currency_prefixed() {
    assert_eq!(parse_all("-$100"), (amt("$", -100, 0), 5));
    assert_eq!(parse_all("$-100"), (amt("$", -100, 0), 5));
}

#[test]
fn test_parse_money_amount_int() {
    let s = "100EUR";
    let (v, np) = parse_money_amount(s, 0, cnt(s)).unwrap();
    assert_eq!(v, Decimal::new(100, 0));
    assert_eq!(np, 3);
}

#[test]
fn test_parse_money_amount_double() {
    let s = "100.00EUR";
    let (v, np) = parse_money_amount(s, 0, cnt(s)).unwrap();
    assert_eq!(v, Decimal::new(100, 0));
    assert_eq!(np, 6);
    let s2 = "100,00EUR";
    let (v2, np2) = parse_money_amount(s2, 0, cnt(s2)).unwrap();
    assert_eq!(v2, Decimal::new(100, 0));
    assert_eq!(np2, 6);
}

#[test]
fn test_parse_money_amount_small() {
    let s = "0.007EUR";
    let (v, np) = parse_money_amount(s, 0, cnt(s)).unwrap();
    assert_eq!(v, Decimal::new(7, 3));
    assert_eq!(np, 5);
}

#[test]
fn test_parse_money_amount() {
    let s = "100.95EUR";
    let (v, np) = parse_money_amount(s, 0, cnt(s)).unwrap();
    assert_eq!(v, Decimal::new(10095, 2));
    assert_eq!(np, 6);
    let s2 = "100,95EUR";
    let (v2, _) = parse_money_amount(s2, 0, cnt(s2)).unwrap();
    assert_eq!(v2, Decimal::new(10095, 2));
}

#[test]
fn test_parse_fractional_amount() {
    assert_eq!(parse_all("$100.95"), (amt("$", 10095, 2), 7));
}

#[test]
fn test_parse_currency_string_symbol() {
    assert_eq!(parse_currency_string("$", 0, 1), ("$".to_string(), 1));
    assert_eq!(parse_currency_string("$ ", 0, 2), ("$".to_string(), 1));
}

#[test]
fn test_parse_currency_string_quotes() {
    let s = "\"Imaginary money\"";
    assert_eq!(
        parse_currency_string(s, 0, cnt(s)),
        ("Imaginary money".to_string(), cnt(s))
    );
    let s2 = "\"Imaginary money\" ";
    assert_eq!(
        parse_currency_string(s2, 0, cnt(s2)),
        ("Imaginary money".to_string(), cnt(s2) - 1)
    );
}

#[test]
fn test_parse_currency_string_iso() {
    assert_eq!(parse_currency_string("USD", 0, 3), ("USD".to_string(), 3));
    assert_eq!(parse_currency_string("USD ", 0, 4), ("USD".to_string(), 3));
}

#[test]
fn test_parse_currency_string() {
    assert_eq!(parse_currency_string("$", 0, 1), ("$".to_string(), 1));
    let s = "\"Imaginary money\"";
    assert_eq!(
        parse_currency_string(s, 0, cnt(s)),
        ("Imaginary money".to_string(), cnt(s))
    );
}

#[test]
fn test_parse_amount_currency() {
    // the sign may stand before or after the currency in prefix form and
    // negates the value exactly once
    assert_eq!(parse_all("$-100"), (amt("$", -100, 0), 5));
    assert_eq!(parse_all("-$100"), (amt("$", -100, 0), 5));
    assert_eq!(parse_all("$ -100"), (amt("$", -100, 0), 6));
    assert_eq!(parse_all("$  -100"), (amt("$", -100, 0), 7));
    assert_eq!(parse_all("\"silver coins\"- 100"), (amt("silver coins", -100, 0), 19));
    assert_eq!(parse_all("-\"silver coins\" 100"), (amt("silver coins", -100, 0), 19));
}

#[test]
fn test_decimal_numeric_equality() {
    // trailing zeros do not change the value
    assert_eq!(Decimal::new(100, 0), Decimal::new(10000, 2));
    assert_ne!(Decimal::new(100, 0), Decimal::new(10001, 2));
    assert_eq!(Decimal::new(-5, 1), Decimal::new(-500, 3));
}

#[test]
fn test_amount_negate_and_signs() {
    let a = amt("EUR", 5, 0);
    let n = a.negate();
    assert_eq!(n, amt("EUR", -5, 0));
    assert!(n.is_negative());
    assert!(!n.is_positive());
    assert!(a.is_positive());
}

#[test]
fn test_thousands_space_not_supported() {
    // a space inside the integer part ends the number; the remainder is
    // not re-read as part of the value
    let s = "100 000 EUR";
    let (a, np) = parse_amount(s, 0, cnt(s)).unwrap();
    assert_eq!(a.value, Decimal::new(100, 0));
    assert_eq!(a.currency, "");
    assert_eq!(np, 4);
}
