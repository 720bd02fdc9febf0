use hledger_parse::posting::{parse_balance, parse_posting};
use hledger_parse::{Amount, Decimal, Posting, Status};

fn cnt(s: &str) -> usize {
    s.chars().count()
}

fn amt(cur: &str, m: i64, sc: u32) -> Amount {
    Amount {
        currency: cur.to_string(),
        value: Decimal::new(m, sc),
    }
}

fn plain(status: Status, account: &str, amount: Option<Amount>) -> Posting {
    Posting {
        status,
        account: account.into(),
        amount,
        unit_price: None,
        total_price: None,
        balance_assertion: None,
    }
}

#[test]
fn test_parse_simple_posting() {
    let s = " assets:cash  $100";
    assert_eq!(
        parse_posting(s, 0),
        Some((
            plain(Status::Unmarked, "assets:cash", Some(amt("$", 100, 0))),
            cnt(s)
        ))
    );
    let s2 = " assets:cash      $100";
    assert_eq!(
        parse_posting(s2, 0),
        Some((
            plain(Status::Unmarked, "assets:cash", Some(amt("$", 100, 0))),
            cnt(s2)
        ))
    );
}

#[test]
fn test_parse_posting_with_status() {
    let s = " ! assets:cash  $100";
    assert_eq!(
        parse_posting(s, 0),
        Some((
            plain(Status::Pending, "assets:cash", Some(amt("$", 100, 0))),
            cnt(s)
        ))
    );
}

#[test]
fn test_correct_termination_parse_posting() {
    let s = " assets:cash\n2008/06/01 gift\n  assets:bank:checking  $1";
    assert_eq!(
        parse_posting(s, 0),
        Some((plain(Status::Unmarked, "assets:cash", None), 12))
    );
}

#[test]
fn postings_test_correct_termination_parse_posting() {
    let s = " assets:cash\n2008/06/01 gift\n  assets:bank:checking  $1";
    let (p, np) = parse_posting(s, 0).unwrap();
    assert_eq!(p, plain(Status::Unmarked, "assets:cash", None));
    assert_eq!(np, 12);
}

#[test]
fn test_parse_posting_without_amount() {
    let s = " assets:cash";
    assert_eq!(
        parse_posting(s, 0),
        Some((plain(Status::Unmarked, "assets:cash", None), cnt(s)))
    );
}

#[test]
fn postings_test_parse_posting_without_amount() {
    let s = " assets:cash";
    assert_eq!(
        parse_posting(s, 0),
        Some((plain(Status::Unmarked, "assets:cash", None), cnt(s)))
    );
}

#[test]
fn test_parse_posting_no_starting_space() {
    assert!(parse_posting("assets:cash", 0).is_none());
}

#[test]
fn postings_test_parse_posting_no_starting_space() {
    assert!(parse_posting("assets:cash", 0).is_none());
}

#[test]
fn test_parse_posting_with_unit_price() {
    let s = " ! assets:cash  $100 @ EUR0.94";
    let mut expected = plain(Status::Pending, "assets:cash", Some(amt("$", 100, 0)));
    expected.unit_price = Some(amt("EUR", 94, 2));
    assert_eq!(parse_posting(s, 0), Some((expected, cnt(s))));
}

#[test]
fn postings_test_parse_posting_with_unit_price() {
    let s = " ! assets:cash  $100 @ EUR0.94";
    let (p, _) = parse_posting(s, 0).unwrap();
    assert_eq!(p.unit_price, Some(amt("EUR", 94, 2)));
    assert_eq!(p.total_price, None);
}

#[test]
fn test_parse_posting_with_total_price() {
    let s = " ! assets:cash  $100 @@ €93,89";
    let mut expected = plain(Status::Pending, "assets:cash", Some(amt("$", 100, 0)));
    expected.total_price = Some(amt("€", 9389, 2));
    assert_eq!(parse_posting(s, 0), Some((expected, cnt(s))));
}

#[test]
fn postings_test_parse_posting_with_total_price() {
    let s = " ! assets:cash  $100 @@ €93,89";
    let (p, _) = parse_posting(s, 0).unwrap();
    assert_eq!(p.total_price, Some(amt("€", 9389, 2)));
    assert_eq!(p.unit_price, None);
}

#[test]
fn test_parse_balance_assertion() {
    let s = " = $100";
    assert_eq!(parse_balance(s, 0, cnt(s)), Some(amt("$", 100, 0)));
}

#[test]
fn test_parse_posting_with_balance_assertion() {
    let s = " ! assets:cash  $100 @@ €93,89 = $100";
    let mut expected = plain(Status::Pending, "assets:cash", Some(amt("$", 100, 0)));
    expected.total_price = Some(amt("€", 9389, 2));
    expected.balance_assertion = Some(amt("$", 100, 0));
    assert_eq!(parse_posting(s, 0), Some((expected, cnt(s))));
}
