use hledger_parse::transaction::parse_transaction;
use hledger_parse::{
    Amount, Date, Decimal, Description, Posting, Status, Tag, Transaction, ValidationError,
};

fn cnt(s: &str) -> usize {
    s.chars().count()
}

fn d(y: i32, m: u32, day: u32) -> Date {
    Date::from_ymd_opt(y, m, day).unwrap()
}

fn amt(cur: &str, m: i64, sc: u32) -> Amount {
    Amount {
        currency: cur.to_string(),
        value: Decimal::new(m, sc),
    }
}

fn posting(account: &str, amount: Option<Amount>) -> Posting {
    Posting {
        status: Status::Unmarked,
        account: account.into(),
        amount,
        unit_price: None,
        total_price: None,
        balance_assertion: None,
    }
}

fn note_only(note: &str) -> Description {
    Description {
        payee: None,
        note: Some(note.to_string()),
    }
}

fn empty_description() -> Description {
    Description {
        payee: None,
        note: None,
    }
}

fn base_transaction() -> Transaction {
    Transaction {
        primary_date: d(2008, 1, 1),
        secondary_date: None,
        status: Status::Unmarked,
        code: None,
        description: note_only("income"),
        postings: vec![
            posting("assets:bank:checking", Some(amt("$", 1, 0))),
            posting("income:salary", Some(amt("$", -1, 0))),
        ],
        tags: vec![],
    }
}

#[test]
fn test_simple_transaction() {
    let s = "2008/01/01 income\n    assets:bank:checking   $1\n    income:salary         $-1\n";
    let (t, np) = parse_transaction(s, 0).unwrap();
    assert_eq!(t, base_transaction());
    assert_eq!(np, cnt(s));
}

#[test]
fn tests_test_simple_transaction() {
    let s = "2008/01/01 income\n    assets:bank:checking   $1\n    income:salary         $-1\n";
    let (t, np) = parse_transaction(s, 0).unwrap();
    assert_eq!(t, base_transaction());
    assert_eq!(np, cnt(s));
}

#[test]
fn test_empty_description_cleared_transaction() {
    let s = "2008/01/01 * |\n    assets:bank:checking   $1\n    income:salary         $-1\n";
    let (t, np) = parse_transaction(s, 0).unwrap();
    let mut expected = base_transaction();
    expected.status = Status::Cleared;
    expected.description = empty_description();
    assert_eq!(t, expected);
    assert_eq!(np, cnt(s));
}

#[test]
fn tests_test_empty_description_cleared_transaction() {
    let s = "2008/01/01 * |\n    assets:bank:checking   $1\n    income:salary         $-1\n";
    let (t, _) = parse_transaction(s, 0).unwrap();
    assert_eq!(t.status, Status::Cleared);
    assert_eq!(t.description, empty_description());
}

#[test]
fn test_empty_description_unmarked_transaction() {
    let s = "2008/01/01 |\n    assets:bank:checking   $1\n    income:salary         $-1\n";
    let (t, np) = parse_transaction(s, 0).unwrap();
    let mut expected = base_transaction();
    expected.description = empty_description();
    assert_eq!(t, expected);
    assert_eq!(np, cnt(s));
}

#[test]
fn tests_test_empty_description_unmarked_transaction() {
    let s = "2008/01/01 |\n    assets:bank:checking   $1\n    income:salary         $-1\n";
    let (t, _) = parse_transaction(s, 0).unwrap();
    assert_eq!(t.status, Status::Unmarked);
    assert_eq!(t.description, empty_description());
}

#[test]
fn test_transaction_ending_after_postings() {
    let s = "2008/01/01 income\n    assets:bank:checking   $1\n    income:salary\n\n2008/06/01 gift\n    assets:bank:checking  $1\n    income:gifts";
    let (t, np) = parse_transaction(s, 0).unwrap();
    let mut expected = base_transaction();
    expected.postings = vec![
        posting("assets:bank:checking", Some(amt("$", 1, 0))),
        posting("income:salary", None),
    ];
    assert_eq!(t, expected);
    let remaining = "\n2008/06/01 gift\n    assets:bank:checking  $1\n    income:gifts";
    assert_eq!(cnt(s) - np, cnt(remaining));
}

#[test]
fn tests_test_transaction_ending_after_postings() {
    let s = "2008/01/01 income\n    assets:bank:checking   $1\n    income:salary\n\n2008/06/01 gift\n    assets:bank:checking  $1\n    income:gifts";
    let (t, _) = parse_transaction(s, 0).unwrap();
    assert_eq!(t.postings.len(), 2);
    assert_eq!(t.postings[1], posting("income:salary", None));
}

#[test]
fn test_simple_transaction_with_empty_amount_posting() {
    let s = "2008/01/01 income\n    assets:bank:checking   $1\n    income:salary\n";
    let (t, np) = parse_transaction(s, 0).unwrap();
    let mut expected = base_transaction();
    expected.postings = vec![
        posting("assets:bank:checking", Some(amt("$", 1, 0))),
        posting("income:salary", None),
    ];
    assert_eq!(t, expected);
    assert_eq!(np, cnt(s));
}

#[test]
fn tests_test_simple_transaction_with_empty_amount_posting() {
    let s = "2008/01/01 income\n    assets:bank:checking   $1\n    income:salary\n";
    let (t, _) = parse_transaction(s, 0).unwrap();
    assert_eq!(t.postings[1].amount, None);
}

#[test]
fn test_transaction_with_code() {
    let s = "2008/01/01 (101) income\n    assets:bank:checking   $1\n    income:salary         $-1\n";
    let (t, np) = parse_transaction(s, 0).unwrap();
    let mut expected = base_transaction();
    expected.code = Some("101".to_string());
    assert_eq!(t, expected);
    assert_eq!(np, cnt(s));
}

#[test]
fn tests_test_transaction_with_code() {
    let s = "2008/01/01 (101) income\n    assets:bank:checking   $1\n    income:salary         $-1\n";
    let (t, _) = parse_transaction(s, 0).unwrap();
    assert_eq!(t.code, Some("101".to_string()));
}

#[test]
fn test_transaction_with_status() {
    let s = "2008/01/01 * (101) income\n    assets:bank:checking   $1\n    income:salary         $-1\n";
    let (t, np) = parse_transaction(s, 0).unwrap();
    let mut expected = base_transaction();
    expected.status = Status::Cleared;
    expected.code = Some("101".to_string());
    assert_eq!(t, expected);
    assert_eq!(np, cnt(s));
}

#[test]
fn tests_test_transaction_with_status() {
    let s = "2008/01/01 * (101) income\n    assets:bank:checking   $1\n    income:salary         $-1\n";
    let (t, _) = parse_transaction(s, 0).unwrap();
    assert_eq!(t.status, Status::Cleared);
}

#[test]
fn test_transaction_no_description() {
    let s = "2008/01/01\n    assets:bank:checking   $1\n    income:salary         $-1\n";
    let (t, np) = parse_transaction(s, 0).unwrap();
    let mut expected = base_transaction();
    expected.description = empty_description();
    assert_eq!(t, expected);
    assert_eq!(np, cnt(s));
}

#[test]
fn tests_test_transaction_no_description() {
    let s = "2008/01/01\n    assets:bank:checking   $1\n    income:salary         $-1\n";
    let (t, _) = parse_transaction(s, 0).unwrap();
    assert_eq!(t.description, empty_description());
}

#[test]
fn test_transaction_with_tags() {
    let s = "2008/01/01 ; some comment tag1:value1, tag2:value2, tag3:\n    assets:bank:checking   $1\n    income:salary         $-1\n";
    let (t, np) = parse_transaction(s, 0).unwrap();
    let mut expected = base_transaction();
    expected.description = empty_description();
    expected.tags = vec![
        Tag {
            name: "tag1".to_string(),
            value: Some("value1".to_string()),
        },
        Tag {
            name: "tag2".to_string(),
            value: Some("value2".to_string()),
        },
        Tag {
            name: "tag3".to_string(),
            value: None,
        },
    ];
    assert_eq!(t, expected);
    assert_eq!(np, cnt(s));
}

#[test]
fn tests_test_transaction_with_tags() {
    let s = "2008/01/01 ; some comment tag1:value1, tag2:value2, tag3:\n    assets:bank:checking   $1\n    income:salary         $-1\n";
    let (t, _) = parse_transaction(s, 0).unwrap();
    assert_eq!(t.tags.len(), 3);
    assert_eq!(t.tags[0].name, "tag1");
    assert_eq!(t.tags[2].value, None);
}

#[test]
fn test_transaction_validate_none_amount_postings() {
    let t = Transaction {
        primary_date: d(2008, 1, 1),
        secondary_date: None,
        status: Status::Unmarked,
        code: None,
        description: note_only("income"),
        postings: vec![
            posting("assets:bank:checking", Some(amt("$", 1, 0))),
            posting("income:salary", None),
        ],
        tags: vec![],
    };
    assert!(t.validate().is_ok());
}

#[test]
fn tests_test_transaction_validate_none_amount_postings() {
    let t = Transaction {
        primary_date: d(2008, 1, 1),
        secondary_date: None,
        status: Status::Unmarked,
        code: None,
        description: note_only("income"),
        postings: vec![
            posting("assets:bank:checking", Some(amt("$", 1, 0))),
            posting("income:salary", None),
        ],
        tags: vec![],
    };
    assert!(t.validate().is_ok());
}

#[test]
fn types_test_transaction_validate_none_amount_postings() {
    let t = Transaction {
        primary_date: d(2008, 1, 1),
        secondary_date: None,
        status: Status::Unmarked,
        code: None,
        description: note_only("income"),
        postings: vec![
            posting("assets:bank:checking", Some(amt("$", 1, 0))),
            posting("income:salary", None),
        ],
        tags: vec![],
    };
    assert!(t.validate().is_ok());
}

#[test]
fn test_transaction_validate_not_zero_sum_postings() {
    let t = Transaction {
        primary_date: d(2008, 1, 1),
        secondary_date: None,
        status: Status::Unmarked,
        code: None,
        description: note_only("income"),
        postings: vec![
            posting("assets:bank:checking", Some(amt("$", 1, 0))),
            posting("income:salary", Some(amt("$", 0, 0))),
        ],
        tags: vec![],
    };
    assert!(t.validate().is_err());
}

#[test]
fn tests_test_transaction_validate_not_zero_sum_postings() {
    let t = Transaction {
        primary_date: d(2008, 1, 1),
        secondary_date: None,
        status: Status::Unmarked,
        code: None,
        description: note_only("income"),
        postings: vec![
            posting("assets:bank:checking", Some(amt("$", 1, 0))),
            posting("income:salary", Some(amt("$", 0, 0))),
        ],
        tags: vec![],
    };
    assert!(t.validate().is_err());
}

#[test]
fn types_test_transaction_validate_not_zero_sum_postings() {
    let t = Transaction {
        primary_date: d(2008, 1, 1),
        secondary_date: None,
        status: Status::Unmarked,
        code: None,
        description: note_only("income"),
        postings: vec![
            posting("assets:bank:checking", Some(amt("$", 1, 0))),
            posting("income:salary", Some(amt("$", 0, 0))),
        ],
        tags: vec![],
    };
    assert!(t.validate().is_err());
}

#[test]
fn parse_comment_with_tags() {
    // a trailing comment before the first colon-bearing word is dropped;
    // the tags after it are kept
    let s = "2008/01/01 x ; a comment containing tag1:, tag2: some value\n    a   $1\n    b  $-1\n";
    let (t, _) = parse_transaction(s, 0).unwrap();
    assert_eq!(
        t.tags,
        vec![
            Tag {
                name: "tag1".to_string(),
                value: None,
            },
            Tag {
                name: "tag2".to_string(),
                value: Some("some value".to_string()),
            },
        ]
    );
}

#[test]
fn test_transaction_validate_two_missing_amounts() {
    let t = Transaction {
        primary_date: d(2008, 1, 1),
        secondary_date: None,
        status: Status::Unmarked,
        code: None,
        description: note_only("income"),
        postings: vec![
            posting("a", None),
            posting("b", None),
            posting("c", Some(amt("$", 1, 0))),
        ],
        tags: vec![],
    };
    assert!(matches!(
        t.validate(),
        Err(ValidationError::TransactionWithMissingAmountPostings(_))
    ));
}

#[test]
fn test_transaction_validate_total_price_substitution() {
    // the total price stands in for the amount when both are given
    let mut with_price = posting("a", Some(amt("$", 100, 0)));
    with_price.total_price = Some(amt("€", 9389, 2));
    let t = Transaction {
        primary_date: d(2008, 1, 1),
        secondary_date: None,
        status: Status::Unmarked,
        code: None,
        description: note_only("x"),
        postings: vec![with_price, posting("b", Some(amt("€", -9389, 2)))],
        tags: vec![],
    };
    assert!(t.validate().is_ok());
}

#[test]
fn test_transaction_validate_mixed_scales_zero_sum() {
    let t = Transaction {
        primary_date: d(2008, 1, 1),
        secondary_date: None,
        status: Status::Unmarked,
        code: None,
        description: note_only("x"),
        postings: vec![
            posting("a", Some(amt("$", 5, 1))),
            posting("b", Some(amt("$", -500, 3))),
        ],
        tags: vec![],
    };
    assert!(t.validate().is_ok());
}

#[test]
fn test_invalid_transaction_is_rejected_by_parse() {
    let s = "2008/01/01 broken\n    a   $1\n    b   $2\n";
    assert!(parse_transaction(s, 0).is_err());
}
