use hledger_parse::commodity::parse_commodity_directive;
use hledger_parse::journal::{
    flatten_values, parse_comment_value, parse_empty_line, parse_journal, parse_journal_contents,
    FileTable,
};
use hledger_parse::price::parse_price;
use hledger_parse::{
    Amount, Commodity, Date, Decimal, Description, HLParserError, Journal, Posting, Price, Status,
    Transaction, Value,
};

fn cnt(s: &str) -> usize {
    s.chars().count()
}

fn d(y: i32, m: u32, day: u32) -> Date {
    Date::from_ymd_opt(y, m, day).unwrap()
}

fn amt(cur: &str, m: i64, sc: u32) -> Amount {
    Amount {
        currency: cur.to_string(),
        value: Decimal::new(m, sc),
    }
}

fn posting(account: &str, amount: Option<Amount>) -> Posting {
    Posting {
        status: Status::Unmarked,
        account: account.into(),
        amount,
        unit_price: None,
        total_price: None,
        balance_assertion: None,
    }
}

fn note_only(note: &str) -> Description {
    Description {
        payee: None,
        note: Some(note.to_string()),
    }
}

fn simple_transaction(note: &str) -> Transaction {
    Transaction {
        primary_date: d(2008, 1, 1),
        secondary_date: None,
        status: Status::Unmarked,
        code: None,
        description: note_only(note),
        postings: vec![
            posting("assets:bank:checking", Some(amt("$", 1, 0))),
            posting("income:salary", None),
        ],
        tags: vec![],
    }
}

#[test]
fn test_parse_comment_value() {
    assert_eq!(parse_comment_value("; A sample journal file\n", 0), Some((Value::Ignore, 24)));
    assert_eq!(parse_comment_value(";\n", 0), Some((Value::Ignore, 2)));
    assert_eq!(parse_comment_value(";", 0), Some((Value::Ignore, 1)));
}

#[test]
fn journal_test_parse_comment_value() {
    assert_eq!(parse_comment_value(";", 0), Some((Value::Ignore, 1)));
}

#[test]
fn test_parse_empty_line() {
    assert_eq!(parse_empty_line("\n", 0), Some((Value::Ignore, 1)));
    assert_eq!(parse_empty_line("   \n", 0), Some((Value::Ignore, 4)));
}

#[test]
fn journal_test_parse_empty_line() {
    assert_eq!(parse_empty_line("\n", 0), Some((Value::Ignore, 1)));
}

#[test]
fn test_flatten_values() {
    let values = vec![
        Value::Transaction(simple_transaction("income")),
        Value::Nested(vec![
            Value::Transaction(simple_transaction("income")),
            Value::Nested(vec![Value::Transaction(simple_transaction("income"))]),
        ]),
    ];
    assert_eq!(
        flatten_values(values),
        vec![
            Value::Transaction(simple_transaction("income")),
            Value::Transaction(simple_transaction("income")),
            Value::Transaction(simple_transaction("income")),
        ]
    );
}

#[test]
fn journal_test_flatten_values() {
    let values = vec![
        Value::Ignore,
        Value::Nested(vec![Value::Ignore, Value::Nested(vec![])]),
    ];
    assert_eq!(flatten_values(values), vec![Value::Ignore, Value::Ignore]);
}

#[test]
fn test_parse_commodity_directive_single_line_name_prefix() {
    let s = "commodity $1000.00";
    assert_eq!(
        parse_commodity_directive(s, 0),
        Some((
            Commodity {
                name: "$".to_string(),
                format: Some("$1000.00".to_string()),
            },
            cnt(s)
        ))
    );
    let s2 = "commodity $ 1000.00";
    assert_eq!(
        parse_commodity_directive(s2, 0),
        Some((
            Commodity {
                name: "$".to_string(),
                format: Some("$ 1000.00".to_string()),
            },
            cnt(s2)
        ))
    );
}

#[test]
fn test_parse_commodity_directive_single_line_name_suffix() {
    let s = "commodity 1000.00USD";
    assert_eq!(
        parse_commodity_directive(s, 0),
        Some((
            Commodity {
                name: "USD".to_string(),
                format: Some("1000.00USD".to_string()),
            },
            cnt(s)
        ))
    );
    let s2 = "commodity 1000.00 USD";
    assert_eq!(
        parse_commodity_directive(s2, 0),
        Some((
            Commodity {
                name: "USD".to_string(),
                format: Some("1000.00 USD".to_string()),
            },
            cnt(s2)
        ))
    );
}

#[test]
fn test_parse_commodity_directive_multi_line() {
    let s = "commodity USD\n    format 1000.00USD\n";
    assert_eq!(
        parse_commodity_directive(s, 0),
        Some((
            Commodity {
                name: "USD".to_string(),
                format: Some("1000.00USD".to_string()),
            },
            cnt(s)
        ))
    );
}

#[test]
fn commodities_test_parse_commodity_directive_multi_line() {
    let s = "commodity USD\n    format 1000.00USD\n";
    let (c, np) = parse_commodity_directive(s, 0).unwrap();
    assert_eq!(c.name, "USD");
    assert_eq!(c.format, Some("1000.00USD".to_string()));
    assert_eq!(np, cnt(s));
}

#[test]
fn test_parse_commodity_name_only() {
    let s = "commodity INR";
    assert_eq!(
        parse_commodity_directive(s, 0),
        Some((
            Commodity {
                name: "INR".to_string(),
                format: None,
            },
            cnt(s)
        ))
    );
}

#[test]
fn commodities_test_parse_commodity_name_only() {
    let s = "commodity INR";
    let (c, _) = parse_commodity_directive(s, 0).unwrap();
    assert_eq!(c.format, None);
}

#[test]
fn test_valid_price() {
    let s = "P 2017-01-01 EUR SEK 9.552532877";
    assert_eq!(
        parse_price(s, 0).unwrap(),
        (
            Price {
                commodity: "EUR".to_string(),
                date: d(2017, 1, 1),
                amount: amt("SEK", 9552532877, 9),
            },
            cnt(s)
        )
    );
}

#[test]
fn prices_test_valid_price() {
    let s = "P 2017-01-01 EUR SEK 9.552532877";
    let (p, _) = parse_price(s, 0).unwrap();
    assert_eq!(p.commodity, "EUR");
    assert_eq!(p.amount, amt("SEK", 9552532877, 9));
}

fn sample_journal_text() -> String {
    [
        "; A sample journal file.\n",
        ";\n",
        "; Sets up this account tree:\n",
        "; assets\n",
        ";   bank\n",
        ";     checking\n",
        ";     saving\n",
        ";   cash\n",
        "; expenses\n",
        ";   food\n",
        ";   supplies\n",
        "; income\n",
        ";   gifts\n",
        ";   salary\n",
        "; liabilities\n",
        ";   debts\n",
        "\n",
        "2008/01/01 income\n",
        "    assets:bank:checking  $1\n",
        "    income:salary\n",
        "\n",
        "2008/06/01 gift\n",
        "    assets:bank:checking  $1\n",
        "    income:gifts\n",
        "\n",
        "2008/06/02 save\n",
        "    assets:bank:saving  $1\n",
        "    assets:bank:checking\n",
        "\n",
        "2008/06/03 * eat & shop\n",
        "    expenses:food      $1\n",
        "    expenses:supplies  $1\n",
        "    assets:cash\n",
        "\n",
        "2008/12/31 * pay off\n",
        "    liabilities:debts  $1\n",
        "    assets:bank:checking\n",
        "\n",
        "\n",
        ";final comment\n",
        "        ",
    ]
    .concat()
}

fn sample_journal_expected() -> Journal {
    let tx = |date: Date, status: Status, note: &str, postings: Vec<Posting>| Transaction {
        primary_date: date,
        secondary_date: None,
        status,
        code: None,
        description: note_only(note),
        postings,
        tags: vec![],
    };
    Journal::new(
        vec![
            tx(
                d(2008, 1, 1),
                Status::Unmarked,
                "income",
                vec![
                    posting("assets:bank:checking", Some(amt("$", 1, 0))),
                    posting("income:salary", None),
                ],
            ),
            tx(
                d(2008, 6, 1),
                Status::Unmarked,
                "gift",
                vec![
                    posting("assets:bank:checking", Some(amt("$", 1, 0))),
                    posting("income:gifts", None),
                ],
            ),
            tx(
                d(2008, 6, 2),
                Status::Unmarked,
                "save",
                vec![
                    posting("assets:bank:saving", Some(amt("$", 1, 0))),
                    posting("assets:bank:checking", None),
                ],
            ),
            tx(
                d(2008, 6, 3),
                Status::Cleared,
                "eat & shop",
                vec![
                    posting("expenses:food", Some(amt("$", 1, 0))),
                    posting("expenses:supplies", Some(amt("$", 1, 0))),
                    posting("assets:cash", None),
                ],
            ),
            tx(
                d(2008, 12, 31),
                Status::Cleared,
                "pay off",
                vec![
                    posting("liabilities:debts", Some(amt("$", 1, 0))),
                    posting("assets:bank:checking", None),
                ],
            ),
        ],
        vec![],
        vec![],
        vec![],
    )
}

#[test]
fn test_parse_journal_simple() {
    let text = sample_journal_text();
    let files: FileTable = Vec::new();
    let journal = parse_journal(text.as_str(), None, &files).unwrap();
    assert_eq!(journal, sample_journal_expected());
}

#[test]
fn journal_test_parse_journal_simple() {
    let text = sample_journal_text();
    let files: FileTable = Vec::new();
    let journal = parse_journal(text.as_str(), None, &files).unwrap();
    assert_eq!(journal.transactions().len(), 5);
    assert_eq!(journal.accounts().len(), 0);
}

#[test]
fn test_journal_payees() {
    let mut t1 = simple_transaction("income");
    t1.description = Description {
        payee: Some("Zeta".to_string()),
        note: None,
    };
    let mut t2 = simple_transaction("income");
    t2.description = Description {
        payee: Some("Acme".to_string()),
        note: None,
    };
    let mut t3 = simple_transaction("income");
    t3.description = Description {
        payee: Some("Zeta".to_string()),
        note: None,
    };
    let j = Journal::new(vec![t1, t2, t3], vec![], vec![], vec![]);
    assert_eq!(j.payees(), vec!["Acme".to_string(), "Zeta".to_string()]);
}

#[test]
fn test_journal_validate_accounts() {
    let j = Journal::new(
        vec![simple_transaction("income")],
        vec!["assets:bank:checking".into(), "income:salary".into()],
        vec![],
        vec![],
    );
    assert!(j.validate_accounts().is_ok());
    let j2 = Journal::new(vec![simple_transaction("income")], vec![], vec![], vec![]);
    match j2.validate_accounts() {
        Err(HLParserError::Validation(
            hledger_parse::ValidationError::UndefinedAccounts(names),
        )) => {
            assert_eq!(
                names,
                vec![
                    "assets:bank:checking".to_string(),
                    "income:salary".to_string()
                ]
            );
        },
        _ => panic!("expected undefined accounts"),
    }
}

#[test]
fn test_journal_directives_mixed() {
    let text = [
        "account assets:cash\n",
        "commodity INR\n",
        "P 2017-01-01 EUR SEK 9.552532877\n",
        "\n",
        "2008/01/01 income\n",
        "    assets:bank:checking  $1\n",
        "    income:salary\n",
    ]
    .concat();
    let files: FileTable = Vec::new();
    let journal = parse_journal(text.as_str(), None, &files).unwrap();
    assert_eq!(journal.transactions().len(), 1);
    assert_eq!(journal.accounts().len(), 1);
    assert_eq!(journal.prices().len(), 1);
    assert_eq!(journal.commodities().len(), 1);
}

#[test]
fn test_journal_inclusion_flattening() {
    // a file that pulls in a second file, which pulls in a third: the
    // values splice into one flat sequence, in depth-first order
    let directive = |p: &str| ["incl", "ude ", p, "\n"].concat();
    let root = [
        "2008/01/01 income\n    assets:bank:checking  $1\n    income:salary\n",
        directive("sub/a.journal").as_str(),
        "2008/06/01 gift\n    assets:bank:checking  $1\n    income:gifts\n",
    ]
    .concat();
    let a = [
        directive("b.journal").as_str(),
        "2008/06/02 save\n    assets:bank:saving  $1\n    assets:bank:checking\n",
    ]
    .concat();
    let b = "account assets:cash\n";
    let files: FileTable = vec![
        ("sub/a.journal".to_string(), a),
        ("sub/b.journal".to_string(), b.to_string()),
    ];
    let journal = parse_journal(root.as_str(), None, &files).unwrap();
    assert_eq!(journal.transactions().len(), 3);
    assert_eq!(journal.accounts().len(), 1);
    // depth-first order: the pulled-in transaction stands between the two
    // of the root file
    assert_eq!(
        journal.transactions()[1].description.note,
        Some("save".to_string())
    );
}

#[test]
fn test_journal_inclusion_missing_file() {
    let directive = ["incl", "ude missing.journal\n"].concat();
    let files: FileTable = Vec::new();
    match parse_journal(directive.as_str(), None, &files) {
        Err(HLParserError::Inclusion(p)) => assert_eq!(p, "missing.journal"),
        _ => panic!("expected an inclusion error"),
    }
}

#[test]
fn test_journal_inclusion_cycle() {
    let directive = ["incl", "ude a.journal\n"].concat();
    let files: FileTable = vec![("a.journal".to_string(), directive.clone())];
    match parse_journal(directive.as_str(), None, &files) {
        Err(HLParserError::Inclusion(_)) => {},
        _ => panic!("expected an inclusion error for the cycle"),
    }
}

#[test]
fn test_journal_parse_error_carries_rest() {
    let text = "not a directive\n";
    match parse_journal(text, None, &files_empty()) {
        Err(HLParserError::Parse(rest)) => assert_eq!(rest, "not a directive\n"),
        _ => panic!("expected a parse error"),
    }
}

fn files_empty() -> FileTable {
    Vec::new()
}

#[test]
fn test_journal_nested_parse_error_carries_sub_remainder() {
    // a grammar failure inside a pulled-in file reports that file's
    // unconsumed remainder
    let directive = ["incl", "ude a.journal\n"].concat();
    let files: FileTable = vec![("a.journal".to_string(), "garbage here\n".to_string())];
    match parse_journal(directive.as_str(), None, &files) {
        Err(HLParserError::Parse(rest)) => assert_eq!(rest, "garbage here\n"),
        _ => panic!("expected a parse error"),
    }
}

#[test]
fn test_journal_invalid_transaction_fails_whole_parse() {
    let text = "2008/01/01 broken\n    a   $1\n    b   $2\n";
    match parse_journal(text, None, &files_empty()) {
        Err(HLParserError::Validation(
            hledger_parse::ValidationError::NonZeroSumTransactionPostings(_),
        )) => {},
        _ => panic!("expected a validation error"),
    }
}

#[test]
fn test_journal_invalid_date_fails_whole_parse() {
    let text = "2021.02.29 note\n    a   $1\n    b   $-1\n";
    match parse_journal(text, None, &files_empty()) {
        Err(HLParserError::Validation(
            hledger_parse::ValidationError::InvalidDateComponents(Some(2021), 2, 29),
        )) => {},
        _ => panic!("expected an invalid-date error"),
    }
}

#[test]
fn test_parse_journal_contents_values() {
    let text = "; c\n\n2008/01/01 income\n    assets:bank:checking  $1\n    income:salary\n";
    let files: FileTable = Vec::new();
    let visited: Vec<String> = Vec::new();
    let values = parse_journal_contents(text, "", &files, &visited).unwrap();
    assert!(matches!(values[0], Value::Ignore));
    assert!(matches!(values[1], Value::Ignore));
    assert!(matches!(values[2], Value::Transaction(_)));
}
