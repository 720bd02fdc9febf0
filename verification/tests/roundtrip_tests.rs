use hledger_parse::amount::parse_amount;
use hledger_parse::commodity::parse_commodity_directive;
use hledger_parse::date::parse_date;
use hledger_parse::journal::{parse_journal, FileTable};
use hledger_parse::posting::parse_posting;
use hledger_parse::price::parse_price;
use hledger_parse::transaction::parse_transaction;
use hledger_parse::{
    Amount, Commodity, Date, Decimal, Description, Journal, Posting, Price, Status, Tag,
    Transaction,
};

fn cnt(s: &str) -> usize {
    s.chars().count()
}

fn d(y: i32, m: u32, day: u32) -> Date {
    Date::from_ymd_opt(y, m, day).unwrap()
}

fn amt(cur: &str, m: i64, sc: u32) -> Amount {
    Amount {
        currency: cur.to_string(),
        value: Decimal::new(m, sc),
    }
}

#[test]
fn test_decimal_render() {
    assert_eq!(Decimal::new(100, 0).render(), "100");
    assert_eq!(Decimal::new(10095, 2).render(), "100.95");
    assert_eq!(Decimal::new(-5, 0).render(), "-5");
    assert_eq!(Decimal::new(7, 3).render(), "0.007");
    assert_eq!(Decimal::new(-10000, 2).render(), "-100.00");
    assert_eq!(Decimal::new(0, 0).render(), "0");
}

#[test]
fn test_date_render() {
    assert_eq!(d(2022, 6, 23).render(), "2022-06-23");
    assert_eq!(d(44, 1, 1).render(), "0044-01-01");
}

#[test]
fn test_amount_render_roundtrip() {
    for a in [
        amt("EUR", 1999, 2),
        amt("$", -5, 0),
        amt("silver coins", 100, 0),
        amt("", 42, 0),
    ] {
        let text = a.render();
        let (b, np) = parse_amount(text.as_str(), 0, cnt(text.as_str())).unwrap();
        assert_eq!(a, b, "{}", text);
        assert_eq!(np, cnt(text.as_str()), "{}", text);
    }
    assert_eq!(amt("EUR", 1999, 2).render(), "19.99 EUR");
}

#[test]
fn test_date_render_roundtrip() {
    for x in [d(2022, 6, 23), d(4, 2, 29), d(9999, 12, 31), d(2000, 1, 1)] {
        let text = x.render();
        let (y, sec, np) = parse_date(text.as_str(), 0).unwrap();
        assert_eq!(x, y);
        assert_eq!(sec, None);
        assert_eq!(np, cnt(text.as_str()));
    }
}

#[test]
fn test_status_render() {
    assert_eq!(Status::Unmarked.render(), "");
    assert_eq!(Status::Pending.render(), "!");
    assert_eq!(Status::Cleared.render(), "*");
}

#[test]
fn test_tag_render() {
    let t1 = Tag {
        name: "tag1".to_string(),
        value: None,
    };
    assert_eq!(t1.render(), "tag1:");
    let t2 = Tag {
        name: "tag1".to_string(),
        value: Some("some value".to_string()),
    };
    assert_eq!(t2.render(), "tag1:some value");
}

#[test]
fn test_description_render() {
    let both = Description {
        payee: Some("Cheers bar".to_string()),
        note: Some("drinks".to_string()),
    };
    assert_eq!(both.render(), "Cheers bar | drinks");
    let only_note = Description {
        payee: None,
        note: Some("drinks".to_string()),
    };
    assert_eq!(only_note.render(), "drinks");
    let only_payee = Description {
        payee: Some("Cheers bar".to_string()),
        note: None,
    };
    assert_eq!(only_payee.render(), "Cheers bar |");
}

#[test]
fn test_commodity_render_roundtrip() {
    let bare = Commodity {
        name: "INR".to_string(),
        format: None,
    };
    assert_eq!(bare.render(), "commodity INR");
    let with_format = Commodity {
        name: "INR".to_string(),
        format: Some("INR 1,00,00,000.00".to_string()),
    };
    assert_eq!(
        with_format.render(),
        "commodity INR\n  format INR 1,00,00,000.00"
    );
    for c in [bare, with_format] {
        let text = c.render();
        let (back, np) = parse_commodity_directive(text.as_str(), 0).unwrap();
        assert_eq!(c, back);
        assert_eq!(np, cnt(text.as_str()));
    }
}

#[test]
fn test_price_render_roundtrip() {
    let p = Price {
        commodity: "EUR".to_string(),
        date: d(2022, 6, 23),
        amount: amt("USD", 105, 2),
    };
    assert_eq!(p.render(), "P 2022-06-23 EUR 1.05 USD");
    let text = p.render();
    let (back, np) = parse_price(text.as_str(), 0).unwrap();
    assert_eq!(p, back);
    assert_eq!(np, cnt(text.as_str()));
}

#[test]
fn test_posting_render_roundtrip() {
    let mut p = Posting {
        status: Status::Pending,
        account: "expenses:food".into(),
        amount: Some(amt("EUR", 100, 0)),
        unit_price: None,
        total_price: None,
        balance_assertion: None,
    };
    assert_eq!(p.render(), "  ! expenses:food  100 EUR");
    p.unit_price = Some(amt("USD", 105, 2));
    assert_eq!(p.render(), "  ! expenses:food  100 EUR @ 1.05 USD");
    p.unit_price = None;
    p.total_price = Some(amt("USD", 9389, 2));
    p.balance_assertion = Some(amt("EUR", 0, 0));
    let text = p.render();
    let (back, _) = parse_posting(text.as_str(), 0).unwrap();
    assert_eq!(p, back);
}

#[test]
fn test_transaction_render_roundtrip() {
    let t = Transaction {
        primary_date: d(2022, 6, 23),
        secondary_date: Some(d(2022, 6, 24)),
        status: Status::Cleared,
        code: Some("12345".to_string()),
        description: Description {
            payee: Some("Cheers".to_string()),
            note: Some("drinks".to_string()),
        },
        postings: vec![
            Posting {
                status: Status::Unmarked,
                account: "assets:cash".into(),
                amount: Some(amt("EUR", -5, 0)),
                unit_price: None,
                total_price: None,
                balance_assertion: None,
            },
            Posting {
                status: Status::Unmarked,
                account: "expenses:bars".into(),
                amount: Some(amt("EUR", 5, 0)),
                unit_price: None,
                total_price: None,
                balance_assertion: None,
            },
        ],
        tags: vec![
            Tag {
                name: "tag1".to_string(),
                value: Some("some value".to_string()),
            },
            Tag {
                name: "tag2".to_string(),
                value: None,
            },
        ],
    };
    let text = t.render();
    let (back, np) = parse_transaction(text.as_str(), 0).unwrap();
    assert_eq!(t, back);
    assert_eq!(np, cnt(text.as_str()));
}

#[test]
fn test_journal_render_roundtrip() {
    let t = Transaction {
        primary_date: d(2008, 1, 1),
        secondary_date: None,
        status: Status::Unmarked,
        code: None,
        description: Description {
            payee: None,
            note: Some("income".to_string()),
        },
        postings: vec![
            Posting {
                status: Status::Unmarked,
                account: "assets:bank:checking".into(),
                amount: Some(amt("$", 1, 0)),
                unit_price: None,
                total_price: None,
                balance_assertion: None,
            },
            Posting {
                status: Status::Unmarked,
                account: "income:salary".into(),
                amount: None,
                unit_price: None,
                total_price: None,
                balance_assertion: None,
            },
        ],
        tags: vec![],
    };
    let j = Journal::new(
        vec![t],
        vec!["assets:bank:checking".into(), "income:salary".into()],
        vec![Price {
            commodity: "EUR".to_string(),
            date: d(2022, 6, 23),
            amount: amt("USD", 105, 2),
        }],
        vec![Commodity {
            name: "INR".to_string(),
            format: None,
        }],
    );
    let text = j.render();
    let files: FileTable = Vec::new();
    let back = parse_journal(text.as_str(), None, &files).unwrap();
    assert_eq!(j, back);
}
