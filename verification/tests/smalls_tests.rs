use hledger_parse::account::parse_account_directive;
use hledger_parse::code::parse_code;
use hledger_parse::comment::{parse_line_comment, parse_transaction_comment};
use hledger_parse::description::parse_description;
use hledger_parse::status::parse_status;
use hledger_parse::tag::parse_tag;
use hledger_parse::{Account, Description, Status, Tag};

fn cnt(s: &str) -> usize {
    s.chars().count()
}

#[test]
fn test_status_cleared() {
    assert_eq!(parse_status("* ", 0), (Status::Cleared, 2));
}

#[test]
fn tests_test_status_cleared() {
    assert_eq!(parse_status("* ", 0), (Status::Cleared, 2));
}

#[test]
fn test_status_pending() {
    assert_eq!(parse_status("! ", 0), (Status::Pending, 2));
}

#[test]
fn tests_test_status_pending() {
    assert_eq!(parse_status("! ", 0), (Status::Pending, 2));
}

#[test]
fn test_status_unmarked() {
    assert_eq!(parse_status("", 0), (Status::Unmarked, 0));
    assert_eq!(parse_status(" ", 0), (Status::Unmarked, 0));
}

#[test]
fn tests_test_status_unmarked() {
    assert_eq!(parse_status("", 0), (Status::Unmarked, 0));
    assert_eq!(parse_status(" ", 0), (Status::Unmarked, 0));
}

#[test]
fn test_parse_code() {
    let s = "(code123-1!) rest";
    assert_eq!(parse_code(s, 0, cnt(s)), Some(("code123-1!".to_string(), 12)));
}

#[test]
fn code_test_parse_code() {
    let s = "(code123-1!) rest";
    assert_eq!(parse_code(s, 0, cnt(s)), Some(("code123-1!".to_string(), 12)));
}

#[test]
fn codes_test_parse_code() {
    let s = "(code123-1!) rest";
    assert_eq!(parse_code(s, 0, cnt(s)), Some(("code123-1!".to_string(), 12)));
}

#[test]
fn test_parse_invalid_code() {
    assert_eq!(parse_code("()", 0, 2), None);
}

#[test]
fn code_test_parse_invalid_code() {
    assert_eq!(parse_code("()", 0, 2), None);
}

#[test]
fn codes_test_parse_invalid_code() {
    assert_eq!(parse_code("()", 0, 2), None);
}

#[test]
fn test_parse_line_comment() {
    assert_eq!(
        parse_line_comment(";comment", 0),
        Some(("comment".to_string(), 8))
    );
    assert_eq!(
        parse_line_comment("; comment", 0),
        Some(("comment".to_string(), 9))
    );
    assert_eq!(
        parse_line_comment("#comment", 0),
        Some(("comment".to_string(), 8))
    );
    assert_eq!(
        parse_line_comment("# comment", 0),
        Some(("comment".to_string(), 9))
    );
    assert_eq!(
        parse_line_comment("*comment", 0),
        Some(("comment".to_string(), 8))
    );
    assert_eq!(
        parse_line_comment("* comment", 0),
        Some(("comment".to_string(), 9))
    );
}

#[test]
fn test_parse_line_comment_empty() {
    assert_eq!(parse_line_comment(";", 0), Some((String::new(), 1)));
    assert_eq!(parse_line_comment(";\n", 0), Some((String::new(), 1)));
}

#[test]
fn test_parse_transaction_comment() {
    assert_eq!(
        parse_transaction_comment(";comment", 0),
        Some(("comment".to_string(), 8))
    );
    assert_eq!(
        parse_transaction_comment("; comment", 0),
        Some(("comment".to_string(), 9))
    );
    assert_eq!(
        parse_transaction_comment(";lorem ipsum", 0),
        Some(("lorem ipsum".to_string(), 12))
    );
    assert_eq!(
        parse_transaction_comment("; lorem ipsum", 0),
        Some(("lorem ipsum".to_string(), 13))
    );
}

#[test]
fn test_parse_line_comment_as_transaction_comment() {
    assert_eq!(parse_transaction_comment("# comment", 0), None);
}

#[test]
fn test_parse_tag_no_value() {
    let s = "cash:";
    assert_eq!(
        parse_tag(s, 0, cnt(s)),
        Some((
            Tag {
                name: "cash".to_string(),
                value: None,
            },
            5
        ))
    );
    let s2 = "in_review:";
    assert_eq!(
        parse_tag(s2, 0, cnt(s2)).unwrap().0,
        Tag {
            name: "in_review".to_string(),
            value: None,
        }
    );
    let s3 = "in-review:";
    assert_eq!(
        parse_tag(s3, 0, cnt(s3)).unwrap().0,
        Tag {
            name: "in-review".to_string(),
            value: None,
        }
    );
    let s4 = "\"in review\":";
    assert_eq!(
        parse_tag(s4, 0, cnt(s4)).unwrap().0,
        Tag {
            name: "in review".to_string(),
            value: None,
        }
    );
    // whitespace inside the quotes is trimmed away on both sides
    let s5 = "\" in review \":";
    assert_eq!(
        parse_tag(s5, 0, cnt(s5)).unwrap().0,
        Tag {
            name: "in review".to_string(),
            value: None,
        }
    );
}

#[test]
fn test_parse_tag_with_value() {
    let s = "cash:atm";
    assert_eq!(
        parse_tag(s, 0, cnt(s)),
        Some((
            Tag {
                name: "cash".to_string(),
                value: Some("atm".to_string()),
            },
            8
        ))
    );
    let s2 = "cash:atm machine";
    assert_eq!(
        parse_tag(s2, 0, cnt(s2)).unwrap().0,
        Tag {
            name: "cash".to_string(),
            value: Some("atm machine".to_string()),
        }
    );
}

#[test]
fn test_parse_tag_unicode_no_value() {
    let s = "кеш:";
    assert_eq!(
        parse_tag(s, 0, cnt(s)).unwrap().0,
        Tag {
            name: "кеш".to_string(),
            value: None,
        }
    );
}

#[test]
fn test_parse_tag_with_space() {
    let s = "not a tag:";
    assert_eq!(parse_tag(s, 0, cnt(s)), None);
}

#[test]
fn test_parse_account_directive() {
    assert_eq!(
        parse_account_directive("account assets:cash", 0),
        Some(("assets:cash".to_string(), 19))
    );
    assert_eq!(
        parse_account_directive("account    assets:cash", 0),
        Some(("assets:cash".to_string(), 22))
    );
}

#[test]
fn test_parse_invalid_account_directive() {
    assert!(parse_account_directive("account assets:cash  ", 0).is_none());
}

#[test]
fn test_parse_account_directive_invalid_name() {
    assert!(parse_account_directive("account assets:cash  ", 0).is_none());
}

#[test]
fn test_account_components() {
    let a: Account = "assets:bank:checking".into();
    assert_eq!(
        a.components(),
        vec![
            "assets".to_string(),
            "bank".to_string(),
            "checking".to_string()
        ]
    );
}

#[test]
fn test_account_is_child_of() {
    let child: Account = "assets:bank:checking".into();
    let parent: Account = "assets:bank".into();
    let other: Account = "expenses".into();
    assert!(child.is_child_of(&parent));
    assert!(!child.is_child_of(&other));
    assert!(child.is_child_of(&child));
}

#[test]
fn test_parse_description() {
    let s = "some description";
    assert_eq!(
        parse_description(s, 0, cnt(s)),
        Description {
            payee: None,
            note: Some("some description".to_string()),
        }
    );
}

#[test]
fn test_parse_payee_and_note() {
    let s = "Acme | some description";
    assert_eq!(
        parse_description(s, 0, cnt(s)),
        Description {
            payee: Some("Acme".to_string()),
            note: Some("some description".to_string()),
        }
    );
}

#[test]
fn test_parse_empty_description() {
    assert_eq!(
        parse_description(" ", 0, 1),
        Description {
            payee: None,
            note: None,
        }
    );
    assert_eq!(
        parse_description("", 0, 0),
        Description {
            payee: None,
            note: None,
        }
    );
}

#[test]
fn test_parse_payee_and_note_different_spacing() {
    for s in ["Acme| some description", "Acme |some description", "Acme|some description"] {
        assert_eq!(
            parse_description(s, 0, cnt(s)),
            Description {
                payee: Some("Acme".to_string()),
                note: Some("some description".to_string()),
            }
        );
    }
}

#[test]
fn test_parse_description_stops_at_comment() {
    let s = " ; blah";
    assert_eq!(
        parse_description(s, 0, cnt(s)),
        Description {
            payee: None,
            note: None,
        }
    );
}

#[test]
fn test_description_is_missing() {
    let missing = Description {
        payee: None,
        note: None,
    };
    assert!(missing.is_missing());
    let with_note = Description {
        payee: None,
        note: Some("x".to_string()),
    };
    assert!(!with_note.is_missing());
}
