//! Parser and structural validator for a plain-text, line-oriented ledger
//! format describing financial transactions, account declarations, market
//! prices and commodity formatting rules.
//!
//! Callers hand the library raw text (plus an in-memory table of further
//! files for resolving inclusion directives) and receive a fully typed,
//! validated [`Journal`], or a classified error.
use vstd::prelude::*;

pub mod account;
pub mod amount;
pub mod code;
pub mod comment;
pub mod commodity;
pub mod date;
pub mod decimal;
pub mod description;
pub mod journal;
pub mod posting;
pub mod price;
pub mod status;
pub mod tag;
pub mod transaction;
pub mod utils;

pub use account::Account;
pub use amount::Amount;
pub use amount::AmountSign;
pub use commodity::Commodity;
pub use date::Date;
pub use decimal::Decimal;
pub use description::Description;
pub use journal::Journal;
pub use journal::Value;
pub use posting::Posting;
pub use price::Price;
pub use status::Status;
pub use tag::Tag;
pub use transaction::Transaction;

verus! {

/// A semantic rule was violated.
#[derive(Debug, PartialEq)]
pub enum ValidationError {
    /// Date components that form no real calendar date.
    InvalidDateComponents(Option<i32>, u32, u32),
    /// A transaction whose postings' effective amounts do not sum to zero.
    NonZeroSumTransactionPostings(Transaction),
    /// A transaction with more than one posting missing its amount.
    TransactionWithMissingAmountPostings(Transaction),
    /// Accounts referenced by postings but never declared.
    UndefinedAccounts(Vec<String>),
}

/// A classified failure of the journal parser.
#[derive(Debug, PartialEq)]
pub enum HLParserError {
    /// The file collaborator failed.
    IO(String),
    /// A grammar violation; carries the unconsumed remainder of the input.
    Parse(String),
    /// A semantic rule was violated.
    Validation(ValidationError),
    /// An inclusion directive named a file that cannot be resolved, or one
    /// that is already being read further up the chain.
    Inclusion(String),
    /// A parsed value was of an unexpected variant.
    Extract(Value),
}

/// How a single grammar rule failed: a plain mismatch lets the caller try
/// the next rule; a fatal error stops the whole parse.
#[derive(Debug, PartialEq)]
pub enum ParseFailure {
    /// The rule does not apply here; another may.
    Mismatch,
    /// A classified error that ends the parse.
    Fatal(HLParserError),
}

} // verus!
