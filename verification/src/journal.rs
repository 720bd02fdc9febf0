//! The journal: the parsed values of a ledger file and the aggregate built
//! from them.
use vstd::prelude::*;
use crate::account::{Account, parse_account_directive};
use crate::comment::parse_line_comment;
use crate::commodity::{Commodity, parse_commodity_directive};
use crate::posting::Posting;
use crate::price::{Price, parse_price};
use crate::transaction::Transaction;
use crate::utils::{
    is_space_char, run_end, spec_line_content_end, line_content_end, scan_spaces, substr,
    try_line_ending, eq_str,
};
use crate::{HLParserError, ParseFailure, ValidationError};

verus! {

broadcast use vstd::std_specs::vec::group_vec_axioms, vstd::seq::group_seq_axioms;

/// One parsed value of the journal grammar: a line to ignore, a
/// transaction, a directive, or the spliced-in values of another file.
#[derive(Debug, PartialEq)]
pub enum Value {
    /// A blank or comment line.
    Ignore,
    /// A transaction block.
    Transaction(Transaction),
    /// The values of a file pulled in by an inclusion directive.
    Nested(Vec<Value>),
    /// A market price declaration.
    Price(Price),
    /// An account declaration.
    Account(Account),
    /// A commodity declaration.
    Commodity(Commodity),
}

/// Content sameness of two parsed values: equal variants with equal
/// payloads, nested lists compared element by element.
pub open spec fn value_eq(a: Value, b: Value) -> bool
    decreases a,
{
    match (a, b) {
        (Value::Ignore, Value::Ignore) => true,
        (Value::Transaction(x), Value::Transaction(y)) => crate::transaction::txn_eq(x, y),
        (Value::Nested(x), Value::Nested(y)) => x@.len() == y@.len() && (forall|i: int|
            0 <= i < x@.len() ==> value_eq(#[trigger] x@[i], y@[i])),
        (Value::Price(x), Value::Price(y)) => x == y,
        (Value::Account(x), Value::Account(y)) => x == y,
        (Value::Commodity(x), Value::Commodity(y)) => x == y,
        _ => false,
    }
}

/// Content sameness is reflexive.
pub proof fn lemma_value_eq_refl(v: Value)
    ensures
        value_eq(v, v),
    decreases v,
{
    match v {
        Value::Nested(xs) => {
            assert forall|i: int| 0 <= i < xs@.len() implies value_eq(#[trigger] xs@[i], xs@[i]) by {
                lemma_value_eq_refl(xs@[i]);
            }
        },
        _ => {},
    }
}

impl Clone for Value {
    /// A clone carries the same contents as the original.
    fn clone(&self) -> (r: Self)
        ensures
            value_eq(r, *self),
        decreases *self,
    {
        match self {
            Value::Ignore => Value::Ignore,
            Value::Transaction(t) => Value::Transaction(t.clone()),
            Value::Nested(vs) => {
                let mut out: Vec<Value> = Vec::new();
                let mut i: usize = 0;
                while i < vs.len()
                    invariant
                        *self == Value::Nested(*vs),
                        (decreases_to!(*self => *vs)),
                        i <= vs@.len(),
                        out@.len() == i as int,
                        forall|k: int| 0 <= k < i ==> value_eq(#[trigger] out@[k], vs@[k]),
                    decreases vs@.len() - i,
                {
                    out.push(vs[i].clone());
                    i = i + 1;
                }
                Value::Nested(out)
            },
            Value::Price(p) => Value::Price(p.clone()),
            Value::Account(a) => Value::Account(a.clone()),
            Value::Commodity(c) => Value::Commodity(c.clone()),
        }
    }
}

/// A journal: the ordered transactions, account declarations, market prices
/// and commodity declarations of a ledger, built once and immutable.
#[derive(Debug, PartialEq)]
pub struct Journal {
    transactions: Vec<Transaction>,
    accounts: Vec<Account>,
    prices: Vec<Price>,
    commodities: Vec<Commodity>,
}

impl Journal {
    /// The transactions, in source order.
    pub closed spec fn spec_transactions(self) -> Seq<Transaction> {
        self.transactions@
    }

    /// The declared accounts, in source order.
    pub closed spec fn spec_accounts(self) -> Seq<Account> {
        self.accounts@
    }

    /// The market prices, in source order.
    pub closed spec fn spec_prices(self) -> Seq<Price> {
        self.prices@
    }

    /// The declared commodities, in source order.
    pub closed spec fn spec_commodities(self) -> Seq<Commodity> {
        self.commodities@
    }

    /// Assembles a journal from its four collections.
    pub fn new(
        transactions: Vec<Transaction>,
        accounts: Vec<Account>,
        prices: Vec<Price>,
        commodities: Vec<Commodity>,
    ) -> (r: Journal)
        ensures
            r.spec_transactions() == transactions@,
            r.spec_accounts() == accounts@,
            r.spec_prices() == prices@,
            r.spec_commodities() == commodities@,
    {
        Journal { transactions, accounts, prices, commodities }
    }

    /// The transactions, in source order.
    pub fn transactions(&self) -> (r: &Vec<Transaction>)
        ensures
            r@ == self.spec_transactions(),
    {
        &self.transactions
    }

    /// The declared accounts, in source order.
    pub fn accounts(&self) -> (r: &Vec<Account>)
        ensures
            r@ == self.spec_accounts(),
    {
        &self.accounts
    }

    /// The market prices, in source order.
    pub fn prices(&self) -> (r: &Vec<Price>)
        ensures
            r@ == self.spec_prices(),
    {
        &self.prices
    }

    /// The declared commodities, in source order.
    pub fn commodities(&self) -> (r: &Vec<Commodity>)
        ensures
            r@ == self.spec_commodities(),
    {
        &self.commodities
    }
}

/// An in-memory file table: resolved path names paired with file contents.
/// The journal parser reads inclusion targets from here; the caller decides
/// what stands in it.
pub type FileTable = Vec<(String, String)>;

/// A parsed value is sound: transactions are well-formed and balanced,
/// prices are well-formed, and nested values are sound throughout.
pub open spec fn value_wf(v: Value) -> bool
    decreases v,
{
    match v {
        Value::Transaction(t) => t.wf() && t.spec_valid(),
        Value::Price(p) => p.wf(),
        Value::Nested(vs) => forall|i: int| 0 <= i < vs@.len() ==> value_wf(#[trigger] vs@[i]),
        _ => true,
    }
}

/// Blank line read at `pos`: spaces, then a line ending or the end of the
/// text; the result is the position past the line ending.
pub open spec fn spec_parse_empty_line(s: Seq<char>, pos: int) -> Option<int> {
    let sp = run_end(s, pos, |c: char| is_space_char(c));
    if crate::commodity::line_ending_or_eof_at(s, sp) {
        Some(crate::commodity::after_line_ending(s, sp))
    } else {
        None
    }
}

/// Reads a blank line. `Some` exactly when spaces followed by a line
/// ending (or the end of the text) stand at `pos`.
pub fn parse_empty_line(s: &str, pos: usize) -> (r: Option<(Value, usize)>)
    requires
        pos <= s@.len(),
    ensures
        match r {
            Some((v, np)) => v == Value::Ignore && spec_parse_empty_line(s@, pos as int)
                == Some(np as int) && pos <= np <= s@.len() && (pos < s@.len() ==> pos < np),
            None => spec_parse_empty_line(s@, pos as int) is None,
        },
{
    let sp = scan_spaces(s, pos);
    match try_line_ending(s, sp) {
        Some(np) => {
            proof {
                lemma_try_line_ending_spec(s@, sp as int, np as int);
            }
            Some((Value::Ignore, np))
        },
        None => None,
    }
}

/// A successful line-ending read realizes the spec-level line ending.
proof fn lemma_try_line_ending_spec(s: Seq<char>, pos: int, np: int)
    requires
        0 <= pos <= s.len(),
        pos == s.len() ==> np == pos,
        pos < s.len() && s[pos] == '\n' ==> np == pos + 1,
        pos < s.len() && s[pos] == '\r' && pos + 1 < s.len() && s[pos + 1] == '\n' ==> np == pos
            + 2,
        crate::commodity::line_ending_or_eof_at(s, pos),
    ensures
        crate::commodity::after_line_ending(s, pos) == np,
{
}

/// Comment line read at `pos`: a line comment, then a line ending or the
/// end of the text; the result is the position past the line ending.
pub open spec fn spec_parse_comment_value(s: Seq<char>, pos: int) -> Option<int> {
    match crate::comment::spec_parse_line_comment(s, pos) {
        Some((_t, ce)) => if crate::commodity::line_ending_or_eof_at(s, ce) {
            Some(crate::commodity::after_line_ending(s, ce))
        } else {
            None
        },
        None => None,
    }
}

/// Reads a comment line. `Some` exactly when a whole-line comment with its
/// line ending stands at `pos`.
pub fn parse_comment_value(s: &str, pos: usize) -> (r: Option<(Value, usize)>)
    requires
        pos <= s@.len(),
    ensures
        match r {
            Some((v, np)) => v == Value::Ignore && spec_parse_comment_value(s@, pos as int)
                == Some(np as int) && pos < np <= s@.len(),
            None => spec_parse_comment_value(s@, pos as int) is None,
        },
{
    match parse_line_comment(s, pos) {
        Some((_c, ce)) => {
            proof {
                let sp = run_end(s@, pos as int + 1, |c: char| is_space_char(c));
                crate::utils::lemma_run_end_bounds(s@, pos as int + 1, |c: char| is_space_char(c));
                crate::utils::lemma_line_content_end_props(s@, sp);
            }
            match try_line_ending(s, ce) {
                Some(np) => {
                    proof {
                        lemma_try_line_ending_spec(s@, ce as int, np as int);
                    }
                    Some((Value::Ignore, np))
                },
                None => None,
            }
        },
        None => None,
    }
}

/// The directory part of a path: everything before the last `/`, empty
/// when the path holds none.
pub open spec fn spec_parent_dir(p: Seq<char>) -> Seq<char>
    decreases p.len(),
{
    if p.len() == 0 {
        Seq::empty()
    } else if p.last() == '/' {
        p.drop_last()
    } else {
        spec_parent_dir(p.drop_last())
    }
}

/// Takes the directory part of a path.
pub fn parent_dir(path: &str) -> (r: String)
    ensures
        r@ == spec_parent_dir(path@),
{
    let n = path.unicode_len();
    let mut j = n;
    proof {
        assert(path@.subrange(0, n as int) =~= path@);
    }
    while j > 0
        invariant
            j <= n,
            n == path@.len(),
            spec_parent_dir(path@) == spec_parent_dir(path@.subrange(0, j as int)),
        decreases j,
    {
        proof {
            assert(path@.subrange(0, j as int).drop_last() =~= path@.subrange(0, j - 1));
            assert(path@.subrange(0, j as int).last() == path@[j - 1]);
        }
        if path.get_char(j - 1) == '/' {
            return substr(path, 0, j - 1);
        }
        j = j - 1;
    }
    proof {
        assert(path@.subrange(0, 0) =~= Seq::<char>::empty());
    }
    String::new()
}

/// A base directory and a relative path joined with a `/`; an empty base
/// leaves the path as it is.
pub open spec fn spec_join(base: Seq<char>, rel: Seq<char>) -> Seq<char> {
    if base.len() == 0 {
        rel
    } else {
        base + seq!['/'] + rel
    }
}

/// Joins a base directory and a relative path.
pub fn join_path(base: &str, rel: &str) -> (r: String)
    ensures
        r@ == spec_join(base@, rel@),
{
    if base.is_empty() {
        return rel.to_owned();
    }
    let mut out = base.to_owned();
    out.append("/");
    out.append(rel);
    proof {
        reveal_strlit("/");
        assert(out@ =~= base@ + seq!['/'] + rel@);
    }
    out
}

/// Does the inclusion keyword stand at `pos`?
pub open spec fn inclusion_keyword_at(s: Seq<char>, pos: int) -> bool {
    &&& pos + 7 <= s.len()
    &&& s[pos] == 'i'
    &&& s[pos + 1] == 'n'
    &&& s[pos + 2] == 'c'
    &&& s[pos + 3] == 'l'
    &&& s[pos + 4] == 'u'
    &&& s[pos + 5] == 'd'
    &&& s[pos + 6] == 'e'
}

/// Inclusion directive read at `pos`: the directive keyword, at least one
/// space, then the rest of the line as the target path.
pub open spec fn spec_parse_inclusion(s: Seq<char>, pos: int) -> Option<(Seq<char>, int)> {
    if inclusion_keyword_at(s, pos) {
        let sp = run_end(s, pos + 7, |c: char| is_space_char(c));
        if sp > pos + 7 {
            let ce = spec_line_content_end(s, sp);
            Some((s.subrange(sp, ce), ce))
        } else {
            None
        }
    } else {
        None
    }
}

/// Reads an inclusion directive: the returned string is the rest of the
/// line after the keyword and its spaces, and the position is the line's
/// content end.
pub fn parse_inclusion_path(s: &str, pos: usize) -> (r: Option<(String, usize)>)
    requires
        pos <= s@.len(),
    ensures
        match r {
            Some((p, np)) => spec_parse_inclusion(s@, pos as int) == Some((p@, np as int))
                && pos < np <= s@.len(),
            None => spec_parse_inclusion(s@, pos as int) is None,
        },
{
    let n = s.unicode_len();
    if n - pos < 7 {
        return None;
    }
    if !(s.get_char(pos) == 'i' && s.get_char(pos + 1) == 'n' && s.get_char(pos + 2) == 'c'
        && s.get_char(pos + 3) == 'l' && s.get_char(pos + 4) == 'u' && s.get_char(pos + 5) == 'd'
        && s.get_char(pos + 6) == 'e') {
        return None;
    }
    let sp = scan_spaces(s, pos + 7);
    if sp == pos + 7 {
        return None;
    }
    let ce = line_content_end(s, sp);
    Some((substr(s, sp, ce), ce))
}

/// The path-and-contents views of the file table.
pub open spec fn kv_views(files: Seq<(String, String)>) -> Seq<(Seq<char>, Seq<char>)> {
    files.map_values(|p: (String, String)| (p.0@, p.1@))
}

/// The contents filed under a name: the first entry with that name wins.
pub open spec fn lookup_view(kv: Seq<(Seq<char>, Seq<char>)>, name: Seq<char>) -> Option<
    Seq<char>,
>
    decreases kv.len(),
{
    if kv.len() == 0 {
        None
    } else if kv.first().0 == name {
        Some(kv.first().1)
    } else {
        lookup_view(kv.drop_first(), name)
    }
}

/// A successful lookup names an entry of the table.
proof fn lemma_lookup_view_witness(kv: Seq<(Seq<char>, Seq<char>)>, name: Seq<char>)
    requires
        lookup_view(kv, name) is Some,
    ensures
        exists|i: int|
            0 <= i < kv.len() && (#[trigger] kv[i].0) == name && kv[i].1 == lookup_view(
                kv,
                name,
            ).unwrap(),
    decreases kv.len(),
{
    if kv.len() > 0 {
        if kv.first().0 == name {
            assert(kv[0].0 == name && kv[0].1 == lookup_view(kv, name).unwrap());
        } else {
            lemma_lookup_view_witness(kv.drop_first(), name);
            let i = choose|i: int|
                0 <= i < kv.drop_first().len() && (#[trigger] kv.drop_first()[i].0) == name
                    && kv.drop_first()[i].1 == lookup_view(kv.drop_first(), name).unwrap();
            assert(kv[i + 1].0 == name && kv[i + 1].1 == lookup_view(kv, name).unwrap());
        }
    }
}

/// Looks a path up in the file table: the returned contents are exactly
/// those the spec-level lookup gives, with the first matching entry
/// winning.
fn lookup_file<'a>(files: &'a FileTable, path: &str) -> (r: Option<&'a String>)
    ensures
        match r {
            Some(c) => lookup_view(kv_views(files@), path@) == Some(c@),
            None => lookup_view(kv_views(files@), path@) is None,
        },
{
    let ghost kvv = kv_views(files@);
    let mut i: usize = 0;
    proof {
        assert(kvv.skip(0) =~= kvv);
    }
    while i < files.len()
        invariant
            i <= files@.len(),
            kvv == kv_views(files@),
            lookup_view(kvv, path@) == lookup_view(kvv.skip(i as int), path@),
        decreases files@.len() - i,
    {
        proof {
            assert(kvv.skip(i as int).first() == kvv[i as int]);
            assert(kvv.skip(i as int).drop_first() =~= kvv.skip(i as int + 1));
        }
        if eq_str(files[i].0.as_str(), path) {
            proof {
                assert(kvv[i as int].0 == path@);
                assert(lookup_view(kvv.skip(i as int), path@) == Some(kvv[i as int].1));
            }
            return Some(&files[i].1);
        }
        i = i + 1;
    }
    proof {
        assert(kvv.skip(files@.len() as int) =~= Seq::<(Seq<char>, Seq<char>)>::empty());
    }
    None
}

/// Is the path already on the current inclusion chain?
fn chain_holds(visited: &Vec<String>, path: &str) -> (r: bool)
    ensures
        r == exists|i: int| 0 <= i < visited@.len() && (#[trigger] visited@[i])@ == path@,
{
    let mut i: usize = 0;
    while i < visited.len()
        invariant
            i <= visited@.len(),
            forall|k: int| 0 <= k < i ==> (#[trigger] visited@[k])@ != path@,
        decreases visited@.len() - i,
    {
        if eq_str(visited[i].as_str(), path) {
            return true;
        }
        i = i + 1;
    }
    false
}

/// The name views of the current inclusion chain.
pub open spec fn chain_views(visited: Seq<String>) -> Seq<Seq<char>> {
    visited.map_values(|v: String| v@)
}

/// The path-name views of the file table.
pub open spec fn key_views(files: Seq<(String, String)>) -> Seq<Seq<char>> {
    files.map_values(|p: (String, String)| p.0@)
}

/// A sound inclusion chain: no path repeats, and every path names a file of
/// the table.
pub open spec fn chain_wf(visited: Seq<String>, files: Seq<(String, String)>) -> bool {
    &&& chain_views(visited).no_duplicates()
    &&& forall|i: int|
        0 <= i < visited.len() ==> key_views(files).contains(#[trigger] chain_views(visited)[i])
}

/// A sound chain never grows past the file table.
proof fn lemma_chain_len(visited: Seq<String>, files: Seq<(String, String)>)
    requires
        chain_wf(visited, files),
    ensures
        visited.len() <= files.len(),
{
    let cv = chain_views(visited);
    let kv = key_views(files);
    cv.unique_seq_to_set();
    kv.lemma_cardinality_of_set();
    assert(cv.to_set().subset_of(kv.to_set())) by {
        assert forall|x: Seq<char>| cv.to_set().contains(x) implies kv.to_set().contains(x) by {
            let i = choose|i: int| 0 <= i < cv.len() && cv[i] == x;
            assert(kv.contains(cv[i]));
        }
    }
    vstd::set_lib::lemma_len_subset(cv.to_set(), kv.to_set());
}

/// Parses the whole text of one journal file into its sequence of values,
/// resolving inclusion directives against the file table. `base` is the
/// directory that relative inclusion targets are resolved against, and
/// `visited` the chain of files already being read: a target that repeats
/// on the chain, or that the table does not hold, is an inclusion error.
/// On success the values are exactly the dispatch loop's reading of the
/// text; a grammar failure carries the unconsumed remainder of the file it
/// arose in. `Validation` errors arise only from an invalid date or an
/// unbalanced transaction; `IO` and `Extract` never arise here.
#[verifier::rlimit(100)]
pub fn parse_journal_contents(
    s: &str,
    base: &str,
    files: &FileTable,
    visited: &Vec<String>,
) -> (r: Result<Vec<Value>, HLParserError>)
    requires
        chain_wf(visited@, files@),
    ensures
        match r {
            Ok(values) => values_read_from(s@, base@, kv_views(files@), 0, values@) && (forall|
                i: int,
            | 0 <= i < values@.len() ==> value_wf(#[trigger] values@[i])),
            Err(e) => {
                &&& !(e is IO)
                &&& !(e is Extract)
                &&& (e matches HLParserError::Validation(ve) ==> !(ve is UndefinedAccounts))
                &&& (e matches HLParserError::Parse(rest) ==> (stuck_remainder(rest@, s@)
                    || exists|k: int|
                        0 <= k < kv_views(files@).len() && stuck_remainder(
                            rest@,
                            #[trigger] kv_views(files@)[k].1,
                        )))
                &&& (e matches HLParserError::Inclusion(p) ==> (lookup_view(
                    kv_views(files@),
                    p@,
                ) is None || chain_views(visited@).contains(p@) || key_views(files@).contains(
                    p@,
                )))
            },
        },
    decreases files@.len() - visited@.len(), 0int,
{
    proof {
        lemma_chain_len(visited@, files@);
    }
    let ghost bv = base@;
    let ghost kvv = kv_views(files@);
    let n = s.unicode_len();
    let mut pos: usize = 0;
    let mut values: Vec<Value> = Vec::new();
    while pos < n
        invariant
            pos <= n,
            n == s@.len(),
            bv == base@,
            kvv == kv_views(files@),
            chain_wf(visited@, files@),
            visited@.len() <= files@.len(),
            forall|i: int| 0 <= i < values@.len() ==> value_wf(#[trigger] values@[i]),
            values_read_between(s@, bv, kvv, 0, pos as int, values@),
        decreases n - pos,
    {
        let ghost prev = values@;
        match crate::transaction::parse_transaction(s, pos) {
            Ok((t, np)) => {
                proof {
                    assert(rule_end(s@, pos as int) == Some(np as int));
                    assert(step_value_ok(s@, bv, kvv, pos as int, Value::Transaction(t)));
                    lemma_between_push(s@, bv, kvv, 0, pos as int, prev, Value::Transaction(t));
                }
                values.push(Value::Transaction(t));
                pos = np;
                continue ;
            },
            Err(ParseFailure::Fatal(e)) => {
                return Err(e);
            },
            Err(ParseFailure::Mismatch) => {},
        }
        match parse_comment_value(s, pos) {
            Some((v, np)) => {
                proof {
                    assert(rule_end(s@, pos as int) == Some(np as int));
                    assert(step_value_ok(s@, bv, kvv, pos as int, Value::Ignore));
                    lemma_between_push(s@, bv, kvv, 0, pos as int, prev, Value::Ignore);
                }
                values.push(v);
                pos = np;
                continue ;
            },
            None => {},
        }
        match parse_empty_line(s, pos) {
            Some((v, np)) => {
                proof {
                    assert(rule_end(s@, pos as int) == Some(np as int));
                    assert(step_value_ok(s@, bv, kvv, pos as int, Value::Ignore));
                    lemma_between_push(s@, bv, kvv, 0, pos as int, prev, Value::Ignore);
                }
                values.push(v);
                pos = np;
                continue ;
            },
            None => {},
        }
        match parse_price(s, pos) {
            Ok((p, np)) => {
                proof {
                    assert(rule_end(s@, pos as int) == Some(np as int));
                    assert(step_value_ok(s@, bv, kvv, pos as int, Value::Price(p)));
                    lemma_between_push(s@, bv, kvv, 0, pos as int, prev, Value::Price(p));
                }
                values.push(Value::Price(p));
                pos = np;
                continue ;
            },
            Err(ParseFailure::Fatal(e)) => {
                return Err(e);
            },
            Err(ParseFailure::Mismatch) => {},
        }
        match parse_account_directive(s, pos) {
            Some((name, np)) => {
                let a = Account(name);
                proof {
                    assert(rule_end(s@, pos as int) == Some(np as int));
                    assert(step_value_ok(s@, bv, kvv, pos as int, Value::Account(a)));
                    lemma_between_push(s@, bv, kvv, 0, pos as int, prev, Value::Account(a));
                }
                values.push(Value::Account(a));
                pos = np;
                continue ;
            },
            None => {},
        }
        match parse_commodity_directive(s, pos) {
            Some((c, np)) => {
                proof {
                    assert(rule_end(s@, pos as int) == Some(np as int));
                    assert(step_value_ok(s@, bv, kvv, pos as int, Value::Commodity(c)));
                    lemma_between_push(s@, bv, kvv, 0, pos as int, prev, Value::Commodity(c));
                }
                values.push(Value::Commodity(c));
                pos = np;
                continue ;
            },
            None => {},
        }
        match parse_inclusion_path(s, pos) {
            Some((rel, np)) => {
                let full = join_path(base, rel.as_str());
                let ghost fullv = full@;
                if chain_holds(visited, full.as_str()) {
                    proof {
                        let w = choose|i: int|
                            0 <= i < visited@.len() && (#[trigger] visited@[i])@ == fullv;
                        assert(chain_views(visited@)[w] == fullv);
                    }
                    return Err(HLParserError::Inclusion(full));
                }
                let contents = match lookup_file(files, full.as_str()) {
                    Some(c) => c,
                    None => {
                        return Err(HLParserError::Inclusion(full));
                    },
                };
                proof {
                    lemma_lookup_view_witness(kv_views(files@), fullv);
                    let w = choose|i: int|
                        0 <= i < kv_views(files@).len() && (#[trigger] kv_views(files@)[i].0)
                            == fullv && kv_views(files@)[i].1 == lookup_view(
                            kv_views(files@),
                            fullv,
                        ).unwrap();
                    assert((#[trigger] files@[w].0)@ == fullv);
                    assert(key_views(files@)[w] == fullv);
                }
                let sub_base = parent_dir(full.as_str());
                let mut sub_visited: Vec<String> = Vec::new();
                let mut vi: usize = 0;
                while vi < visited.len()
                    invariant
                        vi <= visited@.len(),
                        sub_visited@ =~= visited@.subrange(0, vi as int),
                    decreases visited@.len() - vi,
                {
                    sub_visited.push(visited[vi].clone());
                    vi = vi + 1;
                }
                proof {
                    assert(sub_visited@ =~= visited@);
                }
                sub_visited.push(full);
                proof {
                    assert(sub_visited@.subrange(0, visited@.len() as int) =~= visited@);
                    lemma_chain_push(visited@, sub_visited@, files@);
                    lemma_chain_len(sub_visited@, files@);
                }
                let sub = parse_journal_contents(contents.as_str(), sub_base.as_str(), files,
                    &sub_visited);
                match sub {
                    Ok(vs) => {
                        let nested = Value::Nested(vs);
                        proof {
                            assert(lookup_view(kvv, spec_join(bv, rel@)) == Some(contents@));
                            assert(rule_end(s@, pos as int) == Some(np as int));
                            assert(step_value_ok(s@, bv, kvv, pos as int, nested));
                            lemma_between_push(s@, bv, kvv, 0, pos as int, prev, nested);
                        }
                        values.push(nested);
                        pos = np;
                        continue ;
                    },
                    Err(e) => {
                        proof {
                            match &e {
                                HLParserError::Parse(rest) => {
                                    if stuck_remainder(rest@, contents@) {
                                        let w = choose|i: int|
                                            0 <= i < kv_views(files@).len() && (
                                            #[trigger] kv_views(files@)[i].0) == fullv
                                                && kv_views(files@)[i].1 == lookup_view(
                                                kv_views(files@),
                                                fullv,
                                            ).unwrap();
                                        assert(kv_views(files@)[w].1 == contents@);
                                        assert(stuck_remainder(
                                            rest@,
                                            kv_views(files@)[w].1,
                                        ));
                                    }
                                },
                                HLParserError::Inclusion(p) => {
                                    if chain_views(sub_visited@).contains(p@) {
                                        let w = choose|i: int|
                                            0 <= i < chain_views(sub_visited@).len() && (
                                            #[trigger] chain_views(sub_visited@)[i]) == p@;
                                        if w < visited@.len() {
                                            assert(chain_views(visited@)[w] == p@);
                                        } else {
                                            assert(p@ == fullv);
                                            let u = choose|i: int|
                                                0 <= i < kv_views(files@).len() && (
                                                #[trigger] kv_views(files@)[i].0) == fullv
                                                    && kv_views(files@)[i].1 == lookup_view(
                                                    kv_views(files@),
                                                    fullv,
                                                ).unwrap();
                                            assert(key_views(files@)[u] == p@);
                                        }
                                    }
                                },
                                _ => {},
                            }
                        }
                        return Err(e);
                    },
                }
            },
            None => {},
        }
        proof {
            assert(no_rule_at(s@, pos as int));
        }
        let rest = substr(s, pos, n);
        proof {
            assert(rest@ == s@.subrange(pos as int, s@.len() as int));
            assert(stuck_remainder(rest@, s@));
        }
        return Err(HLParserError::Parse(rest));
    }
    proof {
        assert(values_read_from(s@, bv, kvv, 0, values@));
    }
    Ok(values)
}

/// Extending a sound chain with a fresh path of the table keeps it sound
/// and grows it by one.
proof fn lemma_chain_push(
    visited: Seq<String>,
    extended: Seq<String>,
    files: Seq<(String, String)>,
)
    requires
        chain_wf(visited, files),
        extended.len() == visited.len() + 1,
        extended.subrange(0, visited.len() as int) == visited,
        forall|i: int|
            0 <= i < visited.len() ==> (#[trigger] visited[i])@ != extended.last()@,
        exists|i: int|
            0 <= i < files.len() && (#[trigger] files[i].0)@ == extended.last()@,
    ensures
        chain_wf(extended, files),
{
    let cv = chain_views(extended);
    assert forall|i: int, j: int| 0 <= i < j < cv.len() implies cv[i] != cv[j] by {
        if j < visited.len() {
            assert(chain_views(visited)[i] == cv[i]);
            assert(chain_views(visited)[j] == cv[j]);
        } else {
            assert(extended[i] == visited[i]);
            assert(cv[j] == extended.last()@);
        }
    }
    assert forall|i: int| 0 <= i < extended.len() implies key_views(files).contains(
        #[trigger] chain_views(extended)[i],
    ) by {
        if i < visited.len() {
            assert(chain_views(visited)[i] == chain_views(extended)[i]);
        } else {
            let w = choose|k: int|
                0 <= k < files.len() && (#[trigger] files[k].0)@ == extended.last()@;
            assert(key_views(files)[w] == extended.last()@);
        }
    }
}

/// The values one parsed value contributes to the flat sequence: a nested
/// node is replaced by the flattening of its contents, in order; any other
/// value stands alone.
pub open spec fn spec_flatten_one(v: Value) -> Seq<Value>
    decreases v, 1int, 0int,
{
    match v {
        Value::Nested(xs) => spec_flatten_prefix(v, xs@.len() as int),
        _ => seq![v],
    }
}

/// The flattening of the first `i` contents of a nested node.
pub open spec fn spec_flatten_prefix(anchor: Value, i: int) -> Seq<Value>
    decreases anchor, 0int, i,
{
    match anchor {
        Value::Nested(xs) => if i <= 0 || i > xs@.len() {
            Seq::empty()
        } else {
            spec_flatten_prefix(anchor, i - 1) + spec_flatten_one(xs@[i - 1])
        },
        _ => Seq::empty(),
    }
}

/// The depth-first flattening of a sequence of parsed values.
pub open spec fn spec_flatten(vs: Seq<Value>) -> Seq<Value>
    decreases vs.len(),
{
    if vs.len() == 0 {
        Seq::empty()
    } else {
        spec_flatten_one(vs.first()) + spec_flatten(vs.drop_first())
    }
}

/// How much one value weighs: itself plus everything nested below it.
pub open spec fn size_one(v: Value) -> nat
    decreases v, 1int, 0int,
{
    match v {
        Value::Nested(xs) => 1 + size_prefix(v, xs@.len() as int),
        _ => 1,
    }
}

/// The weight of the first `i` contents of a nested node.
pub open spec fn size_prefix(anchor: Value, i: int) -> nat
    decreases anchor, 0int, i,
{
    match anchor {
        Value::Nested(xs) => if i <= 0 || i > xs@.len() {
            0
        } else {
            size_prefix(anchor, i - 1) + size_one(xs@[i - 1])
        },
        _ => 0,
    }
}

/// The weight of a sequence of values.
pub open spec fn size_list(vs: Seq<Value>) -> nat
    decreases vs.len(),
{
    if vs.len() == 0 {
        0
    } else {
        size_one(vs.first()) + size_list(vs.drop_first())
    }
}

/// The weight of a nested node's prefix is the weight of those contents.
proof fn lemma_size_prefix_is_list(anchor: Value, i: int)
    requires
        anchor is Nested,
        0 <= i <= anchor->Nested_0@.len(),
    ensures
        size_prefix(anchor, i) == size_list(anchor->Nested_0@.subrange(0, i)),
    decreases i,
{
    let xs = anchor->Nested_0;
    if i == 0 {
        assert(xs@.subrange(0, 0) =~= Seq::<Value>::empty());
    } else {
        lemma_size_prefix_is_list(anchor, i - 1);
        lemma_size_list_push(xs@.subrange(0, i - 1), xs@[i - 1]);
        assert(xs@.subrange(0, i - 1).push(xs@[i - 1]) =~= xs@.subrange(0, i));
    }
}

/// Appending one value adds its weight.
proof fn lemma_size_list_push(vs: Seq<Value>, v: Value)
    ensures
        size_list(vs.push(v)) == size_list(vs) + size_one(v),
    decreases vs.len(),
{
    if vs.len() == 0 {
        assert(vs.push(v).drop_first() =~= Seq::<Value>::empty());
        assert(vs.push(v).first() == v);
        assert(vs.push(v).len() == 1);
        assert(size_list(vs.push(v)) == size_one(v) + size_list(vs.push(v).drop_first()));
        assert(size_list(vs.push(v).drop_first()) == 0);
        assert(size_list(vs) == 0);
    } else {
        assert(vs.push(v).drop_first() =~= vs.drop_first().push(v));
        assert(vs.push(v).first() == vs.first());
        assert(vs.push(v).len() == vs.len() + 1);
        lemma_size_list_push(vs.drop_first(), v);
        assert(size_list(vs.push(v)) == size_one(vs.first()) + size_list(
            vs.drop_first().push(v),
        ));
        assert(size_list(vs) == size_one(vs.first()) + size_list(vs.drop_first()));
    }
}

/// Flattening a prefix of a nested node is flattening those contents.
proof fn lemma_flatten_prefix_is_flatten(anchor: Value, i: int)
    requires
        anchor is Nested,
        0 <= i <= anchor->Nested_0@.len(),
    ensures
        spec_flatten_prefix(anchor, i) == spec_flatten(anchor->Nested_0@.subrange(0, i)),
    decreases i,
{
    let xs = anchor->Nested_0;
    if i == 0 {
        assert(xs@.subrange(0, 0) =~= Seq::<Value>::empty());
        assert(spec_flatten_prefix(anchor, 0) =~= spec_flatten(xs@.subrange(0, 0)));
    } else {
        lemma_flatten_prefix_is_flatten(anchor, i - 1);
        lemma_flatten_push(xs@.subrange(0, i - 1), xs@[i - 1]);
        assert(xs@.subrange(0, i - 1).push(xs@[i - 1]) =~= xs@.subrange(0, i));
    }
}

/// Appending one value appends its flattening.
proof fn lemma_flatten_push(vs: Seq<Value>, v: Value)
    ensures
        spec_flatten(vs.push(v)) == spec_flatten(vs) + spec_flatten_one(v),
    decreases vs.len(),
{
    if vs.len() == 0 {
        assert(vs.push(v).drop_first() =~= Seq::<Value>::empty());
        assert(vs.push(v).first() == v);
        assert(vs.push(v).len() == 1);
        assert(spec_flatten(vs.push(v)) == spec_flatten_one(v) + spec_flatten(
            vs.push(v).drop_first(),
        ));
        assert(spec_flatten(vs.push(v).drop_first()) =~= Seq::<Value>::empty());
        assert(spec_flatten(vs) =~= Seq::<Value>::empty());
        assert(spec_flatten(vs.push(v)) =~= spec_flatten(vs) + spec_flatten_one(v));
    } else {
        assert(vs.push(v).drop_first() =~= vs.drop_first().push(v));
        assert(vs.push(v).first() == vs.first());
        assert(vs.push(v).len() == vs.len() + 1);
        lemma_flatten_push(vs.drop_first(), v);
        assert(spec_flatten(vs.push(v)) == spec_flatten_one(vs.first()) + spec_flatten(
            vs.drop_first().push(v),
        ));
        assert(spec_flatten(vs) == spec_flatten_one(vs.first()) + spec_flatten(
            vs.drop_first(),
        ));
        assert(spec_flatten(vs.push(v)) =~= spec_flatten(vs) + spec_flatten_one(v));
    }
}

/// Flattening one nested node gives the flattening of its contents.
pub proof fn lemma_flatten_one_nested(v: Value)
    requires
        v is Nested,
    ensures
        spec_flatten_one(v) == spec_flatten(v->Nested_0@),
{
    let xs = v->Nested_0;
    lemma_flatten_prefix_is_flatten(v, xs@.len() as int);
    assert(xs@.subrange(0, xs@.len() as int) =~= xs@);
}

/// No nested wrapper survives flattening: the flat sequence holds leaf
/// values only, in depth-first order.
pub proof fn lemma_flatten_no_nested(vs: Seq<Value>)
    ensures
        forall|i: int|
            0 <= i < spec_flatten(vs).len() ==> !((#[trigger] spec_flatten(vs)[i]) is Nested),
    decreases vs.len(),
{
    if vs.len() > 0 {
        lemma_flatten_no_nested(vs.drop_first());
        lemma_flatten_one_no_nested(vs.first());
    }
}

/// No nested wrapper survives flattening one value.
proof fn lemma_flatten_one_no_nested(v: Value)
    ensures
        forall|i: int|
            0 <= i < spec_flatten_one(v).len() ==> !((#[trigger] spec_flatten_one(v)[i])
                is Nested),
    decreases v, 1int, 0int,
{
    match v {
        Value::Nested(xs) => {
            lemma_flatten_prefix_no_nested(v, xs@.len() as int);
        },
        _ => {},
    }
}

/// No nested wrapper survives flattening a prefix of a nested node.
proof fn lemma_flatten_prefix_no_nested(anchor: Value, i: int)
    ensures
        forall|k: int|
            0 <= k < spec_flatten_prefix(anchor, i).len() ==> !((
            #[trigger] spec_flatten_prefix(anchor, i)[k]) is Nested),
    decreases anchor, 0int, i,
{
    match anchor {
        Value::Nested(xs) => {
            if 0 < i <= xs@.len() {
                lemma_flatten_prefix_no_nested(anchor, i - 1);
                lemma_flatten_one_no_nested(xs@[i - 1]);
            }
        },
        _ => {},
    }
}

/// A sequence of leaf values flattens to itself.
pub proof fn lemma_flatten_flat_fixpoint(vs: Seq<Value>)
    requires
        forall|i: int| 0 <= i < vs.len() ==> !((#[trigger] vs[i]) is Nested),
    ensures
        spec_flatten(vs) == vs,
    decreases vs.len(),
{
    if vs.len() == 0 {
        assert(spec_flatten(vs) =~= vs);
    } else {
        assert(forall|i: int| 0 <= i < vs.drop_first().len() ==> vs.drop_first()[i] == vs[i
            + 1]);
        lemma_flatten_flat_fixpoint(vs.drop_first());
        assert(!(vs.first() is Nested));
        assert(spec_flatten_one(vs.first()) == seq![vs.first()]);
        assert(spec_flatten(vs) =~= vs);
    }
}

/// Soundness carries through flattening.
pub proof fn lemma_flatten_wf(vs: Seq<Value>)
    requires
        forall|i: int| 0 <= i < vs.len() ==> value_wf(#[trigger] vs[i]),
    ensures
        forall|i: int| 0 <= i < spec_flatten(vs).len() ==> value_wf(#[trigger] spec_flatten(vs)[i]),
    decreases vs.len(),
{
    if vs.len() > 0 {
        assert(forall|i: int| 0 <= i < vs.drop_first().len() ==> vs.drop_first()[i] == vs[i
            + 1]);
        lemma_flatten_wf(vs.drop_first());
        lemma_flatten_one_wf(vs.first());
        let hd = spec_flatten_one(vs.first());
        let tl = spec_flatten(vs.drop_first());
        assert(spec_flatten(vs) == hd + tl);
        assert forall|i: int| 0 <= i < spec_flatten(vs).len() implies value_wf(
            #[trigger] spec_flatten(vs)[i],
        ) by {
            if i < hd.len() {
                assert(spec_flatten(vs)[i] == hd[i]);
            } else {
                assert(spec_flatten(vs)[i] == tl[i - hd.len()]);
            }
        }
    }
}

/// Soundness carries through flattening one value.
proof fn lemma_flatten_one_wf(v: Value)
    requires
        value_wf(v),
    ensures
        forall|i: int|
            0 <= i < spec_flatten_one(v).len() ==> value_wf(#[trigger] spec_flatten_one(v)[i]),
    decreases v, 1int, 0int,
{
    match v {
        Value::Nested(xs) => {
            lemma_flatten_prefix_wf(v, xs@.len() as int);
            assert(spec_flatten_one(v) == spec_flatten_prefix(v, xs@.len() as int));
        },
        _ => {
            assert(spec_flatten_one(v) == seq![v]);
            assert(spec_flatten_one(v)[0] == v);
        },
    }
}

/// Soundness carries through flattening a prefix of a nested node.
proof fn lemma_flatten_prefix_wf(anchor: Value, i: int)
    requires
        value_wf(anchor),
    ensures
        forall|k: int|
            0 <= k < spec_flatten_prefix(anchor, i).len() ==> value_wf(
                #[trigger] spec_flatten_prefix(anchor, i)[k],
            ),
    decreases anchor, 0int, i,
{
    match anchor {
        Value::Nested(xs) => {
            if 0 < i <= xs@.len() {
                lemma_flatten_prefix_wf(anchor, i - 1);
                assert(value_wf(xs@[i - 1]));
                lemma_flatten_one_wf(xs@[i - 1]);
                let pre = spec_flatten_prefix(anchor, i - 1);
                let onev = spec_flatten_one(xs@[i - 1]);
                assert(spec_flatten_prefix(anchor, i) == pre + onev);
                assert forall|k: int|
                    0 <= k < spec_flatten_prefix(anchor, i).len() implies value_wf(
                    #[trigger] spec_flatten_prefix(anchor, i)[k],
                ) by {
                    if k < pre.len() {
                        assert(spec_flatten_prefix(anchor, i)[k] == pre[k]);
                    } else {
                        assert(spec_flatten_prefix(anchor, i)[k] == onev[k - pre.len()]);
                    }
                }
            }
        },
        _ => {},
    }
}

/// Every value weighs at least one.
proof fn lemma_size_one_pos(v: Value)
    ensures
        size_one(v) >= 1,
{
}

/// Flattens nested inclusion nodes into one depth-first sequence with no
/// nested wrapper remaining.
pub fn flatten_values(mut values: Vec<Value>) -> (r: Vec<Value>)
    ensures
        r@ == spec_flatten(values@),
        forall|i: int| 0 <= i < r@.len() ==> !((#[trigger] r@[i]) is Nested),
    decreases size_list(values@),
{
    let ghost orig = values@;
    if values.len() == 0 {
        proof {
            lemma_flatten_no_nested(orig);
        }
        return Vec::new();
    }
    let v = values.remove(0);
    let ghost vg = v;
    proof {
        assert(vg == orig.first());
        assert(values@ =~= orig.drop_first());
        lemma_size_one_pos(vg);
    }
    let head: Vec<Value> = match v {
        Value::Nested(inner) => {
            proof {
                lemma_size_prefix_is_list(vg, inner@.len() as int);
                assert(inner@.subrange(0, inner@.len() as int) =~= inner@);
                assert(size_one(vg) == 1 + size_list(inner@));
                lemma_flatten_one_nested(vg);
            }
            flatten_values(inner)
        },
        other => {
            let mut single: Vec<Value> = Vec::new();
            proof {
                assert(spec_flatten_one(vg) == seq![vg]);
            }
            single.push(other);
            proof {
                assert(single@ =~= spec_flatten_one(vg));
                lemma_flatten_one_no_nested(vg);
            }
            single
        },
    };
    let mut rest = flatten_values(values);
    let ghost headg = head@;
    let mut out = head;
    out.append(&mut rest);
    proof {
        assert(out@ =~= spec_flatten(orig));
    }
    out
}

/// The transactions among a flat sequence of values, in order.
pub open spec fn transactions_of(vs: Seq<Value>) -> Seq<Transaction>
    decreases vs.len(),
{
    if vs.len() == 0 {
        Seq::empty()
    } else {
        (match vs.first() {
            Value::Transaction(t) => seq![t],
            _ => Seq::empty(),
        }) + transactions_of(vs.drop_first())
    }
}

/// The declared accounts among a flat sequence of values, in order.
pub open spec fn accounts_of(vs: Seq<Value>) -> Seq<Account>
    decreases vs.len(),
{
    if vs.len() == 0 {
        Seq::empty()
    } else {
        (match vs.first() {
            Value::Account(a) => seq![a],
            _ => Seq::empty(),
        }) + accounts_of(vs.drop_first())
    }
}

/// The market prices among a flat sequence of values, in order.
pub open spec fn prices_of(vs: Seq<Value>) -> Seq<Price>
    decreases vs.len(),
{
    if vs.len() == 0 {
        Seq::empty()
    } else {
        (match vs.first() {
            Value::Price(pr) => seq![pr],
            _ => Seq::empty(),
        }) + prices_of(vs.drop_first())
    }
}

/// The declared commodities among a flat sequence of values, in order.
pub open spec fn commodities_of(vs: Seq<Value>) -> Seq<Commodity>
    decreases vs.len(),
{
    if vs.len() == 0 {
        Seq::empty()
    } else {
        (match vs.first() {
            Value::Commodity(c) => seq![c],
            _ => Seq::empty(),
        }) + commodities_of(vs.drop_first())
    }
}

/// Splits a flat sequence of parsed values into the journal's four
/// collections, dropping ignored lines.
pub fn partition_values(mut values: Vec<Value>) -> (r: Journal)
    ensures
        r.spec_transactions() == transactions_of(values@),
        r.spec_accounts() == accounts_of(values@),
        r.spec_prices() == prices_of(values@),
        r.spec_commodities() == commodities_of(values@),
{
    let ghost orig = values@;
    let mut txs: Vec<Transaction> = Vec::new();
    let mut accts: Vec<Account> = Vec::new();
    let mut prs: Vec<Price> = Vec::new();
    let mut cms: Vec<Commodity> = Vec::new();
    let ghost k: int = 0;
    proof {
        assert(orig.subrange(0, 0) =~= Seq::<Value>::empty());
    }
    while values.len() > 0
        invariant
            0 <= k <= orig.len(),
            k == orig.len() - values@.len(),
            values@ =~= orig.subrange(k, orig.len() as int),
            txs@ == transactions_of(orig.subrange(0, k)),
            accts@ == accounts_of(orig.subrange(0, k)),
            prs@ == prices_of(orig.subrange(0, k)),
            cms@ == commodities_of(orig.subrange(0, k)),
        decreases values@.len(),
    {
        proof {
            assert(values@[0] == orig[k]);
            lemma_partition_take_step(orig, k);
        }
        let v = values.remove(0);
        match v {
            Value::Transaction(t) => {
                txs.push(t);
            },
            Value::Account(a) => {
                accts.push(a);
            },
            Value::Price(pr) => {
                prs.push(pr);
            },
            Value::Commodity(c) => {
                cms.push(c);
            },
            _ => {},
        }
        proof {
            k = k + 1;
            assert(values@ =~= orig.subrange(k, orig.len() as int));
            assert(txs@ =~= transactions_of(orig.subrange(0, k)));
            assert(accts@ =~= accounts_of(orig.subrange(0, k)));
            assert(prs@ =~= prices_of(orig.subrange(0, k)));
            assert(cms@ =~= commodities_of(orig.subrange(0, k)));
        }
    }
    proof {
        assert(orig.subrange(0, orig.len() as int) =~= orig);
    }
    Journal::new(txs, accts, prs, cms)
}

/// Taking one more value extends each partition by that value's
/// contribution.
proof fn lemma_partition_take_step(vs: Seq<Value>, k: int)
    requires
        0 <= k < vs.len(),
    ensures
        transactions_of(vs.subrange(0, k + 1)) == transactions_of(vs.subrange(0, k)) + (match vs[k] {
            Value::Transaction(t) => seq![t],
            _ => Seq::empty(),
        }),
        accounts_of(vs.subrange(0, k + 1)) == accounts_of(vs.subrange(0, k)) + (match vs[k] {
            Value::Account(a) => seq![a],
            _ => Seq::empty(),
        }),
        prices_of(vs.subrange(0, k + 1)) == prices_of(vs.subrange(0, k)) + (match vs[k] {
            Value::Price(p) => seq![p],
            _ => Seq::empty(),
        }),
        commodities_of(vs.subrange(0, k + 1)) == commodities_of(vs.subrange(0, k)) + (match vs[k] {
            Value::Commodity(c) => seq![c],
            _ => Seq::empty(),
        }),
{
    lemma_partition_push(vs.subrange(0, k), vs[k]);
    assert(vs.subrange(0, k).push(vs[k]) =~= vs.subrange(0, k + 1));
}

/// Appending one value appends its contribution to each partition.
proof fn lemma_partition_push(vs: Seq<Value>, v: Value)
    ensures
        transactions_of(vs.push(v)) == transactions_of(vs) + (match v {
            Value::Transaction(t) => seq![t],
            _ => Seq::empty(),
        }),
        accounts_of(vs.push(v)) == accounts_of(vs) + (match v {
            Value::Account(a) => seq![a],
            _ => Seq::empty(),
        }),
        prices_of(vs.push(v)) == prices_of(vs) + (match v {
            Value::Price(p) => seq![p],
            _ => Seq::empty(),
        }),
        commodities_of(vs.push(v)) == commodities_of(vs) + (match v {
            Value::Commodity(c) => seq![c],
            _ => Seq::empty(),
        }),
    decreases vs.len(),
{
    if vs.len() == 0 {
        assert(vs.push(v).drop_first() =~= Seq::<Value>::empty());
        assert(vs.push(v).first() == v);
        assert(vs.push(v).len() == 1);
        assert(transactions_of(vs.push(v).drop_first()) =~= Seq::<Transaction>::empty());
        assert(accounts_of(vs.push(v).drop_first()) =~= Seq::<Account>::empty());
        assert(prices_of(vs.push(v).drop_first()) =~= Seq::<Price>::empty());
        assert(commodities_of(vs.push(v).drop_first()) =~= Seq::<Commodity>::empty());
        assert(transactions_of(vs.push(v)) =~= transactions_of(vs) + (match v {
            Value::Transaction(t) => seq![t],
            _ => Seq::<Transaction>::empty(),
        }));
        assert(accounts_of(vs.push(v)) =~= accounts_of(vs) + (match v {
            Value::Account(a) => seq![a],
            _ => Seq::<Account>::empty(),
        }));
        assert(prices_of(vs.push(v)) =~= prices_of(vs) + (match v {
            Value::Price(p) => seq![p],
            _ => Seq::<Price>::empty(),
        }));
        assert(commodities_of(vs.push(v)) =~= commodities_of(vs) + (match v {
            Value::Commodity(c) => seq![c],
            _ => Seq::<Commodity>::empty(),
        }));
    } else {
        assert(vs.push(v).drop_first() =~= vs.drop_first().push(v));
        assert(vs.push(v).first() == vs.first());
        lemma_partition_push(vs.drop_first(), v);
        assert(transactions_of(vs.push(v)) == (match vs.first() {
            Value::Transaction(t) => seq![t],
            _ => Seq::<Transaction>::empty(),
        }) + transactions_of(vs.drop_first().push(v)));
        assert(transactions_of(vs) == (match vs.first() {
            Value::Transaction(t) => seq![t],
            _ => Seq::<Transaction>::empty(),
        }) + transactions_of(vs.drop_first()));
        assert(accounts_of(vs.push(v)) == (match vs.first() {
            Value::Account(a) => seq![a],
            _ => Seq::<Account>::empty(),
        }) + accounts_of(vs.drop_first().push(v)));
        assert(accounts_of(vs) == (match vs.first() {
            Value::Account(a) => seq![a],
            _ => Seq::<Account>::empty(),
        }) + accounts_of(vs.drop_first()));
        assert(prices_of(vs.push(v)) == (match vs.first() {
            Value::Price(p) => seq![p],
            _ => Seq::<Price>::empty(),
        }) + prices_of(vs.drop_first().push(v)));
        assert(prices_of(vs) == (match vs.first() {
            Value::Price(p) => seq![p],
            _ => Seq::<Price>::empty(),
        }) + prices_of(vs.drop_first()));
        assert(commodities_of(vs.push(v)) == (match vs.first() {
            Value::Commodity(c) => seq![c],
            _ => Seq::<Commodity>::empty(),
        }) + commodities_of(vs.drop_first().push(v)));
        assert(commodities_of(vs) == (match vs.first() {
            Value::Commodity(c) => seq![c],
            _ => Seq::<Commodity>::empty(),
        }) + commodities_of(vs.drop_first()));
        assert(transactions_of(vs.push(v)) =~= transactions_of(vs) + (match v {
            Value::Transaction(t) => seq![t],
            _ => Seq::<Transaction>::empty(),
        }));
        assert(accounts_of(vs.push(v)) =~= accounts_of(vs) + (match v {
            Value::Account(a) => seq![a],
            _ => Seq::<Account>::empty(),
        }));
        assert(prices_of(vs.push(v)) =~= prices_of(vs) + (match v {
            Value::Price(p) => seq![p],
            _ => Seq::<Price>::empty(),
        }));
        assert(commodities_of(vs.push(v)) =~= commodities_of(vs) + (match v {
            Value::Commodity(c) => seq![c],
            _ => Seq::<Commodity>::empty(),
        }));
    }
}

impl Journal {
    /// A sound journal: every transaction is well-formed and balanced, and
    /// every price well-formed.
    pub open spec fn wf(self) -> bool {
        &&& (forall|i: int|
            0 <= i < self.spec_transactions().len() ==> (#[trigger] self.spec_transactions()[i]).wf()
                && self.spec_transactions()[i].spec_valid())
        &&& (forall|i: int|
            0 <= i < self.spec_prices().len() ==> (#[trigger] self.spec_prices()[i]).wf())
    }
}

/// Soundness of leaf values gives a sound journal after partitioning.
proof fn lemma_partition_wf(vs: Seq<Value>)
    requires
        forall|i: int| 0 <= i < vs.len() ==> value_wf(#[trigger] vs[i]),
    ensures
        forall|i: int|
            0 <= i < transactions_of(vs).len() ==> (#[trigger] transactions_of(vs)[i]).wf()
                && transactions_of(vs)[i].spec_valid(),
        forall|i: int| 0 <= i < prices_of(vs).len() ==> (#[trigger] prices_of(vs)[i]).wf(),
    decreases vs.len(),
{
    if vs.len() > 0 {
        assert(forall|i: int| 0 <= i < vs.drop_first().len() ==> vs.drop_first()[i] == vs[i
            + 1]);
        lemma_partition_wf(vs.drop_first());
        assert(value_wf(vs.first()));
        match vs.first() {
            Value::Transaction(t) => {
                assert(transactions_of(vs) == seq![t] + transactions_of(vs.drop_first()));
                assert(prices_of(vs) =~= prices_of(vs.drop_first()));
            },
            Value::Price(p) => {
                assert(prices_of(vs) == seq![p] + prices_of(vs.drop_first()));
                assert(transactions_of(vs) =~= transactions_of(vs.drop_first()));
            },
            _ => {
                assert(transactions_of(vs) =~= transactions_of(vs.drop_first()));
                assert(prices_of(vs) =~= prices_of(vs.drop_first()));
            },
        }
    }
}

/// The base directory a journal parse resolves inclusion targets against:
/// the one given, or empty.
pub open spec fn base_view(base_path: Option<String>) -> Seq<char> {
    match base_path {
        Some(b) => b@,
        None => Seq::empty(),
    }
}

/// Parses a whole journal: the text is read into values, inclusion
/// directives are resolved against the file table and flattened away, and
/// the flat sequence is split into the journal's collections. On success
/// the journal's four collections are exactly the variant-wise partition
/// of the flattened reading of the input, in source order across all
/// inclusions; on failure, a grammar violation carries the unconsumed
/// remainder of the file it arose in, an inclusion failure names the
/// offending path, a `Validation` error reports an invalid date or an
/// unbalanced transaction, and no `IO` or `Extract` error ever arises.
pub fn parse_journal(input: &str, base_path: Option<String>, files: &FileTable) -> (r: Result<
    Journal,
    HLParserError,
>)
    ensures
        match r {
            Ok(j) => j.wf() && exists|values: Seq<Value>|
                {
                    &&& #[trigger] values_read_from(
                        input@,
                        base_view(base_path),
                        kv_views(files@),
                        0,
                        values,
                    )
                    &&& j.spec_transactions() == transactions_of(spec_flatten(values))
                    &&& j.spec_accounts() == accounts_of(spec_flatten(values))
                    &&& j.spec_prices() == prices_of(spec_flatten(values))
                    &&& j.spec_commodities() == commodities_of(spec_flatten(values))
                },
            Err(e) => {
                &&& !(e is IO)
                &&& !(e is Extract)
                &&& (e matches HLParserError::Validation(ve) ==> !(ve is UndefinedAccounts))
                &&& (e matches HLParserError::Parse(rest) ==> (stuck_remainder(rest@, input@)
                    || exists|k: int|
                        0 <= k < kv_views(files@).len() && stuck_remainder(
                            rest@,
                            #[trigger] kv_views(files@)[k].1,
                        )))
                &&& (e matches HLParserError::Inclusion(p) ==> (lookup_view(
                    kv_views(files@),
                    p@,
                ) is None || key_views(files@).contains(p@)))
            },
        },
{
    let base = match base_path {
        Some(b) => b,
        None => String::new(),
    };
    let ghost bv = base@;
    let visited: Vec<String> = Vec::new();
    proof {
        assert(chain_views(visited@) =~= Seq::<Seq<char>>::empty());
    }
    let values = match parse_journal_contents(input, base.as_str(), files, &visited) {
        Ok(v) => v,
        Err(e) => {
            proof {
                match &e {
                    HLParserError::Inclusion(pp) => {
                        if chain_views(visited@).contains(pp@) {
                            assert(false);
                        }
                    },
                    _ => {},
                }
            }
            return Err(e);
        },
    };
    let ghost valuesv = values@;
    proof {
        lemma_flatten_wf(values@);
    }
    let flat = flatten_values(values);
    proof {
        lemma_partition_wf(flat@);
    }
    let j = partition_values(flat);
    proof {
        assert(values_read_from(input@, base_view(base_path), kv_views(files@), 0, valuesv));
        assert(j.spec_transactions() == transactions_of(spec_flatten(valuesv)));
    }
    Ok(j)
}

/// Does the list hold a string with this view?
pub open spec fn has_view(v: Seq<String>, x: Seq<char>) -> bool {
    exists|i: int| 0 <= i < v.len() && (#[trigger] v[i])@ == x
}

/// Does some transaction of the sequence carry this payee?
pub open spec fn has_payee(ts: Seq<Transaction>, x: Seq<char>) -> bool {
    exists|i: int|
        0 <= i < ts.len() && (#[trigger] ts[i].description.payee) is Some
            && ts[i].description.payee.unwrap()@ == x
}

/// Strictly sorted in lexicographic order: later entries are strictly
/// larger, so no entry repeats.
pub open spec fn strictly_sorted(v: Seq<String>) -> bool {
    forall|i: int, j: int|
        0 <= i < j < v.len() ==> crate::utils::lex_lt((#[trigger] v[i])@, (#[trigger] v[j])@)
}

/// Inserts a payee into a strictly sorted list, keeping it sorted and
/// skipping a name already present.
fn insert_payee(out: &mut Vec<String>, p: String)
    requires
        strictly_sorted(old(out)@),
    ensures
        strictly_sorted(final(out)@),
        forall|x: Seq<char>| has_view(final(out)@, x) <==> (has_view(old(out)@, x) || x == p@),
{
    let ghost o = old(out)@;
    let mut j: usize = 0;
    while j < out.len()
        invariant
            j <= out@.len(),
            out@ == o,
            strictly_sorted(o),
            forall|k: int| 0 <= k < j ==> crate::utils::lex_lt((#[trigger] o[k])@, p@),
        ensures
            j <= o.len(),
            out@ == o,
            forall|k: int| 0 <= k < j ==> crate::utils::lex_lt((#[trigger] o[k])@, p@),
            j < o.len() ==> crate::utils::lex_le(p@, o[j as int]@),
        decreases out@.len() - j,
    {
        let c = &out[j];
        if crate::utils::str_le(p.as_str(), c.as_str()) {
            break ;
        }
        proof {
            crate::utils::lemma_lex_le_total(p@, o[j as int]@);
            if o[j as int]@ == p@ {
                crate::utils::lemma_lex_le_refl(p@);
                assert(false);
            }
        }
        j = j + 1;
    }
    if j < out.len() {
        if crate::utils::eq_str(out[j].as_str(), p.as_str()) {
            proof {
                assert(has_view(o, p@)) by {
                    assert(o[j as int]@ == p@);
                }
            }
            return ;
        }
        proof {
            assert(crate::utils::lex_le(p@, o[j as int]@));
        }
    }
    out.insert(j, p);
    proof {
        let f = out@;
        assert(f.len() == o.len() + 1);
        assert(forall|k: int| 0 <= k < j ==> f[k] == o[k]);
        assert(f[j as int]@ == p@);
        assert(forall|k: int| j < k < f.len() ==> f[k] == o[k - 1]);
        assert forall|a: int, b: int| 0 <= a < b < f.len() implies crate::utils::lex_lt(
            (#[trigger] f[a])@,
            (#[trigger] f[b])@,
        ) by {
            if b < j {
            } else if b == j {
                assert(crate::utils::lex_lt(f[a]@, p@));
            } else {
                if a < j {
                    if b > j {
                        assert(crate::utils::lex_lt(o[a]@, o[b - 1]@) || a == b - 1);
                        if a == b - 1 {
                            assert(crate::utils::lex_lt(f[a]@, p@));
                            assert(crate::utils::lex_le(p@, o[a]@));
                            crate::utils::lemma_lex_le_antisym(p@, o[a]@);
                            assert(false);
                        }
                    }
                } else if a == j {
                    assert(j < o.len());
                    if b == j + 1 {
                        assert(f[b]@ == o[j as int]@);
                        assert(crate::utils::lex_le(p@, o[j as int]@));
                        assert(o[j as int]@ != p@);
                    } else {
                        assert(crate::utils::lex_lt(o[j as int]@, o[b - 1]@));
                        crate::utils::lemma_lex_le_trans(p@, o[j as int]@, o[b - 1]@);
                        if p@ == o[b - 1]@ {
                            crate::utils::lemma_lex_le_antisym(p@, o[j as int]@);
                            assert(false);
                        }
                    }
                } else {
                    assert(crate::utils::lex_lt(o[a - 1]@, o[b - 1]@));
                }
            }
        }
        assert forall|x: Seq<char>| has_view(f, x) <==> (has_view(o, x) || x == p@) by {
            if has_view(f, x) {
                let i = choose|i: int| 0 <= i < f.len() && (#[trigger] f[i])@ == x;
                if i < j {
                    assert(o[i]@ == x);
                } else if i == j {
                } else {
                    assert(o[i - 1]@ == x);
                }
            }
            if has_view(o, x) {
                let i = choose|i: int| 0 <= i < o.len() && (#[trigger] o[i])@ == x;
                if i < j {
                    assert(f[i]@ == x);
                } else {
                    assert(f[i + 1]@ == x);
                }
            }
            if x == p@ {
                assert(f[j as int]@ == x);
            }
        }
    }
}

impl Journal {
    /// The payees that occur in the journal's transactions, sorted in
    /// lexicographic order with no repeats.
    pub fn payees(&self) -> (r: Vec<String>)
        ensures
            strictly_sorted(r@),
            forall|x: Seq<char>| has_view(r@, x) <==> has_payee(self.spec_transactions(), x),
    {
        let ts = &self.transactions;
        let mut out: Vec<String> = Vec::new();
        let mut i: usize = 0;
        while i < ts.len()
            invariant
                i <= ts@.len(),
                ts@ == self.spec_transactions(),
                strictly_sorted(out@),
                forall|x: Seq<char>|
                    has_view(out@, x) <==> has_payee(ts@.subrange(0, i as int), x),
            decreases ts@.len() - i,
        {
            let ghost pre = ts@.subrange(0, i as int);
            let ghost cur = ts@.subrange(0, i + 1);
            match &ts[i].description.payee {
                Some(p) => {
                    let ghost before = out@;
                    insert_payee(&mut out, p.clone());
                    proof {
                        assert forall|x: Seq<char>| has_view(out@, x) <==> has_payee(cur, x) by {
                            if has_view(out@, x) {
                                if has_view(before, x) {
                                    let w = choose|w: int|
                                        0 <= w < pre.len() && (
                                        #[trigger] pre[w].description.payee) is Some
                                            && pre[w].description.payee.unwrap()@ == x;
                                    assert(cur[w] == pre[w]);
                                    assert(has_payee(cur, x));
                                } else {
                                    assert(x == p@);
                                    assert(cur[i as int] == ts@[i as int]);
                                    assert(has_payee(cur, x));
                                }
                            }
                            if has_payee(cur, x) {
                                let w = choose|w: int|
                                    0 <= w < cur.len() && (#[trigger] cur[w].description.payee)
                                        is Some && cur[w].description.payee.unwrap()@ == x;
                                if w < i {
                                    assert(pre[w] == cur[w]);
                                    assert(has_payee(pre, x));
                                } else {
                                    assert(cur[w] == ts@[i as int]);
                                    assert(x == p@);
                                }
                            }
                        }
                    }
                },
                None => {
                    proof {
                        assert forall|x: Seq<char>| has_view(out@, x) <==> has_payee(cur, x) by {
                            if has_view(out@, x) {
                                let w = choose|w: int|
                                    0 <= w < pre.len() && (#[trigger] pre[w].description.payee)
                                        is Some && pre[w].description.payee.unwrap()@ == x;
                                assert(cur[w] == pre[w]);
                                assert(has_payee(cur, x));
                            }
                            if has_payee(cur, x) {
                                let w = choose|w: int|
                                    0 <= w < cur.len() && (#[trigger] cur[w].description.payee)
                                        is Some && cur[w].description.payee.unwrap()@ == x;
                                assert(w < i);
                                assert(pre[w] == cur[w]);
                                assert(has_payee(pre, x));
                            }
                        }
                    }
                },
            }
            i = i + 1;
        }
        proof {
            assert(ts@.subrange(0, ts@.len() as int) =~= ts@);
        }
        out
    }

    /// Checks that every account referenced by a posting is declared:
    /// the error lists the referenced-but-undeclared account names, in
    /// posting order, repeats kept.
    pub fn validate_accounts(&self) -> (r: Result<(), HLParserError>)
        ensures
            r is Ok <==> undeclared_of(self.spec_transactions(), self.spec_accounts()).len()
                == 0,
            r is Err ==> (r matches Err(
                HLParserError::Validation(ValidationError::UndefinedAccounts(names)),
            ) && string_views(names@) == undeclared_of(
                self.spec_transactions(),
                self.spec_accounts(),
            )),
    {
        let ts = &self.transactions;
        let mut bad: Vec<String> = Vec::new();
        let mut i: usize = 0;
        while i < ts.len()
            invariant
                i <= ts@.len(),
                ts@ == self.spec_transactions(),
                self.accounts@ == self.spec_accounts(),
                string_views(bad@) == undeclared_of(
                    ts@.subrange(0, i as int),
                    self.spec_accounts(),
                ),
            decreases ts@.len() - i,
        {
            let ghost pre = ts@.subrange(0, i as int);
            let ps = &ts[i].postings;
            let mut j: usize = 0;
            while j < ps.len()
                invariant
                    j <= ps@.len(),
                    ps@ == ts@[i as int].postings@,
                    pre == ts@.subrange(0, i as int),
                    i < ts@.len(),
                    ts@ == self.spec_transactions(),
                    self.accounts@ == self.spec_accounts(),
                    string_views(bad@) == undeclared_of(
                        ts@.subrange(0, i as int),
                        self.spec_accounts(),
                    ) + undeclared_names(
                        posting_account_views(
                            ts@[i as int].postings@.subrange(0, j as int),
                        ),
                        declared_views(self.spec_accounts()),
                    ),
                decreases ps@.len() - j,
            {
                let ghost bpre = bad@;
                let name = &ps[j].account.0;
                let mut found = false;
                let mut k: usize = 0;
                while k < self.accounts.len()
                    invariant
                        k <= self.accounts@.len(),
                        self.accounts@ == self.spec_accounts(),
                        found ==> declared_views(self.spec_accounts()).contains(name@),
                        !found ==> forall|w: int|
                            0 <= w < k ==> (#[trigger] self.accounts@[w].0)@ != name@,
                    ensures
                        found ==> declared_views(self.spec_accounts()).contains(name@),
                        !found ==> forall|w: int|
                            0 <= w < self.accounts@.len() ==> (#[trigger] self.accounts@[w].0)@
                                != name@,
                    decreases self.accounts@.len() - k,
                {
                    if eq_str(self.accounts[k].0.as_str(), name.as_str()) {
                        found = true;
                        proof {
                            assert(declared_views(self.spec_accounts())[k as int] == name@);
                        }
                        break ;
                    }
                    k = k + 1;
                }
                proof {
                    if !found {
                        assert forall|w: int|
                            0 <= w < declared_views(self.spec_accounts()).len() implies (
                        #[trigger] declared_views(self.spec_accounts())[w]) != name@ by {
                            assert(declared_views(self.spec_accounts())[w]
                                == self.accounts@[w].0@);
                        }
                        assert(!declared_views(self.spec_accounts()).contains(name@));
                    }
                }
                if !found {
                    bad.push(name.clone());
                }
                proof {
                    let names_pre = posting_account_views(
                        ts@[i as int].postings@.subrange(0, j as int),
                    );
                    let names_cur = posting_account_views(
                        ts@[i as int].postings@.subrange(0, j + 1),
                    );
                    assert(names_cur =~= names_pre.push(name@)) by {
                        assert(ts@[i as int].postings@.subrange(0, j + 1).drop_last()
                            =~= ts@[i as int].postings@.subrange(0, j as int));
                    }
                    lemma_undeclared_push(
                        names_pre,
                        name@,
                        declared_views(self.spec_accounts()),
                    );
                    let decl = declared_views(self.spec_accounts());
                    if found {
                        assert(undeclared_names(names_cur, decl) =~= undeclared_names(
                            names_pre,
                            decl,
                        ));
                    } else {
                        assert(undeclared_names(names_cur, decl) =~= undeclared_names(
                            names_pre,
                            decl,
                        ).push(name@));
                    }
                    if found {
                        assert(string_views(bad@) =~= undeclared_of(
                            pre,
                            self.spec_accounts(),
                        ) + undeclared_names(names_cur, declared_views(self.spec_accounts())));
                    } else {
                        assert(bad@ =~= bpre.push(bad@.last()));
                        assert(string_views(bad@) =~= string_views(bpre).push(name@));
                        assert(string_views(bad@) =~= undeclared_of(
                            pre,
                            self.spec_accounts(),
                        ) + undeclared_names(names_cur, declared_views(self.spec_accounts())));
                    }
                }
                j = j + 1;
            }
            proof {
                let cur = ts@.subrange(0, i + 1);
                assert(cur.drop_last() =~= pre);
                assert(cur.last() == ts@[i as int]);
                assert(ts@[i as int].postings@.subrange(0, ts@[i as int].postings@.len() as int)
                    =~= ts@[i as int].postings@);
                assert(undeclared_of(cur, self.spec_accounts()) == undeclared_of(
                    pre,
                    self.spec_accounts(),
                ) + undeclared_names(
                    posting_account_views(ts@[i as int].postings@),
                    declared_views(self.spec_accounts()),
                ));
                assert(string_views(bad@) =~= undeclared_of(
                    cur,
                    self.spec_accounts(),
                ));
            }
            i = i + 1;
        }
        proof {
            assert(ts@.subrange(0, ts@.len() as int) =~= ts@);
        }
        if bad.len() == 0 {
            proof {
                assert(string_views(bad@) =~= Seq::<Seq<char>>::empty());
            }
            Ok(())
        } else {
            Err(HLParserError::Validation(ValidationError::UndefinedAccounts(bad)))
        }
    }
}

/// The views of a list of strings.
pub open spec fn string_views(v: Seq<String>) -> Seq<Seq<char>> {
    v.map_values(|s: String| s@)
}

/// The account-name views of a list of postings.
pub open spec fn posting_account_views(ps: Seq<Posting>) -> Seq<Seq<char>> {
    ps.map_values(|p: Posting| p.account.0@)
}

/// The declared account name views.
pub open spec fn declared_views(accts: Seq<Account>) -> Seq<Seq<char>> {
    accts.map_values(|a: Account| a.0@)
}

/// Among the given names, those that are not declared, in order and with
/// repeats kept.
pub open spec fn undeclared_names(names: Seq<Seq<char>>, decl: Seq<Seq<char>>) -> Seq<Seq<char>>
    decreases names.len(),
{
    if names.len() == 0 {
        Seq::empty()
    } else {
        undeclared_names(names.drop_last(), decl) + (if decl.contains(names.last()) {
            Seq::empty()
        } else {
            seq![names.last()]
        })
    }
}

/// The referenced-but-undeclared account names of the transactions, in
/// posting order.
pub open spec fn undeclared_of(ts: Seq<Transaction>, accts: Seq<Account>) -> Seq<Seq<char>>
    decreases ts.len(),
{
    if ts.len() == 0 {
        Seq::empty()
    } else {
        undeclared_of(ts.drop_last(), accts) + undeclared_names(
            posting_account_views(ts.last().postings@),
            declared_views(accts),
        )
    }
}

/// Appending one name appends its contribution to the undeclared list.
proof fn lemma_undeclared_push(names: Seq<Seq<char>>, n: Seq<char>, decl: Seq<Seq<char>>)
    ensures
        undeclared_names(names.push(n), decl) == undeclared_names(names, decl) + (if decl.contains(
            n,
        ) {
            Seq::<Seq<char>>::empty()
        } else {
            seq![n]
        }),
{
    assert(names.push(n).drop_last() =~= names);
    assert(names.push(n).last() == n);
}

/// The textual form of a journal: the account declarations, the commodity
/// declarations, the market prices, then the transactions, each on its own
/// line (transactions followed by a blank line).
pub open spec fn spec_render_journal(j: Journal) -> Seq<char> {
    spec_render_accounts(j.spec_accounts()) + spec_render_commodities(j.spec_commodities())
        + spec_render_prices(j.spec_prices()) + spec_render_transactions(j.spec_transactions())
}

/// The account declarations, one per line.
pub open spec fn spec_render_accounts(v: Seq<Account>) -> Seq<char>
    decreases v.len(),
{
    if v.len() == 0 {
        Seq::empty()
    } else {
        spec_render_accounts(v.drop_last()) + "account "@ + v.last().0@ + seq!['\n']
    }
}

/// The commodity declarations, one per line.
pub open spec fn spec_render_commodities(v: Seq<Commodity>) -> Seq<char>
    decreases v.len(),
{
    if v.len() == 0 {
        Seq::empty()
    } else {
        spec_render_commodities(v.drop_last()) + v.last().spec_render() + seq!['\n']
    }
}

/// The market prices, one per line.
pub open spec fn spec_render_prices(v: Seq<Price>) -> Seq<char>
    decreases v.len(),
{
    if v.len() == 0 {
        Seq::empty()
    } else {
        spec_render_prices(v.drop_last()) + v.last().spec_render() + seq!['\n']
    }
}

/// The transactions, each followed by a blank line.
pub open spec fn spec_render_transactions(v: Seq<Transaction>) -> Seq<char>
    decreases v.len(),
{
    if v.len() == 0 {
        Seq::empty()
    } else {
        spec_render_transactions(v.drop_last()) + v.last().spec_render() + seq!['\n']
    }
}

impl Journal {
    /// Renders the journal back to its textual grammar form.
    pub fn render(&self) -> (r: String)
        requires
            self.wf(),
        ensures
            r@ == spec_render_journal(*self),
    {
        let mut out = String::new();
        let mut i: usize = 0;
        while i < self.accounts.len()
            invariant
                i <= self.accounts@.len(),
                self.accounts@ == self.spec_accounts(),
                out@ == spec_render_accounts(self.spec_accounts().subrange(0, i as int)),
            decreases self.accounts@.len() - i,
        {
            proof {
                reveal_strlit("account ");
                reveal_strlit("\n");
                assert(self.spec_accounts().subrange(0, i + 1).drop_last()
                    =~= self.spec_accounts().subrange(0, i as int));
            }
            out.append("account ");
            out.append(self.accounts[i].0.as_str());
            out.append("\n");
            proof {
                assert("\n"@ =~= seq!['\n']);
                assert(out@ =~= spec_render_accounts(self.spec_accounts().subrange(0, i + 1)));
            }
            i = i + 1;
        }
        proof {
            assert(self.spec_accounts().subrange(0, self.spec_accounts().len() as int)
                =~= self.spec_accounts());
        }
        let ghost after_accounts = out@;
        let mut c: usize = 0;
        while c < self.commodities.len()
            invariant
                c <= self.commodities@.len(),
                self.commodities@ == self.spec_commodities(),
                out@ == after_accounts + spec_render_commodities(
                    self.spec_commodities().subrange(0, c as int),
                ),
            decreases self.commodities@.len() - c,
        {
            proof {
                reveal_strlit("\n");
                assert(self.spec_commodities().subrange(0, c + 1).drop_last()
                    =~= self.spec_commodities().subrange(0, c as int));
            }
            let cs = self.commodities[c].render();
            out.append(cs.as_str());
            out.append("\n");
            proof {
                assert("\n"@ =~= seq!['\n']);
                assert(out@ =~= after_accounts + spec_render_commodities(
                    self.spec_commodities().subrange(0, c + 1),
                ));
            }
            c = c + 1;
        }
        proof {
            assert(self.spec_commodities().subrange(0, self.spec_commodities().len() as int)
                =~= self.spec_commodities());
        }
        let ghost after_commodities = out@;
        let mut p: usize = 0;
        while p < self.prices.len()
            invariant
                p <= self.prices@.len(),
                self.prices@ == self.spec_prices(),
                self.wf(),
                out@ == after_commodities + spec_render_prices(
                    self.spec_prices().subrange(0, p as int),
                ),
            decreases self.prices@.len() - p,
        {
            proof {
                reveal_strlit("\n");
                assert(self.spec_prices().subrange(0, p + 1).drop_last()
                    =~= self.spec_prices().subrange(0, p as int));
            }
            let psr = self.prices[p].render();
            out.append(psr.as_str());
            out.append("\n");
            proof {
                assert("\n"@ =~= seq!['\n']);
                assert(out@ =~= after_commodities + spec_render_prices(
                    self.spec_prices().subrange(0, p + 1),
                ));
            }
            p = p + 1;
        }
        proof {
            assert(self.spec_prices().subrange(0, self.spec_prices().len() as int)
                =~= self.spec_prices());
        }
        let ghost after_prices = out@;
        let mut t: usize = 0;
        while t < self.transactions.len()
            invariant
                t <= self.transactions@.len(),
                self.transactions@ == self.spec_transactions(),
                self.wf(),
                out@ == after_prices + spec_render_transactions(
                    self.spec_transactions().subrange(0, t as int),
                ),
            decreases self.transactions@.len() - t,
        {
            proof {
                reveal_strlit("\n");
                assert(self.spec_transactions().subrange(0, t + 1).drop_last()
                    =~= self.spec_transactions().subrange(0, t as int));
            }
            let tsr = self.transactions[t].render();
            out.append(tsr.as_str());
            out.append("\n");
            proof {
                assert("\n"@ =~= seq!['\n']);
                assert(out@ =~= after_prices + spec_render_transactions(
                    self.spec_transactions().subrange(0, t + 1),
                ));
            }
            t = t + 1;
        }
        proof {
            assert(self.spec_transactions().subrange(0, self.spec_transactions().len() as int)
                =~= self.spec_transactions());
            assert(out@ =~= spec_render_journal(*self));
        }
        out
    }
}

/// Does the parsed price carry the spec-level contents?
pub open spec fn price_matches(p: Price, q: crate::price::SpecPrice) -> bool {
    &&& p.commodity@ == q.commodity
    &&& p.date.year as int == q.date.0
    &&& p.date.month as int == q.date.1
    &&& p.date.day as int == q.date.2
    &&& crate::amount::amount_matches(p.amount, (q.amount.0, q.amount.1, q.amount.2, 0))
}

/// Does the parsed commodity carry the spec-level name and format?
pub open spec fn commodity_matches(
    c: Commodity,
    name: Seq<char>,
    fmt: Option<Seq<char>>,
) -> bool {
    &&& c.name@ == name
    &&& match (c.format, fmt) {
        (Some(cf), Some(sf)) => cf@ == sf,
        (None, None) => true,
        _ => false,
    }
}

/// No grammar rule applies at `pos`: every rule of the dispatch, in its
/// tried order, fails to match there.
pub open spec fn no_rule_at(s: Seq<char>, pos: int) -> bool {
    &&& crate::transaction::spec_parse_transaction(s, pos) is NoMatch
    &&& spec_parse_comment_value(s, pos) is None
    &&& spec_parse_empty_line(s, pos) is None
    &&& crate::price::spec_parse_price(s, pos) is NoMatch
    &&& crate::account::spec_parse_account_directive(s, pos) is None
    &&& crate::commodity::spec_parse_commodity(s, pos) is None
    &&& spec_parse_inclusion(s, pos) is None
}

/// Where the first rule that matches at `pos` ends, by the dispatch order:
/// transaction, comment line, blank line, price, account, commodity,
/// inclusion. `None` when no rule matches there or a matched date is no
/// real calendar date (which stops the whole parse).
pub open spec fn rule_end(s: Seq<char>, pos: int) -> Option<int> {
    match crate::transaction::spec_parse_transaction(s, pos) {
        crate::transaction::TxOutcome::Parsed(q) => Some(q.end),
        crate::transaction::TxOutcome::Invalid => None,
        crate::transaction::TxOutcome::NoMatch => match spec_parse_comment_value(s, pos) {
            Some(np) => Some(np),
            None => match spec_parse_empty_line(s, pos) {
                Some(np) => Some(np),
                None => match crate::price::spec_parse_price(s, pos) {
                    crate::price::PriceOutcome::Parsed(q) => Some(q.end),
                    crate::price::PriceOutcome::Invalid => None,
                    crate::price::PriceOutcome::NoMatch => match crate::account::spec_parse_account_directive(
                        s,
                        pos,
                    ) {
                        Some((_name, np)) => Some(np),
                        None => match crate::commodity::spec_parse_commodity(s, pos) {
                            Some((_name, _fmt, np)) => Some(np),
                            None => match spec_parse_inclusion(s, pos) {
                                Some((_rel, np)) => Some(np),
                                None => None,
                            },
                        },
                    },
                },
            },
        },
    }
}

/// The value that the first matching rule at `pos` produces is `v`:
/// a transaction, price, account or commodity carrying exactly what the
/// grammar gives (transactions balanced and well-formed), a line to ignore
/// for comments and blanks, and for an inclusion a nested node holding the
/// reading of the file that the resolved target names.
pub open spec fn step_value_ok(
    s: Seq<char>,
    base: Seq<char>,
    kv: Seq<(Seq<char>, Seq<char>)>,
    pos: int,
    v: Value,
) -> bool
    decreases size_one(v), 0int via step_value_ok_dec
{
    match crate::transaction::spec_parse_transaction(s, pos) {
        crate::transaction::TxOutcome::Parsed(q) => {
            &&& v matches Value::Transaction(t)
            &&& crate::transaction::tx_matches(t, q)
            &&& t.wf()
            &&& t.spec_valid()
        },
        crate::transaction::TxOutcome::Invalid => false,
        crate::transaction::TxOutcome::NoMatch => match spec_parse_comment_value(s, pos) {
            Some(_np) => v == Value::Ignore,
            None => match spec_parse_empty_line(s, pos) {
                Some(_np) => v == Value::Ignore,
                None => match crate::price::spec_parse_price(s, pos) {
                    crate::price::PriceOutcome::Parsed(q) => {
                        &&& v matches Value::Price(p)
                        &&& price_matches(p, q)
                        &&& p.wf()
                    },
                    crate::price::PriceOutcome::Invalid => false,
                    crate::price::PriceOutcome::NoMatch => match crate::account::spec_parse_account_directive(
                        s,
                        pos,
                    ) {
                        Some((name, _np)) => v matches Value::Account(a) && a.0@ == name,
                        None => match crate::commodity::spec_parse_commodity(s, pos) {
                            Some((name, fmt, _np)) => (v matches Value::Commodity(c)
                                && commodity_matches(c, name, fmt)),
                            None => match spec_parse_inclusion(s, pos) {
                                Some((rel, _np)) => {
                                    &&& v matches Value::Nested(vs)
                                    &&& ({
                                        let full = spec_join(base, rel);
                                        &&& lookup_view(kv, full) matches Some(sub)
                                        &&& values_read_from(
                                            sub,
                                            spec_parent_dir(full),
                                            kv,
                                            0,
                                            vs@,
                                        )
                                    })
                                },
                                None => false,
                            },
                        },
                    },
                },
            },
        },
    }
}

#[via_fn]
proof fn step_value_ok_dec(
    s: Seq<char>,
    base: Seq<char>,
    kv: Seq<(Seq<char>, Seq<char>)>,
    pos: int,
    v: Value,
) {
    match v {
        Value::Nested(vs) => {
            lemma_size_prefix_is_list(v, vs@.len() as int);
            assert(vs@.subrange(0, vs@.len() as int) =~= vs@);
            assert(size_one(v) == 1 + size_list(vs@));
        },
        _ => {},
    }
}

/// The value sequence `values` is what the dispatch loop reads from `s`
/// between the positions `from` and `to`: at each position the first
/// matching rule decides the next value and where the next one starts.
pub open spec fn values_read_between(
    s: Seq<char>,
    base: Seq<char>,
    kv: Seq<(Seq<char>, Seq<char>)>,
    from: int,
    to: int,
    values: Seq<Value>,
) -> bool
    decreases size_list(values), 1int via values_read_between_dec
{
    if values.len() == 0 {
        0 <= from && from == to && to <= s.len()
    } else if from >= s.len() {
        false
    } else {
        match rule_end(s, from) {
            Some(e) => step_value_ok(s, base, kv, from, values.first())
                && values_read_between(s, base, kv, e, to, values.drop_first()),
            None => false,
        }
    }
}

#[via_fn]
proof fn values_read_between_dec(
    s: Seq<char>,
    base: Seq<char>,
    kv: Seq<(Seq<char>, Seq<char>)>,
    from: int,
    to: int,
    values: Seq<Value>,
) {
    if values.len() > 0 {
        lemma_size_one_pos(values.first());
        assert(size_list(values) == size_one(values.first()) + size_list(values.drop_first()));
    }
}

/// The value sequence `values` is what the dispatch loop reads from `s`
/// from `pos` to the very end of the text, with inclusion targets resolved
/// against `base` and looked up in the table `kv`.
pub open spec fn values_read_from(
    s: Seq<char>,
    base: Seq<char>,
    kv: Seq<(Seq<char>, Seq<char>)>,
    pos: int,
    values: Seq<Value>,
) -> bool
    decreases size_list(values), 2int,
{
    values_read_between(s, base, kv, pos, s.len() as int, values)
}

/// Reading one more value at the reached position extends a reading.
proof fn lemma_between_push(
    s: Seq<char>,
    base: Seq<char>,
    kv: Seq<(Seq<char>, Seq<char>)>,
    from: int,
    mid: int,
    values: Seq<Value>,
    v: Value,
)
    requires
        values_read_between(s, base, kv, from, mid, values),
        0 <= mid < s.len(),
        rule_end(s, mid) is Some,
        0 <= rule_end(s, mid).unwrap() <= s.len(),
        step_value_ok(s, base, kv, mid, v),
    ensures
        values_read_between(s, base, kv, from, rule_end(s, mid).unwrap(), values.push(v)),
    decreases values.len(),
{
    let final_e = rule_end(s, mid).unwrap();
    if values.len() == 0 {
        let pushed = values.push(v);
        assert(pushed.first() == v);
        assert(pushed.drop_first() =~= Seq::<Value>::empty());
        assert(from == mid);
        assert(pushed.len() == 1);
        assert(step_value_ok(s, base, kv, from, pushed.first()));
        assert(values_read_between(s, base, kv, final_e, final_e, pushed.drop_first()));
        assert(values_read_between(s, base, kv, from, final_e, pushed));
    } else {
        let pushed = values.push(v);
        assert(pushed.first() == values.first());
        assert(pushed.drop_first() =~= values.drop_first().push(v));
        assert(from < s.len());
        assert(rule_end(s, from) is Some);
        let e = rule_end(s, from).unwrap();
        assert(step_value_ok(s, base, kv, from, values.first()));
        assert(values_read_between(s, base, kv, e, mid, values.drop_first()));
        lemma_between_push(s, base, kv, e, mid, values.drop_first(), v);
        assert(values_read_between(s, base, kv, e, final_e, pushed.drop_first()));
        assert(values_read_between(s, base, kv, from, final_e, pushed));
    }
}

/// `rest` is the unconsumed remainder of `text` from a position where no
/// grammar rule applies.
pub open spec fn stuck_remainder(rest: Seq<char>, text: Seq<char>) -> bool {
    exists|p: int|
        0 <= p <= text.len() && #[trigger] no_rule_at(text, p) && rest == text.subrange(
            p,
            text.len() as int,
        )
}


} // verus!
