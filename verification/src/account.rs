//! Ledger accounts: colon-delimited hierarchical names, and the `account`
//! declaration directive.
use vstd::prelude::*;
use crate::utils::{
    is_space_char, run_end, spec_line_content_end, line_content_end, scan_spaces, substr,
    starts_with_at, find_double_space,
};

verus! {

/// A ledger account: a hierarchical name whose components are separated by
/// colons.
#[derive(Debug, PartialEq, Eq, Hash)]
pub struct Account(pub String);

impl Clone for Account {
    /// A clone is equal to the original.
    fn clone(&self) -> (r: Self)
        ensures
            r == *self,
    {
        Account(self.0.clone())
    }
}

impl Account {
    /// The account's full name.
    pub fn render(&self) -> (r: String)
        ensures
            r@ == self.0@,
    {
        self.0.clone()
    }

    /// The components of the name, in order: the pieces between colons.
    /// Joining them back with colons yields the full name, and no piece
    /// holds a colon itself, which pins the decomposition uniquely.
    pub fn components(&self) -> (r: Vec<String>)
        ensures
            r.len() >= 1,
            seq_join_colon(r@.map_values(|v: String| v@)) == self.0@,
            forall|a: int, k: int|
                0 <= a < r@.len() && 0 <= k < r@[a]@.len() ==> (#[trigger] r@[a]@[k]) != ':',
    {
        let s = self.0.as_str();
        let n = s.unicode_len();
        let mut out: Vec<String> = Vec::new();
        let mut start: usize = 0;
        let mut i: usize = 0;
        while i < n
            invariant
                start <= i <= n,
                n == s@.len(),
                forall|k: int| start <= k < i ==> s@[k] != ':',
                out.len() == 0 ==> start == 0,
                out.len() > 0 ==> start >= 1 && s@[start - 1] == ':',
                seq_join_colon(out@.map_values(|v: String| v@)) == if out.len() == 0 {
                    Seq::<char>::empty()
                } else {
                    s@.subrange(0, start - 1)
                },
                forall|a: int, k: int|
                    0 <= a < out@.len() && 0 <= k < out@[a]@.len() ==> (#[trigger] out@[a]@[k])
                        != ':',
            decreases n - i,
        {
            if s.get_char(i) == ':' {
                let piece = substr(s, start, i);
                let ghost prev = out@.map_values(|v: String| v@);
                out.push(piece);
                proof {
                    let cur = out@.map_values(|v: String| v@);
                    assert(cur.drop_last() =~= prev);
                    assert(cur.last() == s@.subrange(start as int, i as int));
                    lemma_join_push(cur, s@, start as int, i as int);
                }
                start = i + 1;
            }
            i = i + 1;
        }
        let piece = substr(s, start, n);
        let ghost prev = out@.map_values(|v: String| v@);
        out.push(piece);
        proof {
            let cur = out@.map_values(|v: String| v@);
            assert(cur.drop_last() =~= prev);
            assert(cur.last() == s@.subrange(start as int, n as int));
            lemma_join_push_last(cur, s@, start as int);
        }
        out
    }

    /// True when this account sits at or below `account` in the hierarchy:
    /// the other name is a prefix of this one.
    pub fn is_child_of(&self, account: &Account) -> (r: bool)
        ensures
            r == (account.0@.len() <= self.0@.len() && self.0@.subrange(
                0,
                account.0@.len() as int,
            ) == account.0@),
    {
        starts_with_at(self.0.as_str(), 0, account.0.as_str())
    }
}

impl From<&str> for Account {
    fn from(value: &str) -> (r: Account) {
        Account(value.to_owned())
    }
}

impl vstd::std_specs::convert::FromSpecImpl<&str> for Account {
    open spec fn obeys_from_spec() -> bool {
        false
    }

    open spec fn from_spec(value: &str) -> Account {
        arbitrary()
    }
}

impl From<String> for Account {
    fn from(value: String) -> (r: Account) {
        Account(value)
    }
}

impl vstd::std_specs::convert::FromSpecImpl<String> for Account {
    open spec fn obeys_from_spec() -> bool {
        true
    }

    open spec fn from_spec(value: String) -> Account {
        Account(value)
    }
}

/// The pieces joined with `:` between them.
pub open spec fn seq_join_colon(parts: Seq<Seq<char>>) -> Seq<char>
    decreases parts.len(),
{
    if parts.len() == 0 {
        Seq::empty()
    } else if parts.len() == 1 {
        parts[0]
    } else {
        seq_join_colon(parts.drop_last()) + seq![':'] + parts.last()
    }
}

/// Appending a piece that reaches up to a colon extends the joined name to
/// that colon.
proof fn lemma_join_push(parts: Seq<Seq<char>>, s: Seq<char>, start: int, i: int)
    requires
        parts.len() >= 1,
        0 <= start <= i < s.len(),
        s[i] == ':',
        parts.last() == s.subrange(start, i),
        seq_join_colon(parts.drop_last()) == if parts.len() == 1 {
            Seq::<char>::empty()
        } else {
            s.subrange(0, start - 1)
        },
        parts.len() > 1 ==> start >= 1 && s[start - 1] == ':',
        parts.len() == 1 ==> start == 0,
    ensures
        seq_join_colon(parts) == s.subrange(0, i),
{
    if parts.len() == 1 {
        assert(seq_join_colon(parts) == parts[0]);
        assert(parts[0] =~= s.subrange(0, i));
    } else {
        assert(seq_join_colon(parts) == seq_join_colon(parts.drop_last()) + seq![':']
            + parts.last());
        assert(s.subrange(0, start - 1) + seq![':'] + s.subrange(start, i) =~= s.subrange(0, i));
    }
}

/// Appending the final piece completes the joined name.
proof fn lemma_join_push_last(parts: Seq<Seq<char>>, s: Seq<char>, start: int)
    requires
        parts.len() >= 1,
        0 <= start <= s.len(),
        parts.last() == s.subrange(start, s.len() as int),
        seq_join_colon(parts.drop_last()) == if parts.len() == 1 {
            Seq::<char>::empty()
        } else {
            s.subrange(0, start - 1)
        },
        parts.len() > 1 ==> start >= 1 && s[start - 1] == ':',
        parts.len() == 1 ==> start == 0,
    ensures
        seq_join_colon(parts) == s,
{
    if parts.len() == 1 {
        assert(parts[0] =~= s);
    } else {
        assert(seq_join_colon(parts) == seq_join_colon(parts.drop_last()) + seq![':']
            + parts.last());
        assert(s.subrange(0, start - 1) + seq![':'] + s.subrange(start, s.len() as int) =~= s);
    }
}

/// Account directive read at `pos`: the word `account`, at least one space,
/// then the rest of the line as the account name, which must not contain two
/// spaces in a row. `None` otherwise.
pub open spec fn spec_parse_account_directive(s: Seq<char>, pos: int) -> Option<(Seq<char>, int)> {
    if pos + 7 <= s.len() && s.subrange(pos, pos + 7) == "account"@ {
        let sp = run_end(s, pos + 7, |c: char| is_space_char(c));
        let ce = spec_line_content_end(s, sp);
        if sp > pos + 7 && (forall|k: int| sp <= k && k + 1 < ce ==> !(#[trigger] s[k] == ' ' && s[k + 1]
            == ' ')) {
            Some((s.subrange(sp, ce), ce))
        } else {
            None
        }
    } else {
        None
    }
}

/// Reads an `account` declaration: the rest of the line is the name; two
/// consecutive spaces in it make the directive fail.
pub fn parse_account_directive(s: &str, pos: usize) -> (r: Option<(String, usize)>)
    requires
        pos <= s@.len(),
    ensures
        match r {
            Some((t, np)) => spec_parse_account_directive(s@, pos as int) == Some(
                (t@, np as int),
            ) && pos < np <= s@.len(),
            None => spec_parse_account_directive(s@, pos as int) is None,
        },
{
    proof {
        reveal_strlit("account");
    }
    let n = s.unicode_len();
    if !starts_with_at(s, pos, "account") {
        return None;
    }
    assert(pos + 7 <= n);
    let sp = scan_spaces(s, pos + 7);
    if sp == pos + 7 {
        return None;
    }
    let ce = line_content_end(s, sp);
    match find_double_space(s, sp, ce) {
        Some(_) => None,
        None => Some((substr(s, sp, ce), ce)),
    }
}

} // verus!
