//! Postings: one account line of a transaction, with an optional amount,
//! an optional unit or total price, and an optional balance assertion.
use vstd::prelude::*;
use crate::account::Account;
use crate::amount::{Amount, spec_parse_amount, amount_matches, parse_amount};
use crate::status::{Status, spec_parse_status, parse_status};
use crate::utils::{
    is_space_char, run_end, run_end_within, spec_line_content_end, spec_trim, line_content_end,
    scan_spaces, scan_spaces_within, substr_trimmed, find_double_space,
    lemma_line_content_end_props,
};

verus! {

/// One posting of a transaction.
#[derive(Debug, PartialEq)]
pub struct Posting {
    /// The posting's own clearing status.
    pub status: Status,
    /// The account the posting moves value through.
    pub account: Account,
    /// The amount, absent when elided.
    pub amount: Option<Amount>,
    /// The unit price declared with `@`.
    pub unit_price: Option<Amount>,
    /// The total price declared with `@@`.
    pub total_price: Option<Amount>,
    /// The balance assertion declared with `=`.
    pub balance_assertion: Option<Amount>,
}

impl Clone for Posting {
    /// A clone is equal to the original.
    fn clone(&self) -> (r: Self)
        ensures
            r == *self,
    {
        Posting {
            status: self.status,
            account: self.account.clone(),
            amount: clone_opt_amount(&self.amount),
            unit_price: clone_opt_amount(&self.unit_price),
            total_price: clone_opt_amount(&self.total_price),
            balance_assertion: clone_opt_amount(&self.balance_assertion),
        }
    }
}

/// Clones an optional amount, preserving equality.
pub fn clone_opt_amount(a: &Option<Amount>) -> (r: Option<Amount>)
    ensures
        r == *a,
{
    match a {
        Some(v) => Some(v.clone()),
        None => None,
    }
}

impl Posting {
    /// Well-formedness: every amount is a well-formed decimal, and a unit
    /// price and a total price never stand together.
    pub open spec fn wf(self) -> bool {
        &&& (self.amount matches Some(a) ==> a.wf())
        &&& (self.unit_price matches Some(a) ==> a.wf())
        &&& (self.total_price matches Some(a) ==> a.wf())
        &&& (self.balance_assertion matches Some(a) ==> a.wf())
        &&& !(self.unit_price is Some && self.total_price is Some)
        &&& (self.amount is None ==> self.unit_price is None && self.total_price is None)
    }

    /// The amount that counts towards the transaction's sum: the total
    /// price when one is given, else the amount itself.
    pub open spec fn spec_effective_amount(self) -> Option<Amount> {
        match self.total_price {
            Some(t) => Some(t),
            None => self.amount,
        }
    }
}

/// The amount section of a posting: a base amount, and at most one of a
/// unit price or a total price.
#[derive(Debug)]
pub struct PostingComplexAmount {
    /// The base amount, absent when elided.
    pub amount: Option<Amount>,
    /// The unit price declared with `@`.
    pub unit_price: Option<Amount>,
    /// The total price declared with `@@`.
    pub total_price: Option<Amount>,
}

impl Clone for PostingComplexAmount {
    /// A clone is equal to the original.
    fn clone(&self) -> (r: Self)
        ensures
            r == *self,
    {
        PostingComplexAmount {
            amount: clone_opt_amount(&self.amount),
            unit_price: clone_opt_amount(&self.unit_price),
            total_price: clone_opt_amount(&self.total_price),
        }
    }
}

/// Spec-level amount: currency, mantissa and scale.
pub type SpecAmount = (Seq<char>, int, nat);

/// Spec-level view of a posting's amount section and where it ends.
pub struct SpecComplex {
    /// The base amount.
    pub amount: Option<SpecAmount>,
    /// The unit price.
    pub unit_price: Option<SpecAmount>,
    /// The total price.
    pub total_price: Option<SpecAmount>,
    /// Where the section ends.
    pub end: int,
}

/// Price pair read at `pos`: an amount, spaces, the marker (`@@` doubled or
/// `@` single), spaces, then the price amount.
pub open spec fn spec_parse_price_pair(s: Seq<char>, pos: int, end: int, double: bool) -> Option<
    (SpecAmount, SpecAmount, int),
> {
    match spec_parse_amount(s, pos, end) {
        Some((c1, m1, s1, e1)) => {
            let w1 = run_end_within(s, e1, end, |c: char| is_space_char(c));
            let marker_end = if double {
                w1 + 2
            } else {
        w1 + 1
            };
            let marker_ok = if double {
                w1 + 1 < end && s[w1] == '@' && s[w1 + 1] == '@'
            } else {
                w1 < end && s[w1] == '@'
            };
            if marker_ok {
                let w2 = run_end_within(s, marker_end, end, |c: char| is_space_char(c));
                match spec_parse_amount(s, w2, end) {
                    Some((c2, m2, s2, e2)) => Some(((c1, m1, s1), (c2, m2, s2), e2)),
                    None => None,
                }
            } else {
                None
            }
        },
        None => None,
    }
}

/// Amount section read at `pos` in `[pos, end)`: leading spaces, then the
/// first of these that fits: amount `@@` amount, amount `@` amount, a bare
/// amount, or nothing.
pub open spec fn spec_parse_complex(s: Seq<char>, pos: int, end: int) -> SpecComplex {
    let a0 = run_end_within(s, pos, end, |c: char| is_space_char(c));
    if spec_parse_price_pair(s, a0, end, true) is Some {
        let (a, t, e) = spec_parse_price_pair(s, a0, end, true).unwrap();
        SpecComplex { amount: Some(a), unit_price: None, total_price: Some(t), end: e }
    } else if spec_parse_price_pair(s, a0, end, false) is Some {
        let (a, u, e) = spec_parse_price_pair(s, a0, end, false).unwrap();
        SpecComplex { amount: Some(a), unit_price: Some(u), total_price: None, end: e }
    } else {
        match spec_parse_amount(s, a0, end) {
            Some((c, m, sc, e)) => SpecComplex {
                amount: Some((c, m, sc)),
                unit_price: None,
                total_price: None,
                end: e,
            },
            None => SpecComplex { amount: None, unit_price: None, total_price: None, end: a0 },
        }
    }
}

/// Balance assertion read at `pos`: spaces, `=`, spaces, an amount, spaces.
pub open spec fn spec_parse_balance(s: Seq<char>, pos: int, end: int) -> Option<(SpecAmount, int)> {
    let b0 = run_end_within(s, pos, end, |c: char| is_space_char(c));
    if b0 < end && s[b0] == '=' {
        let b1 = run_end_within(s, b0 + 1, end, |c: char| is_space_char(c));
        match spec_parse_amount(s, b1, end) {
            Some((c, m, sc, e)) => Some(
                ((c, m, sc), run_end_within(s, e, end, |c: char| is_space_char(c))),
            ),
            None => None,
        }
    } else {
        None
    }
}

/// Relates an optional [`Amount`] to an optional spec-level amount.
pub open spec fn opt_amount_matches(a: Option<Amount>, q: Option<SpecAmount>) -> bool {
    match (a, q) {
        (Some(av), Some(qv)) => amount_matches(av, (qv.0, qv.1, qv.2, 0)),
        (None, None) => true,
        _ => false,
    }
}

/// Spec-level view of a parsed posting and where it ends.
pub struct SpecPosting {
    /// The posting's status.
    pub status: Status,
    /// The trimmed account name.
    pub account: Seq<char>,
    /// The base amount.
    pub amount: Option<SpecAmount>,
    /// The unit price.
    pub unit_price: Option<SpecAmount>,
    /// The total price.
    pub total_price: Option<SpecAmount>,
    /// The balance assertion.
    pub balance_assertion: Option<SpecAmount>,
    /// Where the posting's line content ends.
    pub end: int,
}

/// Posting read at `pos`: at least one leading space, an optional status,
/// then the rest of the line. With a run of two spaces, what stands before
/// it is the account and what follows is the amount section and an optional
/// balance assertion; without one, the whole rest is the account and the
/// posting has no amount. Trailing content of the line is dropped.
pub open spec fn spec_parse_posting(s: Seq<char>, pos: int) -> Option<SpecPosting> {
    let sp1 = run_end(s, pos, |c: char| is_space_char(c));
    if sp1 == pos {
        None
    } else {
        let st = spec_parse_status(s, sp1);
        let p3 = run_end(s, st.1, |c: char| is_space_char(c));
        let ce = spec_line_content_end(s, p3);
        let ds = first_double_space(s, p3, ce);
        if ds < ce {
            let cx = spec_parse_complex(s, ds, ce);
            let bal = spec_parse_balance(s, cx.end, ce);
            Some(
                SpecPosting {
                    status: st.0,
                    account: spec_trim(s.subrange(p3, ds)),
                    amount: cx.amount,
                    unit_price: cx.unit_price,
                    total_price: cx.total_price,
                    balance_assertion: match bal {
                        Some((b, _)) => Some(b),
                        None => None,
                    },
                    end: ce,
                },
            )
        } else {
            Some(
                SpecPosting {
                    status: st.0,
                    account: spec_trim(s.subrange(p3, ce)),
                    amount: None,
                    unit_price: None,
                    total_price: None,
                    balance_assertion: None,
                    end: ce,
                },
            )
        }
    }
}

/// The first position in `[pos, end)` where two spaces stand side by side,
/// or `end` when there is none.
pub open spec fn first_double_space(s: Seq<char>, pos: int, end: int) -> int
    decreases end - pos,
{
    if pos + 1 < end && s[pos] == ' ' && s[pos + 1] == ' ' {
        pos
    } else if pos < end {
        first_double_space(s, pos + 1, end)
    } else {
        end
    }
}

/// Characterizes `first_double_space` from a search outcome.
pub proof fn lemma_first_double_space_is(s: Seq<char>, pos: int, end: int, j: int)
    requires
        0 <= pos <= end,
        pos <= j <= end,
        forall|k: int| pos <= k < j && k + 1 < end ==> !(#[trigger] s[k] == ' ' && s[k + 1]
            == ' '),
        j < end ==> j + 1 < end && s[j] == ' ' && s[j + 1] == ' ',
    ensures
        first_double_space(s, pos, end) == j,
    decreases j - pos,
{
    if pos < j {
        lemma_first_double_space_is(s, pos + 1, end, j);
    }
}

/// Reads one posting line.
pub fn parse_posting(s: &str, pos: usize) -> (r: Option<(Posting, usize)>)
    requires
        pos <= s@.len(),
    ensures
        match r {
            Some((p, np)) => {
                &&& spec_parse_posting(s@, pos as int) matches Some(q)
                &&& p.status == q.status
                &&& p.account.0@ == q.account
                &&& opt_amount_matches(p.amount, q.amount)
                &&& opt_amount_matches(p.unit_price, q.unit_price)
                &&& opt_amount_matches(p.total_price, q.total_price)
                &&& opt_amount_matches(p.balance_assertion, q.balance_assertion)
                &&& q.end == np as int
                &&& p.wf()
                &&& pos <= np <= s@.len()
            },
            None => spec_parse_posting(s@, pos as int) is None,
        },
{
    let sp1 = scan_spaces(s, pos);
    if sp1 == pos {
        return None;
    }
    let (st, p2) = parse_status(s, sp1);
    let p3 = scan_spaces(s, p2);
    let ce = line_content_end(s, p3);
    proof {
        lemma_line_content_end_props(s@, p3 as int);
    }
    let ds = match find_double_space(s, p3, ce) {
        Some(j) => {
            proof {
                lemma_first_double_space_is(s@, p3 as int, ce as int, j as int);
            }
            j
        },
        None => {
            proof {
                lemma_first_double_space_is(s@, p3 as int, ce as int, ce as int);
            }
            ce
        },
    };
    if ds < ce {
        let cx = parse_complex(s, ds, ce);
        let bal = parse_balance(s, cx.1, ce);
        let account = Account(substr_trimmed(s, p3, ds));
        Some(
            (
                Posting {
                    status: st,
                    account,
                    amount: cx.0.amount,
                    unit_price: cx.0.unit_price,
                    total_price: cx.0.total_price,
                    balance_assertion: bal,
                },
                ce,
            ),
        )
    } else {
        let account = Account(substr_trimmed(s, p3, ce));
        Some(
            (
                Posting {
                    status: st,
                    account,
                    amount: None,
                    unit_price: None,
                    total_price: None,
                    balance_assertion: None,
                },
                ce,
            ),
        )
    }
}

/// Reads a price pair `amount @@ amount` or `amount @ amount`.
fn parse_price_pair(s: &str, pos: usize, end: usize, double: bool) -> (r: Option<
    (Amount, Amount, usize),
>)
    requires
        pos <= end <= s@.len(),
    ensures
        match r {
            Some((a, b, np)) => {
                &&& spec_parse_price_pair(s@, pos as int, end as int, double) matches Some(
                    (qa, qb, qe),
                )
                &&& amount_matches(a, (qa.0, qa.1, qa.2, 0))
                &&& amount_matches(b, (qb.0, qb.1, qb.2, 0))
                &&& qe == np as int
                &&& a.wf()
                &&& b.wf()
                &&& pos <= np <= end
            },
            None => spec_parse_price_pair(s@, pos as int, end as int, double) is None,
        },
{
    match parse_amount(s, pos, end) {
        Some((a, e1)) => {
            let w1 = scan_spaces_within(s, e1, end);
            let marker_ok = if double {
                w1 < end && w1 + 1 < end && s.get_char(w1) == '@' && s.get_char(w1 + 1) == '@'
            } else {
                w1 < end && s.get_char(w1) == '@'
            };
            if marker_ok {
                let marker_end = if double {
                    w1 + 2
                } else {
                    w1 + 1
                };
                let w2 = scan_spaces_within(s, marker_end, end);
                match parse_amount(s, w2, end) {
                    Some((b, e2)) => Some((a, b, e2)),
                    None => None,
                }
            } else {
                None
            }
        },
        None => None,
    }
}

/// Reads the amount section of a posting. Never fails: an empty section
/// means an elided amount.
fn parse_complex(s: &str, pos: usize, end: usize) -> (r: (PostingComplexAmount, usize))
    requires
        pos <= end <= s@.len(),
    ensures
        ({
            let q = spec_parse_complex(s@, pos as int, end as int);
            &&& opt_amount_matches(r.0.amount, q.amount)
            &&& opt_amount_matches(r.0.unit_price, q.unit_price)
            &&& opt_amount_matches(r.0.total_price, q.total_price)
            &&& q.end == r.1 as int
            &&& (r.0.amount matches Some(a) ==> a.wf())
            &&& (r.0.unit_price matches Some(a) ==> a.wf())
            &&& (r.0.total_price matches Some(a) ==> a.wf())
            &&& !(r.0.unit_price is Some && r.0.total_price is Some)
            &&& (r.0.amount is None ==> r.0.unit_price is None && r.0.total_price is None)
            &&& pos <= r.1 <= end
        }),
{
    let a0 = scan_spaces_within(s, pos, end);
    match parse_price_pair(s, a0, end, true) {
        Some((a, t, e)) => (
            PostingComplexAmount { amount: Some(a), unit_price: None, total_price: Some(t) },
            e,
        ),
        None => match parse_price_pair(s, a0, end, false) {
            Some((a, u, e)) => (
                PostingComplexAmount { amount: Some(a), unit_price: Some(u), total_price: None },
                e,
            ),
            None => match parse_amount(s, a0, end) {
                Some((a, e)) => (
                    PostingComplexAmount { amount: Some(a), unit_price: None, total_price: None },
                    e,
                ),
                None => (
                    PostingComplexAmount { amount: None, unit_price: None, total_price: None },
                    a0,
                ),
            },
        },
    }
}

/// Reads a balance assertion `= amount`, with surrounding spaces.
pub fn parse_balance(s: &str, pos: usize, end: usize) -> (r: Option<Amount>)
    requires
        pos <= end <= s@.len(),
    ensures
        match r {
            Some(a) => {
                &&& spec_parse_balance(s@, pos as int, end as int) matches Some((q, _))
                &&& amount_matches(a, (q.0, q.1, q.2, 0))
                &&& a.wf()
            },
            None => spec_parse_balance(s@, pos as int, end as int) is None,
        },
{
    let b0 = scan_spaces_within(s, pos, end);
    if b0 < end && s.get_char(b0) == '=' {
        let b1 = scan_spaces_within(s, b0 + 1, end);
        match parse_amount(s, b1, end) {
            Some((a, _e)) => Some(a),
            None => None,
        }
    } else {
        None
    }
}

impl Posting {
    /// The textual form of the posting: two leading spaces, the status
    /// marker and a space, the account, then, when an amount is present,
    /// two spaces and the amount with its optional price and balance
    /// assertion.
    pub open spec fn spec_render(self) -> Seq<char> {
        let head = "  "@ + self.status.spec_render() + seq![' '] + self.account.0@;
        let with_amount = match self.amount {
            Some(a) => head + "  "@ + a.spec_render() + (match self.unit_price {
                Some(u) => " @ "@ + u.spec_render(),
                None => Seq::empty(),
            }) + (match self.total_price {
                Some(tp) => " @@ "@ + tp.spec_render(),
                None => Seq::empty(),
            }),
            None => head,
        };
        with_amount + (match self.balance_assertion {
            Some(b) => " = "@ + b.spec_render(),
            None => Seq::empty(),
        })
    }

    /// Renders the posting back to its textual grammar form.
    #[verifier::rlimit(100)]
    pub fn render(&self) -> (r: String)
        requires
            self.wf(),
        ensures
            r@ == self.spec_render(),
    {
        proof {
            reveal_strlit("  ");
            reveal_strlit(" ");
            reveal_strlit(" @ ");
            reveal_strlit(" @@ ");
            reveal_strlit(" = ");
        }
        let mut out = String::from_str("  ");
        let st = self.status.render();
        out.append(st.as_str());
        out.append(" ");
        out.append(self.account.0.as_str());
        match &self.amount {
            Some(a) => {
                out.append("  ");
                let asr = a.render();
                out.append(asr.as_str());
                match &self.unit_price {
                    Some(u) => {
                        out.append(" @ ");
                        let us = u.render();
                        out.append(us.as_str());
                    },
                    None => {},
                }
                match &self.total_price {
                    Some(tp) => {
                        out.append(" @@ ");
                        let ts = tp.render();
                        out.append(ts.as_str());
                    },
                    None => {},
                }
            },
            None => {},
        }
        match &self.balance_assertion {
            Some(b) => {
                out.append(" = ");
                let bs = b.render();
                out.append(bs.as_str());
            },
            None => {},
        }
        proof {
            assert(out@ =~= self.spec_render());
        }
        out
    }
}

} // verus!
