//! Transactions: a dated block of postings with status, code, description
//! and tags, validated for internal balance at construction time.
use vstd::prelude::*;
use crate::code::{spec_parse_code, parse_code};
use crate::date::{Date, DateOutcome, spec_parse_date, parse_date};
use crate::description::{spec_parse_description, parse_description};
use crate::decimal::{Decimal, pow10, pow10_i128, lemma_pow10_positive, lemma_pow10_adds};
use crate::description::Description;
use crate::posting::{
    Posting, SpecPosting, spec_parse_posting, parse_posting, opt_amount_matches,
};
use crate::status::{Status, spec_parse_status, parse_status};
use crate::tag::{Tag, spec_parse_tag, parse_tag};
use crate::utils::{
    is_space_char, run_end, run_end_within, spec_line_content_end, line_content_end, scan_spaces,
    scan_spaces_within, find_char, lemma_run_end_within_is, lemma_line_content_end_props,
    try_line_ending,
};
use crate::ParseFailure;
use crate::{HLParserError, ValidationError};

verus! {

/// A transaction: dates, status, optional code, description, postings and
/// tags. Posting order is meaningful and preserved.
#[derive(Debug, PartialEq)]
pub struct Transaction {
    /// The primary date.
    pub primary_date: Date,
    /// The optional secondary date, such as a clearance date.
    pub secondary_date: Option<Date>,
    /// The clearing status.
    pub status: Status,
    /// The optional free-form code.
    pub code: Option<String>,
    /// The description: payee and note.
    pub description: Description,
    /// The postings, in source order.
    pub postings: Vec<Posting>,
    /// The tags, in source order.
    pub tags: Vec<Tag>,
}

/// Clones a vector of postings, preserving equality.
pub fn clone_postings(v: &Vec<Posting>) -> (r: Vec<Posting>)
    ensures
        r@ == v@,
{
    let mut out: Vec<Posting> = Vec::new();
    let mut i: usize = 0;
    while i < v.len()
        invariant
            i <= v.len(),
            out@ =~= v@.subrange(0, i as int),
        decreases v.len() - i,
    {
        out.push(v[i].clone());
        i = i + 1;
    }
    proof {
        assert(v@.subrange(0, v@.len() as int) =~= v@);
    }
    out
}

/// Clones a vector of tags, preserving equality.
pub fn clone_tags(v: &Vec<Tag>) -> (r: Vec<Tag>)
    ensures
        r@ == v@,
{
    let mut out: Vec<Tag> = Vec::new();
    let mut i: usize = 0;
    while i < v.len()
        invariant
            i <= v.len(),
            out@ =~= v@.subrange(0, i as int),
        decreases v.len() - i,
    {
        out.push(v[i].clone());
        i = i + 1;
    }
    proof {
        assert(v@.subrange(0, v@.len() as int) =~= v@);
    }
    out
}

/// Field-for-field sameness of two transactions, with the posting and tag
/// vectors compared by their contents.
pub open spec fn txn_eq(a: Transaction, b: Transaction) -> bool {
    &&& a.primary_date == b.primary_date
    &&& a.secondary_date == b.secondary_date
    &&& a.status == b.status
    &&& a.code == b.code
    &&& a.description == b.description
    &&& a.postings@ == b.postings@
    &&& a.tags@ == b.tags@
}

impl Clone for Transaction {
    /// A clone carries the same contents as the original.
    fn clone(&self) -> (r: Self)
        ensures
            txn_eq(r, *self),
    {
        let r = Transaction {
            primary_date: self.primary_date,
            secondary_date: self.secondary_date,
            status: self.status,
            code: match &self.code {
                Some(c) => Some(c.clone()),
                None => None,
            },
            description: self.description.clone(),
            postings: clone_postings(&self.postings),
            tags: clone_tags(&self.tags),
        };
        proof {
            assert(r.postings@ =~= self.postings@);
            assert(r.tags@ =~= self.tags@);
        }
        r
    }
}

/// How many postings of the sequence have no amount.
pub open spec fn count_missing(ps: Seq<Posting>) -> int
    decreases ps.len(),
{
    if ps.len() == 0 {
        0
    } else {
        count_missing(ps.drop_last()) + if ps.last().amount is None {
            1int
        } else {
            0int
        }
    }
}

/// The decimal that a posting contributes to the sum: its total price when
/// given, else its amount.
pub open spec fn effective_decimal(p: Posting) -> Decimal {
    match p.total_price {
        Some(t) => t.value,
        None => p.amount.unwrap().value,
    }
}

/// The decimals the postings contribute, in order.
pub open spec fn effective_decimals(ps: Seq<Posting>) -> Seq<Decimal> {
    ps.map_values(|p: Posting| effective_decimal(p))
}

/// The largest scale among the decimals.
pub open spec fn max_scale(vs: Seq<Decimal>) -> nat
    decreases vs.len(),
{
    if vs.len() == 0 {
        0
    } else if vs.last().s() >= max_scale(vs.drop_last()) {
        vs.last().s()
    } else {
        max_scale(vs.drop_last())
    }
}

/// The exact sum of the decimals, expressed as a mantissa at scale `sc`.
pub open spec fn scaled_sum(vs: Seq<Decimal>, sc: nat) -> int
    decreases vs.len(),
{
    if vs.len() == 0 {
        0
    } else {
        scaled_sum(vs.drop_last(), sc) + vs.last().m() * pow10((sc - vs.last().s()) as nat)
    }
}

/// The sum of the magnitudes of the decimals at scale `sc`: a bound on
/// every intermediate value of the exact summation.
pub open spec fn abs_scaled_sum(vs: Seq<Decimal>, sc: nat) -> int
    decreases vs.len(),
{
    if vs.len() == 0 {
        0
    } else {
        abs_scaled_sum(vs.drop_last(), sc) + abs(vs.last().m()) * pow10(
            (sc - vs.last().s()) as nat,
        )
    }
}

/// The magnitude of an integer.
pub open spec fn abs(x: int) -> int {
    if x >= 0 {
        x
    } else {
        -x
    }
}

/// The postings sum to exactly zero: the exact sum at the common scale is
/// the zero mantissa.
pub open spec fn zero_sum(ps: Seq<Posting>) -> bool {
    scaled_sum(effective_decimals(ps), max_scale(effective_decimals(ps))) == 0
}

/// The exact summation stays within machine integers: the magnitude sum at
/// the common scale fits an `i128`.
pub open spec fn sum_in_range(ps: Seq<Posting>) -> bool {
    abs_scaled_sum(effective_decimals(ps), max_scale(effective_decimals(ps))) <= i128::MAX
}

impl Transaction {
    /// Well-formedness: the dates are real calendar dates and every posting
    /// is well-formed.
    pub open spec fn wf(self) -> bool {
        &&& self.primary_date.wf()
        &&& (self.secondary_date matches Some(d) ==> d.wf())
        &&& (forall|i: int| 0 <= i < self.postings@.len() ==> (#[trigger] self.postings@[i]).wf())
    }

    /// The condition under which the transaction is accepted: at most one
    /// posting may elide its amount; with one elided the rest is free; with
    /// none elided the effective amounts must sum to exactly zero, within
    /// the range of exact machine summation.
    pub open spec fn spec_valid(self) -> bool {
        ||| count_missing(self.postings@) == 1
        ||| (count_missing(self.postings@) == 0 && sum_in_range(self.postings@) && zero_sum(
            self.postings@,
        ))
    }

    /// Validates the transaction's postings.
    pub fn validate(&self) -> (r: Result<(), ValidationError>)
        requires
            self.wf(),
        ensures
            r is Ok <==> self.spec_valid(),
            count_missing(self.postings@) >= 2 ==> (r matches Err(
                ValidationError::TransactionWithMissingAmountPostings(t),
            ) && txn_eq(t, *self)),
            count_missing(self.postings@) == 0 && !(sum_in_range(self.postings@) && zero_sum(
                self.postings@,
            )) ==> (r matches Err(ValidationError::NonZeroSumTransactionPostings(t)) && txn_eq(
                t,
                *self,
            )),
    {
        self.validate_postings()
    }

    /// Counts the postings without an amount and checks the zero-sum rule.
    fn validate_postings(&self) -> (r: Result<(), ValidationError>)
        requires
            self.wf(),
        ensures
            r is Ok <==> self.spec_valid(),
            count_missing(self.postings@) >= 2 ==> (r matches Err(
                ValidationError::TransactionWithMissingAmountPostings(t),
            ) && txn_eq(t, *self)),
            count_missing(self.postings@) == 0 && !(sum_in_range(self.postings@) && zero_sum(
                self.postings@,
            )) ==> (r matches Err(ValidationError::NonZeroSumTransactionPostings(t)) && txn_eq(
                t,
                *self,
            )),
    {
        let mut missing: usize = 0;
        let mut i: usize = 0;
        while i < self.postings.len()
            invariant
                i <= self.postings@.len(),
                missing == count_missing(self.postings@.subrange(0, i as int)),
                missing <= i,
            decreases self.postings@.len() - i,
        {
            proof {
                assert(self.postings@.subrange(0, i + 1).drop_last() =~= self.postings@.subrange(
                    0,
                    i as int,
                ));
            }
            if self.postings[i].amount.is_none() {
                missing = missing + 1;
            }
            i = i + 1;
        }
        proof {
            assert(self.postings@.subrange(0, self.postings@.len() as int) =~= self.postings@);
        }
        if missing > 1 {
            return Err(ValidationError::TransactionWithMissingAmountPostings(self.clone()));
        }
        if missing == 1 {
            return Ok(());
        }
        let mut vals: Vec<Decimal> = Vec::new();
        let mut j: usize = 0;
        while j < self.postings.len()
            invariant
                j <= self.postings@.len(),
                count_missing(self.postings@) == 0,
                self.wf(),
                vals@ =~= effective_decimals(self.postings@.subrange(0, j as int)),
                forall|k: int| 0 <= k < vals@.len() ==> (#[trigger] vals@[k]).wf(),
            decreases self.postings@.len() - j,
        {
            proof {
                lemma_count_missing_zero(self.postings@, j as int);
                assert(self.postings@.subrange(0, j + 1).drop_last() =~= self.postings@.subrange(
                    0,
                    j as int,
                ));
                assert(effective_decimals(self.postings@.subrange(0, j + 1)).drop_last()
                    =~= effective_decimals(self.postings@.subrange(0, j as int)));
            }
            let p = &self.postings[j];
            let v = match &p.total_price {
                Some(t) => t.value,
                None => {
                    match &p.amount {
                        Some(a) => a.value,
                        None => {
                            proof {
                                assert(false);
                            }
                            Decimal::zero()
                        },
                    }
                },
            };
            vals.push(v);
            j = j + 1;
        }
        proof {
            assert(self.postings@.subrange(0, self.postings@.len() as int) =~= self.postings@);
        }
        match exact_sum(&vals) {
            Some(m) => {
                if m == 0 {
                    Ok(())
                } else {
                    Err(ValidationError::NonZeroSumTransactionPostings(self.clone()))
                }
            },
            None => Err(ValidationError::NonZeroSumTransactionPostings(self.clone())),
        }
    }
}

/// With no posting missing an amount, no prefix misses one either.
proof fn lemma_count_missing_zero(ps: Seq<Posting>, j: int)
    requires
        0 <= j < ps.len(),
        count_missing(ps) == 0,
    ensures
        ps[j].amount is Some,
    decreases ps.len(),
{
    lemma_count_missing_nonneg(ps.drop_last());
    if j < ps.len() - 1 {
        lemma_count_missing_zero(ps.drop_last(), j);
    }
}

/// The count of missing amounts is never negative.
proof fn lemma_count_missing_nonneg(ps: Seq<Posting>)
    ensures
        count_missing(ps) >= 0,
    decreases ps.len(),
{
    if ps.len() > 0 {
        lemma_count_missing_nonneg(ps.drop_last());
    }
}

/// A larger common scale only enlarges the magnitude sum.
proof fn lemma_abs_scaled_sum_monotone(vs: Seq<Decimal>, s1: nat, s2: nat)
    requires
        s1 <= s2,
        forall|k: int| 0 <= k < vs.len() ==> (#[trigger] vs[k]).s() <= s1,
    ensures
        abs_scaled_sum(vs, s1) <= abs_scaled_sum(vs, s2),
        abs_scaled_sum(vs, s1) >= 0,
    decreases vs.len(),
{
    if vs.len() > 0 {
        assert(forall|k: int| 0 <= k < vs.drop_last().len() ==> (#[trigger] vs.drop_last()[k]).s()
            <= s1) by {
            assert(forall|k: int| 0 <= k < vs.drop_last().len() ==> vs.drop_last()[k] == vs[k]);
        }
        lemma_abs_scaled_sum_monotone(vs.drop_last(), s1, s2);
        let v = vs.last();
        lemma_pow10_positive((s1 - v.s()) as nat);
        lemma_pow10_positive((s2 - v.s()) as nat);
        crate::decimal::lemma_pow10_increases((s1 - v.s()) as nat, (s2 - v.s()) as nat);
        assert(abs(v.m()) * pow10((s1 - v.s()) as nat) <= abs(v.m()) * pow10((s2 - v.s()) as nat))
            by (nonlinear_arith)
            requires
                abs(v.m()) >= 0,
                pow10((s1 - v.s()) as nat) <= pow10((s2 - v.s()) as nat),
        ;
        assert(abs(v.m()) * pow10((s1 - v.s()) as nat) >= 0) by (nonlinear_arith)
            requires
                abs(v.m()) >= 0,
                pow10((s1 - v.s()) as nat) >= 1,
        ;
    }
}

/// The scales in a sequence never pass its maximum scale.
proof fn lemma_max_scale_bounds(vs: Seq<Decimal>)
    ensures
        forall|k: int| 0 <= k < vs.len() ==> (#[trigger] vs[k]).s() <= max_scale(vs),
    decreases vs.len(),
{
    if vs.len() > 0 {
        lemma_max_scale_bounds(vs.drop_last());
        assert(forall|k: int| 0 <= k < vs.len() - 1 ==> vs.drop_last()[k] == vs[k]);
        assert(max_scale(vs.drop_last()) <= max_scale(vs));
    }
}

/// The exact sum is bounded by the magnitude sum.
proof fn lemma_scaled_sum_bounded(vs: Seq<Decimal>, sc: nat)
    requires
        forall|k: int| 0 <= k < vs.len() ==> (#[trigger] vs[k]).s() <= sc,
    ensures
        -abs_scaled_sum(vs, sc) <= scaled_sum(vs, sc) <= abs_scaled_sum(vs, sc),
    decreases vs.len(),
{
    if vs.len() > 0 {
        assert(forall|k: int| 0 <= k < vs.drop_last().len() ==> (#[trigger] vs.drop_last()[k]).s()
            <= sc) by {
            assert(forall|k: int| 0 <= k < vs.drop_last().len() ==> vs.drop_last()[k] == vs[k]);
        }
        lemma_scaled_sum_bounded(vs.drop_last(), sc);
        let v = vs.last();
        lemma_pow10_positive((sc - v.s()) as nat);
        assert(-(abs(v.m()) * pow10((sc - v.s()) as nat)) <= v.m() * pow10((sc - v.s()) as nat)
            <= abs(v.m()) * pow10((sc - v.s()) as nat)) by (nonlinear_arith)
            requires
                pow10((sc - v.s()) as nat) >= 1,
        ;
    }
}

/// Rescaling an exact sum to a larger common scale multiplies it by the
/// corresponding power of ten, and likewise for the magnitude sum.
proof fn lemma_scaled_sum_rescale(vs: Seq<Decimal>, s1: nat, s2: nat)
    requires
        s1 <= s2,
        forall|k: int| 0 <= k < vs.len() ==> (#[trigger] vs[k]).s() <= s1,
    ensures
        scaled_sum(vs, s2) == scaled_sum(vs, s1) * pow10((s2 - s1) as nat),
        abs_scaled_sum(vs, s2) == abs_scaled_sum(vs, s1) * pow10((s2 - s1) as nat),
    decreases vs.len(),
{
    let d = (s2 - s1) as nat;
    if vs.len() == 0 {
    } else {
        assert(forall|k: int| 0 <= k < vs.drop_last().len() ==> (#[trigger] vs.drop_last()[k]).s()
            <= s1) by {
            assert(forall|k: int| 0 <= k < vs.drop_last().len() ==> vs.drop_last()[k] == vs[k]);
        }
        lemma_scaled_sum_rescale(vs.drop_last(), s1, s2);
        let v = vs.last();
        lemma_pow10_adds((s1 - v.s()) as nat, d);
        assert(v.m() * pow10((s2 - v.s()) as nat) == (v.m() * pow10((s1 - v.s()) as nat)) * pow10(
            d,
        )) by (nonlinear_arith)
            requires
                pow10((s1 - v.s()) as nat) * pow10(d) == pow10((s2 - v.s()) as nat),
        ;
        assert(abs(v.m()) * pow10((s2 - v.s()) as nat) == (abs(v.m()) * pow10(
            (s1 - v.s()) as nat,
        )) * pow10(d)) by (nonlinear_arith)
            requires
                pow10((s1 - v.s()) as nat) * pow10(d) == pow10((s2 - v.s()) as nat),
        ;
        assert((scaled_sum(vs.drop_last(), s1) + v.m() * pow10((s1 - v.s()) as nat)) * pow10(d)
            == scaled_sum(vs.drop_last(), s1) * pow10(d) + (v.m() * pow10((s1 - v.s()) as nat))
            * pow10(d)) by (nonlinear_arith);
        assert((abs_scaled_sum(vs.drop_last(), s1) + abs(v.m()) * pow10((s1 - v.s()) as nat))
            * pow10(d) == abs_scaled_sum(vs.drop_last(), s1) * pow10(d) + (abs(v.m()) * pow10(
            (s1 - v.s()) as nat,
        )) * pow10(d)) by (nonlinear_arith);
    }
}

/// Sums the decimals exactly. The result is the mantissa of the sum at the
/// sequence's largest scale; `None` only when that exact summation leaves
/// the range of an `i128`.
fn exact_sum(vals: &Vec<Decimal>) -> (r: Option<i128>)
    requires
        forall|k: int| 0 <= k < vals@.len() ==> (#[trigger] vals@[k]).wf(),
    ensures
        match r {
            Some(m) => m == scaled_sum(vals@, max_scale(vals@)) && abs_scaled_sum(
                vals@,
                max_scale(vals@),
            ) <= i128::MAX,
            None => abs_scaled_sum(vals@, max_scale(vals@)) > i128::MAX,
        },
{
    let mut acc: i128 = 0;
    let mut acc_abs: i128 = 0;
    let mut acc_s: u32 = 0;
    let mut i: usize = 0;
    while i < vals.len()
        invariant
            i <= vals@.len(),
            forall|k: int| 0 <= k < vals@.len() ==> (#[trigger] vals@[k]).wf(),
            acc_s == max_scale(vals@.subrange(0, i as int)),
            acc_s <= 28,
            acc == scaled_sum(vals@.subrange(0, i as int), acc_s as nat),
            acc_abs == abs_scaled_sum(vals@.subrange(0, i as int), acc_s as nat),
            -acc_abs <= acc <= acc_abs,
            acc_abs >= 0,
        decreases vals@.len() - i,
    {
        let ghost pre = vals@.subrange(0, i as int);
        let ghost cur = vals@.subrange(0, i + 1);
        proof {
            assert(cur.drop_last() =~= pre);
            lemma_max_scale_bounds(pre);
        }
        let v = vals[i];
        let ns: u32 = if v.scale > acc_s {
            v.scale
        } else {
            acc_s
        };
        proof {
            assert(max_scale(cur) == ns);
        }
        // rescale the accumulated sum to the new common scale
        let f1 = pow10_i128(ns - acc_s);
        proof {
            lemma_scaled_sum_rescale(pre, acc_s as nat, ns as nat);
        }
        let acc2 = match acc.checked_mul(f1) {
            Some(x) => x,
            None => {
                proof {
                    assert(abs(acc as int * f1) <= abs_scaled_sum(pre, ns as nat))
                        by (nonlinear_arith)
                        requires
                            -acc_abs <= acc <= acc_abs,
                            f1 >= 1,
                            abs_scaled_sum(pre, ns as nat) == acc_abs as int * f1,
                    ;
                    lemma_range_abs(vals@, i as int, ns as nat, acc as int * f1);
                }
                return None;
            },
        };
        let abs2 = match acc_abs.checked_mul(f1) {
            Some(x) => x,
            None => {
                proof {
                    assert(abs(acc_abs as int * f1) <= abs_scaled_sum(pre, ns as nat))
                        by (nonlinear_arith)
                        requires
                            acc_abs >= 0,
                            f1 >= 1,
                            abs_scaled_sum(pre, ns as nat) == acc_abs as int * f1,
                    ;
                    lemma_range_abs(vals@, i as int, ns as nat, acc_abs as int * f1);
                }
                return None;
            },
        };
        proof {
            assert(-abs2 <= acc2 <= abs2) by (nonlinear_arith)
                requires
                    acc2 as int == acc as int * f1,
                    abs2 as int == acc_abs as int * f1,
                    -acc_abs <= acc <= acc_abs,
                    f1 >= 1,
            ;
            assert(abs2 >= 0) by (nonlinear_arith)
                requires
                    abs2 as int == acc_abs as int * f1,
                    acc_abs >= 0,
                    f1 >= 1,
            ;
        }
        // rescale the new value
        let f2 = pow10_i128(ns - v.scale);
        let ghost vterm = v.m() * pow10((ns - v.s()) as nat);
        let vm = match v.mantissa.checked_mul(f2) {
            Some(x) => x,
            None => {
                proof {
                    assert(abs(vterm) > i128::MAX) by (nonlinear_arith)
                        requires
                            vterm == v.m() * f2,
                            v.m() * f2 > i128::MAX || v.m() * f2 < i128::MIN,
                            i128::MIN + i128::MAX <= 0,
                    ;
                    lemma_term_abs(vals@, i as int, ns as nat);
                }
                return None;
            },
        };
        if vm == i128::MIN {
            proof {
                assert(abs(vterm) > i128::MAX) by (nonlinear_arith)
                    requires
                        vterm == v.m() * f2,
                        vm as int == v.m() * f2,
                        vm as int == i128::MIN,
                        i128::MIN + i128::MAX < 0,
                ;
                lemma_term_abs(vals@, i as int, ns as nat);
            }
            return None;
        }
        let nabs_v: i128 = if vm >= 0 {
            vm
        } else {
            -vm
        };
        let nacc = match acc2.checked_add(vm) {
            Some(x) => x,
            None => {
                proof {
                    lemma_sum_step_abs(vals@, i as int, ns as nat, acc2 as int, vm as int);
                }
                return None;
            },
        };
        let nabs = match abs2.checked_add(nabs_v) {
            Some(x) => x,
            None => {
                proof {
                    lemma_sum_step_abs2(vals@, i as int, ns as nat, abs2 as int, nabs_v as int);
                }
                return None;
            },
        };
        proof {
            assert(scaled_sum(cur, ns as nat) == scaled_sum(pre, ns as nat) + vterm);
            lemma_pow10_positive((ns - v.s()) as nat);
            assert(abs(v.m()) * pow10((ns - v.s()) as nat) == abs(vterm)) by (nonlinear_arith)
                requires
                    vterm == v.m() * pow10((ns - v.s()) as nat),
                    pow10((ns - v.s()) as nat) >= 1,
            ;
            assert(abs_scaled_sum(cur, ns as nat) == abs_scaled_sum(pre, ns as nat) + abs(
                vterm,
            ));
            assert(abs(vterm) == nabs_v as int) by (nonlinear_arith)
                requires
                    vterm == v.m() * f2,
                    vm as int == v.m() * f2,
                    nabs_v as int == abs(vm as int),
            ;
        }
        acc = nacc;
        acc_abs = nabs;
        acc_s = ns;
        i = i + 1;
    }
    proof {
        assert(vals@.subrange(0, vals@.len() as int) =~= vals@);
    }
    Some(acc)
}

/// A value already as large as the rescaled prefix magnitude that leaves
/// the `i128` range forces the whole magnitude sum out of range.
proof fn lemma_range_abs(vs: Seq<Decimal>, i: int, ns: nat, prod: int)
    requires
        0 <= i < vs.len(),
        forall|k: int| 0 <= k < vs.len() ==> (#[trigger] vs[k]).wf(),
        max_scale(vs.subrange(0, i + 1)) == ns,
        ns <= 28,
        prod > i128::MAX || prod < i128::MIN,
        abs(prod) <= abs_scaled_sum(vs.subrange(0, i), ns),
    ensures
        abs_scaled_sum(vs, max_scale(vs)) > i128::MAX,
{
    lemma_prefix_le_total(vs, i, ns);
}

/// The magnitude sum of a prefix at a partial scale bounds from below the
/// magnitude sum of the full sequence at its full scale.
proof fn lemma_prefix_le_total(vs: Seq<Decimal>, i: int, ns: nat)
    requires
        0 <= i < vs.len(),
        forall|k: int| 0 <= k < vs.len() ==> (#[trigger] vs[k]).wf(),
        max_scale(vs.subrange(0, i + 1)) == ns,
        ns <= 28,
    ensures
        abs_scaled_sum(vs.subrange(0, i), ns) <= abs_scaled_sum(vs, max_scale(vs)),
        abs_scaled_sum(vs.subrange(0, i + 1), ns) <= abs_scaled_sum(vs, max_scale(vs)),
    decreases vs.len(),
{
    let full = max_scale(vs);
    lemma_max_scale_prefix(vs, i + 1);
    lemma_max_scale_bounds(vs.subrange(0, i + 1));
    lemma_max_scale_bounds(vs.subrange(0, i));
    assert(forall|k: int| 0 <= k < i ==> vs.subrange(0, i)[k] == vs.subrange(0, i + 1)[k]);
    assert(forall|k: int| 0 <= k < i ==> (#[trigger] vs.subrange(0, i)[k]).s() <= ns) by {
        assert(forall|k: int| 0 <= k < i ==> vs.subrange(0, i)[k] == vs.subrange(0, i + 1)[k]);
    }
    lemma_abs_scaled_sum_monotone(vs.subrange(0, i), ns, full);
    lemma_abs_scaled_sum_monotone(vs.subrange(0, i + 1), ns, full);
    lemma_abs_prefix_le(vs, i, full);
    lemma_abs_prefix_le(vs, i + 1, full);
}

/// Dropping elements from the end never enlarges the magnitude sum.
proof fn lemma_abs_prefix_le(vs: Seq<Decimal>, i: int, sc: nat)
    requires
        0 <= i <= vs.len(),
    ensures
        abs_scaled_sum(vs.subrange(0, i), sc) <= abs_scaled_sum(vs, sc),
    decreases vs.len() - i,
{
    if i == vs.len() {
        assert(vs.subrange(0, i) =~= vs);
    } else {
        lemma_abs_prefix_le(vs, i + 1, sc);
        let p = vs.subrange(0, i + 1);
        assert(p.drop_last() =~= vs.subrange(0, i));
        lemma_pow10_positive((sc - p.last().s()) as nat);
        assert(abs(p.last().m()) * pow10((sc - p.last().s()) as nat) >= 0) by (nonlinear_arith)
            requires
                abs(p.last().m()) >= 0,
                pow10((sc - p.last().s()) as nat) >= 1,
        ;
    }
}

/// The maximum scale of a prefix never passes the maximum scale of the
/// whole sequence.
proof fn lemma_max_scale_prefix(vs: Seq<Decimal>, i: int)
    requires
        0 <= i <= vs.len(),
    ensures
        max_scale(vs.subrange(0, i)) <= max_scale(vs),
    decreases vs.len() - i,
{
    if i == vs.len() {
        assert(vs.subrange(0, i) =~= vs);
    } else {
        lemma_max_scale_prefix(vs, i + 1);
        let p = vs.subrange(0, i + 1);
        assert(p.drop_last() =~= vs.subrange(0, i));
        assert(max_scale(vs.subrange(0, i)) <= max_scale(p));
    }
}

/// When the current element's rescaled magnitude leaves the range, the full
/// magnitude sum does too.
proof fn lemma_term_abs(vs: Seq<Decimal>, i: int, ns: nat)
    requires
        0 <= i < vs.len(),
        forall|k: int| 0 <= k < vs.len() ==> (#[trigger] vs[k]).wf(),
        max_scale(vs.subrange(0, i + 1)) == ns,
        ns <= 28,
        abs(vs[i].m() * pow10((ns - vs[i].s()) as nat)) > i128::MAX,
    ensures
        abs_scaled_sum(vs, max_scale(vs)) > i128::MAX,
{
    lemma_prefix_le_total(vs, i, ns);
    let p = vs.subrange(0, i + 1);
    assert(p.drop_last() =~= vs.subrange(0, i));
    assert(p.last() == vs[i]);
    lemma_max_scale_bounds(p);
    lemma_pow10_positive((ns - vs[i].s()) as nat);
    assert(abs(vs[i].m()) * pow10((ns - vs[i].s()) as nat) == abs(vs[i].m() * pow10(
        (ns - vs[i].s()) as nat,
    ))) by (nonlinear_arith)
        requires
            pow10((ns - vs[i].s()) as nat) >= 1,
    ;
    assert(abs_scaled_sum(p, ns) == abs_scaled_sum(vs.subrange(0, i), ns) + abs(p.last().m())
        * pow10((ns - p.last().s()) as nat));
    lemma_abs_nonneg_sum(vs.subrange(0, i), ns);
}

/// The magnitude sum is never negative.
proof fn lemma_abs_nonneg_sum(vs: Seq<Decimal>, sc: nat)
    ensures
        abs_scaled_sum(vs, sc) >= 0,
    decreases vs.len(),
{
    if vs.len() > 0 {
        lemma_abs_nonneg_sum(vs.drop_last(), sc);
        let v = vs.last();
        lemma_pow10_positive((sc - v.s()) as nat);
        assert(abs(v.m()) * pow10((sc - v.s()) as nat) >= 0) by (nonlinear_arith)
            requires
                abs(v.m()) >= 0,
                pow10((sc - v.s()) as nat) >= 1,
        ;
    }
}

/// When the exact running sum leaves the range, the magnitude sum does too.
proof fn lemma_sum_step_abs(vs: Seq<Decimal>, i: int, ns: nat, acc2: int, vm: int)
    requires
        0 <= i < vs.len(),
        forall|k: int| 0 <= k < vs.len() ==> (#[trigger] vs[k]).wf(),
        max_scale(vs.subrange(0, i + 1)) == ns,
        ns <= 28,
        acc2 + vm > i128::MAX || acc2 + vm < i128::MIN,
        abs(acc2) <= abs_scaled_sum(vs.subrange(0, i), ns),
        abs(vm) == abs(vs[i].m() * pow10((ns - vs[i].s()) as nat)),
    ensures
        abs_scaled_sum(vs, max_scale(vs)) > i128::MAX,
{
    lemma_prefix_le_total(vs, i, ns);
    let p = vs.subrange(0, i + 1);
    assert(p.drop_last() =~= vs.subrange(0, i));
    assert(p.last() == vs[i]);
    lemma_pow10_positive((ns - vs[i].s()) as nat);
    assert(abs(vs[i].m()) * pow10((ns - vs[i].s()) as nat) == abs(vs[i].m() * pow10(
        (ns - vs[i].s()) as nat,
    ))) by (nonlinear_arith)
        requires
            pow10((ns - vs[i].s()) as nat) >= 1,
    ;
    assert(abs_scaled_sum(p, ns) == abs_scaled_sum(vs.subrange(0, i), ns) + abs(vs[i].m())
        * pow10((ns - vs[i].s()) as nat));
    assert(abs_scaled_sum(p, ns) >= abs(acc2 + vm));
}

/// When the running magnitude sum leaves the range, the full magnitude sum
/// does too.
proof fn lemma_sum_step_abs2(vs: Seq<Decimal>, i: int, ns: nat, abs2: int, vabs: int)
    requires
        0 <= i < vs.len(),
        forall|k: int| 0 <= k < vs.len() ==> (#[trigger] vs[k]).wf(),
        max_scale(vs.subrange(0, i + 1)) == ns,
        ns <= 28,
        abs2 + vabs > i128::MAX,
        abs2 == abs_scaled_sum(vs.subrange(0, i), ns),
        vabs == abs(vs[i].m() * pow10((ns - vs[i].s()) as nat)),
    ensures
        abs_scaled_sum(vs, max_scale(vs)) > i128::MAX,
{
    lemma_prefix_le_total(vs, i, ns);
    let p = vs.subrange(0, i + 1);
    assert(p.drop_last() =~= vs.subrange(0, i));
    assert(p.last() == vs[i]);
    lemma_pow10_positive((ns - vs[i].s()) as nat);
    assert(abs(vs[i].m()) * pow10((ns - vs[i].s()) as nat) == abs(vs[i].m() * pow10(
        (ns - vs[i].s()) as nat,
    ))) by (nonlinear_arith)
        requires
            pow10((ns - vs[i].s()) as nat) >= 1,
    ;
    assert(abs_scaled_sum(p, ns) == abs2 + vabs);
}

/// Tag list read inside `[pos, end)`: tags separated by a comma and
/// optional spaces; the list ends before the first text that is no tag.
pub open spec fn spec_parse_tag_list(s: Seq<char>, pos: int, end: int) -> Seq<
    (Seq<char>, Option<Seq<char>>),
>
    decreases end - pos,
{
    match spec_parse_tag(s, pos, end) {
        None => Seq::empty(),
        Some((n, v, p)) => {
            if pos < p <= end && p < end && s[p] == ',' {
                let next = run_end_within(s, p + 1, end, |c: char| is_space_char(c));
                if p + 1 <= next <= end {
                    seq![(n, v)] + spec_parse_tag_list(s, next, end)
                } else {
                    seq![(n, v)]
                }
            } else {
                seq![(n, v)]
            }
        },
    }
}

/// Does the parsed tag carry the spec-level name and value?
pub open spec fn tag_matches(t: Tag, q: (Seq<char>, Option<Seq<char>>)) -> bool {
    t.name@ == q.0 && match (t.value, q.1) {
        (Some(a), Some(b)) => a@ == b,
        (None, None) => true,
        _ => false,
    }
}

/// Reads a comma-separated tag list.
fn parse_tag_list(s: &str, pos: usize, end: usize) -> (r: Vec<Tag>)
    requires
        pos <= end <= s@.len(),
    ensures
        ({
            let q = spec_parse_tag_list(s@, pos as int, end as int);
            r@.len() == q.len() && forall|i: int|
                0 <= i < q.len() ==> tag_matches(#[trigger] r@[i], q[i])
        }),
    decreases end - pos,
{
    match parse_tag(s, pos, end) {
        None => Vec::new(),
        Some((tg, p)) => {
            let mut out: Vec<Tag> = Vec::new();
            if pos < p && p < end && s.get_char(p) == ',' {
                let next = scan_spaces_within(s, p + 1, end);
                let rest = parse_tag_list(s, next, end);
                out.push(tg);
                let mut i: usize = 0;
                while i < rest.len()
                    invariant
                        i <= rest@.len(),
                        out@.len() == 1 + i as int,
                        out@[0] == tg,
                        forall|k: int| 0 <= k < i ==> out@[k + 1] == rest@[k],
                    decreases rest@.len() - i,
                {
                    out.push(rest[i].clone());
                    i = i + 1;
                }
                proof {
                    let q = spec_parse_tag_list(s@, pos as int, end as int);
                    let qr = spec_parse_tag_list(s@, next as int, end as int);
                    assert(q.len() == 1 + qr.len());
                    assert(forall|i2: int| 0 <= i2 < qr.len() ==> q[i2 + 1] == qr[i2]);
                    assert forall|i2: int| 0 <= i2 < q.len() implies tag_matches(
                        out@[i2],
                        q[i2],
                    ) by {
                        if i2 > 0 {
                            assert(out@[(i2 - 1) + 1] == rest@[i2 - 1]);
                            assert(q[(i2 - 1) + 1] == qr[i2 - 1]);
                        }
                    }
                }
                out
            } else {
                out.push(tg);
                proof {
                    let q = spec_parse_tag_list(s@, pos as int, end as int);
                    assert(q.len() == 1);
                    assert(tag_matches(out@[0], q[0]));
                }
                out
            }
        },
    }
}

/// The split of a trailing comment region: everything before the last space
/// that precedes the first colon is free text and is discarded; the tags
/// start after that space, or at the start when no space precedes the
/// colon; a region without a colon holds no tags at all.
pub open spec fn spec_tags_start(s: Seq<char>, pos: int, end: int) -> Option<int> {
    let colon = run_end_within(s, pos, end, |c: char| c != ':');
    if colon < end {
        Some(last_space_before(s, pos, colon))
    } else {
        None
    }
}

/// The position after the last space in `[pos, limit)`, or `pos` when there
/// is none.
pub open spec fn last_space_before(s: Seq<char>, pos: int, limit: int) -> int
    decreases limit - pos,
{
    if limit <= pos {
        pos
    } else if s[limit - 1] == ' ' {
        limit
    } else {
        last_space_before(s, pos, limit - 1)
    }
}

/// Finds where the tag list starts inside a comment region.
fn tags_start(s: &str, pos: usize, end: usize) -> (r: Option<usize>)
    requires
        pos <= end <= s@.len(),
    ensures
        match r {
            Some(j) => spec_tags_start(s@, pos as int, end as int) == Some(j as int) && pos <= j
                <= end,
            None => spec_tags_start(s@, pos as int, end as int) is None,
        },
{
    let colon = match find_char(s, pos, end, ':') {
        Some(j) => j,
        None => {
            proof {
                lemma_run_end_within_is(s@, pos as int, end as int, |c: char| c != ':', end as int);
            }
            return None;
        },
    };
    proof {
        lemma_run_end_within_is(s@, pos as int, end as int, |c: char| c != ':', colon as int);
    }
    let mut j = colon;
    while j > pos
        invariant
            pos <= j <= colon <= end <= s@.len(),
            colon < end,
            colon as int == run_end_within(s@, pos as int, end as int, |c: char| c != ':'),
            last_space_before(s@, pos as int, colon as int) == last_space_before(
                s@,
                pos as int,
                j as int,
            ),
        decreases j,
    {
        if s.get_char(j - 1) == ' ' {
            return Some(j);
        }
        j = j - 1;
    }
    Some(pos)
}

/// Spec-level view of a parsed transaction and where it ends.
pub struct SpecTransaction {
    /// Primary date as year, month, day.
    pub date: (int, int, int),
    /// Optional secondary date.
    pub secondary: Option<(int, int, int)>,
    /// The status marker.
    pub status: Status,
    /// The optional code.
    pub code: Option<Seq<char>>,
    /// The optional payee.
    pub payee: Option<Seq<char>>,
    /// The optional note.
    pub note: Option<Seq<char>>,
    /// The tags.
    pub tags: Seq<(Seq<char>, Option<Seq<char>>)>,
    /// The postings.
    pub postings: Seq<SpecPosting>,
    /// The position after the consumed block.
    pub end: int,
}

/// Outcome of reading a transaction block.
pub enum TxOutcome {
    /// The text does not have the shape of a transaction.
    NoMatch,
    /// The date matched in shape but is no real calendar date.
    Invalid,
    /// A parsed block; balance validation is a separate step.
    Parsed(SpecTransaction),
}

/// The posting lines that follow a transaction header, each consumed with
/// its line ending, ending before the first line that is no posting.
pub open spec fn spec_parse_postings(s: Seq<char>, pos: int) -> (Seq<SpecPosting>, int)
    decreases s.len() - pos,
{
    match spec_parse_posting(s, pos) {
        None => (Seq::empty(), pos),
        Some(q) => {
            if pos < q.end <= s.len() && crate::commodity::line_ending_or_eof_at(s, q.end) {
                let after = crate::commodity::after_line_ending(s, q.end);
                if q.end <= after <= s.len() {
                    let rest = spec_parse_postings(s, after);
                    (seq![q] + rest.0, rest.1)
                } else {
                    (seq![q], q.end)
                }
            } else {
                (seq![q], q.end)
            }
        },
    }
}

/// Transaction block read at `pos`: the date pair, spaces, a status, an
/// optional code, then the rest of the header line split into description
/// and trailing comment with tags; the header must close with a line
/// ending; posting lines follow until one fails to parse.
pub open spec fn spec_parse_transaction(s: Seq<char>, pos: int) -> TxOutcome {
    match spec_parse_date(s, pos) {
        DateOutcome::NoMatch => TxOutcome::NoMatch,
        DateOutcome::Invalid(_, _, _) => TxOutcome::Invalid,
        DateOutcome::Parsed(d, sec, de) => {
            let sp = run_end(s, de, |c: char| is_space_char(c));
            let st = spec_parse_status(s, sp);
            let ce0 = spec_line_content_end(s, st.1);
            let code = spec_parse_code(s, st.1, ce0);
            let p3 = match code {
                Some((_, cp)) => cp,
                None => st.1,
            };
            let ce = spec_line_content_end(s, p3);
            let desc = spec_parse_description(s, p3, ce);
            let semi = run_end_within(s, p3, ce, |c: char| c != ';');
            let tags = if semi < ce {
                let cstart = run_end(s, semi + 1, |c: char| is_space_char(c));
                match spec_tags_start(s, if cstart < ce {
                    cstart
                } else {
                    ce
                }, ce) {
                    Some(ts) => spec_parse_tag_list(s, ts, ce),
                    None => Seq::empty(),
                }
            } else {
                Seq::empty()
            };
            if ce < s.len() && crate::commodity::line_ending_or_eof_at(s, ce) {
                let after = crate::commodity::after_line_ending(s, ce);
                let ps = spec_parse_postings(s, after);
                TxOutcome::Parsed(
                    SpecTransaction {
                        date: d,
                        secondary: sec,
                        status: st.0,
                        code: match code {
                            Some((c, _)) => Some(c),
                            None => None,
                        },
                        payee: desc.0,
                        note: desc.1,
                        tags,
                        postings: ps.0,
                        end: ps.1,
                    },
                )
            } else {
                TxOutcome::NoMatch
            }
        },
    }
}

/// Does the parsed transaction carry the spec-level contents?
pub open spec fn tx_matches(t: Transaction, q: SpecTransaction) -> bool {
    &&& t.primary_date.year as int == q.date.0
    &&& t.primary_date.month as int == q.date.1
    &&& t.primary_date.day as int == q.date.2
    &&& match (t.secondary_date, q.secondary) {
        (Some(v), Some((y, m, d))) => v.year as int == y && v.month as int == m && v.day as int
            == d,
        (None, None) => true,
        _ => false,
    }
    &&& t.status == q.status
    &&& match (t.code, q.code) {
        (Some(a), Some(b)) => a@ == b,
        (None, None) => true,
        _ => false,
    }
    &&& match (t.description.payee, q.payee) {
        (Some(a), Some(b)) => a@ == b,
        (None, None) => true,
        _ => false,
    }
    &&& match (t.description.note, q.note) {
        (Some(a), Some(b)) => a@ == b,
        (None, None) => true,
        _ => false,
    }
    &&& t.tags@.len() == q.tags.len()
    &&& (forall|i: int| 0 <= i < q.tags.len() ==> tag_matches(#[trigger] t.tags@[i], q.tags[i]))
    &&& t.postings@.len() == q.postings.len()
    &&& (forall|i: int|
        0 <= i < q.postings.len() ==> posting_matches(#[trigger] t.postings@[i], q.postings[i]))
}

/// Does the parsed posting carry the spec-level contents?
pub open spec fn posting_matches(p: Posting, q: SpecPosting) -> bool {
    &&& p.status == q.status
    &&& p.account.0@ == q.account
    &&& opt_amount_matches(p.amount, q.amount)
    &&& opt_amount_matches(p.unit_price, q.unit_price)
    &&& opt_amount_matches(p.total_price, q.total_price)
    &&& opt_amount_matches(p.balance_assertion, q.balance_assertion)
}

/// Reads the posting lines after a transaction header.
fn parse_postings(s: &str, pos: usize) -> (r: (Vec<Posting>, usize))
    requires
        pos <= s@.len(),
    ensures
        ({
            let q = spec_parse_postings(s@, pos as int);
            &&& r.0@.len() == q.0.len()
            &&& (forall|i: int|
                0 <= i < q.0.len() ==> posting_matches(#[trigger] r.0@[i], q.0[i]))
            &&& r.1 as int == q.1
            &&& pos <= r.1 <= s@.len()
            &&& (forall|i: int| 0 <= i < r.0@.len() ==> (#[trigger] r.0@[i]).wf())
        }),
    decreases s@.len() - pos,
{
    match parse_posting(s, pos) {
        None => (Vec::new(), pos),
        Some((p, pe)) => {
            proof {
                let sp1 = run_end(s@, pos as int, |c: char| is_space_char(c));
                crate::utils::lemma_run_end_bounds(s@, pos as int, |c: char| is_space_char(c));
                let st = spec_parse_status(s@, sp1);
                crate::utils::lemma_run_end_bounds(s@, st.1, |c: char| is_space_char(c));
                let p3v = run_end(s@, st.1, |c: char| is_space_char(c));
                lemma_line_content_end_props(s@, p3v);
                assert(spec_parse_posting(s@, pos as int).unwrap().end == spec_line_content_end(
                    s@,
                    p3v,
                ));
                assert(spec_parse_posting(s@, pos as int).unwrap().end >= p3v);
            }
            match try_line_ending(s, pe) {
                Some(after) => {
                    if pos < pe {
                        proof {
                            let q = spec_parse_posting(s@, pos as int).unwrap();
                            assert(crate::commodity::line_ending_or_eof_at(s@, q.end));
                            if q.end == s@.len() {
                                assert(after as int == q.end);
                            } else if s@[q.end] == '\n' {
                                assert(after as int == q.end + 1);
                            } else {
                                assert(s@[q.end] == '\r' && q.end + 1 < s@.len() && s@[q.end
                                    + 1] == '\n');
                                assert(after as int == q.end + 2);
                            }
                            assert(crate::commodity::after_line_ending(s@, q.end)
                                == after as int);
                        }
                        let (rest, rp) = parse_postings(s, after);
                        let mut out: Vec<Posting> = Vec::new();
                        out.push(p);
                        let mut i: usize = 0;
                        while i < rest.len()
                            invariant
                                i <= rest@.len(),
                                out@.len() == 1 + i as int,
                                out@[0] == p,
                                forall|k: int| 0 <= k < i ==> out@[k + 1] == rest@[k],
                            decreases rest@.len() - i,
                        {
                            out.push(rest[i].clone());
                            i = i + 1;
                        }
                        proof {
                            let q = spec_parse_postings(s@, pos as int);
                            let qp = spec_parse_posting(s@, pos as int).unwrap();
                            let qr = spec_parse_postings(s@, after as int);
                            assert(q.0 == seq![qp] + qr.0);
                            assert forall|i2: int| 0 <= i2 < q.0.len() implies posting_matches(
                                out@[i2],
                                q.0[i2],
                            ) by {
                                if i2 > 0 {
                                    assert(out@[(i2 - 1) + 1] == rest@[i2 - 1]);
                                    assert(q.0[i2] == qr.0[i2 - 1]);
                                }
                            }
                            assert forall|i2: int| 0 <= i2 < out@.len() implies (
                            #[trigger] out@[i2]).wf() by {
                                if i2 > 0 {
                                    assert(out@[(i2 - 1) + 1] == rest@[i2 - 1]);
                                }
                            }
                        }
                        (out, rp)
                    } else {
                        // a posting always consumes at least its leading space
                        proof {
                            assert(false);
                        }
                        (Vec::new(), pos)
                    }
                },
                None => {
                    // the posting ends at its line's content end, where a
                    // line ending or the end of the text always stands
                    proof {
                        assert(false);
                    }
                    (Vec::new(), pos)
                },
            }
        },
    }
}

/// Reads one whole transaction block, validating its postings: an invalid
/// block is a hard failure carrying the offending transaction.
#[verifier::rlimit(100)]
pub fn parse_transaction(s: &str, pos: usize) -> (r: Result<(Transaction, usize), ParseFailure>)
    requires
        pos <= s@.len(),
    ensures
        match r {
            Ok((t, np)) => {
                &&& spec_parse_transaction(s@, pos as int) matches TxOutcome::Parsed(q)
                &&& tx_matches(t, q)
                &&& np as int == q.end
                &&& t.wf()
                &&& t.spec_valid()
                &&& pos < np <= s@.len()
            },
            Err(ParseFailure::Mismatch) => spec_parse_transaction(s@, pos as int) is NoMatch,
            Err(ParseFailure::Fatal(e)) => {
                ||| (spec_parse_transaction(s@, pos as int) is Invalid && (spec_parse_date(
                    s@,
                    pos as int,
                ) matches DateOutcome::Invalid(oy, m, d)
                    && crate::date::invalid_components_error(e, oy, m, d)))
                ||| (spec_parse_transaction(s@, pos as int) matches TxOutcome::Parsed(q) && (
                match e {
                    HLParserError::Validation(
                        ValidationError::NonZeroSumTransactionPostings(t),
                    ) => tx_matches(t, q) && !t.spec_valid(),
                    HLParserError::Validation(
                        ValidationError::TransactionWithMissingAmountPostings(t),
                    ) => tx_matches(t, q) && !t.spec_valid(),
                    _ => false,
                }))
            },
        },
{
    let n = s.unicode_len();
    let (d1, d2, de) = match parse_date(s, pos) {
        Ok(v) => v,
        Err(ParseFailure::Mismatch) => {
            return Err(ParseFailure::Mismatch);
        },
        Err(ParseFailure::Fatal(e)) => {
            return Err(ParseFailure::Fatal(e));
        },
    };
    let sp = scan_spaces(s, de);
    let (st, p2) = parse_status(s, sp);
    let ce0 = line_content_end(s, p2);
    let code = parse_code(s, p2, ce0);
    let p3 = match &code {
        Some((_, cp)) => *cp,
        None => p2,
    };
    let ce = line_content_end(s, p3);
    let desc = parse_description(s, p3, ce);
    let semi = match find_char(s, p3, ce, ';') {
        Some(j) => j,
        None => ce,
    };
    proof {
        lemma_run_end_within_is(s@, p3 as int, ce as int, |c: char| c != ';', semi as int);
    }
    let tags: Vec<Tag> = if semi < ce {
        let cstart = scan_spaces(s, semi + 1);
        let tstart = if cstart < ce {
            cstart
        } else {
            ce
        };
        match tags_start(s, tstart, ce) {
            Some(ts) => parse_tag_list(s, ts, ce),
            None => Vec::new(),
        }
    } else {
        Vec::new()
    };
    proof {
        lemma_line_content_end_props(s@, p3 as int);
    }
    if ce >= n {
        return Err(ParseFailure::Mismatch);
    }
    let after = match try_line_ending(s, ce) {
        Some(a) => a,
        None => {
            return Err(ParseFailure::Mismatch);
        },
    };
    proof {
        assert(crate::commodity::line_ending_or_eof_at(s@, ce as int));
        if s@[ce as int] == '\n' {
            assert(after as int == ce + 1);
        } else {
            assert(s@[ce as int] == '\r' && ce + 1 < s@.len() && s@[ce as int + 1] == '\n');
            assert(after as int == ce + 2);
        }
        assert(crate::commodity::after_line_ending(s@, ce as int) == after as int);
    }
    let (postings, pend) = parse_postings(s, after);
    let txn = Transaction {
        primary_date: d1,
        secondary_date: d2,
        status: st,
        code: match code {
            Some((c, _)) => Some(c),
            None => None,
        },
        description: desc,
        postings,
        tags,
    };
    match txn.validate() {
        Ok(()) => Ok((txn, pend)),
        Err(e) => {
            proof {
                lemma_count_missing_nonneg(txn.postings@);
                let q = spec_parse_transaction(s@, pos as int)->Parsed_0;
                assert(tx_matches(txn, q));
                match &e {
                    ValidationError::NonZeroSumTransactionPostings(et) => {
                        assert(txn_eq(*et, txn));
                        assert(tx_matches(*et, q));
                        assert(et.spec_valid() == txn.spec_valid());
                    },
                    ValidationError::TransactionWithMissingAmountPostings(et) => {
                        assert(txn_eq(*et, txn));
                        assert(tx_matches(*et, q));
                        assert(et.spec_valid() == txn.spec_valid());
                    },
                    _ => {},
                }
            }
            Err(ParseFailure::Fatal(HLParserError::Validation(e)))
        },
    }
}

/// Law of transaction validation: with every posting carrying an amount,
/// the transaction is accepted exactly when the effective amounts (total
/// price when given, else the amount) sum to exactly zero, as long as the
/// exact summation stays within machine range; a transaction with exactly
/// one elided amount is always accepted; one with two or more elided
/// amounts never is.
pub proof fn lemma_validation_law(t: Transaction)
    ensures
        count_missing(t.postings@) == 1 ==> t.spec_valid(),
        count_missing(t.postings@) >= 2 ==> !t.spec_valid(),
        count_missing(t.postings@) == 0 && sum_in_range(t.postings@) ==> (t.spec_valid()
            <==> zero_sum(t.postings@)),
{
    lemma_count_missing_nonneg(t.postings@);
}

/// The textual form of a tag list: the tags joined with `, `.
pub open spec fn spec_render_tags(tags: Seq<Tag>) -> Seq<char>
    decreases tags.len(),
{
    if tags.len() == 0 {
        Seq::empty()
    } else if tags.len() == 1 {
        tags[0].spec_render()
    } else {
        spec_render_tags(tags.drop_last()) + ", "@ + tags.last().spec_render()
    }
}

/// Renders a tag list, the tags joined with `, `.
fn render_tags(tags: &Vec<Tag>) -> (r: String)
    requires
        tags@.len() > 0,
    ensures
        r@ == spec_render_tags(tags@),
{
    proof {
        reveal_strlit(", ");
    }
    let mut out = String::new();
    let mut i: usize = 0;
    while i < tags.len()
        invariant
            i <= tags@.len(),
            tags@.len() > 0,
            i > 0 ==> out@ == spec_render_tags(tags@.subrange(0, i as int)),
            i == 0 ==> out@ =~= Seq::<char>::empty(),
        decreases tags@.len() - i,
    {
        proof {
            reveal_strlit(", ");
            assert(tags@.subrange(0, i + 1).drop_last() =~= tags@.subrange(0, i as int));
            assert(tags@.subrange(0, i + 1).last() == tags@[i as int]);
            if i + 1 == 1 {
                assert(tags@.subrange(0, 1)[0] == tags@[0]);
            }
        }
        if i > 0 {
            out.append(", ");
        }
        let ts = tags[i].render();
        out.append(ts.as_str());
        proof {
            assert(out@ =~= spec_render_tags(tags@.subrange(0, i + 1)));
        }
        i = i + 1;
    }
    proof {
        assert(tags@.subrange(0, tags@.len() as int) =~= tags@);
    }
    out
}

/// The textual form of a posting list: each posting on its own line.
pub open spec fn spec_render_postings(ps: Seq<Posting>) -> Seq<char>
    decreases ps.len(),
{
    if ps.len() == 0 {
        Seq::empty()
    } else {
        spec_render_postings(ps.drop_last()) + ps.last().spec_render() + seq!['\n']
    }
}

impl Transaction {
    /// The textual form of the transaction: the dates, the status marker,
    /// the optional code in parentheses, the description, the tags behind
    /// `;`, then each posting on its own line.
    pub open spec fn spec_render(self) -> Seq<char> {
        self.primary_date.spec_render() + (match self.secondary_date {
            Some(sd) => seq!['='] + sd.spec_render(),
            None => Seq::empty(),
        }) + seq![' '] + self.status.spec_render() + (if self.status is Unmarked {
            Seq::<char>::empty()
        } else {
            seq![' ']
        }) + (match self.code {
            Some(c) => seq!['('] + c@ + ") "@,
            None => Seq::empty(),
        }) + self.description.spec_render() + (if self.tags.len() == 0 {
            Seq::<char>::empty()
        } else {
            " ; "@ + spec_render_tags(self.tags@)
        }) + seq!['\n'] + spec_render_postings(self.postings@)
    }

    /// Renders the transaction back to its textual grammar form.
    #[verifier::rlimit(100)]
    pub fn render(&self) -> (r: String)
        requires
            self.wf(),
        ensures
            r@ == self.spec_render(),
    {
        proof {
            reveal_strlit("=");
            reveal_strlit(" ");
            reveal_strlit("(");
            reveal_strlit(") ");
            reveal_strlit(" ; ");
            reveal_strlit(", ");
            reveal_strlit("\n");
        }
        let mut out = self.primary_date.render();
        match &self.secondary_date {
            Some(sd) => {
                out.append("=");
                let sds = sd.render();
                out.append(sds.as_str());
            },
            None => {},
        }
        out.append(" ");
        let st = self.status.render();
        out.append(st.as_str());
        match self.status {
            Status::Unmarked => {},
            _ => {
                out.append(" ");
            },
        }
        match &self.code {
            Some(c) => {
                out.append("(");
                out.append(c.as_str());
                out.append(") ");
            },
            None => {},
        }
        let ds = self.description.render();
        out.append(ds.as_str());
        if self.tags.len() > 0 {
            out.append(" ; ");
            let rendered = render_tags(&self.tags);
            out.append(rendered.as_str());
        }
        out.append("\n");
        let ghost before_postings = out@;
        let mut j: usize = 0;
        while j < self.postings.len()
            invariant
                j <= self.postings@.len(),
                self.wf(),
                out@ == before_postings + spec_render_postings(self.postings@.subrange(0, j as int)),
            decreases self.postings@.len() - j,
        {
            proof {
                assert(self.postings@.subrange(0, j + 1).drop_last() =~= self.postings@.subrange(
                    0,
                    j as int,
                ));
                assert(self.postings@.subrange(0, j + 1).last() == self.postings@[j as int]);
            }
            let ps = self.postings[j].render();
            out.append(ps.as_str());
            out.append("\n");
            proof {
                reveal_strlit("\n");
                assert("\n"@ =~= seq!['\n']);
                assert(out@ =~= before_postings + spec_render_postings(
                    self.postings@.subrange(0, j + 1),
                ));
            }
            j = j + 1;
        }
        proof {
            assert(self.postings@.subrange(0, self.postings@.len() as int) =~= self.postings@);
            assert(out@ =~= self.spec_render());
        }
        out
    }
}

} // verus!
