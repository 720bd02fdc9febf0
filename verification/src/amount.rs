//! Amounts: an exact decimal quantity paired with a currency designator,
//! written in prefix or suffix position.
use vstd::prelude::*;
use crate::decimal::{Decimal, pow10, pow10_i128, lemma_pow10_positive, MANTISSA_BOUND, MAX_SCALE};
use crate::utils::{
    is_digit_char, is_space_char, is_newline_char, digits_val, run_end_within, spec_in_quotes,
    spec_trim, in_quotes, substr, substr_trimmed, scan_spaces_within, scan_digits_within,
    digits_value_i128, lemma_run_end_within_is, lemma_digits_val_nonneg,
};

verus! {

/// The sign written before or after a currency designator.
#[derive(Debug, Clone, Copy, PartialEq, Eq, Structural)]
pub enum AmountSign {
    /// A leading or trailing `+`.
    Plus,
    /// A leading or trailing `-`.
    Minus,
}

/// An amount: a currency or commodity designator and an exact decimal value.
#[derive(Debug, PartialEq)]
pub struct Amount {
    /// The currency of the amount.
    pub currency: String,
    /// The value of the amount.
    pub value: Decimal,
}

impl Clone for Amount {
    /// A clone is equal to the original.
    fn clone(&self) -> (r: Self)
        ensures
            r == *self,
    {
        Amount { currency: self.currency.clone(), value: self.value }
    }
}

impl Amount {
    /// Well-formedness: the value is a well-formed decimal.
    pub open spec fn wf(self) -> bool {
        self.value.wf()
    }

    /// The same amount with the opposite sign.
    pub fn negate(&self) -> (r: Amount)
        requires
            self.wf(),
        ensures
            r.wf(),
            r.currency@ == self.currency@,
            r.value.m() == -self.value.m(),
            r.value.s() == self.value.s(),
    {
        Amount { currency: self.currency.clone(), value: self.value.neg() }
    }

    /// True when the value is strictly below zero.
    pub fn is_negative(&self) -> (r: bool)
        ensures
            r == (self.value.m() < 0),
    {
        self.value.is_negative()
    }

    /// True when the value is zero or above.
    pub fn is_positive(&self) -> (r: bool)
        ensures
            r == (self.value.m() >= 0),
    {
        self.value.is_positive()
    }
}

/// Sign read at `pos`: a single `-` or `+`, or nothing.
pub open spec fn spec_parse_sign(s: Seq<char>, pos: int, end: int) -> (Option<AmountSign>, int) {
    if pos < end && s[pos] == '-' {
        (Some(AmountSign::Minus), pos + 1)
    } else if pos < end && s[pos] == '+' {
        (Some(AmountSign::Plus), pos + 1)
    } else {
        (None, pos)
    }
}

/// Reads an optional sign.
pub fn parse_sign(s: &str, pos: usize, end: usize) -> (r: (Option<AmountSign>, usize))
    requires
        pos <= end <= s@.len(),
    ensures
        (r.0, r.1 as int) == spec_parse_sign(s@, pos as int, end as int),
        pos <= r.1 <= end,
{
    if pos < end {
        let c = s.get_char(pos);
        if c == '-' {
            return (Some(AmountSign::Minus), pos + 1);
        }
        if c == '+' {
            return (Some(AmountSign::Plus), pos + 1);
        }
    }
    (None, pos)
}

/// Characters that may stand in an unquoted currency designator: anything
/// but digits, the minus sign, horizontal whitespace and line breaks.
pub open spec fn is_currency_char(c: char) -> bool {
    !is_digit_char(c) && c != '-' && !is_space_char(c) && !is_newline_char(c)
}

/// Currency designator read inside `[pos, end)`: a quoted string, or the
/// longest (possibly empty) run of currency characters.
pub open spec fn spec_parse_currency(s: Seq<char>, pos: int, end: int) -> (Seq<char>, int) {
    if spec_in_quotes(s, pos, end) is Some {
        spec_in_quotes(s, pos, end).unwrap()
    } else {
        (
            s.subrange(pos, run_end_within(s, pos, end, |c: char| is_currency_char(c))),
            run_end_within(s, pos, end, |c: char| is_currency_char(c)),
        )
    }
}

/// Reads a currency designator. Never fails: the run may be empty.
pub fn parse_currency_string(s: &str, pos: usize, end: usize) -> (r: (String, usize))
    requires
        pos <= end <= s@.len(),
    ensures
        ({
            let (t, np) = spec_parse_currency(s@, pos as int, end as int);
            r.0@ == t && r.1 as int == np
        }),
        pos <= r.1 <= end,
{
    match in_quotes(s, pos, end) {
        Some((q, np)) => (q, np),
        None => {
            let mut i = pos;
            while i < end
                invariant
                    pos <= i <= end <= s@.len(),
                    forall|k: int| pos <= k < i ==> is_currency_char(s@[k]),
                ensures
                    pos <= i <= end,
                    forall|k: int| pos <= k < i ==> is_currency_char(s@[k]),
                    i == end || !is_currency_char(s@[i as int]),
                decreases end - i,
            {
                let c = s.get_char(i);
                let cu = c as u32;
                if (48 <= cu && cu <= 57) || c == '-' || c == ' ' || c == '\t' || c == '\n' || c
                    == '\r' {
                    break;
                }
                i = i + 1;
            }
            proof {
                lemma_run_end_within_is(
                    s@,
                    pos as int,
                    end as int,
                    |c: char| is_currency_char(c),
                    i as int,
                );
            }
            (substr(s, pos, i), i)
        },
    }
}

/// Unsigned decimal read at `pos` in `[pos, end)`: a digit run, then
/// optionally one `.` or `,` and a further digit run as the fractional part.
/// The result is the mantissa over `10^scale`. `None` when no digit starts
/// the number, the fraction carries more than the highest allowed scale, or
/// the mantissa leaves the representable range.
pub open spec fn spec_parse_money(s: Seq<char>, pos: int, end: int) -> Option<(int, nat, int)> {
    let neg = pos < end && s[pos] == '-';
    let p1 = if pos < end && (s[pos] == '-' || s[pos] == '+') {
        pos + 1
    } else {
        pos
    };
    let dend = run_end_within(s, p1, end, |c: char| is_digit_char(c));
    if dend == p1 {
        None
    } else {
        let iv = digits_val(s.subrange(p1, dend));
        let has_frac = dend < end && (s[dend] == '.' || s[dend] == ',');
        let fend = if has_frac {
            run_end_within(s, dend + 1, end, |c: char| is_digit_char(c))
        } else {
            dend
        };
        let sc = if has_frac {
            (fend - dend - 1) as nat
        } else {
            0nat
        };
        let fv = if has_frac {
            digits_val(s.subrange(dend + 1, fend))
        } else {
            0
        };
        if sc <= MAX_SCALE && iv * pow10(sc) + fv < MANTISSA_BOUND {
            Some(
                (
                    if neg {
                        -(iv * pow10(sc) + fv)
                    } else {
                        iv * pow10(sc) + fv
                    },
                    sc,
                    fend,
                ),
            )
        } else {
            None
        }
    }
}

/// Reads an exact decimal quantity with an optional leading sign.
pub fn parse_money_amount(s: &str, pos: usize, end: usize) -> (r: Option<(Decimal, usize)>)
    requires
        pos <= end <= s@.len(),
    ensures
        match r {
            Some((d, np)) => {
                &&& spec_parse_money(s@, pos as int, end as int) matches Some((m, sc, e))
                &&& d.m() == m
                &&& d.s() == sc
                &&& e == np as int
                &&& d.wf()
                &&& pos <= np <= end
            },
            None => spec_parse_money(s@, pos as int, end as int) is None,
        },
{
    let mut neg = false;
    let mut p1 = pos;
    if pos < end {
        let c = s.get_char(pos);
        if c == '-' {
            neg = true;
            p1 = pos + 1;
        } else if c == '+' {
            p1 = pos + 1;
        }
    }
    let dend = scan_digits_within(s, p1, end);
    if dend == p1 {
        return None;
    }
    let iv = match digits_value_i128(s, p1, dend) {
        Some(v) => v,
        None => {
            proof {
                let sub = s@.subrange(p1 as int, dend as int);
                let ghost spec_r = spec_parse_money(s@, pos as int, end as int);
                if spec_r is Some {
                    let sc = if dend < end && (s@[dend as int] == '.' || s@[dend as int] == ',') {
                        (run_end_within(
                            s@,
                            dend as int + 1,
                            end as int,
                            |c: char| is_digit_char(c),
                        ) - dend - 1) as nat
                    } else {
                        0nat
                    };
                    lemma_pow10_positive(sc);
                    let fvx = if dend < end && (s@[dend as int] == '.' || s@[dend as int]
                        == ',') {
                        digits_val(
                            s@.subrange(
                                dend as int + 1,
                                run_end_within(
                                    s@,
                                    dend as int + 1,
                                    end as int,
                                    |c: char| is_digit_char(c),
                                ),
                            ),
                        )
                    } else {
                        0
                    };
                    if dend < end && (s@[dend as int] == '.' || s@[dend as int] == ',') {
                        crate::utils::lemma_run_end_within_bounds(
                            s@,
                            dend as int + 1,
                            end as int,
                            |c: char| is_digit_char(c),
                        );
                        lemma_digits_val_nonneg(
                            s@.subrange(
                                dend as int + 1,
                                run_end_within(
                                    s@,
                                    dend as int + 1,
                                    end as int,
                                    |c: char| is_digit_char(c),
                                ),
                            ),
                        );
                    }
                    assert(digits_val(sub) * pow10(sc) + fvx >= MANTISSA_BOUND)
                        by (nonlinear_arith)
                        requires
                            digits_val(sub) >= MANTISSA_BOUND,
                            pow10(sc) >= 1,
                            fvx >= 0,
                    ;
                    assert(false);
                }
            }
            return None;
        },
    };
    let mut sc: u32 = 0;
    let mut fv: i128 = 0;
    let mut fend = dend;
    if dend < end {
        let c = s.get_char(dend);
        if c == '.' || c == ',' {
            let fe = scan_digits_within(s, dend + 1, end);
            let width = fe - (dend + 1);
            if width > 28 {
                proof {
                    lemma_pow10_positive((fe - dend - 1) as nat);
                }
                return None;
            }
            sc = width as u32;
            fend = fe;
            fv = match digits_value_i128(s, dend + 1, fe) {
                Some(v) => v,
                None => {
                    proof {
                        let iseq = s@.subrange(p1 as int, dend as int);
                        let fseq = s@.subrange(dend as int + 1, fe as int);
                        lemma_digits_val_nonneg(iseq);
                        lemma_pow10_positive(sc as nat);
                        assert(digits_val(iseq) * pow10(sc as nat) + digits_val(fseq)
                            >= MANTISSA_BOUND) by (nonlinear_arith)
                            requires
                                digits_val(iseq) >= 0,
                                pow10(sc as nat) >= 1,
                                digits_val(fseq) >= MANTISSA_BOUND,
                        ;
                    }
                    return None;
                },
            };
        }
    }
    let p = pow10_i128(sc);
    let scaled = match iv.checked_mul(p) {
        Some(x) => x,
        None => {
            proof {
                assert(iv * p + fv >= MANTISSA_BOUND) by (nonlinear_arith)
                    requires
                        iv * p > i128::MAX || iv * p < i128::MIN,
                        0 <= iv < MANTISSA_BOUND,
                        p >= 1,
                        fv >= 0,
                        MANTISSA_BOUND < i128::MAX,
                ;
            }
            return None;
        },
    };
    let m = match scaled.checked_add(fv) {
        Some(x) => x,
        None => {
            proof {
                assert(iv * p >= 0) by (nonlinear_arith)
                    requires
                        iv >= 0,
                        p >= 1,
                ;
            }
            return None;
        },
    };
    if m >= MANTISSA_BOUND {
        return None;
    }
    proof {
        assert(iv * p >= 0) by (nonlinear_arith)
            requires
                iv >= 0,
                p >= 1,
        ;
    }
    let value = if neg {
        Decimal::from_mantissa(-m, sc)
    } else {
        Decimal::from_mantissa(m, sc)
    };
    Some((value, fend))
}

/// Amount read in suffix form inside `[pos, end)`: optional sign, spaces,
/// the decimal quantity, spaces, then the currency designator.
pub open spec fn spec_parse_amount_suffix(s: Seq<char>, pos: int, end: int) -> Option<
    (Seq<char>, int, nat, int),
> {
    let signed = spec_parse_sign(s, pos, end);
    let p1 = run_end_within(s, signed.1, end, |c: char| is_space_char(c));
    match spec_parse_money(s, p1, end) {
        Some((m, sc, pe)) => {
            let p2 = run_end_within(s, pe, end, |c: char| is_space_char(c));
            let cur = spec_parse_currency(s, p2, end);
            Some(
                (
                    spec_trim(cur.0),
                    if signed.0 == Some(AmountSign::Minus) && m > 0 {
                        -m
                    } else {
                        m
                    },
                    sc,
                    cur.1,
                ),
            )
        },
        None => None,
    }
}

/// Amount read in prefix form inside `[pos, end)`: optional sign, spaces,
/// the currency designator, spaces, a second chance for the sign when none
/// stood first, then the decimal quantity.
pub open spec fn spec_parse_amount_prefix(s: Seq<char>, pos: int, end: int) -> Option<
    (Seq<char>, int, nat, int),
> {
    let signed = spec_parse_sign(s, pos, end);
    let p1 = run_end_within(s, signed.1, end, |c: char| is_space_char(c));
    let cur = spec_parse_currency(s, p1, end);
    let p2 = run_end_within(s, cur.1, end, |c: char| is_space_char(c));
    let signed2 = if signed.0 is Some {
        (signed.0, p2)
    } else {
        let sg = spec_parse_sign(s, p2, end);
        (sg.0, run_end_within(s, sg.1, end, |c: char| is_space_char(c)))
    };
    match spec_parse_money(s, signed2.1, end) {
        Some((m, sc, pe)) => Some(
            (
                spec_trim(cur.0),
                if signed2.0 == Some(AmountSign::Minus) && m > 0 {
                    -m
                } else {
                    m
                },
                sc,
                pe,
            ),
        ),
        None => None,
    }
}

/// Amount read inside `[pos, end)`: the suffix form is tried before the
/// prefix form, because a currency designator may itself open with
/// characters that also open a number.
pub open spec fn spec_parse_amount(s: Seq<char>, pos: int, end: int) -> Option<
    (Seq<char>, int, nat, int),
> {
    if spec_parse_amount_suffix(s, pos, end) is Some {
        spec_parse_amount_suffix(s, pos, end)
    } else {
        spec_parse_amount_prefix(s, pos, end)
    }
}

/// Relates a parsed [`Amount`] to the spec-level quadruple.
pub open spec fn amount_matches(a: Amount, q: (Seq<char>, int, nat, int)) -> bool {
    a.currency@ == q.0 && a.value.m() == q.1 && a.value.s() == q.2
}

/// Reads an amount in suffix form.
fn parse_amount_suffix_currency(s: &str, pos: usize, end: usize) -> (r: Option<(Amount, usize)>)
    requires
        pos <= end <= s@.len(),
    ensures
        match r {
            Some((a, np)) => {
                &&& spec_parse_amount_suffix(s@, pos as int, end as int) matches Some(q)
                &&& amount_matches(a, q)
                &&& q.3 == np as int
                &&& a.wf()
                &&& pos <= np <= end
            },
            None => spec_parse_amount_suffix(s@, pos as int, end as int) is None,
        },
{
    let (sg, sp) = parse_sign(s, pos, end);
    let p1 = scan_spaces_within(s, sp, end);
    match parse_money_amount(s, p1, end) {
        Some((d, pe)) => {
            let p2 = scan_spaces_within(s, pe, end);
            let (cur, ce) = parse_currency_string(s, p2, end);
            let value = if matches!(sg, Some(AmountSign::Minus)) {
                d.force_negative()
            } else {
                d
            };
            let trimmed = {
                let cs = cur.as_str();
                let cn = cs.unicode_len();
                substr_trimmed(cs, 0, cn)
            };
            proof {
                assert(cur@.subrange(0, cur@.len() as int) =~= cur@);
            }
            Some((Amount { currency: trimmed, value }, ce))
        },
        None => None,
    }
}

/// Reads an amount in prefix form.
fn parse_amount_prefix_currency(s: &str, pos: usize, end: usize) -> (r: Option<(Amount, usize)>)
    requires
        pos <= end <= s@.len(),
    ensures
        match r {
            Some((a, np)) => {
                &&& spec_parse_amount_prefix(s@, pos as int, end as int) matches Some(q)
                &&& amount_matches(a, q)
                &&& q.3 == np as int
                &&& a.wf()
                &&& pos <= np <= end
            },
            None => spec_parse_amount_prefix(s@, pos as int, end as int) is None,
        },
{
    let (sg, sp) = parse_sign(s, pos, end);
    let p1 = scan_spaces_within(s, sp, end);
    let (cur, pc) = parse_currency_string(s, p1, end);
    let p2 = scan_spaces_within(s, pc, end);
    let (sg2, p3) = if sg.is_some() {
        (sg, p2)
    } else {
        let (g, gp) = parse_sign(s, p2, end);
        (g, scan_spaces_within(s, gp, end))
    };
    match parse_money_amount(s, p3, end) {
        Some((d, pe)) => {
            let value = if matches!(sg2, Some(AmountSign::Minus)) {
                d.force_negative()
            } else {
                d
            };
            let trimmed = {
                let cs = cur.as_str();
                let cn = cs.unicode_len();
                substr_trimmed(cs, 0, cn)
            };
            proof {
                assert(cur@.subrange(0, cur@.len() as int) =~= cur@);
            }
            Some((Amount { currency: trimmed, value }, pe))
        },
        None => None,
    }
}

/// Reads an amount: suffix form first, then prefix form.
pub fn parse_amount(s: &str, pos: usize, end: usize) -> (r: Option<(Amount, usize)>)
    requires
        pos <= end <= s@.len(),
    ensures
        match r {
            Some((a, np)) => {
                &&& spec_parse_amount(s@, pos as int, end as int) matches Some(q)
                &&& amount_matches(a, q)
                &&& q.3 == np as int
                &&& a.wf()
                &&& pos <= np <= end
            },
            None => spec_parse_amount(s@, pos as int, end as int) is None,
        },
{
    match parse_amount_suffix_currency(s, pos, end) {
        Some(r) => Some(r),
        None => parse_amount_prefix_currency(s, pos, end),
    }
}

impl Amount {
    /// The textual form of the amount: the value, a space, then the
    /// currency designator, quoted when it holds characters that would not
    /// survive unquoted.
    pub open spec fn spec_render(self) -> Seq<char> {
        self.value.spec_render() + seq![' '] + rendered_currency(self.currency@)
    }

    /// Renders the amount to text.
    pub fn render(&self) -> (r: String)
        requires
            self.wf(),
        ensures
            r@ == self.spec_render(),
    {
        proof {
            reveal_strlit(" ");
            reveal_strlit("\"");
        }
        let mut out = self.value.render();
        out.append(" ");
        if currency_needs_quotes(self.currency.as_str()) {
            out.append("\"");
            out.append(self.currency.as_str());
            out.append("\"");
        }
        else {
            out.append(self.currency.as_str());
        }
        proof {
            assert(out@ =~= self.spec_render());
        }
        out
    }
}

/// A currency designator that holds digits, signs, whitespace or nothing at
/// all must be written in quotes to survive a round trip.
pub open spec fn spec_currency_needs_quotes(c: Seq<char>) -> bool {
    c.len() == 0 || exists|i: int| 0 <= i < c.len() && !is_currency_char(#[trigger] c[i])
}

/// The currency as written back out: quoted exactly when needed.
pub open spec fn rendered_currency(c: Seq<char>) -> Seq<char> {
    if spec_currency_needs_quotes(c) {
        seq!['"'] + c + seq!['"']
    } else {
        c
    }
}

/// Does the currency designator need quotes?
fn currency_needs_quotes(c: &str) -> (r: bool)
    ensures
        r == spec_currency_needs_quotes(c@),
{
    let n = c.unicode_len();
    if n == 0 {
        return true;
    }
    let mut i: usize = 0;
    while i < n
        invariant
            i <= n,
            n == c@.len(),
            forall|k: int| 0 <= k < i ==> is_currency_char(#[trigger] c@[k]),
        decreases n - i,
    {
        let ch = c.get_char(i);
        let cu = ch as u32;
        if (48 <= cu && cu <= 57) || ch == '-' || ch == ' ' || ch == '\t' || ch == '\n' || ch
            == '\r' {
            return true;
        }
        i = i + 1;
    }
    false
}

/// An unsigned decimal field whose text is the digits of `iv` followed,
/// for a positive scale, by a dot and the zero-padded digits of `fv`,
/// reads back as exactly that mantissa and scale, ending at the field's
/// edge.
proof fn lemma_money_field(s: Seq<char>, off: int, end: int, iv: nat, fv: nat, sc: nat)
    requires
        sc <= MAX_SCALE,
        fv < pow10(sc) || sc == 0,
        sc == 0 ==> fv == 0,
        iv * pow10(sc) + fv < MANTISSA_BOUND,
        0 <= off,
        off + money_text(iv, fv, sc).len() <= end <= s.len(),
        s.subrange(off, off + money_text(iv, fv, sc).len()) == money_text(iv, fv, sc),
        ({
            let e = off + money_text(iv, fv, sc).len();
            e == end || (!crate::utils::is_digit_char(s[e]) && s[e] != '.' && s[e] != ',')
        }),
    ensures
        spec_parse_money(s, off, end) == Some(
            ((iv * pow10(sc) + fv) as int, sc, off + money_text(iv, fv, sc).len()),
        ),
{
    let mt = money_text(iv, fv, sc);
    let ir = crate::decimal::dec_rep(iv);
    crate::decimal::lemma_dec_rep_digits(iv);
    crate::decimal::lemma_dec_rep_value(iv);
    let e = off + mt.len();
    assert(forall|i: int| 0 <= i < mt.len() ==> #[trigger] s[off + i] == mt[i]) by {
        assert(forall|i: int|
            0 <= i < mt.len() ==> #[trigger] s.subrange(off, e)[i] == s[off + i]);
    }
    assert(s[off] == ir[0]) by {
        assert(s[off + 0] == mt[0]);
    }
    // no sign stands first: the field opens with a digit
    assert(crate::utils::is_digit_char(s[off]));
    assert(s[off] != '-' && s[off] != '+');
    let dend = off + ir.len();
    assert(forall|k: int| off <= k < dend ==> crate::utils::is_digit_char(#[trigger] s[k])) by {
        assert forall|k: int| off <= k < dend implies crate::utils::is_digit_char(
            #[trigger] s[k],
        ) by {
            assert(s[off + (k - off)] == mt[k - off]);
        }
    }
    if sc == 0 {
        assert(mt =~= ir);
        crate::utils::lemma_run_end_within_is(
            s,
            off,
            end,
            |c: char| crate::utils::is_digit_char(c),
            dend,
        );
        assert(s.subrange(off, dend) =~= ir);
        lemma_pow10_positive(0);
        assert(iv * pow10(0) + 0 == iv) by (nonlinear_arith)
            requires
                pow10(0) == 1,
        ;
    } else {
        let fr = crate::decimal::dec_rep_pad(fv, sc);
        crate::decimal::lemma_dec_rep_pad_digits(fv, sc);
        crate::decimal::lemma_dec_rep_pad_value(fv, sc);
        assert(mt =~= ir + seq!['.'] + fr);
        assert(s[dend] == '.') by {
            assert(s[off + (dend - off)] == mt[dend - off]);
        }
        crate::utils::lemma_run_end_within_is(
            s,
            off,
            end,
            |c: char| crate::utils::is_digit_char(c),
            dend,
        );
        assert(s.subrange(off, dend) =~= ir);
        let fstart = dend + 1;
        let fend = fstart + sc;
        assert(fend == e);
        assert(forall|k: int| fstart <= k < fend ==> crate::utils::is_digit_char(
            #[trigger] s[k],
        )) by {
            assert forall|k: int| fstart <= k < fend implies crate::utils::is_digit_char(
                #[trigger] s[k],
            ) by {
                assert(s[off + (k - off)] == mt[k - off]);
            }
        }
        crate::utils::lemma_run_end_within_is(
            s,
            fstart,
            end,
            |c: char| crate::utils::is_digit_char(c),
            fend,
        );
        assert forall|i: int| 0 <= i < sc implies #[trigger] s.subrange(fstart, fend)[i]
            == fr[i] by {
            assert(s[off + (fstart - off + i)] == mt[fstart - off + i]);
        }
        assert(s.subrange(fstart, fend) =~= fr);
    }
}

/// The text of an unsigned decimal: the integer digits, then, for a
/// positive scale, a dot and exactly `sc` fractional digits.
pub open spec fn money_text(iv: nat, fv: nat, sc: nat) -> Seq<char> {
    if sc == 0 {
        crate::decimal::dec_rep(iv)
    } else {
        crate::decimal::dec_rep(iv) + seq!['.'] + crate::decimal::dec_rep_pad(fv, sc)
    }
}

/// A currency designator that survives a round trip through rendering and
/// parsing: no whitespace at its edges, and no quote or line break inside.
pub open spec fn currency_roundtrippable(c: Seq<char>) -> bool {
    &&& (c.len() > 0 ==> !crate::utils::is_trim_char(c[0]) && !crate::utils::is_trim_char(
        c[c.len() - 1],
    ))
    &&& (forall|i: int| 0 <= i < c.len() ==> #[trigger] c[i] != '"' && !is_newline_char(c[i]))
}

/// Law of the amount round trip: rendering an amount and parsing the text
/// back yields the same currency, mantissa and scale, consuming the whole
/// text. Currencies with edge whitespace, quotes or line breaks inside are
/// the one exception: the grammar cannot carry them through.
#[verifier::rlimit(100)]
pub proof fn lemma_amount_roundtrip(a: Amount)
    requires
        a.wf(),
        currency_roundtrippable(a.currency@),
    ensures
        spec_parse_amount(a.spec_render(), 0, a.spec_render().len() as int) matches Some(q) && ({
            &&& q.0 == a.currency@
            &&& q.1 == a.value.m()
            &&& q.2 == a.value.s()
            &&& q.3 == a.spec_render().len()
        }),
{
    let s = a.spec_render();
    let end = s.len() as int;
    let m = a.value.m();
    let sc = a.value.s();
    let mag = crate::decimal::abs_int(m);
    lemma_pow10_positive(sc);
    let p = pow10(sc);
    let iv = (mag / p) as nat;
    let fv = (mag % p) as nat;
    vstd::arithmetic::div_mod::lemma_fundamental_div_mod(mag, p);
    assert(mag == p * (mag / p) + mag % p);
    vstd::arithmetic::div_mod::lemma_mod_bound(mag, p);
    vstd::arithmetic::div_mod::lemma_div_pos_is_pos(mag, p);
    assert(iv * p + fv == mag) by (nonlinear_arith)
        requires
            mag == p * (mag / p) + mag % p,
            iv == mag / p,
            fv == mag % p,
    ;
    let mt = money_text(iv, fv, sc);
    crate::decimal::lemma_dec_rep_digits(iv);
    crate::decimal::lemma_dec_rep_pad_digits(fv, sc);
    let vr = a.value.spec_render();
    let sign_len: int = if m < 0 {
        1
    } else {
        0
    };
    assert(vr =~= (if m < 0 {
        seq!['-']
    } else {
        Seq::<char>::empty()
    }) + mt);
    let rc = rendered_currency(a.currency@);
    assert(s =~= vr + seq![' '] + rc);
    let pm = sign_len;
    let pe = pm + mt.len();
    // the sign, when present, stands first and alone
    let signed = spec_parse_sign(s, 0, end);
    assert(s.subrange(pm, pe as int) =~= mt);
    assert(s[pm] == mt[0]);
    if m < 0 {
        assert(s[0] == '-');
        assert(signed == (Some(AmountSign::Minus), 1int));
    } else {
        assert(s[0] == mt[0]);
        assert(crate::utils::is_digit_char(s[0]));
        assert(signed == (None::<AmountSign>, 0int));
    }
    // no spaces follow the sign
    crate::utils::lemma_run_end_within_is(s, pm, end, |c: char| is_space_char(c), pm);
    // the numeric field reads back exactly
    assert(s[pe] == ' ');
    lemma_money_field(s, pm, end, iv, fv, sc);
    assert(spec_parse_money(s, pm, end) == Some((mag, sc, pe)));
    // one space, then the currency
    let pc = pe + 1;
    crate::utils::lemma_run_end_within_is(s, pe, end, |c: char| is_space_char(c), pc);
    let c = a.currency@;
    assert(forall|i: int| 0 <= i < rc.len() ==> #[trigger] s[pc + i] == rc[i]) by {
        assert(forall|i: int|
            0 <= i < rc.len() ==> #[trigger] s.subrange(pc, end)[i] == s[pc + i]);
        assert(s.subrange(pc, end) =~= rc);
    }
    if spec_currency_needs_quotes(c) {
        // quoted form: the interior is the currency itself
        assert(s[pc] == '"') by {
            assert(s[pc + 0] == rc[0]);
        }
        assert(s[pc + 1 + c.len()] == '"') by {
            assert(rc[1 + c.len() as int] == '"');
        }
        assert(forall|i: int| 0 <= i < c.len() ==> #[trigger] s[pc + 1 + i] == c[i]) by {
            assert forall|i: int| 0 <= i < c.len() implies #[trigger] s[pc + 1 + i] == c[i] by {
                assert(s[pc + (1 + i)] == rc[1 + i]);
            }
        }
        if c.len() > 0 {
            assert(!is_space_char(s[pc + 1])) by {
                assert(s[pc + 1 + 0] == c[0]);
            }
        } else {
            assert(!is_space_char(s[pc + 1])) by {
                assert(s[pc + (1 + 0)] == rc[1]);
            }
        }
        crate::utils::lemma_run_end_within_is(s, pc + 1, end, |ch: char| is_space_char(ch), pc + 1);
        assert(forall|k: int| pc + 1 <= k < pc + 1 + c.len() ==> #[trigger] s[k] != '"') by {
            assert forall|k: int| pc + 1 <= k < pc + 1 + c.len() implies #[trigger] s[k]
                != '"' by {
                assert(s[pc + 1 + (k - pc - 1)] == c[k - pc - 1]);
            }
        }
        crate::utils::lemma_run_end_within_is(
            s,
            pc + 1,
            end,
            |ch: char| ch != '"',
            pc + 1 + c.len(),
        );
        assert(s.subrange(pc + 1, pc + 1 + c.len()) =~= c);
        assert(spec_in_quotes(s, pc, end) == Some((c, end)));
        crate::utils::lemma_trim_id(c);
    } else {
        // bare form: the whole rest is a run of currency characters
        assert(c.len() > 0);
        assert(rc =~= c);
        assert(s[pc] == c[0]) by {
            assert(s[pc + 0] == rc[0]);
        }
        assert(s[pc] != '"');
        assert(spec_in_quotes(s, pc, end) is None);
        assert(forall|k: int| pc <= k < end ==> is_currency_char(#[trigger] s[k])) by {
            assert forall|k: int| pc <= k < end implies is_currency_char(#[trigger] s[k]) by {
                assert(s[pc + (k - pc)] == rc[k - pc]);
            }
        }
        crate::utils::lemma_run_end_within_is(s, pc, end, |ch: char| is_currency_char(ch), end);
        assert(s.subrange(pc, end) =~= c);
        assert(forall|i: int| 0 <= i < c.len() ==> !crate::utils::is_trim_char(
            #[trigger] c[i],
        ));
        crate::utils::lemma_trim_id(c);
    }
    // the suffix form therefore succeeds, and its value carries the sign
    let q = spec_parse_amount_suffix(s, 0, end);
    assert(q is Some);
    if m < 0 {
        assert(mag > 0);
        assert(q == Some((c, m, sc, end)));
    } else {
        assert(q == Some((c, m, sc, end)));
    }
}

} // verus!
