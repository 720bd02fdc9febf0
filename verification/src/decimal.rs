//! Exact decimal numbers: a 128-bit signed mantissa paired with a power-of-ten
//! scale. The represented value is `mantissa / 10^scale`; all arithmetic and
//! comparisons are exact, with no binary-float rounding and no tolerance.
use vstd::prelude::*;

verus! {

/// Largest power of ten used by a well-formed decimal: values carry at most
/// 28 fractional digits.
pub const MAX_SCALE: u32 = 28;

/// Exclusive bound on the magnitude of a well-formed mantissa: 10^38.
pub const MANTISSA_BOUND: i128 = 100_000_000_000_000_000_000_000_000_000_000_000_000;

/// `10^n` as a mathematical integer.
pub open spec fn pow10(n: nat) -> int
    decreases n,
{
    if n == 0 {
        1
    } else {
        10 * pow10((n - 1) as nat)
    }
}

/// Powers of ten are positive.
pub proof fn lemma_pow10_positive(n: nat)
    ensures
        pow10(n) >= 1,
    decreases n,
{
    if n > 0 {
        lemma_pow10_positive((n - 1) as nat);
    }
}

/// Powers of ten grow with the exponent.
pub proof fn lemma_pow10_increases(a: nat, b: nat)
    requires
        a <= b,
    ensures
        pow10(a) <= pow10(b),
    decreases b,
{
    if a < b {
        lemma_pow10_increases(a, (b - 1) as nat);
        lemma_pow10_positive((b - 1) as nat);
    }
}

/// `10^a * 10^b == 10^(a + b)`.
pub proof fn lemma_pow10_adds(a: nat, b: nat)
    ensures
        pow10(a) * pow10(b) == pow10(a + b),
    decreases a,
{
    if a == 0 {
    } else {
        lemma_pow10_adds((a - 1) as nat, b);
        assert(pow10(a) * pow10(b) == 10 * (pow10((a - 1) as nat) * pow10(b)))
            by (nonlinear_arith)
            requires
                pow10(a) == 10 * pow10((a - 1) as nat),
        ;
    }
}

/// Pins down the value of `10^38`.
pub proof fn lemma_pow10_38()
    ensures
        pow10(38) == MANTISSA_BOUND as int,
        pow10(39) == 10 * MANTISSA_BOUND as int,
{
    reveal_with_fuel(pow10, 11);
    assert(pow10(10) == 10_000_000_000);
    assert(pow10(8) == 100_000_000);
    lemma_pow10_adds(10, 10);
    assert(pow10(20) == 100_000_000_000_000_000_000) by (nonlinear_arith)
        requires
            pow10(10) * pow10(10) == pow10(20),
            pow10(10) == 10_000_000_000,
    ;
    lemma_pow10_adds(20, 10);
    assert(pow10(30) == 1_000_000_000_000_000_000_000_000_000_000) by (nonlinear_arith)
        requires
            pow10(20) * pow10(10) == pow10(30),
            pow10(20) == 100_000_000_000_000_000_000,
            pow10(10) == 10_000_000_000,
    ;
    lemma_pow10_adds(30, 8);
    assert(pow10(38) == MANTISSA_BOUND as int) by (nonlinear_arith)
        requires
            pow10(30) * pow10(8) == pow10(38),
            pow10(30) == 1_000_000_000_000_000_000_000_000_000_000,
            pow10(8) == 100_000_000,
    ;
    assert(pow10(39) == 10 * pow10(38));
}

/// `10^n` as an `i128`, for exponents up to 38.
pub fn pow10_i128(n: u32) -> (r: i128)
    requires
        n <= 38,
    ensures
        r == pow10(n as nat),
        r >= 1,
{
    proof {
        lemma_pow10_increases(n as nat, 38);
        lemma_pow10_38();
    }
    let mut acc: i128 = 1;
    let mut i: u32 = 0;
    while i < n
        invariant
            i <= n <= 38,
            acc == pow10(i as nat),
        decreases n - i,
    {
        proof {
            lemma_pow10_increases((i + 1) as nat, 38);
            lemma_pow10_positive(i as nat);
            lemma_pow10_38();
        }
        acc = acc * 10;
        i = i + 1;
    }
    proof {
        lemma_pow10_positive(n as nat);
    }
    acc
}

/// An exact decimal: the value `mantissa / 10^scale`.
///
/// Equality is numeric: `1.0` and `1.00` are the same value. Two decimals
/// with equal fields are always equal; equal decimals may differ in scale.
#[derive(Debug, Clone, Copy)]
pub struct Decimal {
    /// The signed mantissa.
    pub mantissa: i128,
    /// The power-of-ten denominator exponent.
    pub scale: u32,
}

impl Decimal {
    /// Well-formedness: bounded scale and mantissa, so that rescaling to a
    /// common denominator stays within machine integers.
    pub open spec fn wf(self) -> bool {
        self.scale <= MAX_SCALE && -MANTISSA_BOUND < self.mantissa < MANTISSA_BOUND
    }

    /// The mantissa, as a mathematical integer.
    pub open spec fn m(self) -> int {
        self.mantissa as int
    }

    /// The scale: the represented value is `m() / 10^s()`.
    pub open spec fn s(self) -> nat {
        self.scale as nat
    }

    /// Two decimals denote the same number: cross-multiplied mantissas agree.
    pub open spec fn same_value(self, other: Decimal) -> bool {
        self.m() * pow10(other.s()) == other.m() * pow10(self.s())
    }

    /// Builds the decimal `mantissa / 10^scale`.
    pub fn new(mantissa: i64, scale: u32) -> (r: Decimal)
        requires
            scale <= MAX_SCALE,
        ensures
            r.wf(),
            r.m() == mantissa as int,
            r.s() == scale as nat,
    {
        Decimal { mantissa: mantissa as i128, scale }
    }

    /// Builds a decimal from a full 128-bit mantissa.
    pub fn from_mantissa(mantissa: i128, scale: u32) -> (r: Decimal)
        requires
            scale <= MAX_SCALE,
            -MANTISSA_BOUND < mantissa < MANTISSA_BOUND,
        ensures
            r.wf(),
            r.m() == mantissa as int,
            r.s() == scale as nat,
    {
        Decimal { mantissa, scale }
    }

    /// The zero value.
    pub fn zero() -> (r: Decimal)
        ensures
            r.wf(),
            r.m() == 0,
            r.s() == 0,
    {
        Decimal { mantissa: 0, scale: 0 }
    }

    /// True when the value is zero.
    pub fn is_zero(&self) -> (r: bool)
        ensures
            r == (self.m() == 0),
    {
        self.mantissa == 0
    }

    /// True when the value is strictly below zero.
    pub fn is_negative(&self) -> (r: bool)
        ensures
            r == (self.m() < 0),
    {
        self.mantissa < 0
    }

    /// True when the value is zero or above.
    pub fn is_positive(&self) -> (r: bool)
        ensures
            r == (self.m() >= 0),
    {
        self.mantissa >= 0
    }

    /// The value with the opposite sign.
    pub fn neg(&self) -> (r: Decimal)
        requires
            self.wf(),
        ensures
            r.wf(),
            r.m() == -self.m(),
            r.s() == self.s(),
    {
        Decimal { mantissa: -self.mantissa, scale: self.scale }
    }

    /// The same number, made non-positive: the magnitude is kept and the
    /// sign forced negative.
    pub fn force_negative(&self) -> (r: Decimal)
        requires
            self.wf(),
        ensures
            r.wf(),
            r.s() == self.s(),
            r.m() == if self.m() > 0 {
                -self.m()
            } else {
                self.m()
            },
    {
        if self.mantissa > 0 {
            Decimal { mantissa: -self.mantissa, scale: self.scale }
        } else {
            *self
        }
    }
}

impl PartialEq for Decimal {
    /// Numeric equality: both sides rescaled to the larger scale and compared
    /// exactly.
    fn eq(&self, other: &Decimal) -> (r: bool) {
        proof {
            lemma_pow10_positive(self.s());
            lemma_pow10_positive(other.s());
        }
        if self.scale == other.scale {
            proof {
                assert(self.m() * pow10(other.s()) == other.m() * pow10(self.s())
                    <==> self.m() == other.m()) by (nonlinear_arith)
                    requires
                        pow10(self.s()) == pow10(other.s()),
                        pow10(self.s()) >= 1,
                ;
            }
            self.mantissa == other.mantissa
        } else if self.scale < other.scale {
            scaled_eq(self.mantissa, other.mantissa, self.scale, other.scale)
        } else {
            let r = scaled_eq(other.mantissa, self.mantissa, other.scale, self.scale);
            proof {
                assert(other.m() * pow10(self.s()) == self.m() * pow10(other.s())
                    <==> self.m() * pow10(other.s()) == other.m() * pow10(self.s()));
            }
            r
        }
    }
}

impl Eq for Decimal {

}

impl vstd::std_specs::cmp::PartialEqSpecImpl for Decimal {
    open spec fn obeys_eq_spec() -> bool {
        true
    }

    open spec fn eq_spec(&self, other: &Decimal) -> bool {
        self.same_value(*other)
    }
}

/// Compares `a / 10^sa` with `b / 10^sb` where `sa < sb`, by rescaling `a`.
fn scaled_eq(a: i128, b: i128, sa: u32, sb: u32) -> (r: bool)
    requires
        sa < sb,
    ensures
        r == (a * pow10(sb as nat) == b * pow10(sa as nat)),
{
    let d = sb - sa;
    proof {
        lemma_pow10_adds(d as nat, sa as nat);
        lemma_pow10_positive(sa as nat);
        lemma_pow10_positive(d as nat);
        // a * 10^sb == b * 10^sa  <==>  a * 10^d == b
        assert((a * pow10(sb as nat) == b * pow10(sa as nat)) <==> (a * pow10(d as nat) == b))
            by (nonlinear_arith)
            requires
                pow10(d as nat) * pow10(sa as nat) == pow10(sb as nat),
                pow10(sa as nat) >= 1,
        ;
    }
    if d > 38 {
        proof {
            lemma_pow10_38();
            lemma_pow10_increases(39, d as nat);
            if a != 0 {
                // the rescaled mantissa is far outside i128, so it cannot equal b
                assert(a * pow10(d as nat) != b) by (nonlinear_arith)
                    requires
                        a != 0,
                        pow10(d as nat) > 2 * (i128::MAX as int),
                        i128::MIN <= b <= i128::MAX,
                        (i128::MIN as int) + (i128::MAX as int) <= 0,
                ;
            }
        }
        a == 0 && b == 0
    } else {
        let p = pow10_i128(d);
        match a.checked_mul(p) {
            Some(x) => x == b,
            None => {
                proof {
                    // the exact product lies outside i128, so it cannot equal b
                    assert(a * pow10(d as nat) != b) by (nonlinear_arith)
                        requires
                            a * p < i128::MIN || a * p > i128::MAX,
                            p == pow10(d as nat),
                            i128::MIN <= b <= i128::MAX,
                    ;
                }
                false
            },
        }
    }
}

/// The decimal digit character for a value below ten.
pub open spec fn digit_char(n: int) -> char {
    if n == 0 {
        '0'
    } else if n == 1 {
        '1'
    } else if n == 2 {
        '2'
    } else if n == 3 {
        '3'
    } else if n == 4 {
        '4'
    } else if n == 5 {
        '5'
    } else if n == 6 {
        '6'
    } else if n == 7 {
        '7'
    } else if n == 8 {
        '8'
    } else {
        '9'
    }
}

/// The decimal representation of a natural number, without leading zeros.
pub open spec fn dec_rep(n: nat) -> Seq<char>
    decreases n,
{
    if n < 10 {
        seq![digit_char(n as int)]
    } else {
        dec_rep(n / 10) + seq![digit_char((n % 10) as int)]
    }
}

/// The decimal representation of a natural number, zero-padded on the left
/// to exactly `w` digits.
pub open spec fn dec_rep_pad(n: nat, w: nat) -> Seq<char>
    decreases w,
{
    if w == 0 {
        Seq::empty()
    } else {
        dec_rep_pad(n / 10, (w - 1) as nat) + seq![digit_char((n % 10) as int)]
    }
}

/// Appends the digit character for a value below ten.
fn push_digit(out: &mut String, n: u128)
    requires
        n < 10,
    ensures
        final(out)@ == old(out)@ + seq![digit_char(n as int)],
{
    proof {
        reveal_strlit("0");
        reveal_strlit("1");
        reveal_strlit("2");
        reveal_strlit("3");
        reveal_strlit("4");
        reveal_strlit("5");
        reveal_strlit("6");
        reveal_strlit("7");
        reveal_strlit("8");
        reveal_strlit("9");
    }
    if n == 0 {
        out.append("0");
    } else if n == 1 {
        out.append("1");
    } else if n == 2 {
        out.append("2");
    } else if n == 3 {
        out.append("3");
    } else if n == 4 {
        out.append("4");
    } else if n == 5 {
        out.append("5");
    } else if n == 6 {
        out.append("6");
    } else if n == 7 {
        out.append("7");
    } else if n == 8 {
        out.append("8");
    } else {
        out.append("9");
    }
    proof {
        assert(final(out)@ =~= old(out)@ + seq![digit_char(n as int)]);
    }
}

/// Appends the decimal representation of `n`.
fn append_dec(out: &mut String, n: u128)
    ensures
        final(out)@ == old(out)@ + dec_rep(n as nat),
    decreases n,
{
    if n < 10 {
        push_digit(out, n);
    } else {
        append_dec(out, n / 10);
        push_digit(out, n % 10);
        proof {
            assert(final(out)@ =~= old(out)@ + dec_rep(n as nat));
        }
    }
}

/// Appends the decimal representation of `n`, zero-padded to `w` digits.
fn append_dec_pad(out: &mut String, n: u128, w: u32)
    ensures
        final(out)@ == old(out)@ + dec_rep_pad(n as nat, w as nat),
    decreases w,
{
    if w == 0 {
        proof {
            assert(final(out)@ =~= old(out)@ + dec_rep_pad(n as nat, 0));
        }
    } else {
        append_dec_pad(out, n / 10, w - 1);
        push_digit(out, n % 10);
        proof {
            assert(final(out)@ =~= old(out)@ + dec_rep_pad(n as nat, w as nat));
        }
    }
}

impl Decimal {
    /// The textual form of the decimal: an optional minus sign, the integer
    /// digits, and, with a positive scale, a dot and exactly `scale`
    /// fractional digits.
    pub open spec fn spec_render(self) -> Seq<char> {
        let mag = abs_int(self.m());
        let sign: Seq<char> = if self.m() < 0 {
            seq!['-']
        } else {
            Seq::empty()
        };
        if self.s() == 0 {
            sign + dec_rep(mag as nat)
        } else {
            sign + dec_rep((mag / pow10(self.s())) as nat) + seq!['.'] + dec_rep_pad(
                (mag % pow10(self.s())) as nat,
                self.s(),
            )
        }
    }

    /// Renders the decimal to text.
    pub fn render(&self) -> (r: String)
        requires
            self.wf(),
        ensures
            r@ == self.spec_render(),
    {
        proof {
            reveal_strlit("-");
            reveal_strlit(".");
            lemma_pow10_38();
            lemma_pow10_increases(self.s(), 38);
            lemma_pow10_positive(self.s());
        }
        let mut out = String::new();
        if self.mantissa < 0 {
            out.append("-");
        }
        let mag: u128 = if self.mantissa < 0 {
            (-self.mantissa) as u128
        } else {
            self.mantissa as u128
        };
        if self.scale == 0 {
            append_dec(&mut out, mag);
            proof {
                assert(out@ =~= self.spec_render());
            }
        } else {
            let p = pow10_i128(self.scale) as u128;
            append_dec(&mut out, mag / p);
            out.append(".");
            append_dec_pad(&mut out, mag % p, self.scale);
            proof {
                assert(out@ =~= self.spec_render());
            }
        }
        out
    }
}

/// The magnitude of an integer.
pub open spec fn abs_int(x: int) -> int {
    if x >= 0 {
        x
    } else {
        -x
    }
}

/// Appends the decimal representation of a `u32`.
pub fn append_dec_u32(out: &mut String, n: u32)
    ensures
        final(out)@ == old(out)@ + dec_rep(n as nat),
{
    append_dec(out, n as u128);
}

/// Appends the decimal representation of a `u32`, zero-padded to `w`
/// digits.
pub fn append_dec_pad_u32(out: &mut String, n: u32, w: u32)
    ensures
        final(out)@ == old(out)@ + dec_rep_pad(n as nat, w as nat),
{
    append_dec_pad(out, n as u128, w);
}

/// Every character of a decimal representation is a digit.
pub proof fn lemma_dec_rep_digits(n: nat)
    ensures
        forall|i: int|
            0 <= i < dec_rep(n).len() ==> crate::utils::is_digit_char(#[trigger] dec_rep(n)[i]),
        dec_rep(n).len() >= 1,
    decreases n,
{
    if n >= 10 {
        lemma_dec_rep_digits(n / 10);
    }
}

/// Every character of a padded decimal representation is a digit, and the
/// width is exact.
pub proof fn lemma_dec_rep_pad_digits(n: nat, w: nat)
    ensures
        forall|i: int|
            0 <= i < dec_rep_pad(n, w).len() ==> crate::utils::is_digit_char(
                #[trigger] dec_rep_pad(n, w)[i],
            ),
        dec_rep_pad(n, w).len() == w,
    decreases w,
{
    if w > 0 {
        lemma_dec_rep_pad_digits(n / 10, (w - 1) as nat);
    }
}

/// A digit character carries its digit's value.
pub proof fn lemma_digit_char_val(k: int)
    requires
        0 <= k < 10,
    ensures
        crate::utils::digit_val(digit_char(k)) == k,
        crate::utils::is_digit_char(digit_char(k)),
{
}

/// Reading the decimal representation back gives the number.
pub proof fn lemma_dec_rep_value(n: nat)
    ensures
        crate::utils::digits_val(dec_rep(n)) == n,
    decreases n,
{
    if n < 10 {
        lemma_digit_char_val(n as int);
        assert(dec_rep(n) =~= seq![digit_char(n as int)]);
        assert(dec_rep(n).len() == 1);
        assert(dec_rep(n).drop_last() =~= Seq::<char>::empty());
        assert(crate::utils::digits_val(dec_rep(n)) == crate::utils::digits_val(
            dec_rep(n).drop_last(),
        ) * 10 + crate::utils::digit_val(dec_rep(n).last()));
        assert(crate::utils::digits_val(dec_rep(n).drop_last()) == 0);
        assert(dec_rep(n).last() == digit_char(n as int));
    } else {
        lemma_dec_rep_value(n / 10);
        lemma_digit_char_val((n % 10) as int);
        assert(dec_rep(n).drop_last() =~= dec_rep(n / 10));
        assert(dec_rep(n).last() == digit_char((n % 10) as int));
    }
}

/// Reading a padded decimal representation back gives the number, as long
/// as the number fits the width.
pub proof fn lemma_dec_rep_pad_value(n: nat, w: nat)
    requires
        n < pow10(w),
    ensures
        crate::utils::digits_val(dec_rep_pad(n, w)) == n,
    decreases w,
{
    if w == 0 {
        assert(pow10(0) == 1);
    } else {
        assert(n / 10 < pow10((w - 1) as nat)) by (nonlinear_arith)
            requires
                n < pow10(w),
                pow10(w) == 10 * pow10((w - 1) as nat),
                n >= 0,
        ;
        lemma_dec_rep_pad_value(n / 10, (w - 1) as nat);
        lemma_digit_char_val((n % 10) as int);
        assert(dec_rep_pad(n, w).drop_last() =~= dec_rep_pad(n / 10, (w - 1) as nat));
        assert(dec_rep_pad(n, w).last() == digit_char((n % 10) as int));
        lemma_dec_rep_pad_digits(n / 10, (w - 1) as nat);
    }
}

} // verus!
