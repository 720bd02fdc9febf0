//! Lexical primitives: character classes, maximal-run scanning, line-ending
//! discovery, quoted-string extraction and numeric component readers shared
//! by the directive parsers.
use vstd::prelude::*;
use vstd::string::StringSliceAdditionalSpecFns;

verus! {

broadcast use vstd::slice::group_slice_axioms;

/// Decimal digit, `'0'` through `'9'`.
pub open spec fn is_digit_char(c: char) -> bool {
    48 <= c as u32 && c as u32 <= 57
}

/// Numeric value of a decimal digit character.
pub open spec fn digit_val(c: char) -> int {
    c as u32 - 48
}

/// Horizontal whitespace: space or tab.
pub open spec fn is_space_char(c: char) -> bool {
    c == ' ' || c == '\t'
}

/// Line-break character.
pub open spec fn is_newline_char(c: char) -> bool {
    c == '\n' || c == '\r'
}

/// True exactly on the minus sign.
pub fn is_char_minus(c: char) -> (r: bool)
    ensures
        r == (c == '-'),
{
    c == '-'
}

/// End of the maximal run of characters satisfying `pred`, starting at `pos`.
pub open spec fn run_end(s: Seq<char>, pos: int, pred: spec_fn(char) -> bool) -> int
    decreases s.len() - pos,
{
    if pos < s.len() && pred(s[pos]) {
        run_end(s, pos + 1, pred)
    } else {
        pos
    }
}

/// A position is the end of the maximal run exactly when everything before it
/// satisfies `pred` and it stands at the end of the text or at a character
/// that does not.
pub proof fn lemma_run_end_is(s: Seq<char>, pos: int, pred: spec_fn(char) -> bool, j: int)
    requires
        0 <= pos <= j <= s.len(),
        forall|k: int| pos <= k < j ==> pred(s[k]),
        j == s.len() || !pred(s[j]),
    ensures
        run_end(s, pos, pred) == j,
    decreases j - pos,
{
    if pos < j {
        lemma_run_end_is(s, pos + 1, pred, j);
    }
}

/// Basic bounds of `run_end`.
pub proof fn lemma_run_end_bounds(s: Seq<char>, pos: int, pred: spec_fn(char) -> bool)
    requires
        0 <= pos <= s.len(),
    ensures
        pos <= run_end(s, pos, pred) <= s.len(),
        forall|k: int| pos <= k < run_end(s, pos, pred) ==> pred(s[k]),
        run_end(s, pos, pred) == s.len() || !pred(s[run_end(s, pos, pred)]),
    decreases s.len() - pos,
{
    if pos < s.len() && pred(s[pos]) {
        lemma_run_end_bounds(s, pos + 1, pred);
    }
}

/// End of the maximal digit run starting at `pos`.
pub fn scan_digits(s: &str, pos: usize) -> (j: usize)
    requires
        pos <= s@.len(),
    ensures
        pos <= j <= s@.len(),
        j == run_end(s@, pos as int, |c: char| is_digit_char(c)),
{
    let n = s.unicode_len();
    let mut i = pos;
    while i < n
        invariant
            n == s@.len(),
            pos <= i <= n,
            forall|k: int| pos <= k < i ==> is_digit_char(s@[k]),
        ensures
            pos <= i <= n,
            forall|k: int| pos <= k < i ==> is_digit_char(s@[k]),
            i == n || !is_digit_char(s@[i as int]),
        decreases n - i,
    {
        let c = s.get_char(i);
        if !(48 <= c as u32 && c as u32 <= 57) {
            break;
        }
        i = i + 1;
    }
    proof {
        lemma_run_end_is(s@, pos as int, |c: char| is_digit_char(c), i as int);
    }
    i
}

/// End of the maximal run of `'0'` characters starting at `pos`.
pub fn repeated_zero(s: &str, pos: usize) -> (j: usize)
    requires
        pos <= s@.len(),
    ensures
        pos <= j <= s@.len(),
        j == run_end(s@, pos as int, |c: char| c == '0'),
{
    let n = s.unicode_len();
    let mut i = pos;
    while i < n
        invariant
            n == s@.len(),
            pos <= i <= n,
            forall|k: int| pos <= k < i ==> s@[k] == '0',
        ensures
            pos <= i <= n,
            forall|k: int| pos <= k < i ==> s@[k] == '0',
            i == n || s@[i as int] != '0',
        decreases n - i,
    {
        if s.get_char(i) != '0' {
            break;
        }
        i = i + 1;
    }
    proof {
        lemma_run_end_is(s@, pos as int, |c: char| c == '0', i as int);
    }
    i
}

/// End of the maximal run of spaces and tabs starting at `pos`.
pub fn scan_spaces(s: &str, pos: usize) -> (j: usize)
    requires
        pos <= s@.len(),
    ensures
        pos <= j <= s@.len(),
        j == run_end(s@, pos as int, |c: char| is_space_char(c)),
{
    let n = s.unicode_len();
    let mut i = pos;
    while i < n
        invariant
            n == s@.len(),
            pos <= i <= n,
            forall|k: int| pos <= k < i ==> is_space_char(s@[k]),
        ensures
            pos <= i <= n,
            forall|k: int| pos <= k < i ==> is_space_char(s@[k]),
            i == n || !is_space_char(s@[i as int]),
        decreases n - i,
    {
        let c = s.get_char(i);
        if !(c == ' ' || c == '\t') {
            break;
        }
        i = i + 1;
    }
    proof {
        lemma_run_end_is(s@, pos as int, |c: char| is_space_char(c), i as int);
    }
    i
}

/// First occurrence of `c` in `[pos, end)`, if any.
pub fn find_char(s: &str, pos: usize, end: usize, c: char) -> (r: Option<usize>)
    requires
        pos <= end <= s@.len(),
    ensures
        match r {
            Some(j) => pos <= j < end && s@[j as int] == c && forall|k: int|
                pos <= k < j ==> s@[k] != c,
            None => forall|k: int| pos <= k < end ==> s@[k] != c,
        },
{
    let mut i = pos;
    while i < end
        invariant
            end <= s@.len(),
            pos <= i <= end,
            forall|k: int| pos <= k < i ==> s@[k] != c,
        decreases end - i,
    {
        if s.get_char(i) == c {
            return Some(i);
        }
        i = i + 1;
    }
    None
}

/// First index `j` in `[pos, end - 1)` where two spaces stand side by side.
pub fn find_double_space(s: &str, pos: usize, end: usize) -> (r: Option<usize>)
    requires
        pos <= end <= s@.len(),
    ensures
        match r {
            Some(j) => pos <= j && j + 1 < end && s@[j as int] == ' ' && s@[j + 1] == ' '
                && forall|k: int| pos <= k < j ==> !(#[trigger] s@[k] == ' ' && s@[k + 1] == ' '),
            None => forall|k: int| pos <= k && k + 1 < end ==> !(#[trigger] s@[k] == ' ' && s@[k + 1] == ' '),
        },
{
    if end == pos {
        return None;
    }
    let mut i = pos;
    while i + 1 < end
        invariant
            end <= s@.len(),
            pos <= i,
            i < end,
            forall|k: int| pos <= k < i ==> !(#[trigger] s@[k] == ' ' && s@[k + 1] == ' '),
        decreases end - i,
    {
        if s.get_char(i) == ' ' && s.get_char(i + 1) == ' ' {
            return Some(i);
        }
        i = i + 1;
    }
    None
}

/// Numeric value of a digit sequence, read left to right.
pub open spec fn digits_val(s: Seq<char>) -> int
    decreases s.len(),
{
    if s.len() == 0 {
        0
    } else {
        digits_val(s.drop_last()) * 10 + digit_val(s.last())
    }
}

/// A digit sequence has a non-negative value.
pub proof fn lemma_digits_val_nonneg(s: Seq<char>)
    requires
        forall|k: int| 0 <= k < s.len() ==> is_digit_char(#[trigger] s[k]),
    ensures
        digits_val(s) >= 0,
    decreases s.len(),
{
    if s.len() > 0 {
        lemma_digits_val_nonneg(s.drop_last());
    }
}

/// Reading one more digit multiplies the value by ten and adds the digit.
pub proof fn lemma_digits_val_step(s: Seq<char>, lo: int, i: int)
    requires
        0 <= lo <= i < s.len(),
    ensures
        digits_val(s.subrange(lo, i + 1)) == digits_val(s.subrange(lo, i)) * 10 + digit_val(
            s[i],
        ),
{
    assert(s.subrange(lo, i + 1).drop_last() =~= s.subrange(lo, i));
    assert(s.subrange(lo, i + 1).last() == s[i]);
}

/// Extending a digit run never lowers its value.
pub proof fn lemma_digits_val_grows(s: Seq<char>, lo: int, i: int, j: int)
    requires
        0 <= lo <= i <= j <= s.len(),
        forall|k: int| lo <= k < j ==> is_digit_char(#[trigger] s[k]),
    ensures
        digits_val(s.subrange(lo, j)) >= digits_val(s.subrange(lo, i)),
    decreases j - i,
{
    if i < j {
        lemma_digits_val_step(s, lo, j - 1);
        lemma_digits_val_grows(s, lo, i, j - 1);
        lemma_digits_val_nonneg(s.subrange(lo, j - 1));
        assert(is_digit_char(s[j - 1]));
    }
}

/// Value of the digit run `[lo, hi)` when it fits a `u32`; `None` past that.
pub fn digits_value_u32(s: &str, lo: usize, hi: usize) -> (r: Option<u32>)
    requires
        lo <= hi <= s@.len(),
        forall|k: int| lo <= k < hi ==> is_digit_char(#[trigger] s@[k]),
    ensures
        match r {
            Some(v) => v == digits_val(s@.subrange(lo as int, hi as int)) && v <= u32::MAX,
            None => digits_val(s@.subrange(lo as int, hi as int)) > u32::MAX,
        },
{
    let mut acc: u64 = 0;
    let mut i = lo;
    proof {
        assert(s@.subrange(lo as int, lo as int) =~= Seq::<char>::empty());
    }
    while i < hi
        invariant
            lo <= i <= hi <= s@.len(),
            forall|k: int| lo <= k < hi ==> is_digit_char(#[trigger] s@[k]),
            acc == digits_val(s@.subrange(lo as int, i as int)),
            acc <= u32::MAX,
        decreases hi - i,
    {
        let c = s.get_char(i);
        assert(is_digit_char(s@[i as int]));
        let d = (c as u32) - 48;
        let nv: u64 = acc * 10 + (d as u64);
        proof {
            lemma_digits_val_step(s@, lo as int, i as int);
        }
        if nv > 0xFFFF_FFFF {
            proof {
                lemma_digits_val_grows(s@, lo as int, i as int + 1, hi as int);
            }
            return None;
        }
        acc = nv;
        i = i + 1;
    }
    Some(acc as u32)
}

/// Value of the digit run `[lo, hi)` when it stays under the decimal
/// mantissa bound; `None` past that.
pub fn digits_value_i128(s: &str, lo: usize, hi: usize) -> (r: Option<i128>)
    requires
        lo <= hi <= s@.len(),
        forall|k: int| lo <= k < hi ==> is_digit_char(#[trigger] s@[k]),
    ensures
        match r {
            Some(v) => v == digits_val(s@.subrange(lo as int, hi as int)) && 0 <= v
                < crate::decimal::MANTISSA_BOUND,
            None => digits_val(s@.subrange(lo as int, hi as int))
                >= crate::decimal::MANTISSA_BOUND,
        },
{
    let mut acc: i128 = 0;
    let mut i = lo;
    proof {
        assert(s@.subrange(lo as int, lo as int) =~= Seq::<char>::empty());
    }
    while i < hi
        invariant
            lo <= i <= hi <= s@.len(),
            forall|k: int| lo <= k < hi ==> is_digit_char(#[trigger] s@[k]),
            acc == digits_val(s@.subrange(lo as int, i as int)),
            0 <= acc < crate::decimal::MANTISSA_BOUND,
        decreases hi - i,
    {
        let c = s.get_char(i);
        assert(is_digit_char(s@[i as int]));
        let d = (c as u32) - 48;
        proof {
            lemma_digits_val_step(s@, lo as int, i as int);
        }
        if acc >= 10_000_000_000_000_000_000_000_000_000_000_000_000 {
            proof {
                lemma_digits_val_grows(s@, lo as int, i as int + 1, hi as int);
            }
            return None;
        }
        let nv: i128 = acc * 10 + (d as i128);
        if nv >= crate::decimal::MANTISSA_BOUND {
            proof {
                lemma_digits_val_grows(s@, lo as int, i as int + 1, hi as int);
            }
            return None;
        }
        acc = nv;
        i = i + 1;
    }
    Some(acc)
}

/// Where an unsigned numeric component ends and what it is worth: a digit
/// run, leading zeros allowed, whose value must fit a `u32`; an absent or
/// oversized run falls back to the value zero at the end of its zeros.
pub open spec fn spec_decu32(s: Seq<char>, pos: int) -> (u32, int) {
    let d = run_end(s, pos, |c: char| is_digit_char(c));
    if d > pos && digits_val(s.subrange(pos, d)) <= u32::MAX {
        (digits_val(s.subrange(pos, d)) as u32, d)
    } else {
        (0u32, run_end(s, pos, |c: char| c == '0'))
    }
}

/// Reads a `u32` with leading zeros.
pub fn decu32_leading_zeros(s: &str, pos: usize) -> (r: (u32, usize))
    requires
        pos <= s@.len(),
    ensures
        (r.0, r.1 as int) == spec_decu32(s@, pos as int),
        pos <= r.1 <= s@.len(),
{
    let d = scan_digits(s, pos);
    proof {
        lemma_run_end_bounds(s@, pos as int, |c: char| is_digit_char(c));
    }
    if d == pos {
        proof {
            lemma_run_end_is(s@, pos as int, |c: char| c == '0', pos as int);
        }
        return (0, pos);
    }
    match digits_value_u32(s, pos, d) {
        Some(v) => (v, d),
        None => (0, repeated_zero(s, pos)),
    }
}

/// Where a signed numeric component ends and what it is worth: an optional
/// sign, then a digit run, leading zeros allowed, whose value must fit an
/// `i32`; an absent or oversized run falls back to the value zero at the
/// end of the zeros that open the component.
pub open spec fn spec_deci32(s: Seq<char>, pos: int) -> (i32, int) {
    let neg = pos < s.len() && s[pos] == '-';
    let sp = if pos < s.len() && (s[pos] == '-' || s[pos] == '+') {
        pos + 1
    } else {
        pos
    };
    let d = run_end(s, sp, |c: char| is_digit_char(c));
    let v = digits_val(s.subrange(sp, d));
    if d > sp && (if neg {
        v <= 0x8000_0000
    } else {
        v <= 0x7FFF_FFFF
    }) {
        ((if neg {
            -v
        } else {
            v
        }) as i32, d)
    } else {
        (0i32, run_end(s, pos, |c: char| c == '0'))
    }
}

/// Reads an `i32` with leading zeros; a sign may open the component.
pub fn deci32_leading_zeros(s: &str, pos: usize) -> (r: (i32, usize))
    requires
        pos <= s@.len(),
    ensures
        (r.0, r.1 as int) == spec_deci32(s@, pos as int),
        pos <= r.1 <= s@.len(),
{
    let n = s.unicode_len();
    let mut neg = false;
    let mut sp = pos;
    if pos < n {
        let c = s.get_char(pos);
        if c == '-' {
            neg = true;
            sp = pos + 1;
        } else if c == '+' {
            sp = pos + 1;
        }
    }
    let d = scan_digits(s, sp);
    proof {
        lemma_run_end_bounds(s@, sp as int, |c: char| is_digit_char(c));
    }
    if d == sp {
        return (0, repeated_zero(s, pos));
    }
    match digits_value_u32(s, sp, d) {
        Some(v) => {
            if neg {
                if v == 0x8000_0000 {
                    (i32::MIN, d)
                } else if v < 0x8000_0000 {
                    (-(v as i32), d)
                } else {
                    (0, repeated_zero(s, pos))
                }
            } else {
                if v <= 0x7FFF_FFFF {
                    (v as i32, d)
                } else {
                    (0, repeated_zero(s, pos))
                }
            }
        },
        None => (0, repeated_zero(s, pos)),
    }
}

/// Extracts `[lo, hi)` of `s` as an owned string.
pub fn substr(s: &str, lo: usize, hi: usize) -> (r: String)
    requires
        lo <= hi <= s@.len(),
    ensures
        r@ == s@.subrange(lo as int, hi as int),
{
    s.substring_char(lo, hi).to_owned()
}

/// Result of reading a double-quoted string at `pos`, looking no further
/// than `end`: the interior between the quotes with its surrounding
/// whitespace trimmed away, and the position past the closing quote.
/// `None` when no quote opens at `pos` or none closes it before `end`.
pub open spec fn spec_in_quotes(s: Seq<char>, pos: int, end: int) -> Option<(Seq<char>, int)> {
    if pos < end && s[pos] == '"' {
        let j = run_end_within(s, pos + 1, end, |c: char| c != '"');
        if j < end {
            Some((spec_trim(s.subrange(pos + 1, j)), j + 1))
        } else {
            None
        }
    } else {
        None
    }
}

/// End of the maximal run of characters satisfying `pred`, starting at `pos`
/// and stopping at `end` at the latest.
pub open spec fn run_end_within(s: Seq<char>, pos: int, end: int, pred: spec_fn(char) -> bool) -> int
    decreases end - pos,
{
    if pos < end && pred(s[pos]) {
        run_end_within(s, pos + 1, end, pred)
    } else {
        pos
    }
}

/// A position is the end of the bounded maximal run exactly when everything
/// before it satisfies `pred` and it stands at the bound or at a character
/// that does not.
pub proof fn lemma_run_end_within_is(
    s: Seq<char>,
    pos: int,
    end: int,
    pred: spec_fn(char) -> bool,
    j: int,
)
    requires
        0 <= pos <= j <= end,
        forall|k: int| pos <= k < j ==> pred(s[k]),
        j == end || !pred(s[j]),
    ensures
        run_end_within(s, pos, end, pred) == j,
    decreases j - pos,
{
    if pos < j {
        lemma_run_end_within_is(s, pos + 1, end, pred, j);
    }
}

/// Basic bounds of `run_end_within`.
pub proof fn lemma_run_end_within_bounds(s: Seq<char>, pos: int, end: int, pred: spec_fn(char) -> bool)
    requires
        0 <= pos <= end,
    ensures
        pos <= run_end_within(s, pos, end, pred) <= end,
        forall|k: int| pos <= k < run_end_within(s, pos, end, pred) ==> pred(s[k]),
        run_end_within(s, pos, end, pred) == end || !pred(s[run_end_within(s, pos, end, pred)]),
    decreases end - pos,
{
    if pos < end && pred(s[pos]) {
        lemma_run_end_within_bounds(s, pos + 1, end, pred);
    }
}

/// End of the maximal run of spaces and tabs in `[pos, end)`.
pub fn scan_spaces_within(s: &str, pos: usize, end: usize) -> (j: usize)
    requires
        pos <= end <= s@.len(),
    ensures
        pos <= j <= end,
        j == run_end_within(s@, pos as int, end as int, |c: char| is_space_char(c)),
{
    let mut i = pos;
    while i < end
        invariant
            pos <= i <= end <= s@.len(),
            forall|k: int| pos <= k < i ==> is_space_char(s@[k]),
        ensures
            pos <= i <= end,
            forall|k: int| pos <= k < i ==> is_space_char(s@[k]),
            i == end || !is_space_char(s@[i as int]),
        decreases end - i,
    {
        let c = s.get_char(i);
        if !(c == ' ' || c == '\t') {
            break;
        }
        i = i + 1;
    }
    proof {
        lemma_run_end_within_is(s@, pos as int, end as int, |c: char| is_space_char(c), i as int);
    }
    i
}

/// Reads a double-quoted string inside `[pos, end)`: the interior up to the
/// closing quote, trimmed of its surrounding whitespace.
pub fn in_quotes(s: &str, pos: usize, end: usize) -> (r: Option<(String, usize)>)
    requires
        pos <= end <= s@.len(),
    ensures
        match r {
            Some((t, np)) => spec_in_quotes(s@, pos as int, end as int) == Some((t@, np as int))
                && pos < np <= end,
            None => spec_in_quotes(s@, pos as int, end as int) is None,
        },
{
    if pos >= end || s.get_char(pos) != '"' {
        return None;
    }
    let mut j = pos + 1;
    while j < end
        invariant
            pos + 1 <= j <= end <= s@.len(),
            forall|k: int| pos + 1 <= k < j ==> s@[k] != '"',
        ensures
            pos + 1 <= j <= end,
            forall|k: int| pos + 1 <= k < j ==> s@[k] != '"',
            j == end || s@[j as int] == '"',
        decreases end - j,
    {
        if s.get_char(j) == '"' {
            break;
        }
        j = j + 1;
    }
    proof {
        lemma_run_end_within_is(s@, pos as int + 1, end as int, |c: char| c != '"', j as int);
    }
    if j < end {
        Some((substr_trimmed(s, pos + 1, j), j + 1))
    } else {
        None
    }
}

/// Does the text carry `w` starting at `pos`?
pub fn starts_with_at(s: &str, pos: usize, w: &str) -> (b: bool)
    requires
        pos <= s@.len(),
    ensures
        b == (pos + w@.len() <= s@.len() && s@.subrange(
            pos as int,
            pos as int + w@.len() as int,
        ) == w@),
{
    let n = s.unicode_len();
    let wn = w.unicode_len();
    if n - pos < wn {
        proof {
            assert(pos + w@.len() > s@.len());
        }
        return false;
    }
    let mut i: usize = 0;
    while i < wn
        invariant
            i <= wn,
            wn == w@.len(),
            n == s@.len(),
            pos + wn <= n,
            forall|k: int| 0 <= k < i ==> s@[pos + k] == w@[k],
        decreases wn - i,
    {
        if s.get_char(pos + i) != w.get_char(i) {
            proof {
                assert(s@.subrange(pos as int, pos as int + w@.len() as int)[i as int]
                    != w@[i as int]);
            }
            return false;
        }
        i = i + 1;
    }
    proof {
        assert(s@.subrange(pos as int, pos as int + w@.len() as int) =~= w@);
    }
    true
}

/// Consumes a line ending at `pos`: the end of the text counts as one, as
/// does a bare newline or a carriage-return-and-newline pair.
pub fn try_line_ending(s: &str, pos: usize) -> (r: Option<usize>)
    requires
        pos <= s@.len(),
    ensures
        pos == s@.len() ==> r == Some(pos),
        pos < s@.len() && s@[pos as int] == '\n' ==> (r matches Some(np) && np as int == pos
            + 1),
        pos < s@.len() && s@[pos as int] == '\r' && pos + 1 < s@.len() && s@[pos as int + 1]
            == '\n' ==> (r matches Some(np) && np as int == pos + 2),
        pos < s@.len() && s@[pos as int] != '\n' && (s@[pos as int] != '\r' || pos + 1
            == s@.len() || s@[pos as int + 1] != '\n') ==> r is None,
        r is Some ==> pos <= r.unwrap() <= s@.len(),
{
    let n = s.unicode_len();
    if pos == n {
        return Some(pos);
    }
    let c = s.get_char(pos);
    if c == '\n' {
        return Some(pos + 1);
    }
    if c == '\r' && pos + 1 < n && s.get_char(pos + 1) == '\n' {
        return Some(pos + 2);
    }
    None
}

/// Where the content of the line that starts at `pos` ends: just before its
/// newline, leaving out a carriage return that pairs with that newline, or at
/// the end of the text.
pub open spec fn spec_line_content_end(s: Seq<char>, pos: int) -> int {
    let nl = run_end(s, pos, |c: char| c != '\n');
    if nl < s.len() && nl > pos && s[nl - 1] == '\r' {
        nl - 1
    } else {
        nl
    }
}

/// Finds the end of the current line's content.
pub fn line_content_end(s: &str, pos: usize) -> (ce: usize)
    requires
        pos <= s@.len(),
    ensures
        ce == spec_line_content_end(s@, pos as int),
        pos <= ce <= s@.len(),
{
    let n = s.unicode_len();
    let mut j = pos;
    while j < n
        invariant
            pos <= j <= n,
            n == s@.len(),
            forall|k: int| pos <= k < j ==> s@[k] != '\n',
        ensures
            pos <= j <= n,
            forall|k: int| pos <= k < j ==> s@[k] != '\n',
            j == n || s@[j as int] == '\n',
        decreases n - j,
    {
        if s.get_char(j) == '\n' {
            break;
        }
        j = j + 1;
    }
    proof {
        lemma_run_end_is(s@, pos as int, |c: char| c != '\n', j as int);
    }
    if j < n && j > pos && s.get_char(j - 1) == '\r' {
        j - 1
    } else {
        j
    }
}

/// Characters stripped by trimming: spaces, tabs and line breaks.
pub open spec fn is_trim_char(c: char) -> bool {
    c == ' ' || c == '\t' || c == '\n' || c == '\r'
}

/// Shrinks `[lo, hi)` to its trimmed core: whitespace falls away at both
/// ends, and what remains either is empty or starts and ends on solid
/// characters.
pub fn trim_bounds(s: &str, lo: usize, hi: usize) -> (r: (usize, usize))
    requires
        lo <= hi <= s@.len(),
    ensures
        lo <= r.0 <= r.1 <= hi,
        forall|k: int| lo <= k < r.0 ==> is_trim_char(#[trigger] s@[k]),
        forall|k: int| r.1 <= k < hi ==> is_trim_char(#[trigger] s@[k]),
        r.0 < r.1 ==> !is_trim_char(s@[r.0 as int]) && !is_trim_char(s@[r.1 - 1]),
        r.0 == r.1 ==> forall|k: int| lo <= k < hi ==> is_trim_char(#[trigger] s@[k]),
{
    let mut a = lo;
    while a < hi
        invariant
            lo <= a <= hi <= s@.len(),
            forall|k: int| lo <= k < a ==> is_trim_char(#[trigger] s@[k]),
        ensures
            lo <= a <= hi,
            forall|k: int| lo <= k < a ==> is_trim_char(#[trigger] s@[k]),
            a == hi || !is_trim_char(s@[a as int]),
        decreases hi - a,
    {
        let c = s.get_char(a);
        if !(c == ' ' || c == '\t' || c == '\n' || c == '\r') {
            break;
        }
        a = a + 1;
    }
    if a == hi {
        return (a, a);
    }
    let mut b = hi;
    while b > a
        invariant
            a <= b <= hi <= s@.len(),
            forall|k: int| b <= k < hi ==> is_trim_char(#[trigger] s@[k]),
        ensures
            a <= b <= hi,
            forall|k: int| b <= k < hi ==> is_trim_char(#[trigger] s@[k]),
            b == a || !is_trim_char(s@[b - 1]),
        decreases b,
    {
        let c = s.get_char(b - 1);
        if !(c == ' ' || c == '\t' || c == '\n' || c == '\r') {
            break;
        }
        b = b - 1;
    }
    if b == a {
        return (a, a);
    }
    (a, b)
}

/// The sequence with leading whitespace removed.
pub open spec fn spec_trim_start(s: Seq<char>) -> Seq<char>
    decreases s.len(),
{
    if s.len() > 0 && is_trim_char(s[0]) {
        spec_trim_start(s.drop_first())
    } else {
        s
    }
}

/// The sequence with trailing whitespace removed.
pub open spec fn spec_trim_end(s: Seq<char>) -> Seq<char>
    decreases s.len(),
{
    if s.len() > 0 && is_trim_char(s.last()) {
        spec_trim_end(s.drop_last())
    } else {
        s
    }
}

/// The sequence with whitespace removed at both ends.
pub open spec fn spec_trim(s: Seq<char>) -> Seq<char> {
    spec_trim_end(spec_trim_start(s))
}

/// Dropping a whitespace prefix realizes `spec_trim_start`.
pub proof fn lemma_trim_start_at(s: Seq<char>, a: int)
    requires
        0 <= a <= s.len(),
        forall|k: int| 0 <= k < a ==> is_trim_char(#[trigger] s[k]),
        a == s.len() || !is_trim_char(s[a]),
    ensures
        spec_trim_start(s) == s.skip(a),
    decreases a,
{
    if a == 0 {
        assert(s.skip(0) =~= s);
    } else {
        lemma_trim_start_at(s.drop_first(), a - 1);
        assert(s.drop_first().skip(a - 1) =~= s.skip(a));
    }
}

/// Dropping a whitespace suffix realizes `spec_trim_end`.
pub proof fn lemma_trim_end_at(s: Seq<char>, b: int)
    requires
        0 <= b <= s.len(),
        forall|k: int| b <= k < s.len() ==> is_trim_char(#[trigger] s[k]),
        b == 0 || !is_trim_char(s[b - 1]),
    ensures
        spec_trim_end(s) == s.take(b),
    decreases s.len(),
{
    if b == s.len() {
        assert(s.take(b) =~= s);
        if s.len() > 0 && is_trim_char(s.last()) {
            assert(!is_trim_char(s[b - 1]));
        }
    } else {
        assert(is_trim_char(s.last()));
        lemma_trim_end_at(s.drop_last(), b);
        assert(s.drop_last().take(b) =~= s.take(b));
    }
}

/// Extracts `[lo, hi)` of `s` with surrounding whitespace removed.
pub fn substr_trimmed(s: &str, lo: usize, hi: usize) -> (r: String)
    requires
        lo <= hi <= s@.len(),
    ensures
        r@ == spec_trim(s@.subrange(lo as int, hi as int)),
{
    let (a, b) = trim_bounds(s, lo, hi);
    let r = substr(s, a, b);
    proof {
        let sub = s@.subrange(lo as int, hi as int);
        if a == b {
            lemma_trim_start_at(sub, sub.len() as int);
            assert(spec_trim_start(sub) =~= sub.skip(sub.len() as int));
            assert(spec_trim(sub) =~= Seq::<char>::empty());
            assert(r@ =~= spec_trim(sub));
        } else {
            assert(forall|k: int| 0 <= k < a - lo ==> is_trim_char(#[trigger] sub[k]));
            assert(!is_trim_char(sub[a - lo]));
            lemma_trim_start_at(sub, a - lo);
            let tail = sub.skip(a - lo);
            assert(tail =~= s@.subrange(a as int, hi as int));
            assert(forall|k: int| b - a <= k < tail.len() ==> is_trim_char(#[trigger] tail[k]));
            assert(!is_trim_char(tail[b - a - 1]));
            lemma_trim_end_at(tail, b - a);
            assert(tail.take(b - a) =~= s@.subrange(a as int, b as int));
            assert(r@ =~= spec_trim(sub));
        }
    }
    r
}

/// Encoding a concatenation concatenates the encodings.
pub proof fn lemma_encode_utf8_concat(a: Seq<char>, b: Seq<char>)
    ensures
        vstd::utf8::encode_utf8(a + b) == vstd::utf8::encode_utf8(a) + vstd::utf8::encode_utf8(
            b,
        ),
    decreases a.len(),
{
    if a.len() == 0 {
        assert(a + b =~= b);
        assert(vstd::utf8::encode_utf8(a) =~= Seq::<u8>::empty());
        assert(vstd::utf8::encode_utf8(a) + vstd::utf8::encode_utf8(b) =~= vstd::utf8::encode_utf8(
            b,
        ));
    } else {
        assert((a + b).first() == a.first());
        assert((a + b).drop_first() =~= a.drop_first() + b);
        assert((a + b).len() > 0);
        lemma_encode_utf8_concat(a.drop_first(), b);
        assert(vstd::utf8::encode_utf8(a + b) =~= vstd::utf8::encode_utf8(a)
            + vstd::utf8::encode_utf8(b));
    }
}

/// Reading one more character appends its encoding.
pub proof fn lemma_encode_utf8_push(s: Seq<char>, i: int)
    requires
        0 <= i < s.len(),
    ensures
        vstd::utf8::encode_utf8(s.subrange(0, i + 1)) == vstd::utf8::encode_utf8(
            s.subrange(0, i),
        ) + vstd::utf8::encode_scalar(s[i] as u32),
{
    lemma_encode_utf8_concat(s.subrange(0, i), seq![s[i]]);
    assert(s.subrange(0, i) + seq![s[i]] =~= s.subrange(0, i + 1));
    assert(seq![s[i]].drop_first() =~= Seq::<char>::empty());
    assert(seq![s[i]].first() == s[i]);
    vstd::utf8::char_is_scalar(s[i]);
    assert(vstd::utf8::encode_utf8(Seq::<char>::empty()) =~= Seq::<u8>::empty());
    assert(vstd::utf8::encode_utf8(seq![s[i]]) =~= vstd::utf8::encode_scalar(s[i] as u32));
}

/// The number of bytes one character takes in UTF-8.
fn utf8_len_of(c: char) -> (r: usize)
    ensures
        r == vstd::utf8::encode_scalar(c as u32).len(),
        1 <= r <= 4,
{
    proof {
        vstd::utf8::char_is_scalar(c);
    }
    let u = c as u32;
    if u <= 0x7F {
        1
    } else if u <= 0x7FF {
        2
    } else if u <= 0xFFFF {
        3
    } else {
        4
    }
}

/// The byte index, in the UTF-8 bytes of `input`, of the last space that
/// stands before the first occurrence of the character `c`; `None` when
/// `c` does not occur or no space stands before it.
pub fn find_space_before_char(input: &str, c: char) -> (r: Option<usize>)
    ensures
        match r {
            Some(j) => exists|p: int|
                {
                    &&& 0 <= p < input@.len()
                    &&& input@[p] == c
                    &&& (forall|k: int| 0 <= k < p ==> input@[k] != c)
                    &&& exists|q: int|
                        {
                            &&& 0 <= q < p
                            &&& input@[q] == ' '
                            &&& (forall|w: int| q < w < p ==> input@[w] != ' ')
                            &&& j == vstd::utf8::encode_utf8(input@.subrange(0, q)).len()
                        }
                },
            None => (forall|k: int| 0 <= k < input@.len() ==> input@[k] != c) || exists|p: int|
                {
                    &&& 0 <= p < input@.len()
                    &&& input@[p] == c
                    &&& (forall|k: int| 0 <= k < p ==> input@[k] != c)
                    &&& (forall|k: int| 0 <= k < p ==> input@[k] != ' ')
                },
        },
{
    let n = input.unicode_len();
    let total = input.as_bytes().len();
    proof {
        assert(input.spec_bytes() == vstd::utf8::encode_utf8(input@));
        assert(total == vstd::utf8::encode_utf8(input@).len());
    }
    let mut i: usize = 0;
    let mut b: usize = 0;
    let mut last_space: Option<usize> = None;
    let ghost mut last_q: int = 0;
    proof {
        assert(input@.subrange(0, 0) =~= Seq::<char>::empty());
    }
    while i < n
        invariant
            i <= n,
            n == input@.len(),
            total as int == vstd::utf8::encode_utf8(input@).len(),
            b == vstd::utf8::encode_utf8(input@.subrange(0, i as int)).len(),
            b <= total,
            forall|k: int| 0 <= k < i ==> input@[k] != c,
            match last_space {
                Some(j) => {
                    &&& 0 <= last_q < i
                    &&& input@[last_q] == ' '
                    &&& (forall|w: int| last_q < w < i ==> input@[w] != ' ')
                    &&& j == vstd::utf8::encode_utf8(input@.subrange(0, last_q)).len()
                },
                None => forall|k: int| 0 <= k < i ==> input@[k] != ' ',
            },
        decreases n - i,
    {
        let ch = input.get_char(i);
        if ch == c {
            proof {
                match last_space {
                    Some(j) => {
                        assert(0 <= i < input@.len() && input@[i as int] == c);
                    },
                    None => {},
                }
            }
            return last_space;
        }
        if ch == ' ' {
            last_space = Some(b);
            proof {
                last_q = i as int;
            }
        }
        let w = utf8_len_of(ch);
        proof {
            lemma_encode_utf8_push(input@, i as int);
            lemma_encode_utf8_concat(
                input@.subrange(0, i as int + 1),
                input@.subrange(i as int + 1, input@.len() as int),
            );
            assert(input@.subrange(0, i as int + 1) + input@.subrange(
                i as int + 1,
                input@.len() as int,
            ) =~= input@);
        }
        b = b + w;
        i = i + 1;
    }
    None
}

/// Lexicographic order on character sequences, by code point; a prefix
/// comes before its extensions.
pub open spec fn lex_le(a: Seq<char>, b: Seq<char>) -> bool
    decreases a.len(),
{
    if a.len() == 0 {
        true
    } else if b.len() == 0 {
        false
    } else if (a[0] as u32) < (b[0] as u32) {
        true
    } else if (a[0] as u32) > (b[0] as u32) {
        false
    } else {
        lex_le(a.drop_first(), b.drop_first())
    }
}

/// Strict lexicographic order.
pub open spec fn lex_lt(a: Seq<char>, b: Seq<char>) -> bool {
    lex_le(a, b) && a != b
}

/// The order is reflexive.
pub proof fn lemma_lex_le_refl(a: Seq<char>)
    ensures
        lex_le(a, a),
    decreases a.len(),
{
    if a.len() > 0 {
        lemma_lex_le_refl(a.drop_first());
    }
}

/// The order is total.
pub proof fn lemma_lex_le_total(a: Seq<char>, b: Seq<char>)
    ensures
        lex_le(a, b) || lex_le(b, a),
    decreases a.len(),
{
    if a.len() > 0 && b.len() > 0 && (a[0] as u32) == (b[0] as u32) {
        lemma_lex_le_total(a.drop_first(), b.drop_first());
    }
}

/// The order is antisymmetric.
pub proof fn lemma_lex_le_antisym(a: Seq<char>, b: Seq<char>)
    requires
        lex_le(a, b),
        lex_le(b, a),
    ensures
        a == b,
    decreases a.len(),
{
    if a.len() == 0 {
        assert(b.len() == 0);
        assert(a =~= b);
    } else {
        assert(b.len() > 0);
        assert(a[0] == b[0]) by {
            assert((a[0] as u32) <= (b[0] as u32));
            assert((b[0] as u32) <= (a[0] as u32));
            vstd::utf8::char_u32_cast(a[0], a[0] as u32);
            vstd::utf8::char_u32_cast(b[0], b[0] as u32);
        }
        lemma_lex_le_antisym(a.drop_first(), b.drop_first());
        assert(a.len() == b.len());
        assert forall|i: int| 0 <= i < a.len() implies a[i] == b[i] by {
            if i > 0 {
                assert(a[i] == a.drop_first()[i - 1]);
                assert(b[i] == b.drop_first()[i - 1]);
            }
        }
        assert(a =~= b);
    }
}

/// The order is transitive.
pub proof fn lemma_lex_le_trans(a: Seq<char>, b: Seq<char>, c: Seq<char>)
    requires
        lex_le(a, b),
        lex_le(b, c),
    ensures
        lex_le(a, c),
    decreases a.len(),
{
    if a.len() > 0 && b.len() > 0 && c.len() > 0 && (a[0] as u32) == (b[0] as u32) && (
    b[0] as u32) == (c[0] as u32) {
        lemma_lex_le_trans(a.drop_first(), b.drop_first(), c.drop_first());
    }
}

/// Compares two pieces of text in lexicographic order.
pub fn str_le(a: &str, b: &str) -> (r: bool)
    ensures
        r == lex_le(a@, b@),
{
    let la = a.unicode_len();
    let lb = b.unicode_len();
    let mut i: usize = 0;
    proof {
        assert(a@.skip(0) =~= a@);
        assert(b@.skip(0) =~= b@);
    }
    loop
        invariant
            i <= la,
            i <= lb,
            la == a@.len(),
            lb == b@.len(),
            lex_le(a@, b@) == lex_le(a@.skip(i as int), b@.skip(i as int)),
        decreases la - i,
    {
        if i == la {
            proof {
                assert(a@.skip(i as int).len() == 0);
            }
            return true;
        }
        if i == lb {
            proof {
                assert(b@.skip(i as int).len() == 0);
                assert(a@.skip(i as int).len() > 0);
            }
            return false;
        }
        let ca = a.get_char(i);
        let cb = b.get_char(i);
        proof {
            assert(a@.skip(i as int)[0] == a@[i as int]);
            assert(b@.skip(i as int)[0] == b@[i as int]);
            assert(a@.skip(i as int).drop_first() =~= a@.skip(i as int + 1));
            assert(b@.skip(i as int).drop_first() =~= b@.skip(i as int + 1));
        }
        if (ca as u32) < (cb as u32) {
            return true;
        }
        if (ca as u32) > (cb as u32) {
            return false;
        }
        i = i + 1;
    }
}

/// Trimming leaves a sequence without edge whitespace unchanged.
pub proof fn lemma_trim_id(a: Seq<char>)
    requires
        a.len() > 0 ==> !is_trim_char(a[0]) && !is_trim_char(a[a.len() - 1]),
    ensures
        spec_trim(a) == a,
{
    lemma_trim_start_at(a, 0);
    assert(a.skip(0) =~= a);
    lemma_trim_end_at(a, a.len() as int);
    assert(a.take(a.len() as int) =~= a);
}

/// End of the maximal digit run in `[pos, end)`.
pub fn scan_digits_within(s: &str, pos: usize, end: usize) -> (j: usize)
    requires
        pos <= end <= s@.len(),
    ensures
        pos <= j <= end,
        j == run_end_within(s@, pos as int, end as int, |c: char| is_digit_char(c)),
        forall|k: int| pos <= k < j ==> is_digit_char(#[trigger] s@[k]),
{
    let mut i = pos;
    while i < end
        invariant
            pos <= i <= end <= s@.len(),
            forall|k: int| pos <= k < i ==> is_digit_char(#[trigger] s@[k]),
        ensures
            pos <= i <= end,
            forall|k: int| pos <= k < i ==> is_digit_char(#[trigger] s@[k]),
            i == end || !is_digit_char(s@[i as int]),
        decreases end - i,
    {
        let c = s.get_char(i);
        if !(48 <= c as u32 && c as u32 <= 57) {
            break;
        }
        i = i + 1;
    }
    proof {
        lemma_run_end_within_is(s@, pos as int, end as int, |c: char| is_digit_char(c), i as int);
    }
    i
}

/// What stands at the end of a line's content: a newline, a carriage-return
/// and newline pair, or the end of the text; and nothing before it is a
/// newline.
pub proof fn lemma_line_content_end_props(s: Seq<char>, pos: int)
    requires
        0 <= pos <= s.len(),
    ensures
        pos <= spec_line_content_end(s, pos) <= s.len(),
        spec_line_content_end(s, pos) < s.len() ==> (s[spec_line_content_end(s, pos)] == '\n' || (
        s[spec_line_content_end(s, pos)] == '\r' && spec_line_content_end(s, pos) + 1 < s.len()
            && s[spec_line_content_end(s, pos) + 1] == '\n')),
        forall|k: int| pos <= k < spec_line_content_end(s, pos) ==> s[k] != '\n',
{
    lemma_run_end_bounds(s, pos, |c: char| c != '\n');
}

/// Are two pieces of text the same sequence of characters?
pub fn eq_str(a: &str, b: &str) -> (r: bool)
    ensures
        r == (a@ == b@),
{
    let la = a.unicode_len();
    let lb = b.unicode_len();
    if la != lb {
        return false;
    }
    let r = starts_with_at(a, 0, b);
    proof {
        if r {
            assert(a@.subrange(0, b@.len() as int) =~= a@);
        } else {
            if a@ == b@ {
                assert(a@.subrange(0, b@.len() as int) =~= b@);
            }
        }
    }
    r
}

} // verus!
