//! Calendar dates and the date grammar: one or two dates separated by `=`,
//! with a single consistent separator inside each date and smart year
//! inheritance for the secondary date.
use vstd::prelude::*;
use crate::utils::{
    spec_decu32, spec_deci32, decu32_leading_zeros, deci32_leading_zeros, digits_val,
    is_digit_char, run_end, lemma_run_end_is, lemma_run_end_bounds,
};
use crate::decimal::{dec_rep_pad, pow10, lemma_dec_rep_pad_digits, lemma_dec_rep_pad_value};
use crate::{HLParserError, ValidationError};

verus! {

/// A calendar date in the proleptic Gregorian calendar.
#[derive(Debug, Clone, Copy, PartialEq, Eq, Structural, Hash)]
pub struct Date {
    /// The year; may be negative.
    pub year: i32,
    /// The month, `1` to `12` when well-formed.
    pub month: u32,
    /// The day of the month, valid for the year and month when well-formed.
    pub day: u32,
}

/// Leap years: divisible by four, except centuries not divisible by four
/// hundred.
pub open spec fn spec_is_leap_year(y: int) -> bool {
    (y % 4 == 0 && y % 100 != 0) || y % 400 == 0
}

/// Days of each month of a year.
pub open spec fn spec_days_in_month(y: int, m: int) -> int {
    if m == 1 {
        31
    } else if m == 2 {
        if spec_is_leap_year(y) {
            29
        } else {
            28
        }
    } else if m == 3 {
        31
    } else if m == 4 {
        30
    } else if m == 5 {
        31
    } else if m == 6 {
        30
    } else if m == 7 {
        31
    } else if m == 8 {
        31
    } else if m == 9 {
        30
    } else if m == 10 {
        31
    } else if m == 11 {
        30
    } else {
        31
    }
}

/// A real calendar date: month in range and day valid for the month and
/// year, with leap-year February handled.
pub open spec fn spec_valid_date(y: int, m: int, d: int) -> bool {
    1 <= m <= 12 && 1 <= d <= spec_days_in_month(y, m)
}

impl Date {
    /// Well-formedness: the fields form a real calendar date.
    pub open spec fn wf(self) -> bool {
        spec_valid_date(self.year as int, self.month as int, self.day as int)
    }

    /// Builds a date after checking it against real calendar rules:
    /// `Some` exactly for valid combinations.
    pub fn from_ymd_opt(year: i32, month: u32, day: u32) -> (r: Option<Date>)
        ensures
            match r {
                Some(d) => d.wf() && d.year == year && d.month == month && d.day == day
                    && spec_valid_date(year as int, month as int, day as int),
                None => !spec_valid_date(year as int, month as int, day as int),
            },
    {
        if 1 <= month && month <= 12 && 1 <= day && day <= days_in_month(year, month) {
            Some(Date { year, month, day })
        } else {
            None
        }
    }
}

/// Is the year a leap year?
pub fn is_leap_year(y: i32) -> (r: bool)
    ensures
        r == spec_is_leap_year(y as int),
{
    (y % 4 == 0 && y % 100 != 0) || y % 400 == 0
}

/// How many days the month has in the year.
pub fn days_in_month(y: i32, m: u32) -> (r: u32)
    requires
        1 <= m <= 12,
    ensures
        r == spec_days_in_month(y as int, m as int),
{
    if m == 1 {
        31
    } else if m == 2 {
        if is_leap_year(y) {
            29
        } else {
            28
        }
    } else if m == 3 {
        31
    } else if m == 4 {
        30
    } else if m == 5 {
        31
    } else if m == 6 {
        30
    } else if m == 7 {
        31
    } else if m == 8 {
        31
    } else if m == 9 {
        30
    } else if m == 10 {
        31
    } else if m == 11 {
        30
    } else {
        31
    }
}

/// The `u32` that an `i32` component wraps to when a two-component date is
/// re-read as month and day.
pub open spec fn wrap_u32(v: int) -> int {
    if v >= 0 {
        v
    } else {
        v + 0x1_0000_0000
    }
}

/// Components of one date read at `pos` with separator `sep`: a signed
/// component, the separator, an unsigned component, and optionally the
/// separator and a third component. With three components they are year,
/// month and day; with two, the year is absent and the first wraps into the
/// month. `None` when the separator does not follow the first component.
pub open spec fn spec_parse_date_components(s: Seq<char>, pos: int, sep: char) -> Option<
    ((Option<int>, int, int), int),
> {
    let f = spec_deci32(s, pos);
    if f.1 < s.len() && s[f.1] == sep {
        let snd = spec_decu32(s, f.1 + 1);
        if snd.1 < s.len() && s[snd.1] == sep {
            let t = spec_decu32(s, snd.1 + 1);
            Some(((Some(f.0 as int), snd.0 as int, t.0 as int), t.1))
        } else {
            Some(((None, wrap_u32(f.0 as int), snd.0 as int), snd.1))
        }
    } else {
        None
    }
}

/// Reads the numeric components of one date.
fn parse_date_components(s: &str, pos: usize, sep: char) -> (r: Option<
    ((Option<i32>, u32, u32), usize),
>)
    requires
        pos <= s@.len(),
    ensures
        match r {
            Some(((oy, m, d), np)) => {
                &&& spec_parse_date_components(s@, pos as int, sep) matches Some(((soy, sm, sd), se))
                &&& match (oy, soy) {
                    (Some(a), Some(b)) => a as int == b,
                    (None, None) => true,
                    _ => false,
                }
                &&& m as int == sm
                &&& d as int == sd
                &&& se == np as int
                &&& pos <= np <= s@.len()
            },
            None => spec_parse_date_components(s@, pos as int, sep) is None,
        },
{
    let n = s.unicode_len();
    let (f, p1) = deci32_leading_zeros(s, pos);
    if p1 < n && s.get_char(p1) == sep {
        let (snd, p2) = decu32_leading_zeros(s, p1 + 1);
        if p2 < n && s.get_char(p2) == sep {
            let (t, p3) = decu32_leading_zeros(s, p2 + 1);
            Some(((Some(f), snd, t), p3))
        } else {
            let wrapped: u32 = #[verifier::truncate] (f as u32);
            proof {
                assert(wrapped as int == wrap_u32(f as int)) by (bit_vector)
                    requires
                        wrapped == f as u32,
                ;
            }
            Some(((None, wrapped, snd), p2))
        }
    } else {
        None
    }
}

/// Outcome of reading a date pair: no match at all, a match whose numbers
/// are no real calendar date (with the offending components), or one or two
/// valid dates and the position after them.
pub enum DateOutcome {
    /// The text does not have the shape of a date.
    NoMatch,
    /// The shape matched but the components are invalid.
    Invalid(Option<int>, int, int),
    /// One or two valid dates.
    Parsed((int, int, int), Option<(int, int, int)>, int),
}

/// Date pair read at `pos` with separator `sep`: a primary date, optionally
/// `=` and a secondary date whose year, when absent, is inherited from the
/// primary date. Invalid calendar components are a distinct failure.
pub open spec fn spec_parse_separator_date(s: Seq<char>, pos: int, sep: char) -> DateOutcome {
    match spec_parse_date_components(s, pos, sep) {
        None => DateOutcome::NoMatch,
        Some(((oy, m, d), p)) => match oy {
            None => DateOutcome::Invalid(None, m, d),
            Some(y) => if !spec_valid_date(y, m, d) {
                DateOutcome::Invalid(Some(y), m, d)
            } else {
                if p < s.len() && s[p] == '=' {
                    match spec_parse_date_components(s, p + 1, sep) {
                        None => DateOutcome::Parsed((y, m, d), None, p),
                        Some(((oy2, m2, d2), p2)) => {
                            let y2 = match oy2 {
                                Some(v) => v,
                                None => y,
                            };
                            if spec_valid_date(y2, m2, d2) {
                                DateOutcome::Parsed((y, m, d), Some((y2, m2, d2)), p2)
                            } else {
                                DateOutcome::Invalid(Some(y2), m2, d2)
                            }
                        },
                    }
                } else {
                    DateOutcome::Parsed((y, m, d), None, p)
                }
            },
        },
    }
}

/// Date pair read at `pos`: the separators `-`, `/` and `.` are tried in
/// that order; an invalid calendar combination stops the whole attempt.
pub open spec fn spec_parse_date(s: Seq<char>, pos: int) -> DateOutcome {
    match spec_parse_separator_date(s, pos, '-') {
        DateOutcome::NoMatch => match spec_parse_separator_date(s, pos, '/') {
            DateOutcome::NoMatch => spec_parse_separator_date(s, pos, '.'),
            o => o,
        },
        o => o,
    }
}

/// The error carries exactly the offending date components.
pub open spec fn invalid_components_error(e: HLParserError, oy: Option<int>, m: int, d: int) -> bool {
    &&& e matches HLParserError::Validation(ve)
    &&& (ve matches ValidationError::InvalidDateComponents(eoy, em, ed) && ({
        &&& match (eoy, oy) {
            (Some(a), Some(b)) => a as int == b,
            (None, None) => true,
            _ => false,
        }
        &&& em as int == m
        &&& ed as int == d
    }))
}

/// Does the outcome relate to the given parsed result?
pub open spec fn date_outcome_matches(
    o: DateOutcome,
    d1: Date,
    d2: Option<Date>,
    np: int,
) -> bool {
    match o {
        DateOutcome::Parsed((y, m, d), sec, e) => {
            &&& d1.year as int == y
            &&& d1.month as int == m
            &&& d1.day as int == d
            &&& e == np
            &&& match (d2, sec) {
                (Some(v), Some((y2, m2, d2v))) => v.year as int == y2 && v.month as int == m2
                    && v.day as int == d2v,
                (None, None) => true,
                _ => false,
            }
        },
        _ => false,
    }
}

/// Reads one date with a fixed separator, with its optional secondary date.
fn parse_separator_date(s: &str, pos: usize, sep: char) -> (r: Result<
    (Date, Option<Date>, usize),
    crate::ParseFailure,
>)
    requires
        pos <= s@.len(),
    ensures
        match r {
            Ok((d1, d2, np)) => date_outcome_matches(
                spec_parse_separator_date(s@, pos as int, sep),
                d1,
                d2,
                np as int,
            ) && d1.wf() && (d2 matches Some(v) ==> v.wf()) && pos <= np <= s@.len(),
            Err(crate::ParseFailure::Mismatch) => spec_parse_separator_date(s@, pos as int, sep)
                is NoMatch,
            Err(crate::ParseFailure::Fatal(e)) => (spec_parse_separator_date(
                s@,
                pos as int,
                sep,
            ) matches DateOutcome::Invalid(oy, m, d) && invalid_components_error(e, oy, m, d)),
        },
{
    let n = s.unicode_len();
    match parse_date_components(s, pos, sep) {
        None => Err(crate::ParseFailure::Mismatch),
        Some(((oy, m, d), p)) => {
            match oy {
                None => Err(
                    crate::ParseFailure::Fatal(
                        HLParserError::Validation(
                            ValidationError::InvalidDateComponents(None, m, d),
                        ),
                    ),
                ),
                Some(y) => {
                    match Date::from_ymd_opt(y, m, d) {
                        None => Err(
                            crate::ParseFailure::Fatal(
                                HLParserError::Validation(
                                    ValidationError::InvalidDateComponents(Some(y), m, d),
                                ),
                            ),
                        ),
                        Some(primary) => {
                            if p < n && s.get_char(p) == '=' {
                                match parse_date_components(s, p + 1, sep) {
                                    None => Ok((primary, None, p)),
                                    Some(((oy2, m2, d2), p2)) => {
                                        let y2 = match oy2 {
                                            Some(v) => v,
                                            None => y,
                                        };
                                        match Date::from_ymd_opt(y2, m2, d2) {
                                            Some(sec) => Ok((primary, Some(sec), p2)),
                                            None => Err(
                                                crate::ParseFailure::Fatal(
                                                    HLParserError::Validation(
                                                        ValidationError::InvalidDateComponents(
                                                            Some(y2),
                                                            m2,
                                                            d2,
                                                        ),
                                                    ),
                                                ),
                                            ),
                                        }
                                    },
                                }
                            } else {
                                Ok((primary, None, p))
                            }
                        },
                    }
                },
            }
        },
    }
}

/// Reads a date pair: `-`, `/` and `.` are tried in that order as the
/// separator; mixing separators inside one date never matches, and invalid
/// calendar components are a validation failure rather than a plain
/// mismatch.
pub fn parse_date(s: &str, pos: usize) -> (r: Result<
    (Date, Option<Date>, usize),
    crate::ParseFailure,
>)
    requires
        pos <= s@.len(),
    ensures
        match r {
            Ok((d1, d2, np)) => date_outcome_matches(
                spec_parse_date(s@, pos as int),
                d1,
                d2,
                np as int,
            ) && d1.wf() && (d2 matches Some(v) ==> v.wf()) && pos <= np <= s@.len(),
            Err(crate::ParseFailure::Mismatch) => spec_parse_date(s@, pos as int) is NoMatch,
            Err(crate::ParseFailure::Fatal(e)) => (spec_parse_date(s@, pos as int) matches
                DateOutcome::Invalid(oy, m, d) && invalid_components_error(e, oy, m, d)),
        },
{
    match parse_separator_date(s, pos, '-') {
        Err(crate::ParseFailure::Mismatch) => {
            match parse_separator_date(s, pos, '/') {
                Err(crate::ParseFailure::Mismatch) => parse_separator_date(s, pos, '.'),
                o => o,
            }
        },
        o => o,
    }
}


/// Law of smart year inheritance: when the secondary date omits its year,
/// the parsed secondary date carries the primary date's year.
pub proof fn lemma_smart_year_inheritance(s: Seq<char>, pos: int, sep: char)
    requires
        spec_parse_date_components(s, pos, sep) matches Some(((Some(y), m, d), p)) && ({
            &&& spec_valid_date(y, m, d)
            &&& p < s.len()
            &&& s[p] == '='
            &&& (spec_parse_date_components(s, p + 1, sep) matches Some(((oy2, m2, d2), p2))
                && oy2 is None && spec_valid_date(y, m2, d2))
        }),
    ensures
        spec_parse_separator_date(s, pos, sep) matches DateOutcome::Parsed(
            (y, m, d),
            sec,
            _p2,
        ) && {
            &&& spec_parse_date_components(s, pos, sep) matches Some(((Some(y2), m2, d2), _p))
                && y == y2
            &&& sec matches Some((sy, _sm, _sd)) && sy == y
        },
{
}

impl Date {
    /// The textual form of the date: the year zero-padded to four digits
    /// (with a leading minus for negative years), then the month and day,
    /// each zero-padded to two digits, separated by `-`.
    pub open spec fn spec_render(self) -> Seq<char> {
        let y = self.year as int;
        let ys: Seq<char> = if y < 0 {
            seq!['-'] + year_digits((-y) as nat)
        } else {
            year_digits(y as nat)
        };
        ys + seq!['-'] + crate::decimal::dec_rep_pad(self.month as nat, 2) + seq!['-']
            + crate::decimal::dec_rep_pad(self.day as nat, 2)
    }

    /// Renders the date to text.
    pub fn render(&self) -> (r: String)
        ensures
            r@ == self.spec_render(),
    {
        proof {
            reveal_strlit("-");
        }
        let mut out = String::new();
        if self.year < 0 {
            out.append("-");
        }
        let mag: u32 = if self.year < 0 {
            if self.year == i32::MIN {
                0x8000_0000u32
            } else {
                (-self.year) as u32
            }
        } else {
            self.year as u32
        };
        append_year(&mut out, mag);
        out.append("-");
        crate::decimal::append_dec_pad_u32(&mut out, self.month, 2);
        out.append("-");
        crate::decimal::append_dec_pad_u32(&mut out, self.day, 2);
        proof {
            assert(out@ =~= self.spec_render());
        }
        out
    }
}

/// The digits of a year: four digit places, more only when the year needs
/// them.
pub open spec fn year_digits(y: nat) -> Seq<char> {
    if y < 10000 {
        crate::decimal::dec_rep_pad(y, 4)
    } else {
        crate::decimal::dec_rep(y)
    }
}

/// Appends the digits of a year.
fn append_year(out: &mut String, y: u32)
    ensures
        final(out)@ == old(out)@ + year_digits(y as nat),
{
    if y < 10000 {
        crate::decimal::append_dec_pad_u32(out, y, 4);
    } else {
        crate::decimal::append_dec_u32(out, y);
    }
}

/// An unsigned numeric field of width `w` whose text is the zero-padded
/// digits of `n` reads back as exactly `n`, ending at the field's edge.
proof fn lemma_decu32_field(s: Seq<char>, off: int, n: nat, w: nat)
    requires
        n < pow10(w),
        n <= 0xFFFF_FFFF,
        1 <= w,
        0 <= off,
        off + w <= s.len(),
        s.subrange(off, off + w) == dec_rep_pad(n, w),
        off + w == s.len() || !is_digit_char(s[off + w]),
    ensures
        spec_decu32(s, off) == (n as u32, off + w),
{
    lemma_dec_rep_pad_digits(n, w);
    lemma_dec_rep_pad_value(n, w);
    let pad = dec_rep_pad(n, w);
    assert(forall|i: int| 0 <= i < w ==> #[trigger] s[off + i] == pad[i]) by {
        assert(forall|i: int| 0 <= i < w ==> #[trigger] s.subrange(off, off + w)[i] == s[off + i]);
    }
    assert(forall|k: int| off <= k < off + w ==> is_digit_char(#[trigger] s[k])) by {
        assert forall|k: int| off <= k < off + w implies is_digit_char(#[trigger] s[k]) by {
            assert(s[off + (k - off)] == pad[k - off]);
        }
    }
    lemma_run_end_is(s, off, |c: char| is_digit_char(c), off + w);
    assert(s.subrange(off, off + w) =~= pad);
    assert(digits_val(s.subrange(off, off + w)) == n);
}

/// A signed numeric field of width `w` whose text is the zero-padded digits
/// of `n` reads back as exactly `n`, ending at the field's edge: no sign is
/// read, because the field opens with a digit.
proof fn lemma_deci32_field(s: Seq<char>, off: int, n: nat, w: nat)
    requires
        n < pow10(w),
        n <= 0x7FFF_FFFF,
        1 <= w,
        0 <= off,
        off + w <= s.len(),
        s.subrange(off, off + w) == dec_rep_pad(n, w),
        off + w == s.len() || !is_digit_char(s[off + w]),
    ensures
        spec_deci32(s, off) == (n as i32, off + w),
{
    lemma_dec_rep_pad_digits(n, w);
    lemma_dec_rep_pad_value(n, w);
    let pad = dec_rep_pad(n, w);
    assert(forall|i: int| 0 <= i < w ==> #[trigger] s[off + i] == pad[i]) by {
        assert(forall|i: int| 0 <= i < w ==> #[trigger] s.subrange(off, off + w)[i] == s[off + i]);
    }
    assert(s[off] == pad[0]) by {
        assert(s[off + 0] == pad[0]);
    }
    assert(is_digit_char(s[off]));
    assert(s[off] != '-' && s[off] != '+');
    assert(forall|k: int| off <= k < off + w ==> is_digit_char(#[trigger] s[k])) by {
        assert forall|k: int| off <= k < off + w implies is_digit_char(#[trigger] s[k]) by {
            assert(s[off + (k - off)] == pad[k - off]);
        }
    }
    lemma_run_end_is(s, off, |c: char| is_digit_char(c), off + w);
    assert(s.subrange(off, off + w) =~= pad);
    assert(digits_val(s.subrange(off, off + w)) == n);
}

/// The textual form of a date with a chosen separator: the year zero-padded
/// to four digits, the month and day to two, with `sep` between them.
pub open spec fn date_text(d: Date, sep: char) -> Seq<char> {
    dec_rep_pad(d.year as nat, 4) + seq![sep] + dec_rep_pad(d.month as nat, 2) + seq![sep]
        + dec_rep_pad(d.day as nat, 2)
}

/// Law of separator equivalence: for every real calendar date with a
/// four-digit year, its text with `-`, with `/` and with `.` all parse to
/// that same date, with no secondary date, consuming all ten characters.
pub proof fn lemma_date_separator_equivalence(d: Date, sep: char)
    requires
        d.wf(),
        0 <= d.year <= 9999,
        sep == '-' || sep == '/' || sep == '.',
    ensures
        spec_parse_date(date_text(d, sep), 0) == DateOutcome::Parsed(
            (d.year as int, d.month as int, d.day as int),
            None,
            10,
        ),
{
    let s = date_text(d, sep);
    lemma_dec_rep_pad_digits(d.year as nat, 4);
    lemma_dec_rep_pad_digits(d.month as nat, 2);
    lemma_dec_rep_pad_digits(d.day as nat, 2);
    assert(s.len() == 10);
    assert(s.subrange(0, 4) =~= dec_rep_pad(d.year as nat, 4));
    assert(s[4] == sep);
    assert(s.subrange(5, 7) =~= dec_rep_pad(d.month as nat, 2));
    assert(s[7] == sep);
    assert(s.subrange(8, 10) =~= dec_rep_pad(d.day as nat, 2));
    assert(pow10(4) == 10000 && pow10(2) == 100) by {
        reveal_with_fuel(pow10, 6);
    }
    assert(!is_digit_char(sep));
    lemma_deci32_field(s, 0, d.year as nat, 4);
    lemma_decu32_field(s, 5, d.month as nat, 2);
    lemma_decu32_field(s, 8, d.day as nat, 2);
    // components with the matching separator
    assert(spec_parse_date_components(s, 0, sep) == Some(
        ((Some(d.year as int), d.month as int, d.day as int), 10int),
    ));
    assert(spec_parse_separator_date(s, 0, sep) == DateOutcome::Parsed(
        (d.year as int, d.month as int, d.day as int),
        None::<(int, int, int)>,
        10int,
    ));
    // a mismatching separator is rejected at the first field's edge
    if sep != '-' {
        assert(spec_parse_date_components(s, 0, '-') is None);
        assert(spec_parse_separator_date(s, 0, '-') is NoMatch);
    }
    if sep == '.' {
        assert(spec_parse_date_components(s, 0, '/') is None);
        assert(spec_parse_separator_date(s, 0, '/') is NoMatch);
    }
}

/// The rendered form of a date with a four-digit year parses back to the
/// very same date.
pub proof fn lemma_date_render_roundtrip(d: Date)
    requires
        d.wf(),
        0 <= d.year <= 9999,
    ensures
        spec_parse_date(d.spec_render(), 0) == DateOutcome::Parsed(
            (d.year as int, d.month as int, d.day as int),
            None,
            10,
        ),
{
    assert(d.spec_render() =~= date_text(d, '-'));
    lemma_date_separator_equivalence(d, '-');
}

/// The textual form of a date written with two different separators: one
/// between year and month, the other between month and day.
pub open spec fn mixed_date_text(d: Date, sep1: char, sep2: char) -> Seq<char> {
    dec_rep_pad(d.year as nat, 4) + seq![sep1] + dec_rep_pad(d.month as nat, 2) + seq![sep2]
        + dec_rep_pad(d.day as nat, 2)
}

/// Law of separator consistency: mixing two different separators inside
/// one date always fails, for every real calendar date with a four-digit
/// year. The first separator's attempt stops with a distinct failure: the
/// date is cut short at two components, which never form a date.
pub proof fn lemma_mixed_separator_fails(d: Date, sep1: char, sep2: char)
    requires
        d.wf(),
        0 <= d.year <= 9999,
        sep1 == '-' || sep1 == '/' || sep1 == '.',
        sep2 == '-' || sep2 == '/' || sep2 == '.',
        sep1 != sep2,
    ensures
        !(spec_parse_date(mixed_date_text(d, sep1, sep2), 0) is Parsed),
{
    let s = mixed_date_text(d, sep1, sep2);
    lemma_dec_rep_pad_digits(d.year as nat, 4);
    lemma_dec_rep_pad_digits(d.month as nat, 2);
    lemma_dec_rep_pad_digits(d.day as nat, 2);
    assert(s.len() == 10);
    assert(s.subrange(0, 4) =~= dec_rep_pad(d.year as nat, 4));
    assert(s[4] == sep1);
    assert(s.subrange(5, 7) =~= dec_rep_pad(d.month as nat, 2));
    assert(s[7] == sep2);
    assert(s.subrange(8, 10) =~= dec_rep_pad(d.day as nat, 2));
    assert(pow10(4) == 10000 && pow10(2) == 100) by {
        reveal_with_fuel(pow10, 6);
    }
    assert(!is_digit_char(sep1) && !is_digit_char(sep2));
    lemma_deci32_field(s, 0, d.year as nat, 4);
    lemma_decu32_field(s, 5, d.month as nat, 2);
    // with the first separator, the date is cut short at two components
    assert(spec_parse_date_components(s, 0, sep1) == Some(
        ((None::<int>, wrap_u32(d.year as int), d.month as int), 7int),
    ));
    assert(spec_parse_separator_date(s, 0, sep1) is Invalid);
    // with any other separator, the first field's edge does not match
    if sep1 != '-' {
        assert(spec_parse_date_components(s, 0, '-') is None);
        assert(spec_parse_separator_date(s, 0, '-') is NoMatch);
    }
    if sep1 == '.' {
        assert(spec_parse_date_components(s, 0, '/') is None);
        assert(spec_parse_separator_date(s, 0, '/') is NoMatch);
    }
}

} // verus!
