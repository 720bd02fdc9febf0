//! Market price declarations: `P <date> <currency> <amount>`.
use vstd::prelude::*;
use crate::amount::{
    Amount, spec_parse_currency, spec_parse_amount, amount_matches, parse_currency_string,
    parse_amount,
};
use crate::date::{Date, DateOutcome, spec_parse_date, parse_date};
use crate::utils::{
    is_space_char, run_end, run_end_within, spec_line_content_end, line_content_end, scan_spaces,
    scan_spaces_within, lemma_line_content_end_props,
};
use crate::commodity::{line_ending_or_eof_at, after_line_ending};
use crate::ParseFailure;

verus! {

/// A market price declaration: on a date, one unit of the commodity is
/// worth the amount.
#[derive(Debug, PartialEq)]
pub struct Price {
    /// The commodity being priced.
    pub commodity: String,
    /// The effective date.
    pub date: Date,
    /// What one unit is worth.
    pub amount: Amount,
}

impl Clone for Price {
    /// A clone is equal to the original.
    fn clone(&self) -> (r: Self)
        ensures
            r == *self,
    {
        Price { commodity: self.commodity.clone(), date: self.date, amount: self.amount.clone() }
    }
}

impl Price {
    /// Well-formedness: the date is a real calendar date and the amount a
    /// well-formed decimal.
    pub open spec fn wf(self) -> bool {
        self.date.wf() && self.amount.wf()
    }
}

/// Spec-level view of a price declaration and where it ends.
pub struct SpecPrice {
    /// The commodity being priced.
    pub commodity: Seq<char>,
    /// The effective date, as year, month and day.
    pub date: (int, int, int),
    /// The amount: currency, mantissa and scale.
    pub amount: (Seq<char>, int, nat),
    /// The position after the trailing line ending.
    pub end: int,
}

/// Outcome of reading a price declaration.
pub enum PriceOutcome {
    /// The text does not have the shape of a price declaration.
    NoMatch,
    /// The date matched in shape but is no real calendar date.
    Invalid,
    /// A parsed declaration.
    Parsed(SpecPrice),
}

/// Price declaration read at `pos`: a `P`, spaces, a date, spaces, the
/// commodity, spaces, an amount, then a line ending or the end of the text.
pub open spec fn spec_parse_price(s: Seq<char>, pos: int) -> PriceOutcome {
    if pos < s.len() && s[pos] == 'P' {
        let sp = run_end(s, pos + 1, |c: char| is_space_char(c));
        if sp == pos + 1 {
            PriceOutcome::NoMatch
        } else {
            match spec_parse_date(s, sp) {
                DateOutcome::NoMatch => PriceOutcome::NoMatch,
                DateOutcome::Invalid(_, _, _) => PriceOutcome::Invalid,
                DateOutcome::Parsed(d, _sec, de) => {
                    let sp2 = run_end(s, de, |c: char| is_space_char(c));
                    if sp2 == de {
                        PriceOutcome::NoMatch
                    } else {
                        let ce = spec_line_content_end(s, sp2);
                        let cur = spec_parse_currency(s, sp2, ce);
                        let sp3 = run_end_within(s, cur.1, ce, |c: char| is_space_char(c));
                        if sp3 == cur.1 {
                            PriceOutcome::NoMatch
                        } else {
                            match spec_parse_amount(s, sp3, ce) {
                                Some((ac, am, asc, ae)) => if line_ending_or_eof_at(s, ae) {
                                    PriceOutcome::Parsed(
                                        SpecPrice {
                                            commodity: cur.0,
                                            date: d,
                                            amount: (ac, am, asc),
                                            end: after_line_ending(s, ae),
                                        },
                                    )
                                } else {
                                    PriceOutcome::NoMatch
                                },
                                None => PriceOutcome::NoMatch,
                            }
                        }
                    }
                },
            }
        }
    } else {
        PriceOutcome::NoMatch
    }
}

/// Reads a price declaration, consuming its trailing line ending.
pub fn parse_price(s: &str, pos: usize) -> (r: Result<(Price, usize), ParseFailure>)
    requires
        pos <= s@.len(),
    ensures
        match r {
            Ok((p, np)) => {
                &&& spec_parse_price(s@, pos as int) matches PriceOutcome::Parsed(q)
                &&& p.commodity@ == q.commodity
                &&& p.date.year as int == q.date.0
                &&& p.date.month as int == q.date.1
                &&& p.date.day as int == q.date.2
                &&& amount_matches(p.amount, (q.amount.0, q.amount.1, q.amount.2, 0))
                &&& q.end == np as int
                &&& p.wf()
                &&& pos < np <= s@.len()
            },
            Err(ParseFailure::Mismatch) => spec_parse_price(s@, pos as int) is NoMatch,
            Err(ParseFailure::Fatal(e)) => spec_parse_price(s@, pos as int) is Invalid && (
            spec_parse_date(s@, run_end(s@, pos as int + 1, |c: char| is_space_char(c))) matches
                DateOutcome::Invalid(oy, m, d) && crate::date::invalid_components_error(
                e,
                oy,
                m,
                d,
            )),
        },
{
    let n = s.unicode_len();
    if !(pos < n && s.get_char(pos) == 'P') {
        return Err(ParseFailure::Mismatch);
    }
    let sp = scan_spaces(s, pos + 1);
    if sp == pos + 1 {
        return Err(ParseFailure::Mismatch);
    }
    match parse_date(s, sp) {
        Err(ParseFailure::Mismatch) => Err(ParseFailure::Mismatch),
        Err(ParseFailure::Fatal(e)) => Err(ParseFailure::Fatal(e)),
        Ok((d, _sec, de)) => {
            let sp2 = scan_spaces(s, de);
            if sp2 == de {
                return Err(ParseFailure::Mismatch);
            }
            let ce = line_content_end(s, sp2);
            proof {
                lemma_line_content_end_props(s@, sp2 as int);
            }
            let (cur, cp) = parse_currency_string(s, sp2, ce);
            let sp3 = scan_spaces_within(s, cp, ce);
            if sp3 == cp {
                return Err(ParseFailure::Mismatch);
            }
            match parse_amount(s, sp3, ce) {
                Some((a, ae)) => {
                    match crate::utils::try_line_ending(s, ae) {
                        Some(np) => Ok((Price { commodity: cur, date: d, amount: a }, np)),
                        None => Err(ParseFailure::Mismatch),
                    }
                },
                None => Err(ParseFailure::Mismatch),
            }
        },
    }
}

impl Price {
    /// The textual form of the declaration: `P`, the date, the commodity
    /// and the amount, separated by single spaces.
    pub open spec fn spec_render(self) -> Seq<char> {
        "P "@ + self.date.spec_render() + seq![' '] + self.commodity@ + seq![' ']
            + self.amount.spec_render()
    }

    /// Renders the declaration back to its textual grammar form.
    pub fn render(&self) -> (r: String)
        requires
            self.wf(),
        ensures
            r@ == self.spec_render(),
    {
        proof {
            reveal_strlit("P ");
            reveal_strlit(" ");
        }
        let mut out = String::from_str("P ");
        let ds = self.date.render();
        out.append(ds.as_str());
        out.append(" ");
        out.append(self.commodity.as_str());
        out.append(" ");
        let amts = self.amount.render();
        out.append(amts.as_str());
        proof {
            assert(out@ =~= self.spec_render());
        }
        out
    }
}

} // verus!
