//! Declared commodities: a name and an optional verbatim display format.
use vstd::prelude::*;
use crate::amount::{spec_parse_currency, spec_parse_money, parse_currency_string, parse_money_amount};
use crate::utils::{
    is_space_char, run_end, run_end_within, spec_line_content_end, line_content_end, scan_spaces,
    scan_spaces_within, substr, starts_with_at, try_line_ending,
};

verus! {

/// A declared commodity: its name, and an optional display-format sample
/// kept as opaque text.
#[derive(Debug, PartialEq, Eq)]
pub struct Commodity {
    /// The declared name.
    pub name: String,
    /// The verbatim format sample, when one was given.
    pub format: Option<String>,
}

impl Clone for Commodity {
    /// A clone is equal to the original.
    fn clone(&self) -> (r: Self)
        ensures
            r == *self,
    {
        Commodity {
            name: self.name.clone(),
            format: match &self.format {
                Some(v) => Some(v.clone()),
                None => None,
            },
        }
    }
}

/// Multi-line commodity directive read at `pos`: the word `commodity`,
/// spaces, a currency name up to the line ending, then an indented `format`
/// line whose remainder is the stored format.
pub open spec fn spec_parse_commodity_multi(s: Seq<char>, pos: int) -> Option<
    (Seq<char>, Seq<char>, int),
> {
    if pos + 9 <= s.len() && s.subrange(pos, pos + 9) == "commodity"@ {
        let sp = run_end(s, pos + 9, |c: char| is_space_char(c));
        if sp == pos + 9 {
            None
        } else {
            let ce1 = spec_line_content_end(s, sp);
            let cur = spec_parse_currency(s, sp, ce1);
            if cur.1 == ce1 && ce1 < s.len() {
                let nl = if s[ce1] == '\n' {
                    ce1 + 1
                } else {
                    ce1 + 2
                };
                let ind = run_end(s, nl, |c: char| is_space_char(c));
                if ind > nl && ind + 6 <= s.len() && s.subrange(ind, ind + 6) == "format"@ {
                    let fsp = run_end(s, ind + 6, |c: char| is_space_char(c));
                    if fsp > ind + 6 {
                        let ce2 = spec_line_content_end(s, fsp);
                        Some((cur.0, s.subrange(fsp, ce2), ce2))
                    } else {
                        None
                    }
                } else {
                    None
                }
            } else {
                None
            }
        }
    } else {
        None
    }
}

/// Single-line commodity directive read at `pos`: the word `commodity`,
/// spaces, then either a sample amount whose currency is the name and whose
/// full text is the format, or a bare currency name optionally followed by a
/// sample quantity.
pub open spec fn spec_parse_commodity_single(s: Seq<char>, pos: int) -> Option<
    (Seq<char>, Option<Seq<char>>, int),
> {
    if pos + 9 <= s.len() && s.subrange(pos, pos + 9) == "commodity"@ {
        let sp = run_end(s, pos + 9, |c: char| is_space_char(c));
        if sp == pos + 9 {
            None
        } else {
            let ce = spec_line_content_end(s, sp);
            match spec_parse_money(s, sp, ce) {
                Some((m, sc, pe)) => {
                    let p2 = run_end_within(s, pe, ce, |c: char| is_space_char(c));
                    let cur = spec_parse_currency(s, p2, ce);
                    Some((cur.0, Some(s.subrange(sp, cur.1)), cur.1))
                },
                None => {
                    let cur = spec_parse_currency(s, sp, ce);
                    let p2 = run_end_within(s, cur.1, ce, |c: char| is_space_char(c));
                    match spec_parse_money(s, p2, ce) {
                        Some((m, sc, pe)) => Some((cur.0, Some(s.subrange(sp, pe)), pe)),
                        None => Some((cur.0, None, p2)),
                    }
                },
            }
        }
    } else {
        None
    }
}

/// Commodity directive read at `pos`: the multi-line form is tried first,
/// then the single-line form; a line ending or the end of the text must
/// follow.
pub open spec fn spec_parse_commodity(s: Seq<char>, pos: int) -> Option<
    (Seq<char>, Option<Seq<char>>, int),
> {
    match spec_parse_commodity_multi(s, pos) {
        Some((name, fmt, e)) => if line_ending_or_eof_at(s, e) {
            Some((name, Some(fmt), after_line_ending(s, e)))
        } else {
            None
        },
        None => match spec_parse_commodity_single(s, pos) {
            Some((name, fmt, e)) => if line_ending_or_eof_at(s, e) {
                Some((name, fmt, after_line_ending(s, e)))
            } else {
                None
            },
            None => None,
        },
    }
}

/// Does a line ending (or the end of the text) stand at `pos`?
pub open spec fn line_ending_or_eof_at(s: Seq<char>, pos: int) -> bool {
    pos == s.len() || s[pos] == '\n' || (s[pos] == '\r' && pos + 1 < s.len() && s[pos + 1]
        == '\n')
}

/// The position just past the line ending at `pos`.
pub open spec fn after_line_ending(s: Seq<char>, pos: int) -> int {
    if pos == s.len() {
        pos
    } else if s[pos] == '\n' {
        pos + 1
    } else {
        pos + 2
    }
}

/// Reads a `commodity` declaration, single- or multi-line, consuming its
/// trailing line ending.
pub fn parse_commodity_directive(s: &str, pos: usize) -> (r: Option<(Commodity, usize)>)
    requires
        pos <= s@.len(),
    ensures
        match r {
            Some((c, np)) => {
                &&& spec_parse_commodity(s@, pos as int) matches Some((name, fmt, e))
                &&& c.name@ == name
                &&& e == np as int
                &&& match (c.format, fmt) {
                    (Some(cf), Some(sf)) => cf@ == sf,
                    (None, None) => true,
                    _ => false,
                }
                &&& pos < np <= s@.len()
            },
            None => spec_parse_commodity(s@, pos as int) is None,
        },
{
    proof {
        reveal_strlit("commodity");
        reveal_strlit("format");
    }
    let n = s.unicode_len();
    if !starts_with_at(s, pos, "commodity") {
        return None;
    }
    assert(pos + 9 <= n);
    let sp = scan_spaces(s, pos + 9);
    if sp == pos + 9 {
        return None;
    }
    // multi-line form first
    let ce1 = line_content_end(s, sp);
    proof {
        crate::utils::lemma_line_content_end_props(s@, sp as int);
    }
    let multi: Option<(Commodity, usize)> = {
        let (cur, cp) = parse_currency_string(s, sp, ce1);
        if cp == ce1 && ce1 < n {
            let nl = if s.get_char(ce1) == '\n' {
                ce1 + 1
            } else {
                ce1 + 2
            };
            assert(nl <= n);
            let ind = scan_spaces(s, nl);
            if ind > nl && starts_with_at(s, ind, "format") {
                assert(ind + 6 <= n);
                let fsp = scan_spaces(s, ind + 6);
                if fsp > ind + 6 {
                    let ce2 = line_content_end(s, fsp);
                    let fmt = substr(s, fsp, ce2);
                    Some((Commodity { name: cur, format: Some(fmt) }, ce2))
                } else {
                    None
                }
            } else {
                None
            }
        } else {
            None
        }
    };
    match multi {
        Some((c, e)) => {
            match try_line_ending(s, e) {
                Some(np) => Some((c, np)),
                None => None,
            }
        },
        None => {
            // single-line form
            let single: (Commodity, usize) = match parse_money_amount(s, sp, ce1) {
                Some((_d, pe)) => {
                    let p2 = scan_spaces_within(s, pe, ce1);
                    let (cur, cp) = parse_currency_string(s, p2, ce1);
                    (Commodity { name: cur, format: Some(substr(s, sp, cp)) }, cp)
                },
                None => {
                    let (cur, cp) = parse_currency_string(s, sp, ce1);
                    let p2 = scan_spaces_within(s, cp, ce1);
                    match parse_money_amount(s, p2, ce1) {
                        Some((_d, pe)) => (
                            Commodity { name: cur, format: Some(substr(s, sp, pe)) },
                            pe,
                        ),
                        None => (Commodity { name: cur, format: None }, p2),
                    }
                },
            };
            match try_line_ending(s, single.1) {
                Some(np) => Some((single.0, np)),
                None => None,
            }
        },
    }
}

impl Commodity {
    /// The textual form of the declaration: the single-line form for a bare
    /// name, the multi-line form when a format is stored.
    pub open spec fn spec_render(self) -> Seq<char> {
        match self.format {
            Some(f) => "commodity "@ + self.name@ + "\n  format "@ + f@,
            None => "commodity "@ + self.name@,
        }
    }

    /// Renders the declaration back to its textual grammar form.
    pub fn render(&self) -> (r: String)
        ensures
            r@ == self.spec_render(),
    {
        proof {
            reveal_strlit("commodity ");
            reveal_strlit("\n  format ");
        }
        let mut out = String::from_str("commodity ");
        out.append(self.name.as_str());
        match &self.format {
            Some(f) => {
                out.append("\n  format ");
                out.append(f.as_str());
            },
            None => {},
        }
        proof {
            assert(out@ =~= self.spec_render());
        }
        out
    }
}

} // verus!
