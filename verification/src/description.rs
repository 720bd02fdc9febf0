//! The free-form description of a transaction: an optional payee and an
//! optional note, split on the first `|`.
use vstd::prelude::*;
use crate::utils::{run_end_within, spec_trim, find_char, substr_trimmed, lemma_run_end_within_is};

verus! {

/// Transaction description: an optional payee and an optional note. A
/// missing part is distinct from an empty one; blank text means missing.
#[derive(Debug, PartialEq, Eq)]
pub struct Description {
    /// The payee of the transaction.
    pub payee: Option<String>,
    /// The note of the transaction.
    pub note: Option<String>,
}

impl Clone for Description {
    /// A clone is equal to the original.
    fn clone(&self) -> (r: Self)
        ensures
            r == *self,
    {
        Description {
            payee: match &self.payee {
                Some(v) => Some(v.clone()),
                None => None,
            },
            note: match &self.note {
                Some(v) => Some(v.clone()),
                None => None,
            },
        }
    }
}

impl Description {
    /// True when neither a payee nor a note is present.
    pub fn is_missing(&self) -> (r: bool)
        ensures
            r == (self.payee is None && self.note is None),
    {
        self.payee.is_none() && self.note.is_none()
    }

    /// The textual form: `payee | note`, `note`, `payee |`, or nothing.
    pub open spec fn spec_render(self) -> Seq<char> {
        match (self.payee, self.note) {
            (Some(p), Some(n)) => p@ + seq![' ', '|', ' '] + n@,
            (None, Some(n)) => n@,
            (Some(p), None) => p@ + seq![' ', '|'],
            (None, None) => Seq::empty(),
        }
    }

    /// Renders the description back to its textual grammar form.
    pub fn render(&self) -> (r: String)
        ensures
            r@ == self.spec_render(),
    {
        proof {
            reveal_strlit(" | ");
            reveal_strlit(" |");
        }
        match (&self.payee, &self.note) {
            (Some(p), Some(n)) => {
                let mut out = p.clone();
                out.append(" | ");
                out.append(n.as_str());
                proof {
                    assert(out@ =~= self.spec_render());
                }
                out
            },
            (None, Some(n)) => n.clone(),
            (Some(p), None) => {
                let mut out = p.clone();
                out.append(" |");
                proof {
                    assert(out@ =~= self.spec_render());
                }
                out
            },
            (None, None) => {
                let out = String::new();
                proof {
                    assert(out@ =~= self.spec_render());
                }
                out
            },
        }
    }
}

/// Description read from the region `[pos, end)`, which is first cut short
/// at the first `;`: with a `|`, the left side is the payee and the right
/// side the note; without one, the whole region is the note. Both are
/// trimmed, and blank parts are missing.
pub open spec fn spec_parse_description(s: Seq<char>, pos: int, end: int) -> (
    Option<Seq<char>>,
    Option<Seq<char>>,
) {
    let de = run_end_within(s, pos, end, |c: char| c != ';');
    let bar = run_end_within(s, pos, de, |c: char| c != '|');
    if bar < de {
        (
            blank_to_none(spec_trim(s.subrange(pos, bar))),
            blank_to_none(spec_trim(s.subrange(bar + 1, de))),
        )
    } else {
        (None, blank_to_none(spec_trim(s.subrange(pos, de))))
    }
}

/// Empty text becomes a missing part.
pub open spec fn blank_to_none(s: Seq<char>) -> Option<Seq<char>> {
    if s.len() == 0 {
        None
    } else {
        Some(s)
    }
}

/// Reads the description out of the region `[pos, end)`. Never fails: blank
/// regions give a description with both parts missing.
pub fn parse_description(s: &str, pos: usize, end: usize) -> (r: Description)
    requires
        pos <= end <= s@.len(),
    ensures
        ({
            let (p, n) = spec_parse_description(s@, pos as int, end as int);
            &&& match (r.payee, p) {
                (Some(rv), Some(sv)) => rv@ == sv,
                (None, None) => true,
                _ => false,
            }
            &&& match (r.note, n) {
                (Some(rv), Some(sv)) => rv@ == sv,
                (None, None) => true,
                _ => false,
            }
        }),
{
    let de = match find_char(s, pos, end, ';') {
        Some(j) => j,
        None => end,
    };
    proof {
        lemma_run_end_within_is(s@, pos as int, end as int, |c: char| c != ';', de as int);
    }
    let bar_opt = find_char(s, pos, de, '|');
    proof {
        match bar_opt {
            Some(j) => {
                lemma_run_end_within_is(s@, pos as int, de as int, |c: char| c != '|', j as int);
            },
            None => {
                lemma_run_end_within_is(s@, pos as int, de as int, |c: char| c != '|', de as int);
            },
        }
    }
    match bar_opt {
        Some(bar) => {
            let p = substr_trimmed(s, pos, bar);
            let n = substr_trimmed(s, bar + 1, de);
            Description {
                payee: if p.as_str().is_empty() {
                    Option::None
                } else {
                    Option::Some(p)
                },
                note: if n.as_str().is_empty() {
                    Option::None
                } else {
                    Option::Some(n)
                },
            }
        },
        None => {
            let n = substr_trimmed(s, pos, de);
            Description {
                payee: Option::None,
                note: if n.as_str().is_empty() {
                    Option::None
                } else {
                    Option::Some(n)
                },
            }
        },
    }
}

} // verus!
