//! The optional parenthesized code on a transaction header.
use vstd::prelude::*;
use crate::utils::{
    is_space_char, run_end_within, scan_spaces_within, substr, lemma_run_end_within_is,
};

verus! {

/// Code read inside `[pos, end)`: an opening parenthesis, optional spaces,
/// then at least one character up to the closing parenthesis. `None` when
/// the shape is not met or the interior is empty.
pub open spec fn spec_parse_code(s: Seq<char>, pos: int, end: int) -> Option<(Seq<char>, int)> {
    if pos < end && s[pos] == '(' {
        let sp = run_end_within(s, pos + 1, end, |c: char| is_space_char(c));
        let j = run_end_within(s, sp, end, |c: char| c != ')');
        if j < end && j > sp {
            Some((s.subrange(sp, j), j + 1))
        } else {
            None
        }
    } else {
        None
    }
}

/// Reads a parenthesized transaction code.
pub fn parse_code(s: &str, pos: usize, end: usize) -> (r: Option<(String, usize)>)
    requires
        pos <= end <= s@.len(),
    ensures
        match r {
            Some((t, np)) => spec_parse_code(s@, pos as int, end as int) == Some(
                (t@, np as int),
            ) && pos < np <= end,
            None => spec_parse_code(s@, pos as int, end as int) is None,
        },
{
    if pos >= end || s.get_char(pos) != '(' {
        return None;
    }
    let sp = scan_spaces_within(s, pos + 1, end);
    let mut j = sp;
    while j < end
        invariant
            sp <= j <= end <= s@.len(),
            forall|k: int| sp <= k < j ==> s@[k] != ')',
        ensures
            sp <= j <= end,
            forall|k: int| sp <= k < j ==> s@[k] != ')',
            j == end || s@[j as int] == ')',
        decreases end - j,
    {
        if s.get_char(j) == ')' {
            break;
        }
        j = j + 1;
    }
    proof {
        lemma_run_end_within_is(s@, sp as int, end as int, |c: char| c != ')', j as int);
    }
    if j < end && j > sp {
        Some((substr(s, sp, j), j + 1))
    } else {
        None
    }
}

} // verus!
