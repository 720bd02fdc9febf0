//! Comment lines and trailing transaction comments.
use vstd::prelude::*;
use crate::utils::{
    is_space_char, run_end, run_end_within, spec_line_content_end, line_content_end, scan_spaces,
    substr,
};

verus! {

/// Line comment read at `pos`: a `#`, `;` or `*` marker, optional spaces,
/// then the rest of the line. `None` when no marker stands at `pos`.
pub open spec fn spec_parse_line_comment(s: Seq<char>, pos: int) -> Option<(Seq<char>, int)> {
    if pos < s.len() && (s[pos] == '#' || s[pos] == ';' || s[pos] == '*') {
        let sp = run_end(s, pos + 1, |c: char| is_space_char(c));
        let ce = spec_line_content_end(s, sp);
        Some((s.subrange(sp, ce), ce))
    } else {
        None
    }
}

/// Reads a whole-line comment, stopping before the line ending.
pub fn parse_line_comment(s: &str, pos: usize) -> (r: Option<(String, usize)>)
    requires
        pos <= s@.len(),
    ensures
        match r {
            Some((t, np)) => spec_parse_line_comment(s@, pos as int) == Some((t@, np as int))
                && pos < np <= s@.len(),
            None => spec_parse_line_comment(s@, pos as int) is None,
        },
{
    let n = s.unicode_len();
    if pos >= n {
        return None;
    }
    let c = s.get_char(pos);
    if !(c == '#' || c == ';' || c == '*') {
        return None;
    }
    let sp = scan_spaces(s, pos + 1);
    let ce = line_content_end(s, sp);
    Some((substr(s, sp, ce), ce))
}

/// Trailing comment read at `pos`: a `;` marker, optional spaces, then the
/// rest of the line. `None` when no `;` stands at `pos`.
pub open spec fn spec_parse_transaction_comment(s: Seq<char>, pos: int) -> Option<
    (Seq<char>, int),
> {
    if pos < s.len() && s[pos] == ';' {
        let sp = run_end(s, pos + 1, |c: char| is_space_char(c));
        let ce = spec_line_content_end(s, sp);
        Some((s.subrange(sp, ce), ce))
    } else {
        None
    }
}

/// Reads a transaction's trailing comment, introduced by `;` alone.
pub fn parse_transaction_comment(s: &str, pos: usize) -> (r: Option<(String, usize)>)
    requires
        pos <= s@.len(),
    ensures
        match r {
            Some((t, np)) => spec_parse_transaction_comment(s@, pos as int) == Some(
                (t@, np as int),
            ) && pos < np <= s@.len(),
            None => spec_parse_transaction_comment(s@, pos as int) is None,
        },
{
    let n = s.unicode_len();
    if pos >= n || s.get_char(pos) != ';' {
        return None;
    }
    let sp = scan_spaces(s, pos + 1);
    let ce = line_content_end(s, sp);
    Some((substr(s, sp, ce), ce))
}

} // verus!
