//! Clearing status of a transaction or a posting.
use vstd::prelude::*;

verus! {

/// Clearing status of a posting or a transaction.
#[derive(Debug, Clone, Copy, PartialEq, Eq, Structural)]
pub enum Status {
    /// No marker.
    Unmarked,
    /// Marked `!`.
    Pending,
    /// Marked `*`.
    Cleared,
}

impl Status {
    /// The textual marker of the status: empty, `!` or `*`.
    pub open spec fn spec_render(self) -> Seq<char> {
        match self {
            Status::Unmarked => Seq::empty(),
            Status::Pending => seq!['!'],
            Status::Cleared => seq!['*'],
        }
    }

    /// Renders the status marker.
    pub fn render(&self) -> (r: String)
        ensures
            r@ == self.spec_render(),
    {
        match self {
            Status::Unmarked => {
                let r = String::new();
                proof {
                    assert(r@ =~= self.spec_render());
                }
                r
            },
            Status::Pending => {
                let r = String::from_str("!");
                proof {
                    reveal_strlit("!");
                    assert(r@ =~= self.spec_render());
                }
                r
            },
            Status::Cleared => {
                let r = String::from_str("*");
                proof {
                    reveal_strlit("*");
                    assert(r@ =~= self.spec_render());
                }
                r
            },
        }
    }
}

/// Status read at `pos`: a `!` or `*` marker counts only when a space
/// follows it; anything else leaves the status unmarked and the position
/// unmoved.
pub open spec fn spec_parse_status(s: Seq<char>, pos: int) -> (Status, int) {
    if pos + 1 < s.len() && s[pos] == '!' && s[pos + 1] == ' ' {
        (Status::Pending, pos + 2)
    } else if pos + 1 < s.len() && s[pos] == '*' && s[pos + 1] == ' ' {
        (Status::Cleared, pos + 2)
    } else {
        (Status::Unmarked, pos)
    }
}

/// Reads an optional status marker. Never fails: absent markers mean
/// [`Status::Unmarked`].
pub fn parse_status(s: &str, pos: usize) -> (r: (Status, usize))
    requires
        pos <= s@.len(),
    ensures
        (r.0, r.1 as int) == spec_parse_status(s@, pos as int),
        pos <= r.1 <= s@.len(),
{
    let n = s.unicode_len();
    if pos < n && pos + 1 < n {
        let c = s.get_char(pos);
        if (c == '!' || c == '*') && s.get_char(pos + 1) == ' ' {
            let st = if c == '!' {
                Status::Pending
            } else {
                Status::Cleared
            };
            return (st, pos + 2);
        }
    }
    (Status::Unmarked, pos)
}

} // verus!
