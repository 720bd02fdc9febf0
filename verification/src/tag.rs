//! Tags attached to a transaction: a name, optionally a value.
use vstd::prelude::*;
use crate::utils::{
    run_end_within, spec_in_quotes, spec_trim, in_quotes, substr, substr_trimmed,
    lemma_run_end_within_is,
};

verus! {

/// A tag and its possible value.
#[derive(Debug, PartialEq, Eq)]
pub struct Tag {
    /// The tag's name.
    pub name: String,
    /// The tag's value; absent when nothing but whitespace follows the colon.
    pub value: Option<String>,
}

impl Clone for Tag {
    /// A clone is equal to the original.
    fn clone(&self) -> (r: Self)
        ensures
            r == *self,
    {
        Tag {
            name: self.name.clone(),
            value: match &self.value {
                Some(v) => Some(v.clone()),
                None => None,
            },
        }
    }
}

impl Tag {
    /// The textual form of the tag: `name:` or `name:value`.
    pub open spec fn spec_render(self) -> Seq<char> {
        match self.value {
            Some(v) => self.name@ + seq![':'] + v@,
            None => self.name@ + seq![':'],
        }
    }

    /// Renders the tag back to its textual grammar form.
    pub fn render(&self) -> (r: String)
        ensures
            r@ == self.spec_render(),
    {
        let mut out = self.name.clone();
        out.append(":");
        proof {
            reveal_strlit(":");
            assert(":"@ =~= seq![':']);
        }
        match &self.value {
            Some(v) => {
                out.append(v.as_str());
                proof {
                    assert(out@ =~= self.spec_render());
                }
            },
            None => {
                proof {
                    assert(out@ =~= self.spec_render());
                }
            },
        }
        out
    }
}

/// Unquoted tag names run up to a space, tab or colon.
pub open spec fn is_tag_name_char(c: char) -> bool {
    c != ' ' && c != '\t' && c != ':'
}

/// Tag read inside `[pos, end)`: a quoted or bare name, a mandatory colon,
/// then everything up to a comma as the value, trimmed; a blank value means
/// no value. `None` when no colon follows the name.
pub open spec fn spec_parse_tag(s: Seq<char>, pos: int, end: int) -> Option<
    (Seq<char>, Option<Seq<char>>, int),
> {
    let named = if spec_in_quotes(s, pos, end) is Some {
        spec_in_quotes(s, pos, end).unwrap()
    } else {
        (
            s.subrange(pos, run_end_within(s, pos, end, |c: char| is_tag_name_char(c))),
            run_end_within(s, pos, end, |c: char| is_tag_name_char(c)),
        )
    };
    if named.1 < end && s[named.1] == ':' {
        let ve = run_end_within(s, named.1 + 1, end, |c: char| c != ',');
        let v = spec_trim(s.subrange(named.1 + 1, ve));
        Some((named.0, if v.len() == 0 {
            Option::None
        } else {
            Option::Some(v)
        }, ve))
    } else {
        None
    }
}

/// Reads one tag inside `[pos, end)`.
pub fn parse_tag(s: &str, pos: usize, end: usize) -> (r: Option<(Tag, usize)>)
    requires
        pos <= end <= s@.len(),
    ensures
        match r {
            Some((t, np)) => {
                &&& pos <= np <= end
                &&& spec_parse_tag(s@, pos as int, end as int) matches Some((n, v, sp))
                &&& t.name@ == n
                &&& sp == np as int
                &&& match (t.value, v) {
                    (Some(tv), Some(vv)) => tv@ == vv,
                    (None, None) => true,
                    _ => false,
                }
            },
            None => spec_parse_tag(s@, pos as int, end as int) is None,
        },
{
    let quoted = in_quotes(s, pos, end);
    let (name, after_name): (String, usize) = match quoted {
        Some((q, np)) => (q, np),
        None => {
            let mut i = pos;
            while i < end
                invariant
                    pos <= i <= end <= s@.len(),
                    forall|k: int| pos <= k < i ==> is_tag_name_char(s@[k]),
                ensures
                    pos <= i <= end,
                    forall|k: int| pos <= k < i ==> is_tag_name_char(s@[k]),
                    i == end || !is_tag_name_char(s@[i as int]),
                decreases end - i,
            {
                let c = s.get_char(i);
                if c == ' ' || c == '\t' || c == ':' {
                    break;
                }
                i = i + 1;
            }
            proof {
                lemma_run_end_within_is(
                    s@,
                    pos as int,
                    end as int,
                    |c: char| is_tag_name_char(c),
                    i as int,
                );
            }
            (substr(s, pos, i), i)
        },
    };
    if after_name < end && s.get_char(after_name) == ':' {
        let mut ve = after_name + 1;
        while ve < end
            invariant
                after_name + 1 <= ve <= end <= s@.len(),
                forall|k: int| after_name + 1 <= k < ve ==> s@[k] != ',',
            ensures
                after_name + 1 <= ve <= end,
                forall|k: int| after_name + 1 <= k < ve ==> s@[k] != ',',
                ve == end || s@[ve as int] == ',',
            decreases end - ve,
        {
            if s.get_char(ve) == ',' {
                break;
            }
            ve = ve + 1;
        }
        proof {
            lemma_run_end_within_is(
                s@,
                after_name as int + 1,
                end as int,
                |c: char| c != ',',
                ve as int,
            );
        }
        let v = substr_trimmed(s, after_name + 1, ve);
        let value = if v.as_str().is_empty() {
            Option::None
        } else {
            Option::Some(v)
        };
        Some((Tag { name, value }, ve))
    } else {
        None
    }
}

} // verus!
