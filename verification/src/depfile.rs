//! The dependency-cache file format: the compiler's make-rule listing
//! `target: source header1 header2 \`.  The consumer skips past the
//! second space-delimited field (the target and the source itself) and
//! splits the remainder on whitespace; line-continuation backslashes are
//! filtered later, at the staleness check.

use vstd::prelude::*;
use vstd::string::*;

use crate::strutil::{first_index, str_first_index_of};

verus! {

/// The whitespace the tokenizer splits on.
pub open spec fn is_make_space(c: char) -> bool {
    c == ' ' || c == '\n' || c == '\t' || c == '\r'
}

/// Whether `c` separates tokens of a make-rule listing.
pub fn is_make_space_char(c: char) -> (r: bool)
    ensures
        r == is_make_space(c),
{
    c == ' ' || c == '\n' || c == '\t' || c == '\r'
}

/// Length of the leading token of `s`: the index of the first
/// whitespace character, or the whole length.
pub open spec fn token_end(s: Seq<char>) -> int
    decreases s.len(),
{
    if s.len() == 0 {
        0
    } else if is_make_space(s[0]) {
        0
    } else {
        1 + token_end(s.drop_first())
    }
}

proof fn lemma_token_end_bounds(s: Seq<char>)
    ensures
        0 <= token_end(s) <= s.len(),
        s.len() > 0 && !is_make_space(s[0]) ==> token_end(s) >= 1,
    decreases s.len(),
{
    if s.len() > 0 && !is_make_space(s[0]) {
        lemma_token_end_bounds(s.drop_first());
    }
}

proof fn lemma_token_end_at(s: Seq<char>, i: int)
    requires
        0 <= i <= s.len(),
        forall|j: int| 0 <= j < i ==> !is_make_space(#[trigger] s[j]),
        i < s.len() ==> is_make_space(s[i]),
    ensures
        token_end(s) == i,
    decreases s.len(),
{
    if s.len() > 0 && !is_make_space(s[0]) {
        let sd = s.drop_first();
        assert forall|j: int| 0 <= j < i - 1 implies !is_make_space(#[trigger] sd[j]) by {
            assert(sd[j] == s[j + 1]);
        }
        lemma_token_end_at(sd, i - 1);
    }
}

/// The whitespace-separated tokens of `s`, in order.
pub open spec fn tokens_spec(s: Seq<char>) -> Seq<Seq<char>>
    decreases s.len(),
    via tokens_spec_decreases
{
    if s.len() == 0 {
        Seq::empty()
    } else if is_make_space(s[0]) {
        tokens_spec(s.drop_first())
    } else {
        seq![s.take(token_end(s))] + tokens_spec(s.skip(token_end(s)))
    }
}

#[via_fn]
proof fn tokens_spec_decreases(s: Seq<char>) {
    lemma_token_end_bounds(s);
}

/// What follows the second space of a make-rule listing, or nothing
/// when the listing has fewer than two spaces.
pub open spec fn deps_payload(s: Seq<char>) -> Option<Seq<char>> {
    let i1 = first_index(s, ' ');
    if i1 < 0 {
        None
    } else {
        let r = s.skip(i1 + 1);
        let i2 = first_index(r, ' ');
        if i2 < 0 {
            None
        } else {
            Some(r.skip(i2 + 1))
        }
    }
}

/// The dependency names carried by a make-rule listing: the tokens past
/// its second space-delimited field.
pub open spec fn parse_deps_spec(s: Seq<char>) -> Seq<Seq<char>> {
    match deps_payload(s) {
        Some(p) => tokens_spec(p),
        None => Seq::empty(),
    }
}

/// Length of the leading token of `s`.
fn token_end_exec(s: &str) -> (r: usize)
    ensures
        r == token_end(s@),
{
    let n = s.unicode_len();
    let mut i: usize = 0;
    while i < n
        invariant
            0 <= i <= n,
            n == s@.len(),
            forall|j: int| 0 <= j < i ==> !is_make_space(#[trigger] s@[j]),
        decreases n - i,
    {
        if is_make_space_char(s.get_char(i)) {
            proof {
                lemma_token_end_at(s@, i as int);
            }
            return i;
        }
        i += 1;
    }
    proof {
        lemma_token_end_at(s@, n as int);
    }
    n
}

/// Parses a dependency-cache file: the dependency names listed after
/// the target and the source itself, in order.  Duplicates, if the
/// compiler emitted any, are kept; they cannot change any staleness
/// answer.
pub fn parse_dependencies(contents: &str) -> (r: Vec<String>)
    ensures
        r.deep_view() == parse_deps_spec(contents@),
{
    let n = contents.unicode_len();
    let mut out: Vec<String> = Vec::new();
    let i1 = match str_first_index_of(contents, ' ') {
        Some(i) => i,
        None => {
            proof {
                assert(out.deep_view() =~= parse_deps_spec(contents@));
            }
            return out;
        },
    };
    let rest1 = contents.substring_char(i1 + 1, n);
    proof {
        assert(rest1@ =~= contents@.skip(i1 + 1));
    }
    let m = rest1.unicode_len();
    let i2 = match str_first_index_of(rest1, ' ') {
        Some(i) => i,
        None => {
            proof {
                assert(out.deep_view() =~= parse_deps_spec(contents@));
            }
            return out;
        },
    };
    let payload = rest1.substring_char(i2 + 1, m);
    proof {
        assert(payload@ =~= rest1@.skip(i2 + 1));
        assert(deps_payload(contents@) == Some(payload@));
    }
    let mut rest: &str = payload;
    proof {
        assert(out.deep_view() + tokens_spec(rest@) =~= tokens_spec(payload@));
    }
    loop
        invariant
            out.deep_view() + tokens_spec(rest@) =~= tokens_spec(payload@),
        ensures
            out.deep_view() =~= tokens_spec(payload@),
        decreases rest@.len(),
    {
        let k = rest.unicode_len();
        if k == 0 {
            proof {
                assert(out.deep_view() + tokens_spec(rest@) =~= out.deep_view());
            }
            break;
        }
        let ghost prev = rest@;
        if is_make_space_char(rest.get_char(0)) {
            let next = rest.substring_char(1, k);
            proof {
                assert(next@ =~= prev.drop_first());
            }
            rest = next;
        } else {
            let e = token_end_exec(rest);
            proof {
                lemma_token_end_bounds(prev);
            }
            let tok = String::from_str(rest.substring_char(0, e));
            let next = rest.substring_char(e, k);
            proof {
                assert(tok@ =~= prev.take(e as int));
                assert(next@ =~= prev.skip(e as int));
            }
            out.push(tok);
            rest = next;
            proof {
                assert(out.deep_view() =~= out.deep_view().drop_last().push(tok@));
                assert(tokens_spec(prev) =~= seq![tok@] + tokens_spec(next@));
                assert(out.deep_view() + tokens_spec(rest@) =~= tokens_spec(payload@));
            }
        }
    }
    proof {
        assert(out.deep_view() =~= parse_deps_spec(contents@));
    }
    out
}

} // verus!
