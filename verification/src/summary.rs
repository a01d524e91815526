//! Summary normalization: trim, strip one pair of surrounding quotes, and
//! collapse white-space runs to single spaces. Normalization is idempotent
//! on values whose normalized form is not itself quote-delimited.

use vstd::prelude::*;
use vstd::slice::*;
use crate::text::is_ws_char;
use crate::text::is_ws;
use crate::text::trimmed;
use crate::text::trim_slice;
use crate::text::lemma_trimmed_stable;
use crate::text::str_to_chars;
use crate::text::chars_to_string;

verus! {

/// A single or double quote character.
pub open spec fn is_quote_char(c: char) -> bool {
    c == '"' || c == '\''
}

/// Executable quote test, equal to `is_quote_char`.
pub fn is_quote(c: char) -> (r: bool)
    ensures
        r == is_quote_char(c),
{
    c == '"' || c == '\''
}

/// One leading quote removed when present, then one trailing quote removed
/// when present; the two need not match.
pub open spec fn strip_quotes(s: Seq<char>) -> Seq<char> {
    let a = if s.len() > 0 && is_quote_char(s[0]) {
        s.drop_first()
    } else {
        s
    };
    if a.len() > 0 && is_quote_char(a.last()) {
        a.drop_last()
    } else {
        a
    }
}

/// White-space runs collapsed to single spaces, scanning left to right:
/// leading white space contributes nothing; a run elsewhere contributes one
/// space, so a trailing run leaves one trailing space.
pub open spec fn squeeze_ws(s: Seq<char>) -> Seq<char>
    decreases s.len(),
{
    if s.len() == 0 {
        Seq::empty()
    } else {
        let rest = squeeze_ws(s.drop_last());
        if is_ws_char(s.last()) {
            if rest.len() == 0 || rest.last() == ' ' {
                rest
            } else {
                rest.push(' ')
            }
        } else {
            rest.push(s.last())
        }
    }
}

/// Words joined by single spaces: `squeeze_ws` with a trailing space dropped.
pub open spec fn collapse_ws(s: Seq<char>) -> Seq<char> {
    let t = squeeze_ws(s);
    if t.len() > 0 && t.last() == ' ' {
        t.drop_last()
    } else {
        t
    }
}

/// The normalized form of a summary value: trimmed, one surrounding quote
/// pair stripped, white space collapsed.
pub open spec fn normalized_summary(s: Seq<char>) -> Seq<char> {
    collapse_ws(strip_quotes(trimmed(s)))
}

/// Normalize the characters of a summary value.
pub fn normalize_summary_chars(value: &[char]) -> (r: Vec<char>)
    ensures
        r@ == normalized_summary(value@),
{
    let t = trim_slice(value);
    let tlen = t.len();
    let lo: usize = if tlen > 0 && is_quote(t[0]) {
        1
    } else {
        0
    };
    let hi: usize = if tlen > lo && is_quote(t[tlen - 1]) {
        tlen - 1
    } else {
        tlen
    };
    proof {
        let a = if t@.len() > 0 && is_quote_char(t@[0]) {
            t@.drop_first()
        } else {
            t@
        };
        assert(a =~= t@.subrange(lo as int, tlen as int));
        assert(strip_quotes(t@) =~= t@.subrange(lo as int, hi as int));
    }
    let q = slice_subrange(t.as_slice(), lo, hi);
    let n = q.len();
    let mut out: Vec<char> = Vec::new();
    let mut i: usize = 0;
    proof {
        assert(q@.subrange(0, 0) =~= Seq::<char>::empty());
    }
    while i < n
        invariant
            0 <= i <= n,
            n == q@.len(),
            out@ == squeeze_ws(q@.subrange(0, i as int)),
        decreases n - i,
    {
        let c = *slice_index_get(q, i);
        if is_ws(c) {
            if out.len() > 0 {
                let lastc = out[out.len() - 1];
                if lastc != ' ' {
                    out.push(' ');
                }
            }
        } else {
            out.push(c);
        }
        i = i + 1;
        proof {
            assert(q@.subrange(0, i as int).drop_last() =~= q@.subrange(0, i as int - 1));
            assert(q@.subrange(0, i as int).last() == q@[i as int - 1]);
        }
    }
    proof {
        assert(q@.subrange(0, n as int) =~= q@);
    }
    if out.len() > 0 && out[out.len() - 1] == ' ' {
        out.pop();
        proof {
            assert(out@ =~= squeeze_ws(q@).drop_last());
        }
    }
    out
}

/// Normalized summary text as a string: trimmed, one surrounding quote pair
/// stripped, inner white space collapsed to single spaces.
pub fn normalize_summary(value: &str) -> (r: String)
    ensures
        r@ == normalized_summary(value@),
{
    let v = str_to_chars(value);
    let out = normalize_summary_chars(v.as_slice());
    chars_to_string(out.as_slice())
}

/// The shape `collapse_ws` output always has: every white-space character is
/// a plain space, no two spaces are adjacent, and no space starts the text.
pub open spec fn space_canonical(t: Seq<char>) -> bool {
    &&& forall|i: int| 0 <= i < t.len() && is_ws_char(t[i]) ==> t[i] == ' '
    &&& forall|i: int| 0 <= i && i + 1 < t.len() ==> !(#[trigger] t[i] == ' ' && t[i + 1] == ' ')
    &&& t.len() > 0 ==> t[0] != ' '
}

proof fn lemma_squeeze_canonical(s: Seq<char>)
    ensures
        space_canonical(squeeze_ws(s)),
    decreases s.len(),
{
    if s.len() > 0 {
        lemma_squeeze_canonical(s.drop_last());
    }
}

/// `collapse_ws` output is space-canonical and never ends with a space.
pub proof fn lemma_collapse_canonical(s: Seq<char>)
    ensures
        space_canonical(collapse_ws(s)),
        collapse_ws(s).len() > 0 ==> collapse_ws(s).last() != ' ',
{
    lemma_squeeze_canonical(s);
    let t = squeeze_ws(s);
    if t.len() > 0 && t.last() == ' ' {
        assert(forall|i: int|
            0 <= i < t.drop_last().len() ==> t.drop_last()[i] == t[i]);
    }
}

/// On space-canonical text (a trailing single space allowed), `squeeze_ws`
/// is the identity.
proof fn lemma_squeeze_identity(t: Seq<char>)
    requires
        forall|i: int| 0 <= i < t.len() && is_ws_char(t[i]) ==> t[i] == ' ',
        forall|i: int| 0 <= i && i + 1 < t.len() ==> !(#[trigger] t[i] == ' ' && t[i + 1] == ' '),
        t.len() > 0 ==> t[0] != ' ',
    ensures
        squeeze_ws(t) == t,
    decreases t.len(),
{
    if t.len() > 0 {
        let p = t.drop_last();
        assert(forall|i: int| 0 <= i < p.len() ==> p[i] == t[i]);
        lemma_squeeze_identity(p);
        if is_ws_char(t.last()) {
            assert(t.last() == ' ');
            assert(t.len() >= 2) by {
                if t.len() == 1 {
                    assert(t[0] == ' ');
                }
            }
            assert(p.last() == t[t.len() - 2]);
            assert(t[t.len() - 2] != ' ');
            assert(squeeze_ws(t) =~= t);
        } else {
            assert(squeeze_ws(t) =~= t);
        }
    } else {
        assert(squeeze_ws(t) =~= t);
    }
}

/// Normalization is idempotent: re-normalizing an already-normalized summary
/// yields the same text, whenever that normalized text is not itself
/// delimited by quote characters (a normalized form such as `"x"` loses its
/// quotes on a second pass, so those are left out).
pub proof fn lemma_normalized_summary_idempotent(s: Seq<char>)
    requires
        normalized_summary(s).len() > 0 ==> !is_quote_char(normalized_summary(s)[0]),
        normalized_summary(s).len() > 0 ==> !is_quote_char(normalized_summary(s).last()),
    ensures
        normalized_summary(normalized_summary(s)) == normalized_summary(s),
{
    let t = normalized_summary(s);
    lemma_collapse_canonical(strip_quotes(trimmed(s)));
    assert(t.len() > 0 ==> !is_ws_char(t[0]));
    assert(t.len() > 0 ==> !is_ws_char(t.last()));
    lemma_trimmed_stable(t);
    assert(strip_quotes(t) == t);
    lemma_squeeze_identity(t);
    assert(collapse_ws(t) == t);
}

} // verus!
