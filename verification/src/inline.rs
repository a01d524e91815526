//! The inline-array micro-parser for `read_when:` lists: a quote-tracking
//! character scanner that splits `[a, b, c]` bodies on unquoted commas,
//! classifies each item (null, boolean, quoted string, or numeric literal),
//! and normalizes the parsed values to plain hint strings.

use vstd::prelude::*;
use vstd::slice::*;
use crate::text::trimmed;
use crate::text::trim_slice;
use crate::text::str_to_chars;
use crate::text::chars_to_string;
use crate::text::slice_eq_chars;

verus! {

/// One element of an inline list before normalization: a quoted string, a
/// numeric literal kept as raw text, a boolean, or null.
#[derive(Debug)]
pub enum InlineValue {
    Str(String),
    Num(String),
    Bool(bool),
    Null,
}

/// The plain text an inline value contributes to the hint list; empty text
/// means the value is dropped.
pub open spec fn value_norm(v: InlineValue) -> Seq<char> {
    match v {
        InlineValue::Str(t) => trimmed(t@),
        InlineValue::Num(t) => trimmed(t@),
        InlineValue::Bool(b) => if b {
            "true"@
        } else {
            "false"@
        },
        InlineValue::Null => Seq::<char>::empty(),
    }
}

/// An ASCII decimal digit.
pub open spec fn is_digit_char(c: char) -> bool {
    0x30 <= (c as u32) && (c as u32) <= 0x39
}

/// Executable digit test, equal to `is_digit_char`.
pub fn is_digit(c: char) -> (r: bool)
    ensures
        r == is_digit_char(c),
{
    let u = c as u32;
    0x30 <= u && u <= 0x39
}

/// `a` equals `b` up to ASCII case, where `b` is lower-case letters only.
pub open spec fn ascii_ci_eq(a: Seq<char>, b: Seq<char>) -> bool {
    a.len() == b.len() && forall|i: int|
        0 <= i < a.len() ==> (#[trigger] a[i] == b[i] || (a[i] as u32) + 32 == (b[i] as u32))
}

/// Executable case-insensitive match against a lower-case pattern.
fn matches_ci(a: &[char], b: &[char]) -> (r: bool)
    ensures
        r == ascii_ci_eq(a@, b@),
{
    if a.len() != b.len() {
        return false;
    }
    let n = a.len();
    let mut i: usize = 0;
    while i < n
        invariant
            0 <= i <= n,
            n == a@.len(),
            n == b@.len(),
            forall|k: int|
                0 <= k < i ==> (#[trigger] a@[k] == b@[k] || (a@[k] as u32) + 32 == (b@[k]
                    as u32)),
        decreases n - i,
    {
        let ca = *slice_index_get(a, i);
        let cb = *slice_index_get(b, i);
        let ua = ca as u32;
        let ub = cb as u32;
        if !(ca == cb || (ua < ub && ub - ua == 32)) {
            return false;
        }
        i = i + 1;
    }
    true
}

/// A possible leading sign dropped.
pub open spec fn strip_sign(t: Seq<char>) -> Seq<char> {
    if t.len() > 0 && (t[0] == '+' || t[0] == '-') {
        t.drop_first()
    } else {
        t
    }
}

/// The special float spellings `inf`, `infinity` and `nan`, any ASCII case.
pub open spec fn is_inf_nan(b: Seq<char>) -> bool {
    ascii_ci_eq(b, "inf"@) || ascii_ci_eq(b, "infinity"@) || ascii_ci_eq(b, "nan"@)
}

/// A float mantissa: digits with at most one dot and at least one digit.
pub open spec fn is_mantissa(m: Seq<char>) -> bool {
    &&& m.len() > 0
    &&& forall|i: int| 0 <= i < m.len() ==> is_digit_char(#[trigger] m[i]) || m[i] == '.'
    &&& forall|i: int, j: int|
        0 <= i < j < m.len() ==> !(#[trigger] m[i] == '.' && #[trigger] m[j] == '.')
    &&& exists|i: int| 0 <= i < m.len() && is_digit_char(#[trigger] m[i])
}

/// What follows the exponent marker and its optional sign.
pub open spec fn exp_digits(e: Seq<char>) -> Seq<char> {
    let f = e.drop_first();
    if f.len() > 0 && (f[0] == '+' || f[0] == '-') {
        f.drop_first()
    } else {
        f
    }
}

/// A float exponent: `e` or `E`, an optional sign, then at least one digit.
pub open spec fn is_exponent(e: Seq<char>) -> bool {
    e.len() >= 1 && (e[0] == 'e' || e[0] == 'E') && exp_digits(e).len() > 0 && forall|i: int|
        0 <= i < exp_digits(e).len() ==> is_digit_char(#[trigger] exp_digits(e)[i])
}

/// An unsigned decimal float: a mantissa, optionally followed by an exponent.
pub open spec fn is_decimal(b: Seq<char>) -> bool {
    exists|k: int|
        0 <= k <= b.len() && is_mantissa(#[trigger] b.take(k)) && (k == b.len() || is_exponent(
            b.skip(k),
        ))
}

/// The strings `f64::from_str` accepts: an optional sign, then `inf`,
/// `infinity` or `nan` in any case, or a decimal number with an optional
/// exponent.
pub open spec fn is_number_lit(t: Seq<char>) -> bool {
    is_inf_nan(strip_sign(t)) || is_decimal(strip_sign(t))
}

/// Executable mantissa check, equal to `is_mantissa`.
fn check_mantissa(m: &[char]) -> (r: bool)
    ensures
        r == is_mantissa(m@),
{
    let n = m.len();
    if n == 0 {
        return false;
    }
    let mut i: usize = 0;
    let mut seen_dot = false;
    let mut seen_digit = false;
    while i < n
        invariant
            0 <= i <= n,
            n == m@.len(),
            forall|k: int| 0 <= k < i ==> is_digit_char(#[trigger] m@[k]) || m@[k] == '.',
            seen_dot == exists|k: int| 0 <= k < i && #[trigger] m@[k] == '.',
            seen_digit == exists|k: int| 0 <= k < i && is_digit_char(#[trigger] m@[k]),
            forall|k1: int, k2: int|
                0 <= k1 < k2 < i ==> !(#[trigger] m@[k1] == '.' && #[trigger] m@[k2] == '.'),
        decreases n - i,
    {
        let c = *slice_index_get(m, i);
        if is_digit(c) {
            seen_digit = true;
        } else if c == '.' {
            if seen_dot {
                proof {
                    let k = choose|k: int| 0 <= k < i && #[trigger] m@[k] == '.';
                    assert(m@[k] == '.' && m@[i as int] == '.');
                    assert(!is_mantissa(m@));
                }
                return false;
            }
            seen_dot = true;
        } else {
            proof {
                assert(!(is_digit_char(m@[i as int]) || m@[i as int] == '.'));
                assert(!is_mantissa(m@));
            }
            return false;
        }
        i = i + 1;
    }
    if !seen_digit {
        proof {
            assert(!is_mantissa(m@));
        }
        return false;
    }
    true
}

/// Executable exponent check, equal to `is_exponent`.
fn check_exponent(e: &[char]) -> (r: bool)
    ensures
        r == is_exponent(e@),
{
    let n = e.len();
    if n == 0 {
        return false;
    }
    let c0 = *slice_index_get(e, 0);
    if !(c0 == 'e' || c0 == 'E') {
        return false;
    }
    proof {
        assert(e@.drop_first() =~= e@.skip(1));
    }
    let mut i: usize = 1;
    if i < n {
        let c1 = *slice_index_get(e, i);
        if c1 == '+' || c1 == '-' {
            i = 2;
            proof {
                assert(e@.skip(1).drop_first() =~= e@.skip(2));
            }
        }
    }
    let ghost g = e@.skip(i as int);
    if i >= n {
        proof {
            assert(g.len() == 0);
        }
        return false;
    }
    let start = i;
    proof {
        let f = e@.drop_first();
        assert(f =~= e@.skip(1));
        if start == 2 {
            assert(f.len() > 0);
            assert(f[0] == e@[1]);
            assert(f.drop_first() =~= e@.skip(2));
            assert(g == exp_digits(e@));
        } else {
            assert(n > 1 ==> f[0] == e@[1]);
            assert(g == exp_digits(e@));
        }
        assert(is_exponent(e@) == (g.len() > 0 && forall|k: int|
            0 <= k < g.len() ==> is_digit_char(#[trigger] exp_digits(e@)[k])));
        assert(is_exponent(e@) == (g.len() > 0 && forall|k: int|
            0 <= k < g.len() ==> is_digit_char(#[trigger] g[k])));
    }
    let mut j = start;
    while j < n
        invariant
            start <= j <= n,
            n == e@.len(),
            g == e@.skip(start as int),
            forall|k: int| 0 <= k < j - start ==> is_digit_char(#[trigger] g[k]),
            is_exponent(e@) == (g.len() > 0 && forall|k: int|
                0 <= k < g.len() ==> is_digit_char(#[trigger] g[k])),
        decreases n - j,
    {
        let c = *slice_index_get(e, j);
        if !is_digit(c) {
            proof {
                assert(g[j - start] == e@[j as int]);
                assert(!is_digit_char(g[j - start]));
            }
            return false;
        }
        j = j + 1;
    }
    true
}

/// First position at or after `start` holding `e` or `E`, if any.
fn find_exp_marker(t: &[char], start: usize) -> (r: Option<usize>)
    requires
        start <= t@.len(),
    ensures
        match r {
            Some(j) => start <= j < t@.len() && (t@[j as int] == 'e' || t@[j as int] == 'E')
                && forall|k: int| start <= k < j ==> !(#[trigger] t@[k] == 'e' || t@[k] == 'E'),
            None => forall|k: int|
                start <= k < t@.len() ==> !(#[trigger] t@[k] == 'e' || t@[k] == 'E'),
        },
{
    let n = t.len();
    let mut i = start;
    while i < n
        invariant
            start <= i <= n,
            n == t@.len(),
            forall|k: int| start <= k < i ==> !(#[trigger] t@[k] == 'e' || t@[k] == 'E'),
        decreases n - i,
    {
        let c = *slice_index_get(t, i);
        if c == 'e' || c == 'E' {
            return Some(i);
        }
        i = i + 1;
    }
    None
}

/// Executable test for the strings `f64::from_str` accepts, equal to
/// `is_number_lit`.
pub fn is_number_literal(t: &[char]) -> (r: bool)
    ensures
        r == is_number_lit(t@),
{
    let n = t.len();
    let start: usize = if n > 0 && (*slice_index_get(t, 0) == '+' || *slice_index_get(t, 0)
        == '-') {
        1
    } else {
        0
    };
    let b = slice_subrange(t, start, n);
    proof {
        assert(b@ =~= strip_sign(t@));
    }
    let inf = str_to_chars("inf");
    let infinity = str_to_chars("infinity");
    let nan = str_to_chars("nan");
    if matches_ci(b, inf.as_slice()) || matches_ci(b, infinity.as_slice()) || matches_ci(
        b,
        nan.as_slice(),
    ) {
        return true;
    }
    let blen = b.len();
    let m_end = match find_exp_marker(b, 0) {
        Some(j) => j,
        None => blen,
    };
    let mant = slice_subrange(b, 0, m_end);
    proof {
        assert(mant@ =~= b@.take(m_end as int));
    }
    let ok_m = check_mantissa(mant);
    if m_end == blen {
        proof {
            if ok_m {
                assert(is_decimal(b@));
            } else {
                assert forall|k: int|
                    0 <= k <= b@.len() implies !(is_mantissa(#[trigger] b@.take(k)) && (k
                    == b@.len() || is_exponent(b@.skip(k)))) by {
                    if k < b@.len() {
                        if is_exponent(b@.skip(k)) {
                            assert(b@.skip(k)[0] == b@[k]);
                            assert(false);
                        }
                    } else {
                        assert(b@.take(k) =~= mant@);
                    }
                }
            }
        }
        return ok_m;
    }
    let expo = slice_subrange(b, m_end, blen);
    proof {
        assert(expo@ =~= b@.skip(m_end as int));
    }
    let ok_e = check_exponent(expo);
    proof {
        if ok_m && ok_e {
            assert(is_mantissa(b@.take(m_end as int)));
            assert(is_decimal(b@));
        } else {
            assert forall|k: int|
                0 <= k <= b@.len() implies !(is_mantissa(#[trigger] b@.take(k)) && (k == b@.len()
                || is_exponent(b@.skip(k)))) by {
                if k < m_end {
                    if is_exponent(b@.skip(k)) {
                        assert(b@.skip(k)[0] == b@[k]);
                        assert(false);
                    }
                } else if k == m_end {
                } else {
                    if is_mantissa(b@.take(k)) {
                        assert(b@.take(k)[m_end as int] == b@[m_end as int]);
                        assert(is_digit_char(b@[m_end as int]) || b@[m_end as int] == '.');
                        assert(false);
                    }
                }
            }
        }
    }
    ok_m && ok_e
}

/// `t` is wrapped in a matching pair of single or double quotes (a single
/// quote character counts as wrapping an empty text).
pub open spec fn is_wrapped(t: Seq<char>) -> bool {
    t.len() >= 1 && ((t[0] == '"' && t.last() == '"') || (t[0] == '\'' && t.last() == '\''))
}

/// The text between the wrapping quotes.
pub open spec fn wrapped_inner(t: Seq<char>) -> Seq<char> {
    if t.len() < 2 {
        Seq::<char>::empty()
    } else {
        t.subrange(1, t.len() - 1)
    }
}

/// A trimmed item the inline parser accepts.
pub open spec fn item_valid(t: Seq<char>) -> bool {
    t == "null"@ || t == "true"@ || t == "false"@ || is_wrapped(t) || is_number_lit(t)
}

/// The hint text a valid trimmed item normalizes to; empty means dropped.
pub open spec fn item_norm(t: Seq<char>) -> Seq<char> {
    if t == "null"@ {
        Seq::<char>::empty()
    } else if t == "true"@ {
        "true"@
    } else if t == "false"@ {
        "false"@
    } else if is_wrapped(t) {
        trimmed(wrapped_inner(t))
    } else {
        trimmed(t)
    }
}

/// The exact correspondence between a parsed value and its source item `t`:
/// `Null` for the literal `null`; `Bool` for the literals `true` and
/// `false`; `Str` holding the text between the wrapping quotes; `Num`
/// holding the item's raw text. The four shapes are mutually exclusive, so
/// this pins the variant for each valid item.
pub open spec fn value_matches_item(v: InlineValue, t: Seq<char>) -> bool {
    match v {
        InlineValue::Null => t == "null"@,
        InlineValue::Bool(b) => t == (if b {
            "true"@
        } else {
            "false"@
        }),
        InlineValue::Str(s) => is_wrapped(t) && s@ == wrapped_inner(t),
        InlineValue::Num(s) => is_number_lit(t) && !is_wrapped(t) && s@ == t,
    }
}

/// Classify one trimmed inline item: exactly `null`, `true` or `false`; a
/// quote-wrapped string, its quotes removed; or text `f64::from_str` would
/// accept, kept raw. Anything else is rejected.
pub fn parse_inline_value(value: &str) -> (r: Option<InlineValue>)
    ensures
        match r {
            None => !item_valid(value@),
            Some(v) => item_valid(value@) && value_norm(v) == item_norm(value@)
                && value_matches_item(v, value@),
        },
{
    let t = str_to_chars(value);
    let null_k = str_to_chars("null");
    let true_k = str_to_chars("true");
    let false_k = str_to_chars("false");
    if slice_eq_chars(t.as_slice(), null_k.as_slice()) {
        return Some(InlineValue::Null);
    }
    if slice_eq_chars(t.as_slice(), true_k.as_slice()) {
        return Some(InlineValue::Bool(true));
    }
    if slice_eq_chars(t.as_slice(), false_k.as_slice()) {
        return Some(InlineValue::Bool(false));
    }
    let n = t.len();
    let wrapped = n >= 1 && {
        let c0 = t[0];
        let cl = t[n - 1];
        (c0 == '"' && cl == '"') || (c0 == '\'' && cl == '\'')
    };
    if wrapped {
        if n < 2 {
            return Some(InlineValue::Str(String::new()));
        }
        let inner = slice_subrange(t.as_slice(), 1, n - 1);
        return Some(InlineValue::Str(chars_to_string(inner)));
    }
    if is_number_literal(t.as_slice()) {
        return Some(InlineValue::Num(chars_to_string(t.as_slice())));
    }
    None
}

/// One step of the comma splitter. The state is the items closed so far,
/// the item being built, the open quote if any, and whether a backslash
/// escape is pending inside that quote.
pub open spec fn split_step(
    st: (Seq<Seq<char>>, Seq<char>, Option<char>, bool),
    ch: char,
) -> (Seq<Seq<char>>, Seq<char>, Option<char>, bool) {
    match st.2 {
        Some(q) => {
            if st.3 {
                (st.0, st.1.push(ch), st.2, false)
            } else if ch == '\\' {
                (st.0, st.1.push(ch), st.2, true)
            } else if ch == q {
                (st.0, st.1.push(ch), None::<char>, false)
            } else {
                (st.0, st.1.push(ch), st.2, false)
            }
        },
        None => {
            if ch == '\'' || ch == '"' {
                (st.0, st.1.push(ch), Some(ch), false)
            } else if ch == ',' {
                (st.0.push(trimmed(st.1)), Seq::<char>::empty(), None::<char>, false)
            } else {
                (st.0, st.1.push(ch), None::<char>, false)
            }
        },
    }
}

/// The splitter's state after the first `i` characters of `s`.
pub open spec fn split_run(s: Seq<char>, i: int) -> (
    Seq<Seq<char>>,
    Seq<char>,
    Option<char>,
    bool,
)
    decreases i,
{
    if i <= 0 {
        (Seq::<Seq<char>>::empty(), Seq::<char>::empty(), None::<char>, false)
    } else {
        split_step(split_run(s, i - 1), s[i - 1])
    }
}

/// The splitter's verdict on an inline-array body: a white-space-only body
/// yields no items; an open quote, a pending escape, or any item that trims
/// to empty invalidates the whole array; otherwise the trimmed items, in
/// order.
pub open spec fn split_items(inner: Seq<char>) -> Option<Seq<Seq<char>>> {
    if trimmed(inner).len() == 0 {
        Some(Seq::<Seq<char>>::empty())
    } else {
        let st = split_run(inner, inner.len() as int);
        if st.2 is Some || st.3 {
            None
        } else {
            let items = st.0.push(trimmed(st.1));
            if exists|i: int| 0 <= i < items.len() && #[trigger] items[i].len() == 0 {
                None
            } else {
                Some(items)
            }
        }
    }
}

/// Split an inline-array body on commas that stand outside quotes, honoring
/// backslash escapes inside quotes; each item is returned trimmed. `None`
/// when a quote or escape is left open or an item trims to empty.
pub fn split_inline_array_items(input: &str) -> (r: Option<Vec<String>>)
    ensures
        match r {
            Some(v) => split_items(input@) == Some(v.deep_view()),
            None => split_items(input@) is None,
        },
{
    let chars = str_to_chars(input);
    let t = trim_slice(chars.as_slice());
    if t.len() == 0 {
        let out: Vec<String> = Vec::new();
        proof {
            assert(out.deep_view() =~= Seq::<Seq<char>>::empty());
        }
        return Some(out);
    }
    let n = chars.len();
    let mut items: Vec<String> = Vec::new();
    let mut cur: Vec<char> = Vec::new();
    let mut quote: Option<char> = None;
    let mut escape: bool = false;
    let mut i: usize = 0;
    while i < n
        invariant
            0 <= i <= n,
            n == input@.len(),
            chars@ == input@,
            items.deep_view() == split_run(input@, i as int).0,
            cur@ == split_run(input@, i as int).1,
            quote == split_run(input@, i as int).2,
            escape == split_run(input@, i as int).3,
        decreases n - i,
    {
        let ch = chars[i];
        match quote {
            Some(q) => {
                cur.push(ch);
                if escape {
                    escape = false;
                } else if ch == '\\' {
                    escape = true;
                } else if ch == q {
                    quote = None;
                }
            },
            None => {
                if ch == '\'' || ch == '"' {
                    quote = Some(ch);
                    cur.push(ch);
                } else if ch == ',' {
                    let item = chars_to_string(trim_slice(cur.as_slice()).as_slice());
                    let ghost prev = items.deep_view();
                    items.push(item);
                    proof {
                        assert(items.deep_view() =~= prev.push(trimmed(cur@)));
                    }
                    cur = Vec::new();
                } else {
                    cur.push(ch);
                }
            },
        }
        i = i + 1;
    }
    if quote.is_some() || escape {
        return None;
    }
    let last_item = chars_to_string(trim_slice(cur.as_slice()).as_slice());
    let ghost prev = items.deep_view();
    items.push(last_item);
    proof {
        assert(items.deep_view() =~= prev.push(trimmed(cur@)));
    }
    let m = items.len();
    let mut j: usize = 0;
    while j < m
        invariant
            0 <= j <= m,
            m == items@.len(),
            m == items.deep_view().len(),
            trimmed(input@).len() > 0,
            split_run(input@, input@.len() as int).2 is None,
            !split_run(input@, input@.len() as int).3,
            items.deep_view() == split_run(input@, input@.len() as int).0.push(
                trimmed(split_run(input@, input@.len() as int).1),
            ),
            forall|k: int| 0 <= k < j ==> #[trigger] items.deep_view()[k].len() > 0,
        decreases m - j,
    {
        if items[j].as_str().is_empty() {
            proof {
                assert(items@[j as int]@.len() == 0);
                assert(items.deep_view()[j as int].len() == 0);
            }
            return None;
        }
        j = j + 1;
    }
    proof {
        assert(split_items(input@) == Some(items.deep_view()));
    }
    Some(items)
}

/// Normalized hint texts of a parsed value list, in order, values that
/// normalize to empty text dropped.
pub open spec fn compact_norms(vs: Seq<InlineValue>) -> Seq<Seq<char>>
    decreases vs.len(),
{
    if vs.len() == 0 {
        Seq::<Seq<char>>::empty()
    } else {
        let rest = compact_norms(vs.drop_last());
        if value_norm(vs.last()).len() > 0 {
            rest.push(value_norm(vs.last()))
        } else {
            rest
        }
    }
}

/// Normalize parsed inline values to plain hint strings: string and number
/// text trimmed, booleans spelled out, nulls and empty text dropped.
pub fn compact_strings(values: Vec<InlineValue>) -> (r: Vec<String>)
    ensures
        r.deep_view() == compact_norms(values@),
{
    let mut out: Vec<String> = Vec::new();
    let n = values.len();
    let mut i: usize = 0;
    proof {
        assert(values@.subrange(0, 0) =~= Seq::<InlineValue>::empty());
    }
    while i < n
        invariant
            0 <= i <= n,
            n == values@.len(),
            out.deep_view() == compact_norms(values@.subrange(0, i as int)),
        decreases n - i,
    {
        let v = &values[i];
        let normalized: String = match v {
            InlineValue::Str(s) => {
                let cs = str_to_chars(s.as_str());
                chars_to_string(trim_slice(cs.as_slice()).as_slice())
            },
            InlineValue::Num(s) => {
                let cs = str_to_chars(s.as_str());
                chars_to_string(trim_slice(cs.as_slice()).as_slice())
            },
            InlineValue::Bool(b) => {
                if *b {
                    String::from_str("true")
                } else {
                    String::from_str("false")
                }
            },
            InlineValue::Null => String::new(),
        };
        proof {
            assert(normalized@ == value_norm(values@[i as int]));
        }
        if !normalized.as_str().is_empty() {
            let ghost prev = out.deep_view();
            out.push(normalized);
            proof {
                assert(out.deep_view() =~= prev.push(value_norm(values@[i as int])));
            }
        }
        i = i + 1;
        proof {
            assert(values@.subrange(0, i as int).drop_last() =~= values@.subrange(
                0,
                i as int - 1,
            ));
            assert(values@.subrange(0, i as int).last() == values@[i as int - 1]);
        }
    }
    proof {
        assert(values@.subrange(0, n as int) =~= values@);
    }
    out
}

/// `rest` has the inline-array shape: it starts with `[` and ends with `]`.
pub open spec fn bracketed(rest: Seq<char>) -> bool {
    rest.len() > 0 && rest[0] == '[' && rest.last() == ']'
}

/// The array body between the brackets.
pub open spec fn bracket_inner(rest: Seq<char>) -> Seq<char> {
    rest.subrange(1, rest.len() - 1)
}

/// Every item of the list classifies as a value.
pub open spec fn all_items_valid(items: Seq<Seq<char>>) -> bool {
    forall|i: int| 0 <= i < items.len() ==> item_valid(#[trigger] items[i])
}

/// The whole inline attempt succeeds: bracketed, the splitter accepts the
/// body, and every item classifies as a value.
pub open spec fn inline_parse_ok(rest: Seq<char>) -> bool {
    bracketed(rest) && match split_items(bracket_inner(rest)) {
        Some(items) => all_items_valid(items),
        None => false,
    }
}

/// The hint texts of accepted items, in order, empty ones dropped.
pub open spec fn hints_of_items(items: Seq<Seq<char>>) -> Seq<Seq<char>>
    decreases items.len(),
{
    if items.len() == 0 {
        Seq::<Seq<char>>::empty()
    } else {
        let rest = hints_of_items(items.drop_last());
        if item_norm(items.last()).len() > 0 {
            rest.push(item_norm(items.last()))
        } else {
            rest
        }
    }
}

/// The hints one `read_when:` line contributes: nothing unless the whole
/// inline attempt succeeds.
pub open spec fn inline_hints(rest: Seq<char>) -> Seq<Seq<char>> {
    if inline_parse_ok(rest) {
        match split_items(bracket_inner(rest)) {
            Some(items) => hints_of_items(items),
            None => Seq::<Seq<char>>::empty(),
        }
    } else {
        Seq::<Seq<char>>::empty()
    }
}

/// When parsed values normalize pointwise like their source items, the
/// compacted hints agree.
proof fn lemma_compact_matches_hints(vs: Seq<InlineValue>, items: Seq<Seq<char>>)
    requires
        vs.len() == items.len(),
        forall|i: int|
            0 <= i < items.len() ==> value_norm(#[trigger] vs[i]) == item_norm(
                #[trigger] items[i],
            ),
    ensures
        compact_norms(vs) == hints_of_items(items),
    decreases vs.len(),
{
    if vs.len() > 0 {
        assert forall|i: int|
            0 <= i < items.len() - 1 implies value_norm(#[trigger] vs.drop_last()[i])
            == item_norm(#[trigger] items.drop_last()[i]) by {
            assert(vs.drop_last()[i] == vs[i]);
            assert(items.drop_last()[i] == items[i]);
        }
        lemma_compact_matches_hints(vs.drop_last(), items.drop_last());
        assert(value_norm(vs[vs.len() - 1]) == item_norm(items[items.len() - 1]));
    }
}

/// Parse the text after `read_when:` as an inline array: the bracketed body
/// is split on unquoted commas and each item classified. `None` when the
/// text is not bracketed, the splitter rejects the body, or any item fails
/// to classify. On success the result holds one value per trimmed item, in
/// order, each the exact classification of its item — values are kept raw
/// here; trimming, stringifying and filtering happen in `compact_strings`.
pub fn parse_inline_read_when(inline: &str) -> (r: Option<Vec<InlineValue>>)
    ensures
        r.is_some() == inline_parse_ok(inline@),
        match r {
            Some(vs) => {
                &&& compact_norms(vs@) == inline_hints(inline@)
                &&& match split_items(bracket_inner(inline@)) {
                    Some(items) => vs@.len() == items.len() && forall|i: int|
                        0 <= i < items.len() ==> value_matches_item(
                            #[trigger] vs@[i],
                            items[i],
                        ),
                    None => false,
                }
            },
            None => true,
        },
{
    let chars = str_to_chars(inline);
    let n = chars.len();
    if n == 0 {
        return None;
    }
    if !(chars[0] == '[' && chars[n - 1] == ']') {
        return None;
    }
    let inner = slice_subrange(chars.as_slice(), 1, n - 1);
    proof {
        assert(inner@ =~= bracket_inner(inline@));
    }
    let inner_s = chars_to_string(inner);
    let raw_items = match split_inline_array_items(inner_s.as_str()) {
        Some(v) => v,
        None => {
            proof {
                assert(inner_s@ == bracket_inner(inline@));
                assert(split_items(bracket_inner(inline@)) is None);
                assert(!inline_parse_ok(inline@));
            }
            return None;
        },
    };
    let m = raw_items.len();
    let mut values: Vec<InlineValue> = Vec::new();
    let mut i: usize = 0;
    while i < m
        invariant
            0 <= i <= m,
            m == raw_items@.len(),
            m == raw_items.deep_view().len(),
            bracketed(inline@),
            split_items(bracket_inner(inline@)) == Some(raw_items.deep_view()),
            values@.len() == i,
            forall|k: int| 0 <= k < i ==> item_valid(#[trigger] raw_items.deep_view()[k]),
            forall|k: int|
                0 <= k < i ==> value_norm(#[trigger] values@[k]) == item_norm(
                    raw_items.deep_view()[k],
                ),
            forall|k: int|
                0 <= k < i ==> value_matches_item(
                    #[trigger] values@[k],
                    raw_items.deep_view()[k],
                ),
        decreases m - i,
    {
        let item = &raw_items[i];
        proof {
            assert(raw_items.deep_view()[i as int] == item@);
        }
        match parse_inline_value(item.as_str()) {
            Some(v) => {
                values.push(v);
            },
            None => {
                proof {
                    assert(!item_valid(raw_items.deep_view()[i as int]));
                    if inline_parse_ok(inline@) {
                        assert(all_items_valid(raw_items.deep_view()));
                        assert(item_valid(raw_items.deep_view()[i as int]));
                    }
                }
                return None;
            },
        }
        i = i + 1;
    }
    proof {
        assert(inline_parse_ok(inline@));
        lemma_compact_matches_hints(values@, raw_items.deep_view());
    }
    Some(values)
}

} // verus!
