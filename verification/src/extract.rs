//! Front-matter extraction: locate the `---` block, scan its lines for
//! `summary:` and `read_when:` keys with the two-mode line scanner, and
//! return a normalized summary plus hint list or a per-file failure reason.

use vstd::prelude::*;
use vstd::slice::*;
use crate::text::trimmed;
use crate::text::trim_slice;
use crate::text::has_prefix;
use crate::text::slice_has_prefix;
use crate::text::slice_eq_chars;
use crate::text::str_to_chars;
use crate::text::chars_to_string;
use crate::summary::normalized_summary;
use crate::summary::normalize_summary_chars;
use crate::inline::inline_hints;
use crate::inline::parse_inline_read_when;
use crate::inline::compact_strings;

verus! {

/// Why a file yields no summary. These are the complete set of per-file
/// failure reasons; none aborts the run.
#[derive(Clone, Copy, PartialEq, Eq, Structural, Debug)]
pub enum Reason {
    MissingFrontMatter,
    UnterminatedFrontMatter,
    SummaryKeyMissing,
    SummaryIsEmpty,
}

/// The bracketed reason text shown in the report.
pub open spec fn reason_text(r: Reason) -> Seq<char> {
    match r {
        Reason::MissingFrontMatter => "missing front matter"@,
        Reason::UnterminatedFrontMatter => "unterminated front matter"@,
        Reason::SummaryKeyMissing => "summary key missing"@,
        Reason::SummaryIsEmpty => "summary is empty"@,
    }
}

impl Reason {
    /// The reason text as a string.
    pub fn message(&self) -> (r: &'static str)
        ensures
            r@ == reason_text(*self),
    {
        match self {
            Reason::MissingFrontMatter => "missing front matter",
            Reason::UnterminatedFrontMatter => "unterminated front matter",
            Reason::SummaryKeyMissing => "summary key missing",
            Reason::SummaryIsEmpty => "summary is empty",
        }
    }
}

/// What extraction yields for one file: a normalized summary or a failure
/// reason, never both, plus the hints collected before any failure.
#[derive(Debug)]
pub struct Metadata {
    pub summary: Option<String>,
    pub read_when: Vec<String>,
    pub error: Option<Reason>,
}

/// The lines of `s` split on `\n`: an empty text is one empty line.
pub open spec fn split_lines(s: Seq<char>) -> Seq<Seq<char>>
    decreases s.len(),
{
    if s.len() == 0 {
        seq![Seq::<char>::empty()]
    } else {
        let rest = split_lines(s.drop_last());
        if s.last() == '\n' {
            rest.push(Seq::<char>::empty())
        } else {
            rest.update(rest.len() - 1, rest.last().push(s.last()))
        }
    }
}

proof fn lemma_split_lines_len(s: Seq<char>)
    ensures
        split_lines(s).len() >= 1,
    decreases s.len(),
{
    if s.len() > 0 {
        lemma_split_lines_len(s.drop_last());
    }
}

/// Split a character slice into its lines.
fn split_lines_exec(s: &[char]) -> (r: Vec<Vec<char>>)
    ensures
        r.deep_view() == split_lines(s@),
{
    let mut done: Vec<Vec<char>> = Vec::new();
    let mut current: Vec<char> = Vec::new();
    let n = s.len();
    let mut i: usize = 0;
    proof {
        assert(done.deep_view().push(current@) =~= split_lines(s@.subrange(0, 0)));
    }
    while i < n
        invariant
            0 <= i <= n,
            n == s@.len(),
            done.deep_view().push(current@) == split_lines(s@.subrange(0, i as int)),
        decreases n - i,
    {
        let c = *slice_index_get(s, i);
        let ghost prev_done = done.deep_view();
        let ghost prev_cur = current@;
        if c == '\n' {
            done.push(current);
            current = Vec::new();
            proof {
                assert(done.deep_view() =~~= prev_done.push(prev_cur));
            }
        } else {
            current.push(c);
        }
        i = i + 1;
        proof {
            let pre = s@.subrange(0, i as int - 1);
            let cur_s = s@.subrange(0, i as int);
            assert(cur_s.drop_last() =~= pre);
            assert(cur_s.last() == s@[i as int - 1]);
            lemma_split_lines_len(pre);
            if c == '\n' {
                assert(done.deep_view().push(current@) =~~= split_lines(pre).push(
                    Seq::<char>::empty(),
                ));
            } else {
                assert(done.deep_view().push(current@) =~~= split_lines(pre).update(
                    split_lines(pre).len() - 1,
                    split_lines(pre).last().push(c),
                ));
            }
        }
    }
    proof {
        assert(s@.subrange(0, n as int) =~= s@);
    }
    let ghost prev_done = done.deep_view();
    let ghost prev_cur = current@;
    done.push(current);
    proof {
        assert(done.deep_view() =~~= prev_done.push(prev_cur));
    }
    done
}

/// First position `j` at or after the opening marker where `\n---` begins,
/// if any: the closing-marker search of the extractor.
pub open spec fn find_close_from(s: Seq<char>, j: int) -> Option<int>
    decreases s.len() - j,
{
    if j + 4 > s.len() {
        None::<int>
    } else if s.subrange(j, j + 4) == "\n---"@ {
        Some(j)
    } else {
        find_close_from(s, j + 1)
    }
}

/// Search for the closing `\n---` marker from position 3 on.
fn find_close(chars: &[char]) -> (r: Option<usize>)
    requires
        chars@.len() >= 3,
    ensures
        match r {
            Some(e) => find_close_from(chars@, 3) == Some(e as int) && 3 <= e && e + 4
                <= chars@.len(),
            None => find_close_from(chars@, 3) is None,
        },
{
    let marker = str_to_chars("\n---");
    let n = chars.len();
    if n < 7 {
        proof {
            assert(find_close_from(chars@, 3) is None);
        }
        return None;
    }
    let mut j: usize = 3;
    while j <= n - 4
        invariant
            3 <= j <= n,
            7 <= n,
            n == chars@.len(),
            marker@ == "\n---"@,
            find_close_from(chars@, 3) == find_close_from(chars@, j as int),
        decreases n - j,
    {
        let window = slice_subrange(chars, j, j + 4);
        if slice_eq_chars(window, marker.as_slice()) {
            proof {
                assert(chars@.subrange(j as int, j as int + 4) == "\n---"@);
            }
            return Some(j);
        }
        proof {
            assert(chars@.subrange(j as int, j as int + 4) != "\n---"@);
        }
        j = j + 1;
    }
    None
}

/// The line scanner's state: the last `summary:` line seen, the hints
/// collected so far, and whether a `read_when:` block list is being
/// collected.
pub open spec fn scan_init() -> (Option<Seq<char>>, Seq<Seq<char>>, bool) {
    (None::<Seq<char>>, Seq::<Seq<char>>::empty(), false)
}

/// One step of the line scanner on a raw line. A `summary:` line overwrites
/// any prior one and stops list collection; a `read_when:` line contributes
/// its inline values at once and starts list collection; while collecting, a
/// `- ` line contributes its trimmed remainder when non-empty, a blank line
/// is skipped, and anything else stops collection.
pub open spec fn scan_step(
    st: (Option<Seq<char>>, Seq<Seq<char>>, bool),
    raw: Seq<char>,
) -> (Option<Seq<char>>, Seq<Seq<char>>, bool) {
    let line = trimmed(raw);
    if has_prefix(line, "summary:"@) {
        (Some(line), st.1, false)
    } else if has_prefix(line, "read_when:"@) {
        (st.0, st.1 + inline_hints(trimmed(line.skip("read_when:"@.len() as int))), true)
    } else if st.2 {
        if has_prefix(line, "- "@) {
            if trimmed(line.skip("- "@.len() as int)).len() > 0 {
                (st.0, st.1.push(trimmed(line.skip("- "@.len() as int))), true)
            } else {
                st
            }
        } else if line.len() == 0 {
            st
        } else {
            (st.0, st.1, false)
        }
    } else {
        st
    }
}

/// The scanner's state after the first `i` lines.
pub open spec fn scan_lines(lines: Seq<Seq<char>>, i: int) -> (
    Option<Seq<char>>,
    Seq<Seq<char>>,
    bool,
)
    decreases i,
{
    if i <= 0 {
        scan_init()
    } else {
        scan_step(scan_lines(lines, i - 1), lines[i - 1])
    }
}

/// The scanner's final state on the trimmed front-matter body.
pub open spec fn scan_of(fm: Seq<char>) -> (Option<Seq<char>>, Seq<Seq<char>>, bool) {
    scan_lines(split_lines(fm), split_lines(fm).len() as int)
}

/// What extraction yields on a file's whole content: the summary, the
/// hints, and the failure reason, as `extract_metadata` returns them.
pub open spec fn extract_model(content: Seq<char>) -> (
    Option<Seq<char>>,
    Seq<Seq<char>>,
    Option<Reason>,
) {
    if !has_prefix(content, "---"@) {
        (None::<Seq<char>>, Seq::<Seq<char>>::empty(), Some(Reason::MissingFrontMatter))
    } else {
        match find_close_from(content, 3) {
            None => (
                None::<Seq<char>>,
                Seq::<Seq<char>>::empty(),
                Some(Reason::UnterminatedFrontMatter),
            ),
            Some(e) => {
                let st = scan_of(trimmed(content.subrange(3, e)));
                match st.0 {
                    None => (None::<Seq<char>>, st.1, Some(Reason::SummaryKeyMissing)),
                    Some(line) => {
                        let norm = normalized_summary(line.skip("summary:"@.len() as int));
                        if norm.len() == 0 {
                            (None::<Seq<char>>, st.1, Some(Reason::SummaryIsEmpty))
                        } else {
                            (Some(norm), st.1, None::<Reason>)
                        }
                    },
                }
            },
        }
    }
}

/// Extract the front-matter metadata of one file's content: the block must
/// open the file with `---` and close with a line starting `---`; its lines
/// are scanned for a `summary:` line, normalized, and for `read_when:`
/// hints, inline or block style. Failures are per-file reasons in `error`,
/// never both a summary and an error.
pub fn extract_metadata(content: &str) -> (r: Metadata)
    ensures
        r.summary.deep_view() == extract_model(content@).0,
        r.read_when.deep_view() == extract_model(content@).1,
        r.error == extract_model(content@).2,
        r.summary is Some ==> r.error is None,
        r.error is Some ==> r.summary is None,
{
    let chars = str_to_chars(content);
    let dashes = str_to_chars("---");
    if !slice_has_prefix(chars.as_slice(), dashes.as_slice()) {
        let r = Metadata { summary: None, read_when: Vec::new(), error: Some(
            Reason::MissingFrontMatter,
        ) };
        proof {
            assert(r.read_when.deep_view() =~= Seq::<Seq<char>>::empty());
        }
        return r;
    }
    proof {
        reveal_strlit("---");
    }
    let e = match find_close(chars.as_slice()) {
        Some(e) => e,
        None => {
            let r = Metadata { summary: None, read_when: Vec::new(), error: Some(
                Reason::UnterminatedFrontMatter,
            ) };
            proof {
                assert(r.read_when.deep_view() =~= Seq::<Seq<char>>::empty());
            }
            return r;
        },
    };
    let fm = trim_slice(slice_subrange(chars.as_slice(), 3, e));
    let lines = split_lines_exec(fm.as_slice());
    let ghost ldv = lines.deep_view();
    let sum_k = str_to_chars("summary:");
    let rw_k = str_to_chars("read_when:");
    let dash_k = str_to_chars("- ");
    let m = lines.len();
    let mut summary_line: Option<Vec<char>> = None;
    let mut hints: Vec<String> = Vec::new();
    let mut collecting: bool = false;
    let mut i: usize = 0;
    proof {
        assert(hints.deep_view() =~= Seq::<Seq<char>>::empty());
    }
    while i < m
        invariant
            0 <= i <= m,
            m == ldv.len(),
            lines.deep_view() == ldv,
            sum_k@ == "summary:"@,
            rw_k@ == "read_when:"@,
            dash_k@ == "- "@,
            match summary_line {
                Some(l) => scan_lines(ldv, i as int).0 == Some(l@) && has_prefix(
                    l@,
                    "summary:"@,
                ),
                None => scan_lines(ldv, i as int).0 is None,
            },
            hints.deep_view() == scan_lines(ldv, i as int).1,
            collecting == scan_lines(ldv, i as int).2,
        decreases m - i,
    {
        let ghost prev_st = scan_lines(ldv, i as int);
        let ghost raw = ldv[i as int];
        let ghost next_st = scan_step(prev_st, raw);
        let line = trim_slice(lines[i].as_slice());
        proof {
            assert(lines@[i as int].deep_view() =~= lines@[i as int]@);
            assert(ldv[i as int] == lines@[i as int]@);
            assert(line@ == trimmed(raw));
        }
        if slice_has_prefix(line.as_slice(), sum_k.as_slice()) {
            summary_line = Some(line);
            collecting = false;
        } else if slice_has_prefix(line.as_slice(), rw_k.as_slice()) {
            collecting = true;
            let rest = slice_subrange(line.as_slice(), rw_k.len(), line.len());
            proof {
                assert(rest@ =~= line@.skip("read_when:"@.len() as int));
            }
            let rest_t = trim_slice(rest);
            let rest_s = chars_to_string(rest_t.as_slice());
            match parse_inline_read_when(rest_s.as_str()) {
                Some(values) => {
                    let mut adds = compact_strings(values);
                    let ghost prev_hints = hints.deep_view();
                    let ghost adds_dv = adds.deep_view();
                    hints.append(&mut adds);
                    proof {
                        assert(hints.deep_view() =~= prev_hints + adds_dv);
                    }
                },
                None => {
                    proof {
                        assert(hints.deep_view() =~= prev_st.1 + inline_hints(
                            trimmed(line@.skip("read_when:"@.len() as int)),
                        ));
                    }
                },
            }
        } else if collecting {
            if slice_has_prefix(line.as_slice(), dash_k.as_slice()) {
                let tail = slice_subrange(line.as_slice(), dash_k.len(), line.len());
                proof {
                    assert(tail@ =~= line@.skip("- "@.len() as int));
                }
                let h = trim_slice(tail);
                if h.len() > 0 {
                    let ghost prev_hints = hints.deep_view();
                    hints.push(chars_to_string(h.as_slice()));
                    proof {
                        assert(hints.deep_view() =~= prev_hints.push(trimmed(tail@)));
                    }
                }
            } else if line.len() == 0 {
            } else {
                collecting = false;
            }
        }
        i = i + 1;
        proof {
            assert(scan_lines(ldv, i as int) == next_st);
        }
    }
    let st_summary = match summary_line {
        None => {
            return Metadata { summary: None, read_when: hints, error: Some(
                Reason::SummaryKeyMissing,
            ) };
        },
        Some(l) => l,
    };
    let value = slice_subrange(st_summary.as_slice(), sum_k.len(), st_summary.len());
    proof {
        assert(value@ =~= st_summary@.skip("summary:"@.len() as int));
    }
    let norm_c = normalize_summary_chars(value);
    if norm_c.len() == 0 {
        return Metadata { summary: None, read_when: hints, error: Some(Reason::SummaryIsEmpty) };
    }
    let s = chars_to_string(norm_c.as_slice());
    Metadata { summary: Some(s), read_when: hints, error: None }
}

} // verus!
