//! Report formatting: one or two output lines per file, the fixed header
//! and the fixed closing reminder.

use vstd::prelude::*;
use vstd::string::StringExecFns;
use crate::extract::Metadata;
use crate::extract::Reason;
use crate::extract::reason_text;

verus! {

/// The report's first line.
pub fn header_line() -> (r: &'static str)
    ensures
        r@ == "Listing all markdown files in docs folder:"@,
{
    "Listing all markdown files in docs folder:"
}

/// The fixed reminder printed after a blank line at the end of the report.
pub fn reminder_text() -> (r: &'static str)
    ensures
        r@
            == "Reminder: keep docs up to date as behavior changes. When your task matches any \"Read when\" hint above (cache directives, database work, tests, etc.), read that doc before coding, and suggest new coverage when it is missing."@,
{
    "Reminder: keep docs up to date as behavior changes. When your task matches any \"Read when\" hint above (cache directives, database work, tests, etc.), read that doc before coding, and suggest new coverage when it is missing."
}

/// The fixed error message when the `docs` directory does not exist under
/// the current directory.
pub fn missing_docs_message() -> (r: &'static str)
    ensures
        r@ == "docs:list: missing docs directory. Run from repo root."@,
{
    "docs:list: missing docs directory. Run from repo root."
}

/// The fixed error message when `docs` exists but is not a directory.
pub fn not_directory_message() -> (r: &'static str)
    ensures
        r@ == "docs:list: docs path is not a directory."@,
{
    "docs:list: docs path is not a directory."
}

/// The hints joined with `; `, in collection order.
pub open spec fn joined(hints: Seq<Seq<char>>) -> Seq<char>
    decreases hints.len(),
{
    if hints.len() == 0 {
        Seq::<char>::empty()
    } else if hints.len() == 1 {
        hints[0]
    } else {
        joined(hints.drop_last()) + "; "@ + hints.last()
    }
}

/// Join the hint list with `; `.
pub fn join_hints(hints: &Vec<String>) -> (r: String)
    ensures
        r@ == joined(hints.deep_view()),
{
    let mut out = String::new();
    let m = hints.len();
    let mut i: usize = 0;
    proof {
        assert(out@ =~= joined(hints.deep_view().subrange(0, 0)));
    }
    while i < m
        invariant
            0 <= i <= m,
            m == hints@.len(),
            m == hints.deep_view().len(),
            out@ == joined(hints.deep_view().subrange(0, i as int)),
        decreases m - i,
    {
        if i > 0 {
            out.append("; ");
        }
        out.append(hints[i].as_str());
        i = i + 1;
        proof {
            let dv = hints.deep_view();
            assert(dv.subrange(0, i as int).drop_last() =~= dv.subrange(0, i as int - 1));
            assert(dv.subrange(0, i as int).last() == dv[i as int - 1]);
            if i == 1 {
                assert(out@ =~= dv.subrange(0, 1)[0]);
            }
        }
    }
    proof {
        assert(hints.deep_view().subrange(0, m as int) =~= hints.deep_view());
    }
    out
}

/// The lines the report shows for one file: `path - summary`, then an
/// indented `Read when:` line when hints exist; on failure, `path` with the
/// bracketed reason; a bare `path` when no reason is recorded. Hints are
/// never shown without a summary.
pub open spec fn rendered_lines(
    path: Seq<char>,
    summary: Option<Seq<char>>,
    hints: Seq<Seq<char>>,
    error: Option<Reason>,
) -> Seq<Seq<char>> {
    match summary {
        Some(s) => {
            if hints.len() > 0 {
                seq![path + " - "@ + s, "  Read when: "@ + joined(hints)]
            } else {
                seq![path + " - "@ + s]
            }
        },
        None => {
            match error {
                Some(e) => seq![path + " - ["@ + reason_text(e) + "]"@],
                None => seq![path],
            }
        },
    }
}

/// Format one file's report lines from its path and extracted metadata.
pub fn render_entry(path: &str, meta: &Metadata) -> (lines: Vec<String>)
    ensures
        lines.deep_view() == rendered_lines(
            path@,
            meta.summary.deep_view(),
            meta.read_when.deep_view(),
            meta.error,
        ),
{
    let mut out: Vec<String> = Vec::new();
    match &meta.summary {
        Some(s) => {
            let mut line = String::from_str(path);
            line.append(" - ");
            line.append(s.as_str());
            out.push(line);
            if meta.read_when.len() > 0 {
                let mut hint_line = String::from_str("  Read when: ");
                let tail = join_hints(&meta.read_when);
                hint_line.append(tail.as_str());
                out.push(hint_line);
                proof {
                    assert(out.deep_view() =~= rendered_lines(
                        path@,
                        meta.summary.deep_view(),
                        meta.read_when.deep_view(),
                        meta.error,
                    ));
                }
            } else {
                proof {
                    assert(out.deep_view() =~= rendered_lines(
                        path@,
                        meta.summary.deep_view(),
                        meta.read_when.deep_view(),
                        meta.error,
                    ));
                }
            }
        },
        None => {
            match meta.error {
                Some(e) => {
                    let mut line = String::from_str(path);
                    line.append(" - [");
                    line.append(e.message());
                    line.append("]");
                    out.push(line);
                    proof {
                        assert(out.deep_view() =~= rendered_lines(
                            path@,
                            meta.summary.deep_view(),
                            meta.read_when.deep_view(),
                            meta.error,
                        ));
                    }
                },
                None => {
                    out.push(String::from_str(path));
                    proof {
                        assert(out.deep_view() =~= rendered_lines(
                            path@,
                            meta.summary.deep_view(),
                            meta.read_when.deep_view(),
                            meta.error,
                        ));
                    }
                },
            }
        },
    }
    out
}

} // verus!
