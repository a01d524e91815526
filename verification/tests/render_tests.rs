use docs_list::extract::extract_metadata;
use docs_list::render::header_line;
use docs_list::render::join_hints;
use docs_list::render::reminder_text;
use docs_list::render::render_entry;

#[test]
fn fixed_cli_error_messages() {
    assert_eq!(
        docs_list::render::missing_docs_message(),
        "docs:list: missing docs directory. Run from repo root."
    );
    assert_eq!(
        docs_list::render::not_directory_message(),
        "docs:list: docs path is not a directory."
    );
}

#[test]
fn fixed_header_and_reminder() {
    assert_eq!(header_line(), "Listing all markdown files in docs folder:");
    assert_eq!(
        reminder_text(),
        "Reminder: keep docs up to date as behavior changes. When your task matches any \"Read when\" hint above (cache directives, database work, tests, etc.), read that doc before coding, and suggest new coverage when it is missing."
    );
}

#[test]
fn hints_join_with_semicolons() {
    assert_eq!(join_hints(&vec![]), "");
    assert_eq!(join_hints(&vec!["one".to_string()]), "one");
    assert_eq!(
        join_hints(&vec!["one".to_string(), "two".to_string(), "three".to_string()]),
        "one; two; three"
    );
}

#[test]
fn error_lines_carry_bracketed_reason() {
    let meta = extract_metadata("no front matter here");
    let lines = render_entry("doc.md", &meta);
    assert_eq!(lines, vec!["doc.md - [missing front matter]".to_string()]);
}

#[test]
fn summary_line_has_no_hint_line_when_hints_are_empty() {
    let meta = extract_metadata("---\nsummary: ok\n---\n");
    let lines = render_entry("doc.md", &meta);
    assert_eq!(lines, vec!["doc.md - ok".to_string()]);
}
