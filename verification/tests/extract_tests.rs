use docs_list::extract::extract_metadata;
use docs_list::extract::Reason;
use docs_list::render::render_entry;

#[test]
fn round_trip_block_list() {
    let content = "---\nsummary: \"  Alpha   summary \"\nread_when:\n  - first hint\n  - second hint\n---\nbody\n";
    let meta = extract_metadata(content);
    assert_eq!(meta.summary.as_deref(), Some("Alpha summary"));
    assert_eq!(meta.read_when, vec!["first hint".to_string(), "second hint".to_string()]);
    assert!(meta.error.is_none());
    let lines = render_entry("a.md", &meta);
    assert_eq!(
        lines,
        vec!["a.md - Alpha summary".to_string(), "  Read when: first hint; second hint".to_string()]
    );
}

#[test]
fn plain_summary_without_hints() {
    let meta = extract_metadata("---\nsummary: Beta summary\n---\nbody\n");
    assert_eq!(meta.summary.as_deref(), Some("Beta summary"));
    assert!(meta.read_when.is_empty());
    let lines = render_entry("b.md", &meta);
    assert_eq!(lines, vec!["b.md - Beta summary".to_string()]);
}

#[test]
fn inline_array_hints() {
    let content = "---\nsummary: Gamma summary\nread_when: ['  react hooks ', 42, true, null, '', false]\n---\nbody\n";
    let meta = extract_metadata(content);
    assert_eq!(meta.summary.as_deref(), Some("Gamma summary"));
    assert_eq!(
        meta.read_when,
        vec!["react hooks".to_string(), "42".to_string(), "true".to_string(), "false".to_string()]
    );
    let lines = render_entry("sub/c.md", &meta);
    assert_eq!(
        lines,
        vec![
            "sub/c.md - Gamma summary".to_string(),
            "  Read when: react hooks; 42; true; false".to_string()
        ]
    );
}

#[test]
fn missing_closing_marker() {
    let meta = extract_metadata("---\nsummary: Missing closer\nread_when:\n  - ignored\n");
    assert!(meta.summary.is_none());
    assert!(meta.read_when.is_empty());
    assert_eq!(meta.error, Some(Reason::UnterminatedFrontMatter));
    let lines = render_entry("bad-frontmatter.md", &meta);
    assert_eq!(lines, vec!["bad-frontmatter.md - [unterminated front matter]".to_string()]);
}

#[test]
fn empty_summary_suppresses_hints() {
    let content = "---\nsummary: \"   \"\nread_when: ['still ignored in output']\n---\nbody\n";
    let meta = extract_metadata(content);
    assert!(meta.summary.is_none());
    assert_eq!(meta.error, Some(Reason::SummaryIsEmpty));
    // the hints are still computed, only never displayed
    assert_eq!(meta.read_when, vec!["still ignored in output".to_string()]);
    let lines = render_entry("empty-summary.md", &meta);
    assert_eq!(lines, vec!["empty-summary.md - [summary is empty]".to_string()]);
}

#[test]
fn summary_key_missing() {
    let meta = extract_metadata("---\nread_when:\n  - should not print\n---\nbody\n");
    assert!(meta.summary.is_none());
    assert_eq!(meta.error, Some(Reason::SummaryKeyMissing));
    assert_eq!(meta.read_when, vec!["should not print".to_string()]);
    let lines = render_entry("missing-summary.md", &meta);
    assert_eq!(lines, vec!["missing-summary.md - [summary key missing]".to_string()]);
}

#[test]
fn content_without_front_matter() {
    let meta = extract_metadata("plain markdown");
    assert!(meta.summary.is_none());
    assert!(meta.read_when.is_empty());
    assert_eq!(meta.error, Some(Reason::MissingFrontMatter));
    let lines = render_entry("no-frontmatter.md", &meta);
    assert_eq!(lines, vec!["no-frontmatter.md - [missing front matter]".to_string()]);
}

#[test]
fn empty_content_is_missing_front_matter() {
    let meta = extract_metadata("");
    assert_eq!(meta.error, Some(Reason::MissingFrontMatter));
}

#[test]
fn bare_marker_is_unterminated() {
    let meta = extract_metadata("---");
    assert_eq!(meta.error, Some(Reason::UnterminatedFrontMatter));
}

#[test]
fn empty_block_has_no_summary_key() {
    let meta = extract_metadata("---\n---\nbody\n");
    assert_eq!(meta.error, Some(Reason::SummaryKeyMissing));
}

#[test]
fn later_summary_overwrites_earlier() {
    let meta = extract_metadata("---\nsummary: first\nsummary: second\n---\n");
    assert_eq!(meta.summary.as_deref(), Some("second"));
}

#[test]
fn summary_line_stops_block_collection() {
    let meta = extract_metadata("---\nread_when:\nsummary: s\n  - not collected\n---\n");
    assert_eq!(meta.summary.as_deref(), Some("s"));
    assert!(meta.read_when.is_empty());
}

#[test]
fn mixed_inline_and_block_hints() {
    let content = "---\nsummary: s\nread_when: ['one']\n  - two\n\n  - three\n---\n";
    let meta = extract_metadata(content);
    assert_eq!(
        meta.read_when,
        vec!["one".to_string(), "two".to_string(), "three".to_string()]
    );
}

#[test]
fn non_list_line_stops_collection() {
    let content = "---\nsummary: s\nread_when:\n  - kept\nother: x\n  - dropped\n---\n";
    let meta = extract_metadata(content);
    assert_eq!(meta.read_when, vec!["kept".to_string()]);
}

#[test]
fn invalid_inline_array_contributes_nothing() {
    let content = "---\nsummary: s\nread_when: [unquoted]\n  - still collected\n---\n";
    let meta = extract_metadata(content);
    assert_eq!(meta.read_when, vec!["still collected".to_string()]);
}

#[test]
fn indented_keys_and_no_space_after_colon() {
    let meta = extract_metadata("---\n   summary:Tight value\n---\n");
    assert_eq!(meta.summary.as_deref(), Some("Tight value"));
}

#[test]
fn carriage_returns_are_trimmed_from_lines() {
    let meta = extract_metadata("---\r\nsummary: Windows line\r\n\n---\nbody\n");
    assert_eq!(meta.summary.as_deref(), Some("Windows line"));
}

#[test]
fn closing_marker_may_have_trailing_text() {
    let meta = extract_metadata("---\nsummary: s\n---- tail\nbody\n");
    assert_eq!(meta.summary.as_deref(), Some("s"));
}

#[test]
fn reason_messages() {
    assert_eq!(Reason::MissingFrontMatter.message(), "missing front matter");
    assert_eq!(Reason::UnterminatedFrontMatter.message(), "unterminated front matter");
    assert_eq!(Reason::SummaryKeyMissing.message(), "summary key missing");
    assert_eq!(Reason::SummaryIsEmpty.message(), "summary is empty");
}
