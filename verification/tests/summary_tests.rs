use docs_list::summary::normalize_summary;

#[test]
fn collapses_whitespace_runs() {
    assert_eq!(normalize_summary("  Alpha   summary "), "Alpha summary");
    assert_eq!(normalize_summary("a\t\tb\nc"), "a b c");
}

#[test]
fn strips_one_quote_pair() {
    assert_eq!(normalize_summary("\"Alpha\""), "Alpha");
    assert_eq!(normalize_summary("'Alpha'"), "Alpha");
    // mismatched quotes are stripped independently
    assert_eq!(normalize_summary("'Alpha\""), "Alpha");
    // only one quote on each side is stripped
    assert_eq!(normalize_summary("\"\"x\"\""), "\"x\"");
}

#[test]
fn empty_after_normalization() {
    assert_eq!(normalize_summary("   "), "");
    assert_eq!(normalize_summary("\"   \""), "");
    assert_eq!(normalize_summary(""), "");
    assert_eq!(normalize_summary("''"), "");
}

#[test]
fn normalization_is_idempotent_on_unquoted_results() {
    for s in ["  Alpha   summary ", "\" a  b \"", "a\tb", "plain", ""] {
        let once = normalize_summary(s);
        assert_eq!(normalize_summary(&once), once);
    }
}
