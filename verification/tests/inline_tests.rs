use docs_list::inline::compact_strings;
use docs_list::inline::parse_inline_read_when;
use docs_list::inline::parse_inline_value;
use docs_list::inline::split_inline_array_items;
use docs_list::inline::InlineValue;

#[test]
fn classify_null_and_booleans() {
    assert!(matches!(parse_inline_value("null"), Some(InlineValue::Null)));
    assert!(matches!(parse_inline_value("true"), Some(InlineValue::Bool(true))));
    assert!(matches!(parse_inline_value("false"), Some(InlineValue::Bool(false))));
    assert!(parse_inline_value("True").is_none());
    assert!(parse_inline_value("NULL").is_none());
}

#[test]
fn classify_quoted_strings() {
    match parse_inline_value("'  react hooks '") {
        Some(InlineValue::Str(s)) => assert_eq!(s, "  react hooks "),
        other => panic!("unexpected: {:?}", other.is_some()),
    }
    match parse_inline_value("\"a'b\"") {
        Some(InlineValue::Str(s)) => assert_eq!(s, "a'b"),
        _ => panic!("expected a string value"),
    }
    // a single quote character wraps an empty text
    match parse_inline_value("\"") {
        Some(InlineValue::Str(s)) => assert_eq!(s, ""),
        _ => panic!("expected a string value"),
    }
}

#[test]
fn classify_numbers() {
    for ok in ["42", "-3.5", "+7", "1e5", "1E-5", ".5", "5.", "3.e2", "inf", "-inf", "Infinity", "NaN"] {
        match parse_inline_value(ok) {
            Some(InlineValue::Num(s)) => assert_eq!(s, ok),
            _ => panic!("expected a number for {ok}"),
        }
    }
    for bad in [".", "1e", "e5", "--3", "1.2.3", "1x", "in", "infi", ""] {
        assert!(parse_inline_value(bad).is_none(), "accepted {bad}");
    }
}

#[test]
fn split_respects_quotes_and_escapes() {
    assert_eq!(
        split_inline_array_items("'a,b', c"),
        Some(vec!["'a,b'".to_string(), "c".to_string()])
    );
    assert_eq!(
        split_inline_array_items("\"x\\\"y\", z"),
        Some(vec!["\"x\\\"y\"".to_string(), "z".to_string()])
    );
    assert_eq!(split_inline_array_items("   "), Some(vec![]));
}

#[test]
fn split_rejects_malformed_input() {
    // unterminated quote
    assert!(split_inline_array_items("'abc").is_none());
    // dangling escape at end of input
    assert!(split_inline_array_items("'ab\\").is_none());
    // trailing comma makes an empty item
    assert!(split_inline_array_items("a,").is_none());
    // double comma makes an empty item
    assert!(split_inline_array_items("a,,b").is_none());
}

#[test]
fn compact_drops_null_and_empty() {
    let values = vec![
        InlineValue::Str("  react hooks ".to_string()),
        InlineValue::Num("42".to_string()),
        InlineValue::Bool(true),
        InlineValue::Null,
        InlineValue::Str("".to_string()),
        InlineValue::Bool(false),
    ];
    assert_eq!(
        compact_strings(values),
        vec!["react hooks".to_string(), "42".to_string(), "true".to_string(), "false".to_string()]
    );
}

#[test]
fn inline_array_parses_mixed_values() {
    let values = parse_inline_read_when("['  react hooks ', 42, true, null, '', false]").unwrap();
    assert_eq!(values.len(), 6);
    let hints = compact_strings(values);
    assert_eq!(
        hints,
        vec!["react hooks".to_string(), "42".to_string(), "true".to_string(), "false".to_string()]
    );
}

#[test]
fn inline_array_values_are_raw_and_in_order() {
    let values = parse_inline_read_when("['  react hooks ', 42, true, null, '', false]").unwrap();
    assert_eq!(values.len(), 6);
    assert!(matches!(&values[0], InlineValue::Str(s) if s == "  react hooks "));
    assert!(matches!(&values[1], InlineValue::Num(s) if s == "42"));
    assert!(matches!(&values[2], InlineValue::Bool(true)));
    assert!(matches!(&values[3], InlineValue::Null));
    assert!(matches!(&values[4], InlineValue::Str(s) if s.is_empty()));
    assert!(matches!(&values[5], InlineValue::Bool(false)));
}

#[test]
fn inline_array_rejections() {
    // not bracketed
    assert!(parse_inline_read_when("a, b").is_none());
    // an item that classifies as nothing
    assert!(parse_inline_read_when("[unquoted]").is_none());
    // empty item from a trailing comma
    assert!(parse_inline_read_when("['a',]").is_none());
    // empty array is fine
    assert_eq!(parse_inline_read_when("[]").map(|v| v.len()), Some(0));
}
