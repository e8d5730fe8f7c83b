use oxc_graphql_parser::strings::{normalize_block_string, unescape_string};

#[test]
fn unescape_handles_simple_escapes() {
    assert_eq!(unescape_string(r#"a\"b\\c\/d\be\ff\ng\rh\ti"#), "a\"b\\c/d\u{8}e\u{c}f\ng\rh\ti");
}

#[test]
fn unescape_handles_unicode_escapes() {
    assert_eq!(unescape_string(r"\u0041\u00e9\u20AC"), "A\u{e9}\u{20ac}");
}

#[test]
fn unescape_keeps_plain_text() {
    assert_eq!(unescape_string("plain text \u{e9}"), "plain text \u{e9}");
    assert_eq!(unescape_string(""), "");
}

#[test]
fn normalize_removes_common_indentation_and_blank_edge_lines() {
    let raw = "\"\"\"\n    Hello,\n      World!\n  \"\"\"";
    assert_eq!(normalize_block_string(raw), "Hello,\n  World!");
    let q3 = r#"""""#;
    let raw = format!("{q3}\n    Hello,\n      World!\n\n    Yours,\n      GraphQL.\n  {q3}");
    assert_eq!(normalize_block_string(&raw), "Hello,\n  World!\n\nYours,\n  GraphQL.");
}

#[test]
fn normalize_keeps_the_first_line_indented() {
    assert_eq!(normalize_block_string("\"\"\"  a\n    b\n  c\"\"\""), "  a\n  b\nc");
    assert_eq!(normalize_block_string("\"\"\"\n \n\t\"\"\""), "");
}

#[test]
fn normalize_turns_carriage_returns_into_newlines() {
    assert_eq!(normalize_block_string("\"\"\"a\r\nb\rc\nd\"\"\""), "a\nb\nc\nd");
}

#[test]
fn normalize_unescapes_only_triple_quotes() {
    assert_eq!(normalize_block_string("\"\"\"a\\\"\"\"b\\n\"\"\""), "a\"\"\"b\\n");
}

#[test]
fn normalize_of_empty_and_unquoted_text() {
    assert_eq!(normalize_block_string("\"\"\"\"\"\""), "");
    assert_eq!(normalize_block_string("no quotes\r"), "no quotes");
}
