use codewiki::output::format_for_claude;

#[test]
fn format_adds_header() {
    let result = format_for_claude("some content", "facebook/react", "ask");
    assert!(result.starts_with("## CodeWiki: facebook/react (ask)"));
    assert!(result.contains("some content"));
}

#[test]
fn format_trims_whitespace() {
    let result = format_for_claude("  content  \n\n", "owner/repo", "structure");
    assert!(result.ends_with("content"));
}

#[test]
fn format_handles_empty_text() {
    let result = format_for_claude("   \n\t  ", "owner/repo", "read");
    assert_eq!(result, "## CodeWiki: owner/repo (read)\n\n");
}

#[test]
fn format_is_header_blank_line_and_trimmed_text() {
    let result = format_for_claude("\u{3000}\r\n body\u{a0}line \u{2029}", "o/r", "structure");
    assert_eq!(result, "## CodeWiki: o/r (structure)\n\nbody\u{a0}line");
}
