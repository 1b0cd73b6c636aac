use devtracker::text::{contains_text, count_lines, decimal_text, strip_prefix_text, trim_text};

#[test]
fn trim_removes_unicode_whitespace() {
    assert_eq!(trim_text(" \t\u{3000}abc def\r\n"), "abc def");
    assert_eq!(trim_text("   "), "");
    assert_eq!(trim_text("x"), "x");
}

#[test]
fn decimal_numerals() {
    assert_eq!(decimal_text(0), "0");
    assert_eq!(decimal_text(42), "42");
    assert_eq!(decimal_text(-7), "-7");
    assert_eq!(decimal_text(i64::MIN), i64::MIN.to_string());
    assert_eq!(decimal_text(i64::MAX), i64::MAX.to_string());
}

#[test]
fn line_counts_match_str_lines() {
    for s in ["", "a", "a\n", "a\nb", "\n", "\n\n", "x\r\ny\r\n", "1\n2\n3"] {
        assert_eq!(count_lines(s), s.lines().count(), "{s:?}");
    }
}

#[test]
fn substring_search_and_prefixes() {
    assert!(contains_text("com.microsoft.VSCode", "VSCode"));
    assert!(contains_text("abc", ""));
    assert!(!contains_text("ab", "abc"));
    assert_eq!(strip_prefix_text("file:///x", "file://"), Some("/x".to_string()));
    assert_eq!(strip_prefix_text("http://x", "file://"), None);
}
