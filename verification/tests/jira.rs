use devtracker::jira::extract_ticket;

#[test]
fn test_extract_ticket() {
    assert_eq!(extract_ticket("feature/PROJ-123-add-login"), Some("PROJ-123".to_string()));
    assert_eq!(extract_ticket("PROJ-456/fix-thing"), Some("PROJ-456".to_string()));
    assert_eq!(extract_ticket("bugfix/ABC-1"), Some("ABC-1".to_string()));
    assert_eq!(extract_ticket("main"), None);
    assert_eq!(extract_ticket("develop"), None);
    assert_eq!(extract_ticket("feature/no-ticket-here"), None);
}

#[test]
fn extract_ticket_takes_leftmost_match() {
    assert_eq!(extract_ticket("ABC-1-and-DEF-22"), Some("ABC-1".to_string()));
}

#[test]
fn extract_ticket_needs_two_leading_characters() {
    // One capital alone before the dash is not a ticket key.
    assert_eq!(extract_ticket("A-1"), None);
    assert_eq!(extract_ticket("x/AB9-77/y"), Some("AB9-77".to_string()));
}

#[test]
fn extract_ticket_is_case_sensitive() {
    assert_eq!(extract_ticket("proj-123"), None);
}
