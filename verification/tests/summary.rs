use devtracker::summary::{
    activity_from_row, format_export, group_repo_rows, ticket_change, RepoRow, ReportRow, TicketChange,
};

#[test]
fn empty_ticket_clears_the_tag() {
    assert!(matches!(ticket_change(""), TicketChange::Clear));
    match ticket_change("PROJ-9") {
        TicketChange::Tag(t) => assert_eq!(t, "PROJ-9"),
        TicketChange::Clear => panic!("expected a tag"),
    }
}

fn row(repo: &str, branch: Option<&str>, ticket: Option<&str>, sessions: i64) -> RepoRow {
    RepoRow {
        repo_name: repo.to_string(),
        branch: branch.map(|s| s.to_string()),
        jira_ticket: ticket.map(|s| s.to_string()),
        sessions,
    }
}

#[test]
fn rows_are_grouped_by_repository() {
    let rows = vec![
        row("api", Some("main"), None, 2),
        row("web", Some("PROJ-1-x"), Some("PROJ-1"), 3),
        row("api", Some("PROJ-2-y"), Some("PROJ-2"), 4),
        row("api", None, Some("PROJ-2"), 1),
    ];
    let groups = group_repo_rows(&rows);
    assert_eq!(groups.len(), 2);
    assert_eq!(groups[0].repo_name, "api");
    assert_eq!(groups[0].sessions, 7);
    assert_eq!(groups[0].rows, vec![0, 2, 3]);
    let branches: Vec<(String, usize)> =
        groups[0].branches.iter().map(|b| (b.branch.clone(), b.row)).collect();
    assert_eq!(branches, vec![("main".to_string(), 0), ("PROJ-2-y".to_string(), 2)]);
    assert_eq!(groups[0].tickets, vec!["PROJ-2".to_string()]);
    assert_eq!(groups[1].repo_name, "web");
    assert_eq!(groups[1].sessions, 3);
    assert_eq!(groups[1].rows, vec![1]);
    assert_eq!(groups[1].tickets, vec!["PROJ-1".to_string()]);
    assert!(group_repo_rows(&Vec::new()).is_empty());
}

#[test]
fn export_lays_out_columns() {
    let rows = vec![
        ReportRow { label: "PROJ-1".to_string(), hours: "1.5".to_string(), sessions: 3, is_ticket: true },
        ReportRow { label: "api / main".to_string(), hours: "0.2".to_string(), sessions: 12, is_ticket: false },
    ];
    let text = format_export(&rows, "1.7");
    let mut expected = String::new();
    expected.push_str(&format!("{:<30} {:>8} {:>10}  {}\n", "Label", "Hours", "Sessions", "Type"));
    expected.push_str(&"-".repeat(58));
    expected.push('\n');
    expected.push_str(&format!("{:<30} {:>8.1} {:>10}  {}\n", "PROJ-1", 1.5f64, 3, "ticket"));
    expected.push_str(&format!("{:<30} {:>8.1} {:>10}  {}\n", "api / main", 0.2f64, 12, "branch/app"));
    expected.push_str(&"-".repeat(58));
    expected.push('\n');
    expected.push_str(&format!("{:<30} {:>8.1}\n", "TOTAL", 1.7f64));
    assert_eq!(text, expected);
}

#[test]
fn export_keeps_long_labels_whole() {
    let label = "a-very-long-label-that-is-more-than-thirty-chars";
    let rows = vec![ReportRow { label: label.to_string(), hours: "10.0".to_string(), sessions: 1, is_ticket: false }];
    let text = format_export(&rows, "10.0");
    assert!(text.contains(&format!("{label} {:>8} {:>10}  branch/app\n", "10.0", 1)));
}

#[test]
fn stored_flags_become_booleans() {
    let a = activity_from_row(
        3,
        "2024-01-01T10:00:00".to_string(),
        None,
        "Code".to_string(),
        None,
        Some("main".to_string()),
        Some("/r/api".to_string()),
        1,
        None,
        0,
        None,
    );
    assert_eq!(a.id, 3);
    assert!(a.is_meeting);
    assert!(!a.manual_tag);
    assert_eq!(a.branch.as_deref(), Some("main"));
}
