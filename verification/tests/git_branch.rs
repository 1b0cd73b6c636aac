use devtracker::git_branch::{
    branch_from_head, folder_uri_to_path, is_recent, most_recent_first, urlencoding_decode,
    workspace_candidates, BranchInfo,
};

#[test]
fn head_names_the_branch() {
    let b = branch_from_head("ref: refs/heads/feature/PROJ-1-x\n", "/r".to_string());
    assert_eq!(b.branch, "feature/PROJ-1-x");
    assert_eq!(b.repo_path, "/r");
}

#[test]
fn detached_head_gives_short_hash() {
    let b = branch_from_head("  0123456789abcdef0123\n", "/r".to_string());
    assert_eq!(b.branch, "01234567");
    let c = branch_from_head("abc", "/r".to_string());
    assert_eq!(c.branch, "abc");
}

#[test]
fn percent_escapes_are_decoded() {
    assert_eq!(urlencoding_decode("/Users/me/My%20Project"), "/Users/me/My Project");
    assert_eq!(urlencoding_decode("a%2fb%2Fc"), "a/b/c");
    assert_eq!(urlencoding_decode("plain"), "plain");
}

#[test]
fn bad_percent_escapes_are_dropped() {
    assert_eq!(urlencoding_decode("a%zzb"), "ab");
    assert_eq!(urlencoding_decode("end%4"), "end\u{4}");
    assert_eq!(urlencoding_decode("end%"), "end");
    assert_eq!(urlencoding_decode("x%+Ay"), "x\ny");
    assert_eq!(urlencoding_decode("%e9t%C3%A9"), "\u{e9}t\u{c3}\u{a9}");
}

#[test]
fn file_uris_become_paths() {
    assert_eq!(
        folder_uri_to_path("file:///Users/me/code/my%20repo"),
        Some("/Users/me/code/my repo".to_string())
    );
    assert_eq!(folder_uri_to_path("vscode-remote://ssh/x"), None);
}

#[test]
fn recency_window() {
    let now: i128 = 1_000_000_000_000;
    assert!(is_recent(now, now - 300_000_000_000, 300_000_000_000));
    assert!(!is_recent(now, now - 300_000_000_001, 300_000_000_000));
    // A time in the future is never recent.
    assert!(!is_recent(now, now + 1, 300_000_000_000));
    assert!(is_recent(i128::MAX / 2, i128::MIN / 2, u128::MAX));
}

fn info(b: &str) -> BranchInfo {
    BranchInfo { branch: b.to_string(), repo_path: format!("/r/{b}") }
}

#[test]
fn most_recent_first_is_stable() {
    let entries = vec![(5, info("a")), (9, info("b")), (5, info("c")), (7, info("d")), (9, info("e"))];
    let sorted: Vec<String> = most_recent_first(&entries).into_iter().map(|b| b.branch).collect();
    assert_eq!(sorted, vec!["b", "e", "d", "a", "c"]);
    assert!(most_recent_first(&Vec::new()).is_empty());
}

#[test]
fn recent_folders_are_read_from_the_list() {
    let text = r#"{"entries":[
        {"folderUri":"file:///Users/me/code/my%20repo"},
        {"fileUri":"file:///Users/me/notes.txt"},
        {"folderUri":"vscode-remote://ssh-remote%2Bbox/home/me/x"},
        {"folderUri":42},
        {"workspace":{"id":"1","configPath":"file:///w.code-workspace"}},
        {"folderUri":"file:///Users/me/other","label":"other"}
    ]}"#;
    assert_eq!(
        workspace_candidates(text),
        Some(vec!["/Users/me/code/my repo".to_string(), "/Users/me/other".to_string()])
    );
}

#[test]
fn lists_without_entries_name_no_folder() {
    assert_eq!(workspace_candidates("{}"), Some(vec![]));
    assert_eq!(workspace_candidates(r#"{"entries":{"folderUri":"file:///a"}}"#), Some(vec![]));
    assert_eq!(workspace_candidates("[1,2]"), Some(vec![]));
    assert_eq!(workspace_candidates("null"), Some(vec![]));
}

#[test]
fn text_that_is_no_json_is_refused() {
    assert_eq!(workspace_candidates(""), None);
    assert_eq!(workspace_candidates("{\"entries\": ["), None);
    assert_eq!(workspace_candidates("not json"), None);
}

#[test]
fn encoded_ascii_decodes_back() {
    // "%" and chosen characters escaped, hex letters in either case.
    assert_eq!(urlencoding_decode("100%25 done%2Fok%2fyes"), "100% done/ok/yes");
    assert_eq!(urlencoding_decode("%7e%7E%3a"), "~~:");
    assert_eq!(urlencoding_decode("/no/escapes/here"), "/no/escapes/here");
}

#[test]
fn decoding_never_lengthens() {
    for s in ["", "%", "%4", "%41", "%41%42%zz", "abc%2"] {
        assert!(urlencoding_decode(s).chars().count() <= s.chars().count());
    }
    assert_eq!(urlencoding_decode("%41%42"), "AB");
}
