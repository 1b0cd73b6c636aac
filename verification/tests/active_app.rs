use devtracker::active_app::{is_coding_app, is_terminal, is_vscode};

#[test]
fn vscode_is_recognised_by_bundle_id() {
    assert!(is_vscode(&Some("com.microsoft.VSCode".to_string())));
    assert!(is_vscode(&Some("com.microsoft.VSCodeInsiders".to_string())));
    assert!(!is_vscode(&Some("com.apple.Safari".to_string())));
    assert!(!is_vscode(&None));
}

#[test]
fn terminals_are_recognised_by_bundle_or_name() {
    assert!(is_terminal("Whatever", &Some("com.googlecode.iterm2".to_string())));
    assert!(is_terminal("kitty", &None));
    assert!(is_terminal("Ghostty", &Some("other.id".to_string())));
    assert!(!is_terminal("Safari", &Some("com.apple.Safari".to_string())));
    assert!(!is_terminal("terminal", &None));
}

#[test]
fn coding_apps_are_vscode_or_terminals() {
    assert!(is_coding_app("Code", &Some("com.microsoft.VSCode".to_string())));
    assert!(is_coding_app("Terminal", &None));
    assert!(!is_coding_app("Slack", &Some("com.tinyspeck.slackmacgap".to_string())));
}
