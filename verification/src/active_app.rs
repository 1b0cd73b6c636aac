//! Which applications are coding applications: VS Code and terminals.
use vstd::prelude::*;
use crate::text::{contains_text, has_substring, opt_view, text_eq};

verus! {

broadcast use vstd::string::group_string_axioms;

/// The frontmost application: its name and bundle id.
pub struct AppInfo {
    pub name: String,
    pub bundle_id: Option<String>,
}

/// A bundle id of VS Code: the exact id, or any id that mentions `VSCode`.
pub open spec fn is_vscode_id(id: Seq<char>) -> bool {
    id == "com.microsoft.VSCode"@ || has_substring(id, "VSCode"@)
}

/// The bundle ids of the known terminals.
pub open spec fn is_terminal_bundle(id: Seq<char>) -> bool {
    ||| id == "com.apple.Terminal"@
    ||| id == "com.googlecode.iterm2"@
    ||| id == "io.alacritty"@
    ||| id == "com.mitchellh.ghostty"@
    ||| id == "dev.warp.Warp-Stable"@
    ||| id == "net.kovidgoyal.kitty"@
}

/// The application names of the known terminals.
pub open spec fn is_terminal_name(name: Seq<char>) -> bool {
    ||| name == "Terminal"@
    ||| name == "iTerm2"@
    ||| name == "Alacritty"@
    ||| name == "Ghostty"@
    ||| name == "Warp"@
    ||| name == "kitty"@
}

/// An application with this name and bundle id is a terminal.
pub open spec fn is_terminal_app(name: Seq<char>, bundle_id: Option<Seq<char>>) -> bool {
    (bundle_id matches Some(id) && is_terminal_bundle(id)) || is_terminal_name(name)
}

/// An application with this name and bundle id is one to scan git
/// branches for.
pub open spec fn is_coding(name: Seq<char>, bundle_id: Option<Seq<char>>) -> bool {
    (bundle_id matches Some(id) && is_vscode_id(id)) || is_terminal_app(name, bundle_id)
}

/// Each of the six known terminals is recognised as a terminal, and so
/// as a coding application: by its bundle id whatever its name, and by its
/// name whatever its bundle id.
pub proof fn lemma_known_terminals_recognised(name: Seq<char>, bundle_id: Option<Seq<char>>)
    ensures
        is_terminal_app(name, Some("com.apple.Terminal"@)),
        is_terminal_app(name, Some("com.googlecode.iterm2"@)),
        is_terminal_app(name, Some("io.alacritty"@)),
        is_terminal_app(name, Some("com.mitchellh.ghostty"@)),
        is_terminal_app(name, Some("dev.warp.Warp-Stable"@)),
        is_terminal_app(name, Some("net.kovidgoyal.kitty"@)),
        is_terminal_app("Terminal"@, bundle_id),
        is_terminal_app("iTerm2"@, bundle_id),
        is_terminal_app("Alacritty"@, bundle_id),
        is_terminal_app("Ghostty"@, bundle_id),
        is_terminal_app("Warp"@, bundle_id),
        is_terminal_app("kitty"@, bundle_id),
        is_terminal_app(name, bundle_id) ==> is_coding(name, bundle_id),
{
}

/// VS Code is recognised as a coding application by its bundle id, and so
/// is any bundle id that mentions `VSCode`, whatever the name.
pub proof fn lemma_vscode_recognised(name: Seq<char>, id: Seq<char>)
    ensures
        is_coding(name, Some("com.microsoft.VSCode"@)),
        has_substring(id, "VSCode"@) ==> is_coding(name, Some(id)),
{
}

/// Returns true if the app is VS Code
pub fn is_vscode(bundle_id: &Option<String>) -> (res: bool)
    ensures
        res == (opt_view(*bundle_id) matches Some(id) && is_vscode_id(id)),
{
    match bundle_id {
        Some(id) => text_eq(id.as_str(), "com.microsoft.VSCode") || contains_text(
            id.as_str(),
            "VSCode",
        ),
        None => false,
    }
}

/// Returns true if the app is a terminal (coding agents run here)
pub fn is_terminal(name: &str, bundle_id: &Option<String>) -> (res: bool)
    ensures
        res == is_terminal_app(name@, opt_view(*bundle_id)),
{
    if let Some(id) = bundle_id {
        let id = id.as_str();
        if text_eq(id, "com.apple.Terminal") || text_eq(id, "com.googlecode.iterm2") || text_eq(
            id,
            "io.alacritty",
        ) || text_eq(id, "com.mitchellh.ghostty") || text_eq(id, "dev.warp.Warp-Stable")
            || text_eq(id, "net.kovidgoyal.kitty") {
            return true;
        }
    }
    text_eq(name, "Terminal") || text_eq(name, "iTerm2") || text_eq(name, "Alacritty") || text_eq(
        name,
        "Ghostty",
    ) || text_eq(name, "Warp") || text_eq(name, "kitty")
}

/// Returns true if the app is one where we should scan for git branches
/// (VS Code, and terminals where coding agents run)
pub fn is_coding_app(name: &str, bundle_id: &Option<String>) -> (res: bool)
    ensures
        res == is_coding(name@, opt_view(*bundle_id)),
{
    is_vscode(bundle_id) || is_terminal(name, bundle_id)
}

} // verus!
