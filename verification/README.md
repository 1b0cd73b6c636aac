# devtracker

The logic of DevTracker, a macOS menubar app that records which app, git
branches and Jira tickets a developer works on, verified with Verus.

- `src/` is the verified library: text primitives (`text`), coding-app
  detection (`active_app`), branch parsing, VS Code's list of recent
  folders (read through `serde_json`) and recency ordering (`git_branch`), ticket extraction through the `regex` crate
  (`jira`), idle and meeting decisions (`idle`, `zoom`), the tracker's poll
  decisions as a state machine (`tracking`), and the per-repository
  breakdown and text export (`summary`).
- `app/` is the Tauri application around it: the SQLite store, the macOS
  probes (frontmost app, `pgrep`, `ioreg`), the clock, and the commands the
  frontend calls. Floating-point hours stay there.
- `tests/` runs the library on concrete values.
