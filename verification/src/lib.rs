//! Activity-tracking logic for a developer time tracker: which app and git
//! branches are active, which Jira ticket a branch names, when the tracker
//! opens and closes activity records, and how stored activity is summarised.
pub mod active_app;
pub mod git_branch;
pub mod idle;
pub mod jira;
pub mod summary;
pub mod text;
pub mod tracking;
pub mod zoom;
