use devtracker::git_branch::BranchInfo;
use devtracker::tracking::{
    app_identity, gather_state, repo_name_from_path, state_key, ActiveBranch, CurrentState,
    Tracker,
};
use devtracker::active_app::AppInfo;

/// A wall clock that runs with the monotonic one, from 1_700_000_000 s.
fn wall(nanos: u64) -> i64 {
    1_700_000_000 + (nanos / 1_000_000_000) as i64
}

fn state(app: &str, branches: &[(&str, &str)]) -> CurrentState {
    let recent: Vec<BranchInfo> = branches
        .iter()
        .map(|(repo, b)| BranchInfo { branch: b.to_string(), repo_path: repo.to_string() })
        .collect();
    gather_state(app.to_string(), None, recent, false)
}

#[test]
fn repo_names_are_last_path_segments() {
    assert_eq!(repo_name_from_path("/Users/me/code/api"), "api");
    assert_eq!(repo_name_from_path("/Users/me/code/api/"), "api");
    assert_eq!(repo_name_from_path("api"), "api");
    assert_eq!(repo_name_from_path("/"), "unknown");
    assert_eq!(repo_name_from_path(""), "unknown");
}

#[test]
fn unknown_app_when_none_is_frontmost() {
    let (name, bundle) = app_identity(None);
    assert_eq!(name, "Unknown");
    assert_eq!(bundle, None);
    let (name, bundle) =
        app_identity(Some(AppInfo { name: "Code".to_string(), bundle_id: Some("b".to_string()) }));
    assert_eq!(name, "Code");
    assert_eq!(bundle, Some("b".to_string()));
}

#[test]
fn coding_state_lists_branches_with_tickets() {
    let s = state("Terminal", &[("/r/api", "feature/PROJ-7-x"), ("/r/web", "main")]);
    assert_eq!(s.branch.as_deref(), Some("feature/PROJ-7-x"));
    assert_eq!(s.repo_path.as_deref(), Some("/r/api"));
    assert_eq!(s.jira_ticket.as_deref(), Some("PROJ-7"));
    assert_eq!(s.active_branches.len(), 2);
    assert_eq!(s.active_branches[1].repo_name, "web");
    assert_eq!(s.active_branches[1].jira_ticket, None);
    assert_eq!(state_key(&s), "Terminal|false|feature/PROJ-7-x|api:feature/PROJ-7-x,web:main");
}

#[test]
fn other_apps_ignore_branches() {
    let s = state("Slack", &[("/r/api", "main")]);
    assert!(s.active_branches.is_empty());
    assert_eq!(s.branch, None);
    assert_eq!(state_key(&s), "Slack|false||");
}

#[test]
fn same_state_twice_writes_once() {
    let mut t = Tracker::new();
    let s = state("Slack", &[]);
    let start = t.begin_poll(1_000, wall(1_000));
    assert!(!start.was_sleeping);
    let plan = t.plan_poll(&s, start.was_sleeping).expect("first poll writes");
    assert!(plan.close_ids.is_empty());
    assert_eq!(plan.inserts.len(), 1);
    assert_eq!(plan.inserts[0].key, "__primary__");
    assert_eq!(plan.inserts[0].app_name, "Slack");
    let n = plan.inserts.len();
    t.finish_poll(plan, s.clone(), vec![Some(11); n]);
    assert_eq!(t.current_state().app_name, "Slack");

    let start = t.begin_poll(31_000_000_000, wall(31_000_000_000));
    assert!(!start.was_sleeping);
    assert!(t.plan_poll(&s, start.was_sleeping).is_none());
}

#[test]
fn a_change_closes_what_was_opened() {
    let mut t = Tracker::new();
    let s1 = state("Terminal", &[("/r/api", "main"), ("/r/web", "dev")]);
    let start = t.begin_poll(0, wall(0));
    let plan = t.plan_poll(&s1, start.was_sleeping).unwrap();
    assert_eq!(plan.inserts.len(), 2);
    assert_eq!(plan.inserts[1].key, "/r/web");
    assert_eq!(plan.inserts[1].branch.as_deref(), Some("dev"));
    t.finish_poll(plan, s1, vec![Some(1), Some(2)]);

    let s2 = state("Slack", &[]);
    let start = t.begin_poll(30_000_000_000, wall(30_000_000_000));
    let plan = t.plan_poll(&s2, start.was_sleeping).unwrap();
    let mut closed = plan.close_ids.clone();
    closed.sort();
    assert_eq!(closed, vec![1, 2]);
}

#[test]
fn failed_inserts_are_not_remembered() {
    let mut t = Tracker::new();
    let s1 = state("Terminal", &[("/r/api", "main"), ("/r/web", "dev")]);
    let start = t.begin_poll(0, wall(0));
    let plan = t.plan_poll(&s1, start.was_sleeping).unwrap();
    t.finish_poll(plan, s1, vec![None, Some(2)]);
    let s2 = state("Slack", &[]);
    let plan = t.plan_poll(&s2, false).unwrap();
    assert_eq!(plan.close_ids, vec![2]);
}

#[test]
fn sleep_gap_closes_everything_and_rewrites() {
    let mut t = Tracker::new();
    let s = state("Slack", &[]);
    let start = t.begin_poll(0, wall(0));
    let plan = t.plan_poll(&s, start.was_sleeping).unwrap();
    t.finish_poll(plan, s.clone(), vec![Some(5)]);

    // 2 minutes exactly is still a normal gap.
    let start = t.begin_poll(120_000_000_000, wall(120_000_000_000));
    assert!(!start.was_sleeping);
    assert!(start.close_ids.is_empty());
    assert_eq!(start.close_at, None);

    let start = t.begin_poll(240_000_000_001, wall(240_000_000_001));
    assert!(start.was_sleeping);
    assert_eq!(start.close_ids, vec![5]);
    // They end one poll interval after the last poll before the gap (at
    // 120 s), not at the time of waking (240 s).
    assert_eq!(start.close_at, Some(1_700_000_000 + 120 + 30));
    let plan = t.plan_poll(&s, start.was_sleeping).expect("a wake always writes");
    assert!(plan.close_ids.is_empty());
    assert_eq!(plan.inserts.len(), 1);
}

#[test]
fn clock_going_back_is_no_gap() {
    let mut t = Tracker::new();
    t.begin_poll(500_000_000_000, wall(500_000_000_000));
    let start = t.begin_poll(1, wall(1));
    assert!(!start.was_sleeping);
}

#[test]
fn current_state_default_is_empty() {
    let s = CurrentState::default();
    assert_eq!(s.app_name, "");
    assert!(s.active_branches.is_empty());
    let b = ActiveBranch {
        branch: "b".to_string(),
        repo_path: "p".to_string(),
        repo_name: "n".to_string(),
        jira_ticket: None,
    };
    assert_eq!(b.clone().branch, "b");
}

/// Runs one poll against a simulated store of open row ids, giving each
/// opened activity the next id.
fn poll_into(t: &mut Tracker, store: &mut Vec<i64>, next_id: &mut i64, now: u64, s: &CurrentState) {
    let start = t.begin_poll(now, wall(now));
    store.retain(|id| !start.close_ids.contains(id));
    if let Some(plan) = t.plan_poll(s, start.was_sleeping) {
        store.retain(|id| !plan.close_ids.contains(id));
        let mut inserted = Vec::new();
        for _ in 0..plan.inserts.len() {
            *next_id += 1;
            store.push(*next_id);
            inserted.push(Some(*next_id));
        }
        t.finish_poll(plan, s.clone(), inserted);
    }
}

#[test]
fn store_keeps_only_the_latest_rows_open() {
    let mut t = Tracker::new();
    let mut store: Vec<i64> = Vec::new();
    let mut next_id = 0;
    let a = state("Terminal", &[("/r/api", "main"), ("/r/web", "dev")]);
    let b = state("Slack", &[]);
    poll_into(&mut t, &mut store, &mut next_id, 0, &a);
    assert_eq!(store, vec![1, 2]);
    poll_into(&mut t, &mut store, &mut next_id, 30_000_000_000, &a);
    assert_eq!(store, vec![1, 2]);
    poll_into(&mut t, &mut store, &mut next_id, 60_000_000_000, &b);
    assert_eq!(store, vec![3]);
    // A sleep gap, then the same state: the row is closed and a new one opened.
    poll_into(&mut t, &mut store, &mut next_id, 400_000_000_000, &b);
    assert_eq!(store, vec![4]);
    poll_into(&mut t, &mut store, &mut next_id, 430_000_000_000, &a);
    assert_eq!(store, vec![5, 6]);
}
