//! What the tracker knows about the current moment, and the decisions of its
//! periodic poll: when a sleep gap closes everything, when a poll writes
//! nothing, which activities it closes and which it opens.
use vstd::prelude::*;
use crate::active_app::{is_coding, is_coding_app, AppInfo};
use crate::git_branch::BranchInfo;
use crate::jira::{extract_ticket, ticket_of};
use crate::text::{chars_of, opt_view, substring};

verus! {

broadcast use vstd::string::group_string_axioms;

/// The longest gap between two polls that is not taken for sleep: two
/// minutes, in nanoseconds (polls normally come every 30 seconds).
pub const MAX_POLL_GAP_NANOS: u64 = 120_000_000_000;

/// The interval between two polls, in seconds: after a sleep gap, the open
/// activities end this long after the last poll before it.
pub const POLL_INTERVAL_SECS: i64 = 30;

/// When the activities open before a sleep gap end: one poll interval
/// after the wall-clock time `last_wall` (Unix seconds) of the last poll
/// before the gap, or the latest time there is.
pub open spec fn sleep_close_time(last_wall: i64) -> i64 {
    if last_wall <= i64::MAX - POLL_INTERVAL_SECS {
        (last_wall + POLL_INTERVAL_SECS) as i64
    } else {
        i64::MAX
    }
}

/// The key under which the one activity of a state without active branches
/// is recorded.
pub open spec fn primary_activity_key() -> Seq<char> {
    "__primary__"@
}

/// One git branch that saw recent activity.
pub struct ActiveBranch {
    pub branch: String,
    pub repo_path: String,
    pub repo_name: String,
    pub jira_ticket: Option<String>,
}

/// What the tracker saw at its last poll.
pub struct CurrentState {
    pub app_name: String,
    pub bundle_id: Option<String>,
    pub branch: Option<String>,
    pub repo_path: Option<String>,
    pub is_meeting: bool,
    pub jira_ticket: Option<String>,
    /// All branches with recent git activity (for multi-branch workflows)
    pub active_branches: Vec<ActiveBranch>,
}

/// A copy of an optional string.
pub fn clone_opt(o: &Option<String>) -> (res: Option<String>)
    ensures
        res == *o,
{
    match o {
        Some(s) => Some(s.clone()),
        None => None,
    }
}

impl Clone for ActiveBranch {
    fn clone(&self) -> (res: Self)
        ensures
            res == *self,
    {
        ActiveBranch {
            branch: self.branch.clone(),
            repo_path: self.repo_path.clone(),
            repo_name: self.repo_name.clone(),
            jira_ticket: clone_opt(&self.jira_ticket),
        }
    }
}

impl Clone for CurrentState {
    fn clone(&self) -> (res: Self)
        ensures
            res.app_name == self.app_name,
            res.bundle_id == self.bundle_id,
            res.branch == self.branch,
            res.repo_path == self.repo_path,
            res.is_meeting == self.is_meeting,
            res.jira_ticket == self.jira_ticket,
            res.active_branches@ == self.active_branches@,
    {
        let active = self.active_branches.clone();
        assert(active@ =~= self.active_branches@);
        CurrentState {
            app_name: self.app_name.clone(),
            bundle_id: clone_opt(&self.bundle_id),
            branch: clone_opt(&self.branch),
            repo_path: clone_opt(&self.repo_path),
            is_meeting: self.is_meeting,
            jira_ticket: clone_opt(&self.jira_ticket),
            active_branches: active,
        }
    }
}

impl Default for CurrentState {
    fn default() -> (res: Self)
        ensures
            res.app_name@ == Seq::<char>::empty(),
            res.bundle_id is None,
            res.branch is None,
            res.repo_path is None,
            !res.is_meeting,
            res.jira_ticket is None,
            res.active_branches@.len() == 0,
    {
        CurrentState {
            app_name: String::new(),
            bundle_id: None,
            branch: None,
            repo_path: None,
            is_meeting: false,
            jira_ticket: None,
            active_branches: Vec::new(),
        }
    }
}

// ---------------------------------------------------------------- the change key

/// How `Display` writes a `bool`.
pub open spec fn bool_text(b: bool) -> Seq<char> {
    if b {
        "true"@
    } else {
        "false"@
    }
}

/// `repo_name:branch`.
pub open spec fn branch_label(b: ActiveBranch) -> Seq<char> {
    b.repo_name@ + ":"@ + b.branch@
}

/// The labels of `bs`, joined by commas.
pub open spec fn joined_labels(bs: Seq<ActiveBranch>) -> Seq<char>
    decreases bs.len(),
{
    if bs.len() == 0 {
        Seq::empty()
    } else if bs.len() == 1 {
        branch_label(bs[0])
    } else {
        joined_labels(bs.drop_last()) + ","@ + branch_label(bs.last())
    }
}

/// The string, or nothing.
pub open spec fn text_or_empty(o: Option<String>) -> Seq<char> {
    match o {
        Some(s) => s@,
        None => Seq::empty(),
    }
}

/// The key by which the tracker tells one state from another:
/// `app|meeting|branch|repo:branch,repo:branch,...`.
pub open spec fn primary_key(s: CurrentState) -> Seq<char> {
    s.app_name@ + "|"@ + bool_text(s.is_meeting) + "|"@ + text_or_empty(s.branch) + "|"@
        + joined_labels(s.active_branches@)
}

/// The change key of `state`.
pub fn state_key(state: &CurrentState) -> (res: String)
    ensures
        res@ == primary_key(*state),
{
    let mut out = state.app_name.clone();
    out.append("|");
    if state.is_meeting {
        out.append("true");
    } else {
        out.append("false");
    }
    out.append("|");
    match &state.branch {
        Some(b) => out.append(b.as_str()),
        None => {},
    }
    out.append("|");
    let ghost prefix = out@;
    let bs = &state.active_branches;
    let mut i: usize = 0;
    while i < bs.len()
        invariant
            i <= bs@.len(),
            out@ == prefix + joined_labels(bs@.take(i as int)),
        decreases bs@.len() - i,
    {
        if i > 0 {
            out.append(",");
        }
        out.append(bs[i].repo_name.as_str());
        out.append(":");
        out.append(bs[i].branch.as_str());
        proof {
            let t = bs@.take(i + 1);
            assert(t.drop_last() =~= bs@.take(i as int));
            assert(t.last() == bs@[i as int]);
            if i == 0 {
                assert(t.len() == 1);
            }
        }
        i = i + 1;
    }
    assert(bs@.take(bs@.len() as int) =~= bs@);
    out
}

/// The change key writes whether a meeting is on right after the app name
/// and its `|`: `t` of `true` or `f` of `false`.
pub proof fn lemma_key_records_meeting(s: CurrentState)
    ensures
        primary_key(s).len() > s.app_name@.len() + 1,
        primary_key(s)[s.app_name@.len() as int] == '|',
        primary_key(s)[s.app_name@.len() as int + 1] == if s.is_meeting {
            't'
        } else {
            'f'
        },
{
    reveal_strlit("|");
    reveal_strlit("true");
    reveal_strlit("false");
    let n = s.app_name@.len() as int;
    let k = primary_key(s);
    let head = s.app_name@ + "|"@ + bool_text(s.is_meeting);
    assert(k =~= head + ("|"@ + text_or_empty(s.branch) + "|"@ + joined_labels(s.active_branches@)));
    assert(head[n] == '|');
    assert(head[n + 1] == bool_text(s.is_meeting)[0]);
}

/// Two states that differ only in whether a meeting is on have different
/// change keys, so a poll that finds a meeting started (or ended) always
/// writes, whatever it remembered.
pub proof fn lemma_meeting_changes_key(s: CurrentState, t: CurrentState, open_ids: Seq<i64>)
    requires
        s.app_name@ == t.app_name@,
        s.branch == t.branch,
        s.active_branches@ == t.active_branches@,
        s.is_meeting != t.is_meeting,
    ensures
        primary_key(s) != primary_key(t),
        plan_for(primary_key(s), open_ids, t, false) is Some,
{
    lemma_key_records_meeting(s);
    lemma_key_records_meeting(t);
}

/// Two states whose app names differ (names without `|`) have different
/// change keys.
pub proof fn lemma_app_changes_key(s: CurrentState, t: CurrentState)
    requires
        s.app_name@ != t.app_name@,
        !s.app_name@.contains('|'),
        !t.app_name@.contains('|'),
    ensures
        primary_key(s) != primary_key(t),
{
    lemma_key_records_meeting(s);
    lemma_key_records_meeting(t);
    let a = s.app_name@;
    let b = t.app_name@;
    let ka = primary_key(s);
    let kb = primary_key(t);
    assert(forall|i: int| 0 <= i < a.len() ==> ka[i] == a[i]);
    assert(forall|i: int| 0 <= i < b.len() ==> kb[i] == b[i]);
    if ka == kb {
        if a.len() < b.len() {
            assert(b[a.len() as int] == '|');
            assert(b.contains('|'));
        } else if b.len() < a.len() {
            assert(a[b.len() as int] == '|');
            assert(a.contains('|'));
        } else {
            assert(a =~= b) by {
                assert forall|i: int| 0 <= i < a.len() implies a[i] == b[i] by {
                    assert(ka[i] == kb[i]);
                }
            }
        }
    }
}

// ---------------------------------------------------------------- activities to open

/// An activity row to open, in plain values.
pub struct InsertView {
    pub key: Seq<char>,
    pub app_name: Seq<char>,
    pub bundle_id: Option<Seq<char>>,
    pub branch: Option<Seq<char>>,
    pub repo_path: Option<Seq<char>>,
    pub is_meeting: bool,
    pub jira_ticket: Option<Seq<char>>,
}

/// An activity row that a poll opens; `key` is what the tracker files its
/// id under (the repo path, or the primary key for a state with no branch).
pub struct ActivityInsert {
    pub key: String,
    pub app_name: String,
    pub bundle_id: Option<String>,
    pub branch: Option<String>,
    pub repo_path: Option<String>,
    pub is_meeting: bool,
    pub jira_ticket: Option<String>,
}

impl View for ActivityInsert {
    type V = InsertView;

    open spec fn view(&self) -> InsertView {
        InsertView {
            key: self.key@,
            app_name: self.app_name@,
            bundle_id: opt_view(self.bundle_id),
            branch: opt_view(self.branch),
            repo_path: opt_view(self.repo_path),
            is_meeting: self.is_meeting,
            jira_ticket: opt_view(self.jira_ticket),
        }
    }
}

/// The activity opened for a branch of `s`.
pub open spec fn branch_insert(s: CurrentState, b: ActiveBranch) -> InsertView {
    InsertView {
        key: b.repo_path@,
        app_name: s.app_name@,
        bundle_id: opt_view(s.bundle_id),
        branch: Some(b.branch@),
        repo_path: Some(b.repo_path@),
        is_meeting: s.is_meeting,
        jira_ticket: opt_view(b.jira_ticket),
    }
}

/// The activities opened for state `s`: one per active branch, or a single
/// one for the whole state when no branch is active.
pub open spec fn planned_inserts(s: CurrentState) -> Seq<InsertView> {
    if s.active_branches@.len() == 0 {
        seq![
            InsertView {
                key: primary_activity_key(),
                app_name: s.app_name@,
                bundle_id: opt_view(s.bundle_id),
                branch: opt_view(s.branch),
                repo_path: opt_view(s.repo_path),
                is_meeting: s.is_meeting,
                jira_ticket: opt_view(s.jira_ticket),
            },
        ]
    } else {
        s.active_branches@.map_values(|b: ActiveBranch| branch_insert(s, b))
    }
}

/// Each activity opened for an active branch is that branch's own row:
/// keyed and placed by its repo path, naming its branch and carrying its
/// ticket, with the state's app and meeting flag; a state without active
/// branches opens exactly one activity.
pub proof fn lemma_branch_rows_are_their_own(s: CurrentState)
    ensures
        planned_inserts(s).len() == if s.active_branches@.len() == 0 {
            1
        } else {
            s.active_branches@.len()
        },
        forall|k: int|
            0 <= k < s.active_branches@.len() ==> {
                let a = #[trigger] planned_inserts(s)[k];
                let b = s.active_branches@[k];
                &&& a.key == b.repo_path@
                &&& a.repo_path == Some(b.repo_path@)
                &&& a.branch == Some(b.branch@)
                &&& a.jira_ticket == opt_view(b.jira_ticket)
                &&& a.app_name == s.app_name@
                &&& a.is_meeting == s.is_meeting
            },
{
}

/// For a gathered state, the activity of each active branch carries the
/// ticket of that branch's own name.
pub proof fn lemma_branch_rows_carry_own_ticket(s: CurrentState, recent: Seq<BranchInfo>, k: int)
    requires
        0 <= k < s.active_branches@.len(),
        k < recent.len(),
        is_active_branch_of(s.active_branches@[k], recent[k]),
    ensures
        planned_inserts(s)[k].jira_ticket == ticket_of(recent[k].branch@),
        planned_inserts(s)[k].branch == Some(recent[k].branch@),
{
    lemma_branch_rows_are_their_own(s);
}

/// The activities to open for `state`.
pub fn inserts_for(state: &CurrentState) -> (res: Vec<ActivityInsert>)
    ensures
        res@.map_values(|a: ActivityInsert| a@) == planned_inserts(*state),
{
    let mut res: Vec<ActivityInsert> = Vec::new();
    let bs = &state.active_branches;
    if bs.len() == 0 {
        res.push(
            ActivityInsert {
                key: String::from_str("__primary__"),
                app_name: state.app_name.clone(),
                bundle_id: clone_opt(&state.bundle_id),
                branch: clone_opt(&state.branch),
                repo_path: clone_opt(&state.repo_path),
                is_meeting: state.is_meeting,
                jira_ticket: clone_opt(&state.jira_ticket),
            },
        );
        assert(res@.map_values(|a: ActivityInsert| a@) =~= planned_inserts(*state));
        return res;
    }
    let mut i: usize = 0;
    while i < bs.len()
        invariant
            i <= bs@.len(),
            bs@.len() > 0,
            bs@ == state.active_branches@,
            res@.map_values(|a: ActivityInsert| a@) =~= bs@.take(i as int).map_values(
                |b: ActiveBranch| branch_insert(*state, b),
            ),
        decreases bs@.len() - i,
    {
        let b = &bs[i];
        let item = ActivityInsert {
            key: b.repo_path.clone(),
            app_name: state.app_name.clone(),
            bundle_id: clone_opt(&state.bundle_id),
            branch: Some(b.branch.clone()),
            repo_path: Some(b.repo_path.clone()),
            is_meeting: state.is_meeting,
            jira_ticket: clone_opt(&b.jira_ticket),
        };
        assert(item@ == branch_insert(*state, bs@[i as int]));
        let ghost before = res@;
        let ghost item_view = item@;
        res.push(item);
        assert(res@.map_values(|a: ActivityInsert| a@) =~= before.map_values(
            |a: ActivityInsert| a@,
        ).push(item_view));
        assert(bs@.take(i + 1) =~= bs@.take(i as int).push(bs@[i as int]));
        assert(bs@.take(i + 1).map_values(|b: ActiveBranch| branch_insert(*state, b)) =~= bs@.take(
            i as int,
        ).map_values(|b: ActiveBranch| branch_insert(*state, b)).push(
            branch_insert(*state, bs@[i as int]),
        ));
        i = i + 1;
    }
    assert(bs@.take(bs@.len() as int) =~= bs@);
    res
}

// ---------------------------------------------------------------- gathering

/// `s` without its trailing slashes.
pub open spec fn without_trailing_slashes(s: Seq<char>) -> Seq<char>
    decreases s.len(),
{
    if s.len() > 0 && s.last() == '/' {
        without_trailing_slashes(s.drop_last())
    } else {
        s
    }
}

/// The position of the last slash in `s`, or -1.
pub open spec fn last_slash(s: Seq<char>) -> int
    decreases s.len(),
{
    if s.len() == 0 {
        -1
    } else if s.last() == '/' {
        s.len() - 1
    } else {
        last_slash(s.drop_last())
    }
}

/// The name of the repository at `path`: its last non-empty `/`-segment,
/// or `unknown` when it has none.
pub open spec fn repo_name(path: Seq<char>) -> Seq<char> {
    let t = without_trailing_slashes(path);
    if t.len() == 0 {
        "unknown"@
    } else {
        t.skip(last_slash(t) + 1)
    }
}

/// The name of the repository at `path` (see `repo_name`).
pub fn repo_name_from_path(path: &str) -> (res: String)
    ensures
        res@ == repo_name(path@),
{
    let cs = chars_of(path);
    let mut hi: usize = cs.len();
    assert(path@.take(hi as int) =~= path@);
    while hi > 0 && cs[hi - 1] == '/'
        invariant
            cs@ == path@,
            hi <= cs@.len(),
            without_trailing_slashes(path@) == without_trailing_slashes(path@.take(hi as int)),
        decreases hi,
    {
        assert(path@.take(hi as int).drop_last() =~= path@.take(hi - 1));
        hi = hi - 1;
    }
    let ghost t = path@.take(hi as int);
    assert(without_trailing_slashes(path@) == t);
    if hi == 0 {
        return String::from_str("unknown");
    }
    let mut lo: usize = hi;
    assert(t.take(lo as int) =~= t);
    while lo > 0 && cs[lo - 1] != '/'
        invariant
            cs@ == path@,
            lo <= hi <= cs@.len(),
            t == path@.take(hi as int),
            last_slash(t) == last_slash(t.take(lo as int)),
        decreases lo,
    {
        assert(t.take(lo as int).drop_last() =~= t.take(lo - 1));
        lo = lo - 1;
    }
    assert(t.skip(last_slash(t) + 1) =~= path@.subrange(lo as int, hi as int));
    substring(path, lo, hi)
}

/// The name and bundle id of the frontmost application, `Unknown` when
/// there is none.
pub fn app_identity(app: Option<AppInfo>) -> (res: (String, Option<String>))
    ensures
        match app {
            Some(info) => res.0@ == info.name@ && res.1 == info.bundle_id,
            None => res.0@ == "Unknown"@ && res.1 is None,
        },
{
    match app {
        Some(info) => (info.name, info.bundle_id),
        None => (String::from_str("Unknown"), None),
    }
}

/// The active branch that recently active branch `b` makes.
pub open spec fn is_active_branch_of(a: ActiveBranch, b: BranchInfo) -> bool {
    &&& a.branch@ == b.branch@
    &&& a.repo_path@ == b.repo_path@
    &&& a.repo_name@ == repo_name(b.repo_path@)
    &&& opt_view(a.jira_ticket) == ticket_of(b.branch@)
}

/// The state of a moment: the frontmost application `app_name` /
/// `bundle_id`; for a coding application, the branches with recent
/// activity (`recent`, most recent first), the most recent of them as the
/// primary branch; and whether a meeting is on.
pub fn gather_state(
    app_name: String,
    bundle_id: Option<String>,
    recent: Vec<BranchInfo>,
    is_meeting: bool,
) -> (res: CurrentState)
    ensures
        res.app_name@ == app_name@,
        res.bundle_id == bundle_id,
        res.is_meeting == is_meeting,
        !is_coding(app_name@, opt_view(bundle_id)) ==> {
            &&& res.active_branches@.len() == 0
            &&& res.branch is None
            &&& res.repo_path is None
            &&& res.jira_ticket is None
        },
        is_coding(app_name@, opt_view(bundle_id)) ==> {
            &&& res.active_branches@.len() == recent@.len()
            &&& forall|k: int|
                0 <= k < recent@.len() ==> is_active_branch_of(
                    #[trigger] res.active_branches@[k],
                    recent@[k],
                )
            &&& if recent@.len() == 0 {
                &&& res.branch is None
                &&& res.repo_path is None
                &&& res.jira_ticket is None
            } else {
                &&& opt_view(res.branch) == Some(recent@[0].branch@)
                &&& opt_view(res.repo_path) == Some(recent@[0].repo_path@)
                &&& res.jira_ticket == res.active_branches@[0].jira_ticket
            }
        },
{
    let coding = is_coding_app(app_name.as_str(), &bundle_id);
    let mut active: Vec<ActiveBranch> = Vec::new();
    if coding {
        let mut k: usize = 0;
        while k < recent.len()
            invariant
                k <= recent@.len(),
                active@.len() == k,
                forall|q: int| 0 <= q < k ==> is_active_branch_of(#[trigger] active@[q], recent@[q]),
            decreases recent@.len() - k,
        {
            let b = &recent[k];
            active.push(
                ActiveBranch {
                    branch: b.branch.clone(),
                    repo_path: b.repo_path.clone(),
                    repo_name: repo_name_from_path(b.repo_path.as_str()),
                    jira_ticket: extract_ticket(b.branch.as_str()),
                },
            );
            k = k + 1;
        }
    }
    let (branch, repo_path, jira_ticket) = if active.len() > 0 {
        (
            Some(active[0].branch.clone()),
            Some(active[0].repo_path.clone()),
            clone_opt(&active[0].jira_ticket),
        )
    } else {
        (None, None, None)
    };
    CurrentState {
        app_name,
        bundle_id,
        branch,
        repo_path,
        is_meeting,
        jira_ticket,
        active_branches: active,
    }
}

// ---------------------------------------------------------------- the tracker

/// The activity ids the tracker has open, filed by key: repo path, or the
/// primary key for a state with no branch.
pub open spec fn entries_view(v: Seq<(String, i64)>) -> Seq<(Seq<char>, i64)> {
    v.map_values(|p: (String, i64)| (p.0@, p.1))
}

/// The first position of `key` in `entries`, or -1.
pub open spec fn key_position(entries: Seq<(Seq<char>, i64)>, key: Seq<char>) -> int
    decreases entries.len(),
{
    if entries.len() == 0 {
        -1
    } else {
        let p = key_position(entries.drop_last(), key);
        if p >= 0 {
            p
        } else if entries.last().0 == key {
            entries.len() - 1
        } else {
            -1
        }
    }
}

/// A found position is in range and holds `key`.
pub proof fn lemma_key_position_bounds(entries: Seq<(Seq<char>, i64)>, key: Seq<char>)
    ensures
        -1 <= key_position(entries, key) < entries.len(),
        key_position(entries, key) >= 0 ==> entries[key_position(entries, key)].0 == key,
        key_position(entries, key) < 0 ==> forall|i: int|
            0 <= i < entries.len() ==> #[trigger] entries[i].0 != key,
    decreases entries.len(),
{
    if entries.len() > 0 {
        lemma_key_position_bounds(entries.drop_last(), key);
        if key_position(entries, key) < 0 {
            assert forall|i: int| 0 <= i < entries.len() implies #[trigger] entries[i].0 != key by {
                if i < entries.len() - 1 {
                    assert(entries.drop_last()[i] == entries[i]);
                }
            }
        }
    }
}

/// A position found in a prefix is the position in the whole.
pub proof fn lemma_key_position_prefix(entries: Seq<(Seq<char>, i64)>, key: Seq<char>, m: int)
    requires
        0 <= m <= entries.len(),
        key_position(entries.take(m), key) >= 0,
    ensures
        key_position(entries, key) == key_position(entries.take(m), key),
    decreases entries.len(),
{
    if m == entries.len() {
        assert(entries.take(m) =~= entries);
    } else {
        assert(entries.drop_last().take(m) =~= entries.take(m));
        lemma_key_position_prefix(entries.drop_last(), key, m);
    }
}

/// `entries` with `id` filed under `key`, replacing what was filed there
/// (a map insert).
pub open spec fn file_id(entries: Seq<(Seq<char>, i64)>, key: Seq<char>, id: i64) -> Seq<
    (Seq<char>, i64),
> {
    let p = key_position(entries, key);
    if p >= 0 {
        entries.update(p, (key, id))
    } else {
        entries.push((key, id))
    }
}

/// The ids filed after opening activities under `keys`, where `ids[k]` is the
/// id the store gave the `k`-th one, or `None` when opening it failed.
pub open spec fn filed_ids(keys: Seq<Seq<char>>, ids: Seq<Option<i64>>) -> Seq<(Seq<char>, i64)>
    decreases keys.len(),
{
    if keys.len() == 0 {
        Seq::empty()
    } else {
        let prev = filed_ids(keys.drop_last(), ids.drop_last());
        match ids.last() {
            Some(id) => file_id(prev, keys.last(), id),
            None => prev,
        }
    }
}

/// The ids among `entries`, in order.
pub open spec fn ids_of(entries: Seq<(Seq<char>, i64)>) -> Seq<i64> {
    entries.map_values(|p: (Seq<char>, i64)| p.1)
}

/// The gap from `last` to `now` is longer than a poll ever takes, so the
/// machine slept in between. A clock that went back counts as no gap.
pub open spec fn sleep_gap(last: Option<u64>, now: u64) -> bool {
    match last {
        Some(lp) => now > lp && now - lp > MAX_POLL_GAP_NANOS,
        None => false,
    }
}

/// What a poll decides once it knows the state: `None` when nothing
/// changed, else the key to remember, the ids to close and the activities
/// to open.
pub struct PlanView {
    pub primary_key: Seq<char>,
    pub close_ids: Seq<i64>,
    pub inserts: Seq<InsertView>,
}

/// The decision for state `s`, given the remembered key, the open ids and
/// whether the poll followed a sleep gap.
pub open spec fn plan_for(last_key: Seq<char>, open_ids: Seq<i64>, s: CurrentState, was_sleeping: bool) -> Option<PlanView> {
    if primary_key(s) == last_key && !was_sleeping {
        None
    } else {
        Some(PlanView { primary_key: primary_key(s), close_ids: open_ids, inserts: planned_inserts(s) })
    }
}

/// What `Tracker::begin_poll` hands back: whether the machine slept since the
/// last poll, the activities to close because of it, and the time (Unix
/// seconds) at which they end.
pub struct PollStart {
    pub was_sleeping: bool,
    pub close_ids: Vec<i64>,
    pub close_at: Option<i64>,
}

/// What a poll does on a change of state: close `close_ids`, open `inserts`,
/// and remember `primary_key`.
pub struct PollPlan {
    pub primary_key: String,
    pub close_ids: Vec<i64>,
    pub inserts: Vec<ActivityInsert>,
}

impl View for PollPlan {
    type V = PlanView;

    open spec fn view(&self) -> PlanView {
        PlanView {
            primary_key: self.primary_key@,
            close_ids: self.close_ids@,
            inserts: self.inserts@.map_values(|a: ActivityInsert| a@),
        }
    }
}

/// The view of an optional plan.
pub open spec fn opt_plan_view(p: Option<PollPlan>) -> Option<PlanView> {
    match p {
        Some(p) => Some(p@),
        None => None,
    }
}

/// The keys of a plan's activities.
pub open spec fn insert_keys(inserts: Seq<InsertView>) -> Seq<Seq<char>> {
    inserts.map_values(|a: InsertView| a.key)
}

/// The tracker's memory between polls.
pub struct Tracker {
    current_state: CurrentState,
    /// Maps repo_path -> activity_id for multi-branch tracking
    active_activities: Vec<(String, i64)>,
    last_primary_key: String,
    /// Monotonic nanoseconds and wall-clock Unix seconds of the last poll.
    last_poll_time: Option<(u64, i64)>,
}

impl Tracker {
    /// The ids of open activities, filed by key.
    pub closed spec fn entries(&self) -> Seq<(Seq<char>, i64)> {
        entries_view(self.active_activities@)
    }

    /// The tracker's invariant: no two ids are filed under one key, so the
    /// filed ids form a map from key to id.
    pub open spec fn well_formed(&self) -> bool {
        keys_of(self.entries()).no_duplicates()
    }

    /// The ids of the activities the tracker has open.
    pub open spec fn open_ids(&self) -> Seq<i64> {
        ids_of(self.entries())
    }

    /// The change key of the last state recorded.
    pub closed spec fn last_key(&self) -> Seq<char> {
        self.last_primary_key@
    }

    /// The state the tracker shows.
    pub closed spec fn shown(&self) -> CurrentState {
        self.current_state
    }

    /// When the last poll began, in nanoseconds of a monotonic clock.
    pub closed spec fn last_poll(&self) -> Option<u64> {
        match self.last_poll_time {
            Some(t) => Some(t.0),
            None => None,
        }
    }

    /// When the last poll began, in Unix seconds of the wall clock.
    pub closed spec fn last_poll_wall(&self) -> Option<i64> {
        match self.last_poll_time {
            Some(t) => Some(t.1),
            None => None,
        }
    }

    /// What `begin_poll` leaves and returns, given the tracker before it.
    pub open spec fn began(before: Tracker, now: u64, wall: i64, start: PollStart, after: Tracker) -> bool {
        &&& start.was_sleeping == sleep_gap(before.last_poll(), now)
        &&& after.last_poll() == Some(now)
        &&& after.last_poll_wall() == Some(wall)
        &&& after.shown() == before.shown()
        &&& if start.was_sleeping {
            &&& before.last_poll_wall() is Some
            &&& start.close_at == Some(sleep_close_time(before.last_poll_wall()->0))
            &&& start.close_ids@ == before.open_ids()
            &&& after.entries() == Seq::<(Seq<char>, i64)>::empty()
            &&& after.last_key() == Seq::<char>::empty()
        } else {
            &&& start.close_ids@ == Seq::<i64>::empty()
            &&& start.close_at is None
            &&& after.entries() == before.entries()
            &&& after.last_key() == before.last_key()
        }
    }

    /// What `finish_poll` leaves, given the tracker before it.
    pub open spec fn finished(
        before: Tracker,
        plan: PlanView,
        state: CurrentState,
        inserted: Seq<Option<i64>>,
        after: Tracker,
    ) -> bool {
        &&& after.shown() == state
        &&& after.last_key() == plan.primary_key
        &&& after.entries() == filed_ids(insert_keys(plan.inserts), inserted)
        &&& after.last_poll() == before.last_poll()
        &&& after.last_poll_wall() == before.last_poll_wall()
    }

    /// The state the tracker last recorded.
    pub fn current_state(&self) -> (res: &CurrentState)
        ensures
            *res == self.shown(),
    {
        &self.current_state
    }

    /// A tracker that has seen nothing yet.
    pub fn new() -> (res: Self)
        ensures
            res.entries() == Seq::<(Seq<char>, i64)>::empty(),
            res.well_formed(),
            res.last_key() == Seq::<char>::empty(),
            res.last_poll() is None,
            res.last_poll_wall() is None,
            res.shown().app_name@ == Seq::<char>::empty(),
            res.shown().bundle_id is None,
            res.shown().branch is None,
            res.shown().repo_path is None,
            !res.shown().is_meeting,
            res.shown().jira_ticket is None,
            res.shown().active_branches@.len() == 0,
    {
        let res = Tracker {
            current_state: CurrentState::default(),
            active_activities: Vec::new(),
            last_primary_key: String::new(),
            last_poll_time: None,
        };
        assert(res.entries() =~= Seq::<(Seq<char>, i64)>::empty());
        assert(keys_of(res.entries()) =~= Seq::<Seq<char>>::empty());
        res
    }

    /// The ids of the open activities.
    fn open_id_list(&self) -> (res: Vec<i64>)
        ensures
            res@ == self.open_ids(),
    {
        let mut res: Vec<i64> = Vec::new();
        let mut i: usize = 0;
        while i < self.active_activities.len()
            invariant
                i <= self.active_activities@.len(),
                res@ =~= self.open_ids().take(i as int),
            decreases self.active_activities@.len() - i,
        {
            res.push(self.active_activities[i].1);
            assert(self.open_ids().take(i + 1) =~= self.open_ids().take(i as int).push(
                self.open_ids()[i as int],
            ));
            i = i + 1;
        }
        assert(self.open_ids().take(self.open_ids().len() as int) =~= self.open_ids());
        res
    }

    /// First step of a poll, at monotonic time `now` (nanoseconds) and wall
    /// time `wall` (Unix seconds). After a sleep gap every open activity is
    /// handed back to be closed one poll interval after the last poll before
    /// the gap (so the time asleep is not counted), and the tracker forgets
    /// them and the last state, so the coming state counts as a change; the
    /// times of this poll are remembered either way.
    pub fn begin_poll(&mut self, now: u64, wall: i64) -> (res: PollStart)
        ensures
            Tracker::began(*old(self), now, wall, res, *final(self)),
            old(self).well_formed() ==> final(self).well_formed(),
    {
        let last = self.last_poll_time;
        let was_sleeping = match last {
            Some(lp) => now > lp.0 && now - lp.0 > MAX_POLL_GAP_NANOS,
            None => false,
        };
        self.last_poll_time = Some((now, wall));
        if was_sleeping {
            let close_at = match last {
                Some(lp) => if lp.1 <= i64::MAX - POLL_INTERVAL_SECS {
                    lp.1 + POLL_INTERVAL_SECS
                } else {
                    i64::MAX
                },
                None => i64::MAX,
            };
            let close_ids = self.open_id_list();
            self.active_activities = Vec::new();
            self.last_primary_key = String::new();
            assert(self.entries() =~= Seq::<(Seq<char>, i64)>::empty());
            assert(keys_of(self.entries()) =~= Seq::<Seq<char>>::empty());
            PollStart { was_sleeping, close_ids, close_at: Some(close_at) }
        } else {
            PollStart { was_sleeping, close_ids: Vec::new(), close_at: None }
        }
    }

    /// Second step of a poll, once the state is known: `None` when the
    /// state's key is the one remembered and no sleep gap came before
    /// (nothing is written); else every open activity is to be closed and
    /// the state's activities opened.
    pub fn plan_poll(&self, state: &CurrentState, was_sleeping: bool) -> (res: Option<PollPlan>)
        ensures
            opt_plan_view(res) == plan_for(self.last_key(), self.open_ids(), *state, was_sleeping),
    {
        let key = state_key(state);
        if key == self.last_primary_key && !was_sleeping {
            return None;
        }
        let close_ids = self.open_id_list();
        let inserts = inserts_for(state);
        Some(PollPlan { primary_key: key, close_ids, inserts })
    }

    /// The position of `key` among the filed ids, if it is there.
    fn find_key(entries: &Vec<(String, i64)>, key: &String) -> (res: Option<usize>)
        ensures
            match res {
                Some(p) => p < entries@.len() && p as int == key_position(entries_view(entries@), key@),
                None => key_position(entries_view(entries@), key@) == -1,
            },
    {
        let mut j: usize = 0;
        while j < entries.len()
            invariant
                j <= entries@.len(),
                key_position(entries_view(entries@).take(j as int), key@) == -1,
            decreases entries@.len() - j,
        {
            let ghost ev = entries_view(entries@);
            assert(ev.take(j + 1).drop_last() =~= ev.take(j as int));
            if entries[j].0 == *key {
                proof {
                    lemma_key_position_prefix(ev, key@, j + 1);
                }
                return Some(j);
            }
            j = j + 1;
        }
        assert(entries_view(entries@).take(entries@.len() as int) =~= entries_view(entries@));
        None
    }

    /// Last step of a poll that planned a change: remember the ids the store
    /// gave the opened activities (`inserted[k]` for `plan.inserts[k]`,
    /// `None` where opening failed), the plan's key, and the state.
    pub fn finish_poll(&mut self, plan: PollPlan, state: CurrentState, inserted: Vec<Option<i64>>)
        requires
            inserted@.len() == plan.inserts@.len(),
        ensures
            Tracker::finished(*old(self), plan@, state, inserted@, *final(self)),
            final(self).well_formed(),
    {
        let ghost keys = insert_keys(plan@.inserts);
        let mut entries: Vec<(String, i64)> = Vec::new();
        let mut k: usize = 0;
        while k < plan.inserts.len()
            invariant
                k <= plan.inserts@.len(),
                inserted@.len() == plan.inserts@.len(),
                keys == insert_keys(plan@.inserts),
                entries_view(entries@) == filed_ids(keys.take(k as int), inserted@.take(k as int)),
            decreases plan.inserts@.len() - k,
        {
            proof {
                assert(keys.take(k + 1).drop_last() =~= keys.take(k as int));
                assert(inserted@.take(k + 1).drop_last() =~= inserted@.take(k as int));
                assert(keys.take(k + 1).last() == plan.inserts@[k as int].key@);
            }
            match inserted[k] {
                Some(id) => {
                    let key = &plan.inserts[k].key;
                    let ghost before = entries@;
                    match Tracker::find_key(&entries, key) {
                        Some(p) => {
                            entries.set(p, (key.clone(), id));
                            assert(entries_view(entries@) =~= entries_view(before).update(
                                p as int,
                                (key@, id),
                            ));
                        },
                        None => {
                            entries.push((key.clone(), id));
                            assert(entries_view(entries@) =~= entries_view(before).push((key@, id)));
                        },
                    }
                },
                None => {},
            }
            k = k + 1;
        }
        assert(keys.take(keys.len() as int) =~= keys);
        assert(inserted@.take(inserted@.len() as int) =~= inserted@);
        proof {
            lemma_filed_keys_distinct(keys, inserted@);
        }
        self.active_activities = entries;
        self.last_primary_key = plan.primary_key;
        self.current_state = state;
    }
}

// ---------------------------------------------------------------- laws

/// The ids that opening succeeded for, in order.
pub open spec fn opened_ids(inserted: Seq<Option<i64>>) -> Seq<i64>
    decreases inserted.len(),
{
    if inserted.len() == 0 {
        Seq::empty()
    } else {
        let prev = opened_ids(inserted.drop_last());
        match inserted.last() {
            Some(id) => prev.push(id),
            None => prev,
        }
    }
}

/// Every key filed is one of the keys opened.
pub proof fn lemma_filed_keys_come_from_inserts(keys: Seq<Seq<char>>, ids: Seq<Option<i64>>, i: int)
    requires
        keys.len() == ids.len(),
        0 <= i < filed_ids(keys, ids).len(),
    ensures
        keys.contains(filed_ids(keys, ids)[i].0),
    decreases keys.len(),
{
    if keys.len() > 0 {
        let prev = filed_ids(keys.drop_last(), ids.drop_last());
        match ids.last() {
            Some(id) => {
                lemma_key_position_bounds(prev, keys.last());
                if i < prev.len() && (key_position(prev, keys.last()) < 0 || i != key_position(
                    prev,
                    keys.last(),
                )) {
                    lemma_filed_keys_come_from_inserts(keys.drop_last(), ids.drop_last(), i);
                    assert(keys.drop_last().contains(prev[i].0));
                } else {
                    assert(filed_ids(keys, ids)[i].0 == keys.last());
                }
            },
            None => {
                lemma_filed_keys_come_from_inserts(keys.drop_last(), ids.drop_last(), i);
            },
        }
    }
}

/// With distinct keys, the filed ids are exactly the ids opened, in order.
pub proof fn lemma_distinct_keys_file_every_id(keys: Seq<Seq<char>>, ids: Seq<Option<i64>>)
    requires
        keys.len() == ids.len(),
        keys.no_duplicates(),
    ensures
        ids_of(filed_ids(keys, ids)) == opened_ids(ids),
    decreases keys.len(),
{
    if keys.len() > 0 {
        let prev = filed_ids(keys.drop_last(), ids.drop_last());
        lemma_distinct_keys_file_every_id(keys.drop_last(), ids.drop_last());
        match ids.last() {
            Some(id) => {
                lemma_key_position_bounds(prev, keys.last());
                let p = key_position(prev, keys.last());
                if p >= 0 {
                    lemma_filed_keys_come_from_inserts(keys.drop_last(), ids.drop_last(), p);
                    let j = choose|j: int| 0 <= j < keys.len() - 1 && keys.drop_last()[j] == keys.last();
                    assert(keys[j] == keys[keys.len() - 1]);
                }
                assert(ids_of(prev.push((keys.last(), id))) =~= ids_of(prev).push(id));
            },
            None => {},
        }
    }
}

/// The keys under which ids are filed.
pub open spec fn keys_of(entries: Seq<(Seq<char>, i64)>) -> Seq<Seq<char>> {
    entries.map_values(|p: (Seq<char>, i64)| p.0)
}

/// Filing an id keeps the keys distinct.
pub proof fn lemma_file_id_keeps_keys_distinct(entries: Seq<(Seq<char>, i64)>, key: Seq<char>, id: i64)
    requires
        keys_of(entries).no_duplicates(),
    ensures
        keys_of(file_id(entries, key, id)).no_duplicates(),
{
    lemma_key_position_bounds(entries, key);
    let p = key_position(entries, key);
    let r = file_id(entries, key, id);
    assert forall|i: int, j: int| 0 <= i < j < r.len() implies keys_of(r)[i] != keys_of(r)[j] by {
        if p >= 0 {
            assert(keys_of(entries)[i] != keys_of(entries)[j]);
        } else if j < entries.len() {
            assert(keys_of(entries)[i] != keys_of(entries)[j]);
        } else {
            assert(entries[i].0 != key);
        }
    }
}

/// The tracker never files two ids under one key: whatever ids the store
/// hands back, the keys filed are distinct (a map from key to id).
pub proof fn lemma_filed_keys_distinct(keys: Seq<Seq<char>>, ids: Seq<Option<i64>>)
    requires
        keys.len() == ids.len(),
    ensures
        keys_of(filed_ids(keys, ids)).no_duplicates(),
    decreases keys.len(),
{
    if keys.len() > 0 {
        lemma_filed_keys_distinct(keys.drop_last(), ids.drop_last());
        match ids.last() {
            Some(id) => lemma_file_id_keeps_keys_distinct(
                filed_ids(keys.drop_last(), ids.drop_last()),
                keys.last(),
                id,
            ),
            None => {},
        }
    }
}

/// Every step of a poll keeps the open ids filed under distinct keys.
pub proof fn lemma_poll_keeps_keys_distinct(
    before: Tracker,
    now: u64,
    wall: i64,
    start: PollStart,
    begun: Tracker,
    plan: PlanView,
    state: CurrentState,
    inserted: Seq<Option<i64>>,
    after: Tracker,
)
    requires
        keys_of(before.entries()).no_duplicates(),
        Tracker::began(before, now, wall, start, begun),
        Tracker::finished(begun, plan, state, inserted, after),
        inserted.len() == plan.inserts.len(),
    ensures
        keys_of(begun.entries()).no_duplicates(),
        keys_of(after.entries()).no_duplicates(),
{
    assert(keys_of(Seq::<(Seq<char>, i64)>::empty()) =~= Seq::<Seq<char>>::empty());
    lemma_filed_keys_distinct(insert_keys(plan.inserts), inserted);
}

/// Once a poll has recorded a state, a poll that gathers the same state
/// without a sleep gap in between writes nothing.
pub proof fn lemma_same_state_again_writes_nothing(
    before: Tracker,
    plan: PlanView,
    state: CurrentState,
    inserted: Seq<Option<i64>>,
    after: Tracker,
)
    requires
        Tracker::finished(before, plan, state, inserted, after),
        plan.primary_key == primary_key(state),
    ensures
        plan_for(after.last_key(), after.open_ids(), state, false) is None,
{
}

/// A state that differs in its key from the one recorded is always written:
/// the open activities are closed and the state's activities opened.
pub proof fn lemma_changed_state_closes_and_opens(t: Tracker, state: CurrentState, was_sleeping: bool)
    requires
        primary_key(state) != t.last_key(),
    ensures
        plan_for(t.last_key(), t.open_ids(), state, was_sleeping) == Some(
            PlanView {
                primary_key: primary_key(state),
                close_ids: t.open_ids(),
                inserts: planned_inserts(state),
            },
        ),
{
}

/// After a sleep gap, every activity open before it is closed at once, with
/// an end one poll interval after the last poll before the gap, never the
/// time of waking; the next plan closes nothing more and opens the state's
/// activities. So the time asleep is not counted as work.
pub proof fn lemma_wake_closes_everything(
    before: Tracker,
    now: u64,
    wall: i64,
    start: PollStart,
    after: Tracker,
    state: CurrentState,
)
    requires
        Tracker::began(before, now, wall, start, after),
        sleep_gap(before.last_poll(), now),
    ensures
        start.close_ids@ == before.open_ids(),
        start.close_at matches Some(t) && t <= before.last_poll_wall()->0 + POLL_INTERVAL_SECS,
        start.close_at == Some(sleep_close_time(before.last_poll_wall()->0)),
        after.open_ids().len() == 0,
        plan_for(after.last_key(), after.open_ids(), state, start.was_sleeping) == Some(
            PlanView {
                primary_key: primary_key(state),
                close_ids: Seq::<i64>::empty(),
                inserts: planned_inserts(state),
            },
        ),
{
    assert(after.open_ids() =~= Seq::<i64>::empty());
}

/// Every activity a poll opens (under distinct keys) is closed by the next
/// poll that writes.
pub proof fn lemma_opened_activities_closed_on_next_change(
    before: Tracker,
    plan: PlanView,
    state: CurrentState,
    inserted: Seq<Option<i64>>,
    after: Tracker,
    next_state: CurrentState,
    was_sleeping: bool,
)
    requires
        Tracker::finished(before, plan, state, inserted, after),
        inserted.len() == plan.inserts.len(),
        insert_keys(plan.inserts).no_duplicates(),
        plan_for(after.last_key(), after.open_ids(), next_state, was_sleeping) is Some,
    ensures
        plan_for(after.last_key(), after.open_ids(), next_state, was_sleeping)->0.close_ids
            == opened_ids(inserted),
{
    lemma_distinct_keys_file_every_id(insert_keys(plan.inserts), inserted);
}

/// The ids of the rows left open in the store after closing `closed` and
/// opening `opened`, when each store call succeeds.
pub open spec fn store_open_after(open: Set<i64>, closed: Seq<i64>, opened: Seq<i64>) -> Set<i64> {
    open.difference(closed.to_set()).union(opened.to_set())
}

/// A poll keeps the store in step with the tracker: if the rows open in the
/// store before a poll are the ids the tracker has open, then after the
/// poll (closing what `begin_poll` hands back, then, on a change, closing
/// and opening what the plan says, every close succeeding) the rows open in
/// the store are again the ids the tracker has open. With distinct keys
/// those are the rows opened by the latest writing poll, one per opened
/// activity, so no earlier row is left open. A new tracker and a store with
/// no open row start in step.
pub proof fn lemma_poll_keeps_store_in_step(
    before: Tracker,
    store: Set<i64>,
    now: u64,
    wall: i64,
    start: PollStart,
    begun: Tracker,
    state: CurrentState,
    inserted: Seq<Option<i64>>,
    after: Tracker,
)
    requires
        store == before.open_ids().to_set(),
        Tracker::began(before, now, wall, start, begun),
        plan_for(begun.last_key(), begun.open_ids(), state, start.was_sleeping) matches Some(p) ==> {
            &&& Tracker::finished(begun, p, state, inserted, after)
            &&& inserted.len() == p.inserts.len()
            &&& insert_keys(p.inserts).no_duplicates()
        },
    ensures
        ({
            let woke = store.difference(start.close_ids@.to_set());
            match plan_for(begun.last_key(), begun.open_ids(), state, start.was_sleeping) {
                None => woke == begun.open_ids().to_set(),
                Some(p) => {
                    &&& store_open_after(woke, p.close_ids, opened_ids(inserted))
                        == after.open_ids().to_set()
                    &&& after.open_ids() == opened_ids(inserted)
                },
            }
        }),
{
    let woke = store.difference(start.close_ids@.to_set());
    if start.was_sleeping {
        assert(begun.open_ids() =~= Seq::<i64>::empty());
        assert(woke =~= begun.open_ids().to_set());
    } else {
        assert(start.close_ids@.to_set() =~= Set::<i64>::empty());
        assert(woke =~= begun.open_ids().to_set());
    }
    match plan_for(begun.last_key(), begun.open_ids(), state, start.was_sleeping) {
        None => {},
        Some(p) => {
            lemma_distinct_keys_file_every_id(insert_keys(p.inserts), inserted);
            assert(woke.difference(p.close_ids.to_set()) =~= Set::<i64>::empty());
            assert(store_open_after(woke, p.close_ids, opened_ids(inserted)) =~= opened_ids(
                inserted,
            ).to_set());
        },
    }
}

/// A new tracker has nothing open, in step with a store with no open row.
pub proof fn lemma_new_tracker_in_step(t: Tracker)
    requires
        t.entries() == Seq::<(Seq<char>, i64)>::empty(),
    ensures
        t.open_ids().to_set() == Set::<i64>::empty(),
{
    assert(t.open_ids() =~= Seq::<i64>::empty());
    assert(t.open_ids().to_set() =~= Set::<i64>::empty());
}

/// One poll as it ran: the tracker before it, the times it ran at, what
/// `begin_poll` handed back and left, the state gathered, the ids the store
/// gave the activities opened (`None` where opening failed), and the
/// tracker after it.
pub struct PollRun {
    pub before: Tracker,
    pub now: u64,
    pub wall: i64,
    pub start: PollStart,
    pub begun: Tracker,
    pub state: CurrentState,
    pub inserted: Seq<Option<i64>>,
    pub after: Tracker,
}

/// What the poll `r` decided once it knew the state.
pub open spec fn run_plan(r: PollRun) -> Option<PlanView> {
    plan_for(r.begun.last_key(), r.begun.open_ids(), r.state, r.start.was_sleeping)
}

/// Whether `r` ran as the tracker's steps say: `begin_poll`, then, when the
/// plan writes, `finish_poll` with one store answer per opened activity;
/// a poll that writes nothing leaves the tracker as `begin_poll` left it.
pub open spec fn run_is_valid(r: PollRun) -> bool {
    &&& Tracker::began(r.before, r.now, r.wall, r.start, r.begun)
    &&& match run_plan(r) {
        None => r.after == r.begun,
        Some(p) => {
            &&& Tracker::finished(r.begun, p, r.state, r.inserted, r.after)
            &&& r.inserted.len() == p.inserts.len()
        },
    }
}

/// The rows open in the store after poll `r`, from the rows `open` before
/// it, when every close succeeds and nothing else writes.
pub open spec fn store_after_run(open: Set<i64>, r: PollRun) -> Set<i64> {
    let woke = open.difference(r.start.close_ids@.to_set());
    match run_plan(r) {
        None => woke,
        Some(p) => store_open_after(woke, p.close_ids, opened_ids(r.inserted)),
    }
}

/// The rows open in the store after `runs`, starting from a store with no
/// open row.
pub open spec fn store_after_runs(runs: Seq<PollRun>) -> Set<i64>
    decreases runs.len(),
{
    if runs.len() == 0 {
        Set::empty()
    } else {
        store_after_run(store_after_runs(runs.drop_last()), runs.last())
    }
}

/// The ids opened by the latest poll among `runs` that wrote, or none.
pub open spec fn latest_opened(runs: Seq<PollRun>) -> Seq<i64>
    decreases runs.len(),
{
    if runs.len() == 0 {
        Seq::empty()
    } else if run_plan(runs.last()) is Some {
        opened_ids(runs.last().inserted)
    } else {
        latest_opened(runs.drop_last())
    }
}

/// Whether the active branches of `s` lie in pairwise distinct repos.
pub open spec fn distinct_repos(s: CurrentState) -> bool {
    s.active_branches@.map_values(|b: ActiveBranch| b.repo_path@).no_duplicates()
}

/// Branches in distinct repos give activities under distinct keys.
pub proof fn lemma_distinct_repos_distinct_keys(s: CurrentState)
    requires
        distinct_repos(s),
    ensures
        insert_keys(planned_inserts(s)).no_duplicates(),
{
    if s.active_branches@.len() > 0 {
        assert(insert_keys(planned_inserts(s)) =~= s.active_branches@.map_values(
            |b: ActiveBranch| b.repo_path@,
        ));
    }
}

/// Over any sequence of polls by a new tracker, against a store with no open
/// row at first and no other writer, in which every close succeeds and each
/// state's active branches lie in distinct repos: after every poll, the
/// rows open in the store are exactly those opened by the latest poll that
/// wrote (one per activity it opened), and they are the ids the tracker has
/// open; no earlier row is left open.
pub proof fn lemma_store_holds_latest_opened(first: Tracker, runs: Seq<PollRun>)
    requires
        first.entries() == Seq::<(Seq<char>, i64)>::empty(),
        runs.len() > 0 ==> runs[0].before == first,
        forall|i: int| 0 < i < runs.len() ==> #[trigger] runs[i].before == runs[i - 1].after,
        forall|i: int| 0 <= i < runs.len() ==> run_is_valid(#[trigger] runs[i]),
        forall|i: int| 0 <= i < runs.len() ==> distinct_repos(#[trigger] runs[i].state),
    ensures
        store_after_runs(runs) == latest_opened(runs).to_set(),
        runs.len() > 0 ==> runs.last().after.open_ids() == latest_opened(runs),
    decreases runs.len(),
{
    if runs.len() == 0 {
        assert(latest_opened(runs).to_set() =~= Set::<i64>::empty());
    } else {
        let prev = runs.drop_last();
        let r = runs.last();
        let i = runs.len() - 1;
        assert(r == runs[i]);
        assert forall|j: int| 0 < j < prev.len() implies #[trigger] prev[j].before == prev[j
            - 1].after by {
            assert(prev[j] == runs[j] && prev[j - 1] == runs[j - 1]);
        }
        assert forall|j: int| 0 <= j < prev.len() implies run_is_valid(#[trigger] prev[j]) by {
            assert(prev[j] == runs[j]);
        }
        assert forall|j: int| 0 <= j < prev.len() implies distinct_repos(#[trigger] prev[j].state) by {
            assert(prev[j] == runs[j]);
        }
        lemma_store_holds_latest_opened(first, prev);
        let store = store_after_runs(prev);
        if prev.len() == 0 {
            assert(r.before == first);
            lemma_new_tracker_in_step(first);
            assert(latest_opened(prev).to_set() =~= Set::<i64>::empty());
        } else {
            assert(r.before == runs[i - 1].after);
            assert(prev.last() == runs[i - 1]);
        }
        assert(store == r.before.open_ids().to_set());
        assert(run_is_valid(runs[i]));
        assert(distinct_repos(runs[i].state));
        lemma_distinct_repos_distinct_keys(r.state);
        lemma_poll_keeps_store_in_step(
            r.before, store, r.now, r.wall, r.start, r.begun, r.state, r.inserted, r.after,
        );
        match run_plan(r) {
            None => {
                assert(!r.start.was_sleeping);
                assert(r.after.open_ids() == r.before.open_ids());
            },
            Some(p) => {},
        }
    }
}

} // verus!
