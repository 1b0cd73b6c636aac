//! Stored activities and what is made of them: a manual ticket tag, the
//! per-repository breakdown, and the plain-text export.
use vstd::prelude::*;
use crate::text::{
    decimal_text, int_decimal, opt_view, pad_left, pad_right, push_char, push_padded_left,
    push_padded_right,
};

verus! {

broadcast use vstd::string::group_string_axioms;

/// One stored activity row.
pub struct Activity {
    pub id: i64,
    pub started_at: String,
    pub ended_at: Option<String>,
    pub app_name: String,
    pub bundle_id: Option<String>,
    pub branch: Option<String>,
    pub repo_path: Option<String>,
    pub is_meeting: bool,
    pub jira_ticket: Option<String>,
    pub manual_tag: bool,
    pub notes: Option<String>,
}

/// An activity from the columns of its stored row, where the store keeps
/// the two flags as integers (non-zero for true).
pub fn activity_from_row(
    id: i64,
    started_at: String,
    ended_at: Option<String>,
    app_name: String,
    bundle_id: Option<String>,
    branch: Option<String>,
    repo_path: Option<String>,
    is_meeting: i32,
    jira_ticket: Option<String>,
    manual_tag: i32,
    notes: Option<String>,
) -> (res: Activity)
    ensures
        res == (Activity {
            id,
            started_at,
            ended_at,
            app_name,
            bundle_id,
            branch,
            repo_path,
            is_meeting: is_meeting != 0,
            jira_ticket,
            manual_tag: manual_tag != 0,
            notes,
        }),
{
    Activity {
        id,
        started_at,
        ended_at,
        app_name,
        bundle_id,
        branch,
        repo_path,
        is_meeting: is_meeting != 0,
        jira_ticket,
        manual_tag: manual_tag != 0,
        notes,
    }
}

// ---------------------------------------------------------------- ticket tags

/// How a manual ticket tag changes an activity.
pub enum TicketChange {
    /// Clear the manual tag: no ticket, not manually tagged.
    Clear,
    /// Tag the activity with this ticket, manually.
    Tag(String),
}

/// The change that tagging an activity with `ticket` makes: an empty
/// ticket clears the tag, any other sets it.
pub fn ticket_change(ticket: &str) -> (res: TicketChange)
    ensures
        ticket@.len() == 0 <==> res is Clear,
        res matches TicketChange::Tag(t) ==> t@ == ticket@,
{
    if ticket.unicode_len() == 0 {
        TicketChange::Clear
    } else {
        TicketChange::Tag(String::from_str(ticket))
    }
}

// ---------------------------------------------------------------- per-repo summary

/// One row of the per-branch breakdown of a period: the repository, the
/// branch and ticket, and the number of sessions (the minutes stay with
/// the caller, who finds them again by the row's position).
pub struct RepoRow {
    pub repo_name: String,
    pub branch: Option<String>,
    pub jira_ticket: Option<String>,
    pub sessions: i64,
}

/// A branch of a repository in the breakdown: its name, the row it comes
/// from, and its ticket.
pub struct GroupedBranch {
    pub branch: String,
    pub row: usize,
    pub jira_ticket: Option<String>,
}

/// One repository of the breakdown: the sessions summed, the positions of
/// its rows (whose minutes sum to its total), its branches and the distinct
/// tickets seen.
pub struct RepoGroup {
    pub repo_name: String,
    pub sessions: i64,
    pub rows: Vec<usize>,
    pub branches: Vec<GroupedBranch>,
    pub tickets: Vec<String>,
}

/// The view of a grouped branch.
pub open spec fn branch_view(b: GroupedBranch) -> (Seq<char>, usize, Option<Seq<char>>) {
    (b.branch@, b.row, opt_view(b.jira_ticket))
}

/// The repositories of the first `n` rows, each once, in order of first
/// appearance.
pub open spec fn repo_names(rows: Seq<RepoRow>, n: int) -> Seq<Seq<char>>
    decreases n,
{
    if n <= 0 {
        Seq::empty()
    } else {
        let p = repo_names(rows, n - 1);
        if p.contains(rows[n - 1].repo_name@) {
            p
        } else {
            p.push(rows[n - 1].repo_name@)
        }
    }
}

/// The positions among the first `n` rows of the rows of repository `name`.
pub open spec fn rows_of(rows: Seq<RepoRow>, name: Seq<char>, n: int) -> Seq<usize>
    decreases n,
{
    if n <= 0 {
        Seq::empty()
    } else {
        let p = rows_of(rows, name, n - 1);
        if rows[n - 1].repo_name@ == name {
            p.push((n - 1) as usize)
        } else {
            p
        }
    }
}

/// The sessions of the rows of repository `name` among the first `n`.
pub open spec fn sessions_of(rows: Seq<RepoRow>, name: Seq<char>, n: int) -> int
    decreases n,
{
    if n <= 0 {
        0
    } else {
        sessions_of(rows, name, n - 1) + if rows[n - 1].repo_name@ == name {
            rows[n - 1].sessions as int
        } else {
            0
        }
    }
}

/// The branches of repository `name` among the first `n` rows, in order.
pub open spec fn branches_of(rows: Seq<RepoRow>, name: Seq<char>, n: int) -> Seq<
    (Seq<char>, usize, Option<Seq<char>>),
>
    decreases n,
{
    if n <= 0 {
        Seq::empty()
    } else {
        let p = branches_of(rows, name, n - 1);
        let r = rows[n - 1];
        if r.repo_name@ == name && r.branch is Some {
            p.push((r.branch->0@, (n - 1) as usize, opt_view(r.jira_ticket)))
        } else {
            p
        }
    }
}

/// The tickets of repository `name` among the first `n` rows, each once,
/// in order of first appearance.
pub open spec fn tickets_of(rows: Seq<RepoRow>, name: Seq<char>, n: int) -> Seq<Seq<char>>
    decreases n,
{
    if n <= 0 {
        Seq::empty()
    } else {
        let p = tickets_of(rows, name, n - 1);
        let r = rows[n - 1];
        if r.repo_name@ == name && r.jira_ticket is Some && !p.contains(r.jira_ticket->0@) {
            p.push(r.jira_ticket->0@)
        } else {
            p
        }
    }
}

/// Group `g` is the summary of repository `g.repo_name` over the first `n`
/// rows.
pub open spec fn group_summarises(g: RepoGroup, rows: Seq<RepoRow>, n: int) -> bool {
    &&& g.rows@ == rows_of(rows, g.repo_name@, n)
    &&& g.sessions == sessions_of(rows, g.repo_name@, n)
    &&& g.branches@.map_values(|b: GroupedBranch| branch_view(b)) == branches_of(rows, g.repo_name@, n)
    &&& g.tickets@.map_values(|t: String| t@) == tickets_of(rows, g.repo_name@, n)
}

/// Summing the sessions of any repository over any prefix of the rows
/// stays within `i64`.
pub open spec fn session_sums_fit(rows: Seq<RepoRow>) -> bool {
    forall|name: Seq<char>, j: int|
        0 <= j <= rows.len() ==> i64::MIN <= #[trigger] sessions_of(rows, name, j) <= i64::MAX
}

/// The repository names listed are distinct.
pub proof fn lemma_repo_names_distinct(rows: Seq<RepoRow>, n: int)
    ensures
        repo_names(rows, n).no_duplicates(),
    decreases n,
{
    if n > 0 {
        lemma_repo_names_distinct(rows, n - 1);
    }
}

/// A repository listed among the first `n` rows has a row there, and one
/// not listed has nothing.
pub proof fn lemma_unlisted_repo_is_empty(rows: Seq<RepoRow>, name: Seq<char>, n: int)
    requires
        n <= rows.len(),
        !repo_names(rows, n).contains(name),
    ensures
        rows_of(rows, name, n) == Seq::<usize>::empty(),
        sessions_of(rows, name, n) == 0,
        branches_of(rows, name, n) == Seq::<(Seq<char>, usize, Option<Seq<char>>)>::empty(),
        tickets_of(rows, name, n) == Seq::<Seq<char>>::empty(),
    decreases n,
{
    if n > 0 {
        let p = repo_names(rows, n - 1);
        if p.contains(name) {
            let i = choose|i: int| 0 <= i < p.len() && p[i] == name;
            assert(repo_names(rows, n)[i] == name);
        }
        if rows[n - 1].repo_name@ == name {
            if !p.contains(name) {
                assert(repo_names(rows, n)[p.len() as int] == name);
            }
        }
        lemma_unlisted_repo_is_empty(rows, name, n - 1);
    }
}

/// Whether `v` holds a string with the characters of `s`.
fn contains_string(v: &Vec<String>, s: &String) -> (res: bool)
    ensures
        res == v@.map_values(|t: String| t@).contains(s@),
{
    let mut i: usize = 0;
    while i < v.len()
        invariant
            i <= v@.len(),
            forall|k: int| 0 <= k < i ==> v@[k]@ != s@,
        decreases v@.len() - i,
    {
        if v[i] == *s {
            assert(v@.map_values(|t: String| t@)[i as int] == s@);
            return true;
        }
        i = i + 1;
    }
    false
}

/// The position of the group of repository `name`, if there is one.
fn find_group(groups: &Vec<RepoGroup>, name: &String) -> (res: Option<usize>)
    ensures
        match res {
            Some(g) => g < groups@.len() && groups@[g as int].repo_name@ == name@,
            None => forall|g: int| 0 <= g < groups@.len() ==> groups@[g].repo_name@ != name@,
        },
{
    let mut i: usize = 0;
    while i < groups.len()
        invariant
            i <= groups@.len(),
            forall|g: int| 0 <= g < i ==> groups@[g].repo_name@ != name@,
        decreases groups@.len() - i,
    {
        if groups[i].repo_name == *name {
            return Some(i);
        }
        i = i + 1;
    }
    None
}

/// Groups the breakdown rows by repository: one group per repository, in
/// order of first appearance, each summing its rows' sessions and listing
/// its rows, branches and distinct tickets.
pub fn group_repo_rows(rows: &Vec<RepoRow>) -> (res: Vec<RepoGroup>)
    requires
        session_sums_fit(rows@),
    ensures
        res@.len() == repo_names(rows@, rows@.len() as int).len(),
        forall|g: int|
            0 <= g < res@.len() ==> {
                &&& (#[trigger] res@[g]).repo_name@ == repo_names(rows@, rows@.len() as int)[g]
                &&& group_summarises(res@[g], rows@, rows@.len() as int)
            },
{
    let n = rows.len();
    let mut groups: Vec<RepoGroup> = Vec::new();
    let mut j: usize = 0;
    while j < n
        invariant
            n == rows@.len(),
            j <= n,
            session_sums_fit(rows@),
            groups@.len() == repo_names(rows@, j as int).len(),
            forall|g: int|
                0 <= g < groups@.len() ==> {
                    &&& (#[trigger] groups@[g]).repo_name@ == repo_names(rows@, j as int)[g]
                    &&& group_summarises(groups@[g], rows@, j as int)
                },
        decreases n - j,
    {
        let row = &rows[j];
        let ghost name = row.repo_name@;
        let ghost before = groups@;
        proof {
            lemma_repo_names_distinct(rows@, j as int);
            assert(sessions_of(rows@, name, j + 1) == sessions_of(rows@, name, j as int)
                + row.sessions);
            assert(i64::MIN <= sessions_of(rows@, name, j + 1) <= i64::MAX);
            // groups of other repositories stay as they were
            assert forall|g: int| 0 <= g < before.len() && before[g].repo_name@ != name implies
                group_summarises(before[g], rows@, j + 1) by {
                let gn = before[g].repo_name@;
                assert(rows_of(rows@, gn, j + 1) == rows_of(rows@, gn, j as int));
                assert(branches_of(rows@, gn, j + 1) == branches_of(rows@, gn, j as int));
                assert(tickets_of(rows@, gn, j + 1) == tickets_of(rows@, gn, j as int));
            }
        }
        match find_group(&groups, &row.repo_name) {
            Some(g) => {
                let mut grp = groups.remove(g);
                assert(grp == before[g as int]);
                grp.sessions = grp.sessions + row.sessions;
                grp.rows.push(j);
                let ghost old_branches = grp.branches@;
                match &row.branch {
                    Some(b) => {
                        grp.branches.push(
                            GroupedBranch {
                                branch: b.clone(),
                                row: j,
                                jira_ticket: crate::tracking::clone_opt(&row.jira_ticket),
                            },
                        );
                        assert(grp.branches@.map_values(|b: GroupedBranch| branch_view(b))
                            =~= old_branches.map_values(|b: GroupedBranch| branch_view(b)).push(
                            (b@, j, opt_view(row.jira_ticket)),
                        ));
                    },
                    None => {},
                }
                let ghost old_tickets = grp.tickets@;
                match &row.jira_ticket {
                    Some(t) => {
                        if !contains_string(&grp.tickets, t) {
                            grp.tickets.push(t.clone());
                            assert(grp.tickets@.map_values(|t: String| t@)
                                =~= old_tickets.map_values(|t: String| t@).push(t@));
                        }
                    },
                    None => {},
                }
                proof {
                    assert(repo_names(rows@, j + 1) == repo_names(rows@, j as int)) by {
                        assert(repo_names(rows@, j as int)[g as int] == name);
                    }
                    assert(grp.rows@ =~= rows_of(rows@, name, j + 1));
                    assert(group_summarises(grp, rows@, j + 1));
                }
                groups.insert(g, grp);
                proof {
                    assert forall|h: int| 0 <= h < groups@.len() implies {
                        &&& (#[trigger] groups@[h]).repo_name@ == repo_names(rows@, j + 1)[h]
                        &&& group_summarises(groups@[h], rows@, j + 1)
                    } by {
                        if h != g {
                            assert(groups@[h] == before[h]);
                            let names = repo_names(rows@, j as int);
                            assert(names[h] != names[g as int]);
                        }
                    }
                }
            },
            None => {
                proof {
                    assert(!repo_names(rows@, j as int).contains(name)) by {
                        if repo_names(rows@, j as int).contains(name) {
                            let h = choose|h: int|
                                0 <= h < repo_names(rows@, j as int).len() && repo_names(
                                    rows@,
                                    j as int,
                                )[h] == name;
                            assert(before[h].repo_name@ == name);
                        }
                    }
                    lemma_unlisted_repo_is_empty(rows@, name, j as int);
                }
                let mut branches: Vec<GroupedBranch> = Vec::new();
                match &row.branch {
                    Some(b) => {
                        branches.push(
                            GroupedBranch {
                                branch: b.clone(),
                                row: j,
                                jira_ticket: crate::tracking::clone_opt(&row.jira_ticket),
                            },
                        );
                    },
                    None => {},
                }
                let mut tickets: Vec<String> = Vec::new();
                match &row.jira_ticket {
                    Some(t) => {
                        tickets.push(t.clone());
                    },
                    None => {},
                }
                let mut row_list: Vec<usize> = Vec::new();
                row_list.push(j);
                let grp = RepoGroup {
                    repo_name: row.repo_name.clone(),
                    sessions: row.sessions,
                    rows: row_list,
                    branches,
                    tickets,
                };
                proof {
                    assert(grp.rows@ =~= rows_of(rows@, name, j + 1));
                    assert(grp.branches@.map_values(|b: GroupedBranch| branch_view(b)) =~= branches_of(
                        rows@,
                        name,
                        j + 1,
                    ));
                    assert(grp.tickets@.map_values(|t: String| t@) =~= tickets_of(rows@, name, j + 1));
                }
                groups.push(grp);
                proof {
                    assert forall|h: int| 0 <= h < groups@.len() implies {
                        &&& (#[trigger] groups@[h]).repo_name@ == repo_names(rows@, j + 1)[h]
                        &&& group_summarises(groups@[h], rows@, j + 1)
                    } by {
                        if h < before.len() {
                            assert(groups@[h] == before[h]);
                            assert(before[h].repo_name@ != name);
                        }
                    }
                }
            },
        }
        j = j + 1;
    }
    groups
}

/// Every row is listed under its own repository and under no other.
pub proof fn lemma_row_in_its_repo_only(rows: Seq<RepoRow>, n: int, i: int, name: Seq<char>)
    requires
        0 <= i < n <= rows.len(),
        rows.len() <= usize::MAX,
    ensures
        repo_names(rows, n).contains(rows[i].repo_name@),
        rows_of(rows, name, n).contains(i as usize) <==> rows[i].repo_name@ == name,
    decreases n,
{
    if i < n - 1 {
        lemma_row_in_its_repo_only(rows, n - 1, i, name);
        let p = repo_names(rows, n - 1);
        let k = choose|k: int| 0 <= k < p.len() && p[k] == rows[i].repo_name@;
        assert(repo_names(rows, n)[k] == rows[i].repo_name@);
        if rows_of(rows, name, n).contains(i as usize) {
            let q = choose|q: int|
                0 <= q < rows_of(rows, name, n).len() && #[trigger] rows_of(rows, name, n)[q]
                    == i as usize;
            if q < rows_of(rows, name, n - 1).len() {
                assert(rows_of(rows, name, n - 1)[q] == i as usize);
            }
        }
        if rows[i].repo_name@ == name {
            let q = choose|q: int|
                0 <= q < rows_of(rows, name, n - 1).len() && #[trigger] rows_of(
                    rows,
                    name,
                    n - 1,
                )[q] == i as usize;
            assert(rows_of(rows, name, n)[q] == i as usize);
        }
    } else {
        let p = repo_names(rows, n - 1);
        if p.contains(rows[i].repo_name@) {
            let k = choose|k: int| 0 <= k < p.len() && p[k] == rows[i].repo_name@;
            assert(repo_names(rows, n)[k] == rows[i].repo_name@);
        } else {
            assert(repo_names(rows, n)[p.len() as int] == rows[i].repo_name@);
        }
        if rows[i].repo_name@ == name {
            let r = rows_of(rows, name, n);
            assert(r[r.len() - 1] == i as usize);
        } else {
            assert forall|q: int| 0 <= q < rows_of(rows, name, n).len() implies rows_of(
                rows,
                name,
                n,
            )[q] != i as usize by {
                lemma_rows_of_below(rows, name, n - 1, q);
            }
        }
    }
}

/// Every ticket of a row of repository `name` among the first `n` rows is
/// listed among the repository's tickets.
pub proof fn lemma_tickets_of_complete(rows: Seq<RepoRow>, name: Seq<char>, n: int, i: int)
    requires
        0 <= i < n <= rows.len(),
        rows[i].repo_name@ == name,
        rows[i].jira_ticket is Some,
    ensures
        tickets_of(rows, name, n).contains(rows[i].jira_ticket->0@),
    decreases n,
{
    let t = rows[i].jira_ticket->0@;
    let p = tickets_of(rows, name, n - 1);
    if i < n - 1 {
        lemma_tickets_of_complete(rows, name, n - 1, i);
        let k = choose|k: int| 0 <= k < p.len() && p[k] == t;
        assert(tickets_of(rows, name, n)[k] == t);
    } else if p.contains(t) {
        let k = choose|k: int| 0 <= k < p.len() && p[k] == t;
        assert(tickets_of(rows, name, n)[k] == t);
    } else {
        assert(tickets_of(rows, name, n)[p.len() as int] == t);
    }
}

/// Row `i` belongs to repository `name` and carries ticket `t`.
pub open spec fn row_has_ticket(rows: Seq<RepoRow>, name: Seq<char>, i: int, t: Seq<char>) -> bool {
    &&& rows[i].repo_name@ == name
    &&& rows[i].jira_ticket is Some
    &&& rows[i].jira_ticket->0@ == t
}

/// Some row among the first `n` belongs to repository `name` and carries
/// ticket `t`.
pub open spec fn ticket_of_some_row(rows: Seq<RepoRow>, name: Seq<char>, n: int, t: Seq<char>) -> bool {
    exists|i: int| 0 <= i < n && #[trigger] row_has_ticket(rows, name, i, t)
}

/// Every ticket listed for repository `name` is the ticket of one of its
/// rows, and no ticket is listed twice.
pub proof fn lemma_tickets_of_sound(rows: Seq<RepoRow>, name: Seq<char>, n: int)
    requires
        n <= rows.len(),
    ensures
        tickets_of(rows, name, n).no_duplicates(),
        forall|k: int|
            0 <= k < tickets_of(rows, name, n).len() ==> ticket_of_some_row(
                rows,
                name,
                n,
                #[trigger] tickets_of(rows, name, n)[k],
            ),
    decreases n,
{
    if n > 0 {
        lemma_tickets_of_sound(rows, name, n - 1);
        let p = tickets_of(rows, name, n - 1);
        let q = tickets_of(rows, name, n);
        assert forall|k: int| 0 <= k < q.len() implies ticket_of_some_row(rows, name, n, #[trigger] q[k]) by {
            if k < p.len() {
                assert(q[k] == p[k]);
                assert(ticket_of_some_row(rows, name, n - 1, p[k]));
                let i = choose|i: int| 0 <= i < n - 1 && #[trigger] row_has_ticket(rows, name, i, p[k]);
                assert(row_has_ticket(rows, name, i, q[k]));
                assert(ticket_of_some_row(rows, name, n, q[k]));
            } else {
                assert(row_has_ticket(rows, name, n - 1, q[k]));
                assert(ticket_of_some_row(rows, name, n, q[k]));
            }
        }
    } else {
        assert(tickets_of(rows, name, n).len() == 0);
    }
}

/// A repository's group lists every ticket of the repository's rows, each
/// once, and only those.
pub proof fn lemma_group_lists_every_ticket(g: RepoGroup, rows: Seq<RepoRow>, n: int)
    requires
        group_summarises(g, rows, n),
        0 <= n <= rows.len(),
    ensures
        forall|i: int|
            0 <= i < n && #[trigger] rows[i].repo_name@ == g.repo_name@
                && rows[i].jira_ticket is Some ==> g.tickets@.map_values(|t: String| t@).contains(
                rows[i].jira_ticket->0@,
            ),
        g.tickets@.map_values(|t: String| t@).no_duplicates(),
        forall|k: int|
            0 <= k < g.tickets@.len() ==> ticket_of_some_row(
                rows,
                g.repo_name@,
                n,
                (#[trigger] g.tickets@[k])@,
            ),
{
    let name = g.repo_name@;
    let ts = g.tickets@.map_values(|t: String| t@);
    assert forall|i: int|
        0 <= i < n && #[trigger] rows[i].repo_name@ == name && rows[i].jira_ticket is Some implies ts.contains(
        rows[i].jira_ticket->0@,
    ) by {
        lemma_tickets_of_complete(rows, name, n, i);
    }
    lemma_tickets_of_sound(rows, name, n);
    assert forall|k: int| 0 <= k < g.tickets@.len() implies ticket_of_some_row(
        rows,
        name,
        n,
        (#[trigger] g.tickets@[k])@,
    ) by {
        assert(ts[k] == g.tickets@[k]@);
        let t = tickets_of(rows, name, n)[k];
        assert(t == g.tickets@[k]@);
        assert(ticket_of_some_row(rows, name, n, t));
    }
}

/// The rows listed for a repository among the first `n` come before `n`.
pub proof fn lemma_rows_of_below(rows: Seq<RepoRow>, name: Seq<char>, n: int, q: int)
    requires
        0 <= n <= rows.len(),
        rows.len() <= usize::MAX,
        0 <= q < rows_of(rows, name, n).len(),
    ensures
        rows_of(rows, name, n)[q] < n,
    decreases n,
{
    if n > 0 && q < rows_of(rows, name, n - 1).len() {
        lemma_rows_of_below(rows, name, n - 1, q);
    }
}

// ---------------------------------------------------------------- the export

/// One line of the export: a label, its hours (already written with one
/// decimal), its sessions, and whether the label is a ticket.
pub struct ReportRow {
    pub label: String,
    pub hours: String,
    pub sessions: i64,
    pub is_ticket: bool,
}

/// What the type column says.
pub open spec fn kind_text(is_ticket: bool) -> Seq<char> {
    if is_ticket {
        "ticket"@
    } else {
        "branch/app"@
    }
}

/// The columns of the export, each in its field: 30 characters left-aligned,
/// then 8 and 10 right-aligned, then the type.
pub open spec fn report_line(label: Seq<char>, hours: Seq<char>, sessions: Seq<char>, kind: Seq<char>) -> Seq<char> {
    pad_right(label, 30) + " "@ + pad_left(hours, 8) + " "@ + pad_left(sessions, 10) + "  "@ + kind
        + "\n"@
}

/// The header of the export.
pub open spec fn report_header() -> Seq<char> {
    report_line("Label"@, "Hours"@, "Sessions"@, "Type"@)
}

/// A line of 58 dashes.
pub open spec fn report_rule() -> Seq<char> {
    Seq::new(58, |i: int| '-') + seq!['\n']
}

/// The lines of `rows`, one after another.
pub open spec fn report_rows(rows: Seq<ReportRow>) -> Seq<char>
    decreases rows.len(),
{
    if rows.len() == 0 {
        Seq::empty()
    } else {
        let r = rows.last();
        report_rows(rows.drop_last()) + report_line(
            r.label@,
            r.hours@,
            int_decimal(r.sessions as int),
            kind_text(r.is_ticket),
        )
    }
}

/// The whole export: header, rule, the rows, rule, and the total hours.
pub open spec fn report_text(rows: Seq<ReportRow>, total_hours: Seq<char>) -> Seq<char> {
    report_header() + report_rule() + report_rows(rows) + report_rule() + pad_right("TOTAL"@, 30)
        + " "@ + pad_left(total_hours, 8) + "\n"@
}

/// Appends a line of the export.
fn push_report_line(out: &mut String, label: &str, hours: &str, sessions: &str, kind: &str)
    ensures
        final(out)@ == old(out)@ + report_line(label@, hours@, sessions@, kind@),
{
    push_padded_right(out, label, 30);
    out.append(" ");
    push_padded_left(out, hours, 8);
    out.append(" ");
    push_padded_left(out, sessions, 10);
    out.append("  ");
    out.append(kind);
    out.append("\n");
    assert(out@ =~= old(out)@ + report_line(label@, hours@, sessions@, kind@));
}

/// Appends a line of 58 dashes.
fn push_rule(out: &mut String)
    ensures
        final(out)@ == old(out)@ + report_rule(),
{
    let mut i: usize = 0;
    while i < 58
        invariant
            i <= 58,
            out@ == old(out)@ + Seq::new(i as nat, |k: int| '-'),
        decreases 58 - i,
    {
        push_char(out, '-');
        assert(Seq::new((i + 1) as nat, |k: int| '-') =~= Seq::new(i as nat, |k: int| '-').push(
            '-',
        ));
        i = i + 1;
    }
    push_char(out, '\n');
    assert(out@ =~= old(out)@ + report_rule());
}

/// The plain-text export of a period's summary: a line per label with its
/// hours, sessions and type, and the total hours (hours come written with
/// one decimal).
pub fn format_export(rows: &Vec<ReportRow>, total_hours: &str) -> (res: String)
    ensures
        res@ == report_text(rows@, total_hours@),
{
    let mut out = String::new();
    push_report_line(&mut out, "Label", "Hours", "Sessions", "Type");
    push_rule(&mut out);
    let ghost head = out@;
    let mut i: usize = 0;
    while i < rows.len()
        invariant
            i <= rows@.len(),
            out@ == head + report_rows(rows@.take(i as int)),
        decreases rows@.len() - i,
    {
        let r = &rows[i];
        let sessions = decimal_text(r.sessions);
        let kind = if r.is_ticket {
            "ticket"
        } else {
            "branch/app"
        };
        push_report_line(&mut out, r.label.as_str(), r.hours.as_str(), sessions.as_str(), kind);
        assert(rows@.take(i + 1).drop_last() =~= rows@.take(i as int));
        i = i + 1;
    }
    assert(rows@.take(rows@.len() as int) =~= rows@);
    push_rule(&mut out);
    push_padded_right(&mut out, "TOTAL", 30);
    out.append(" ");
    push_padded_left(&mut out, total_hours, 8);
    out.append("\n");
    assert(out@ =~= report_text(rows@, total_hours@));
    out
}

} // verus!
