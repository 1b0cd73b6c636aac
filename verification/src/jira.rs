//! Jira ticket ids in branch names, found with the `regex` crate.
use vstd::prelude::*;
use crate::text::{chars_of, has_substring, occurs_at, occurs_at_exec, opt_view, starts_with, substring};

verus! {

broadcast use vstd::string::group_string_axioms;

#[verifier::external_type_specification]
#[verifier::external_body]
pub struct ExRegex(regex::Regex);

#[verifier::external_type_specification]
#[verifier::external_body]
pub struct ExRegexError(regex::Error);

/// Whether `regex::Regex::new` accepts `pattern`.
pub uninterp spec fn regex_compiles(pattern: Seq<char>) -> bool;

/// The text of the leftmost-first match of `pattern` in `haystack`, as
/// `regex::Regex::find` reports it, or `None` when nothing matches.
pub uninterp spec fn regex_first_match(pattern: Seq<char>, haystack: Seq<char>) -> Option<
    Seq<char>,
>;

/// A compiled regular expression together with its source.
pub struct CompiledPattern {
    source: String,
    compiled: regex::Regex,
}

impl View for CompiledPattern {
    type V = Seq<char>;

    closed spec fn view(&self) -> Seq<char> {
        self.source@
    }
}

/// Calls `regex::Regex::new` on `source`. Trusted: the result is `Ok` exactly
/// when the crate accepts the pattern (it refuses invalid or oversized
/// patterns), and the compiled value keeps `source`.
#[verifier::external_body]
fn compile_pattern(source: String) -> (res: Result<CompiledPattern, regex::Error>)
    ensures
        res is Ok <==> regex_compiles(source@),
        res matches Ok(p) ==> p@ == source@,
{
    match regex::Regex::new(&source) {
        Ok(compiled) => Ok(CompiledPattern { source, compiled }),
        Err(e) => Err(e),
    }
}

/// Calls `regex::Regex::find` and copies the matched text
/// (`regex::Match::as_str`). Trusted: the result is the crate's
/// leftmost-first match of the pattern, and a match is a piece of the
/// haystack.
#[verifier::external_body]
fn find_first(pattern: &CompiledPattern, haystack: &str) -> (res: Option<String>)
    ensures
        opt_view(res) == regex_first_match(pattern@, haystack@),
        res matches Some(m) ==> has_substring(haystack@, m@),
{
    match pattern.compiled.find(haystack) {
        Some(m) => Some(m.as_str().to_string()),
        None => None,
    }
}

/// The pattern of a Jira ticket id: a capital letter, capitals or digits,
/// a dash and digits (`PROJ-123`).
pub open spec fn jira_pattern() -> Seq<char> {
    "([A-Z][A-Z0-9]+-\\d+)"@
}

/// Whether `c` is an ASCII digit.
pub open spec fn is_ascii_digit(c: char) -> bool {
    '0' <= c && c <= '9'
}

/// Where the run of ASCII digits of `s` that starts at `j` ends.
pub open spec fn digits_end(s: Seq<char>, j: int) -> int
    decreases s.len() - j,
{
    if 0 <= j < s.len() && is_ascii_digit(s[j]) {
        digits_end(s, j + 1)
    } else {
        j
    }
}

/// The first position at or after `from` where `needle` stands in `hay`,
/// or -1.
pub open spec fn first_occurrence(hay: Seq<char>, needle: Seq<char>, from: int) -> int
    decreases hay.len() + 1 - from,
{
    if from < 0 || from + needle.len() > hay.len() {
        -1
    } else if occurs_at(hay, needle, from) {
        from
    } else {
        first_occurrence(hay, needle, from + 1)
    }
}

/// The ticket that match `m` of the pattern starts in `branch`: from the
/// first place `m` stands to the end of the run of digits there. The
/// pattern's `\d+` already takes every digit, so this is `m` itself; the
/// extension makes the whole number a proved property of the result.
pub open spec fn whole_ticket(branch: Seq<char>, m: Seq<char>) -> Option<Seq<char>> {
    let i = first_occurrence(branch, m, 0);
    if i < 0 {
        None
    } else {
        Some(branch.subrange(i, digits_end(branch, i + m.len())))
    }
}

/// The ticket id that branch name `branch` holds: the first match of the
/// Jira pattern, with the whole number after its dash.
pub open spec fn ticket_of(branch: Seq<char>) -> Option<Seq<char>> {
    if regex_compiles(jira_pattern()) {
        match regex_first_match(jira_pattern(), branch) {
            Some(m) => whole_ticket(branch, m),
            None => None,
        }
    } else {
        None
    }
}

proof fn lemma_digits_end(s: Seq<char>, j: int)
    requires
        0 <= j <= s.len(),
    ensures
        j <= digits_end(s, j) <= s.len(),
        digits_end(s, j) < s.len() ==> !is_ascii_digit(s[digits_end(s, j)]),
        forall|k: int| j <= k < digits_end(s, j) ==> is_ascii_digit(#[trigger] s[k]),
    decreases s.len() - j,
{
    if j < s.len() && is_ascii_digit(s[j]) {
        lemma_digits_end(s, j + 1);
    }
}

proof fn lemma_first_occurrence(hay: Seq<char>, needle: Seq<char>, from: int)
    ensures
        first_occurrence(hay, needle, from) >= 0 ==> {
            &&& from <= first_occurrence(hay, needle, from)
            &&& occurs_at(hay, needle, first_occurrence(hay, needle, from))
        },
        first_occurrence(hay, needle, from) >= 0 || first_occurrence(hay, needle, from) == -1,
    decreases hay.len() + 1 - from,
{
    if !(from < 0 || from + needle.len() > hay.len()) && !occurs_at(hay, needle, from) {
        lemma_first_occurrence(hay, needle, from + 1);
    }
}

/// A ticket found takes the whole run of digits after its dash: it stands
/// in the branch name at some position, the character after it there is no
/// ASCII digit, and it begins with the pattern's match.
pub proof fn lemma_ticket_takes_whole_number(branch: Seq<char>)
    ensures
        ticket_of(branch) matches Some(t) ==> {
            &&& exists|i: int|
                #![trigger occurs_at(branch, t, i)]
                occurs_at(branch, t, i) && (i + t.len() < branch.len() ==> !is_ascii_digit(
                    branch[i + t.len()],
                ))
            &&& regex_first_match(jira_pattern(), branch) matches Some(m) && starts_with(t, m)
        },
{
    if let Some(t) = ticket_of(branch) {
        let m = regex_first_match(jira_pattern(), branch)->0;
        lemma_first_occurrence(branch, m, 0);
        let i = first_occurrence(branch, m, 0);
        lemma_digits_end(branch, i + m.len());
        let e = digits_end(branch, i + m.len());
        assert(t =~= branch.subrange(i, e));
        assert(occurs_at(branch, t, i));
        assert(t.subrange(0, m.len() as int) =~= branch.subrange(i, i + m.len()));
    }
}

/// The position of the first place `m` stands in `cs`, if any.
fn find_position(cs: &Vec<char>, m: &Vec<char>) -> (res: Option<usize>)
    ensures
        match res {
            Some(i) => i as int == first_occurrence(cs@, m@, 0),
            None => first_occurrence(cs@, m@, 0) == -1,
        },
{
    let n = cs.len();
    let ml = m.len();
    if ml > n {
        return None;
    }
    let last = n - ml;
    let mut i: usize = 0;
    while i <= last
        invariant
            n == cs@.len(),
            ml == m@.len(),
            last == n - ml,
            i <= last,
            first_occurrence(cs@, m@, 0) == first_occurrence(cs@, m@, i as int),
        decreases last - i,
    {
        if occurs_at_exec(cs, m, i) {
            return Some(i);
        }
        if i == last {
            assert(first_occurrence(cs@, m@, i + 1) == -1);
            return None;
        }
        i = i + 1;
    }
    None
}

/// The ticket that match `m` starts in `branch` (see `whole_ticket`).
fn whole_ticket_exec(branch: &str, m: &str) -> (res: Option<String>)
    ensures
        opt_view(res) == whole_ticket(branch@, m@),
{
    let cs = chars_of(branch);
    let ms = chars_of(m);
    match find_position(&cs, &ms) {
        Some(i) => {
            proof {
                lemma_first_occurrence(branch@, m@, 0);
            }
            let n = cs.len();
            let start = i + ms.len();
            let mut j: usize = start;
            while j < n && '0' <= cs[j] && cs[j] <= '9'
                invariant
                    n == cs@.len(),
                    cs@ == branch@,
                    start <= j <= n,
                    digits_end(branch@, start as int) == digits_end(branch@, j as int),
                decreases n - j,
            {
                j = j + 1;
            }
            Some(substring(branch, i, j))
        },
        None => None,
    }
}

/// Extract a Jira ticket ID from a branch name.
/// e.g. "feature/PROJ-123-add-login" -> Some("PROJ-123")
pub fn extract_ticket(branch: &str) -> (res: Option<String>)
    ensures
        opt_view(res) == ticket_of(branch@),
        res matches Some(t) ==> has_substring(branch@, t@),
{
    match compile_pattern(String::from_str("([A-Z][A-Z0-9]+-\\d+)")) {
        Ok(p) => match find_first(&p, branch) {
            Some(m) => {
                let res = whole_ticket_exec(branch, m.as_str());
                proof {
                    if res is Some {
                        let t = res->0@;
                        lemma_first_occurrence(branch@, m@, 0);
                        let i = first_occurrence(branch@, m@, 0);
                        lemma_digits_end(branch@, i + m@.len());
                        assert(occurs_at(branch@, t, i));
                    }
                }
                res
            },
            None => None,
        },
        Err(_) => None,
    }
}

} // verus!
