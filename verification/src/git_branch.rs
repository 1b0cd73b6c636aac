//! Git branches: the branch a `.git/HEAD` names, the workspace path a VS Code
//! folder URI names, and which repos count as recently active, most recent
//! first.
use vstd::prelude::*;
use crate::text::{
    chars_of, opt_view, push_char, starts_with, strip_prefix_text, substring, trim, trim_text,
};

verus! {

broadcast use vstd::string::group_string_axioms;

/// A branch checked out in a repository.
pub struct BranchInfo {
    pub branch: String,
    pub repo_path: String,
}

impl Clone for BranchInfo {
    fn clone(&self) -> (res: Self)
        ensures
            res == *self,
    {
        BranchInfo { branch: self.branch.clone(), repo_path: self.repo_path.clone() }
    }
}

// ---------------------------------------------------------------- HEAD

/// How `.git/HEAD` names a checked-out branch.
pub open spec fn head_ref_prefix() -> Seq<char> {
    "ref: refs/heads/"@
}

/// The branch that HEAD content `content` names: what follows the ref prefix
/// of the trimmed content, or, for a detached HEAD, its first 8 characters.
pub open spec fn head_branch(content: Seq<char>) -> Seq<char> {
    let t = trim(content);
    if starts_with(t, head_ref_prefix()) {
        t.skip(head_ref_prefix().len() as int)
    } else if t.len() < 8 {
        t
    } else {
        t.take(8)
    }
}

/// The branch checked out in the repository at `repo_path`, whose
/// `.git/HEAD` holds `head`.
pub fn branch_from_head(head: &str, repo_path: String) -> (res: BranchInfo)
    ensures
        res.branch@ == head_branch(head@),
        res.repo_path@ == repo_path@,
{
    let t = trim_text(head);
    let branch = match strip_prefix_text(t.as_str(), "ref: refs/heads/") {
        Some(rest) => rest,
        None => {
            let n = t.as_str().unicode_len();
            let end: usize = if n < 8 {
                n
            } else {
                8
            };
            let b = substring(t.as_str(), 0, end);
            assert(n < 8 ==> b@ =~= t@);
            b
        },
    };
    BranchInfo { branch, repo_path }
}

// ---------------------------------------------------------------- folder URIs

/// The value of hexadecimal digit `c`.
pub open spec fn hex_digit_value(c: char) -> Option<u8> {
    let u = c as u32;
    if 48 <= u <= 57 {
        Some((u - 48) as u8)
    } else if 97 <= u <= 102 {
        Some((u - 87) as u8)
    } else if 65 <= u <= 70 {
        Some((u - 55) as u8)
    } else {
        None
    }
}

/// What `u8::from_str_radix(h, 16)` gives for a string `h` of at most two
/// characters: a `+` sign may lead a digit, anything else must be digits.
pub open spec fn hex_byte(h: Seq<char>) -> Option<u8> {
    if h.len() == 0 {
        None
    } else if h.len() == 1 {
        hex_digit_value(h[0])
    } else if h[0] == '+' {
        hex_digit_value(h[1])
    } else {
        match (hex_digit_value(h[0]), hex_digit_value(h[1])) {
            (Some(a), Some(b)) => Some((a * 16 + b) as u8),
            _ => None,
        }
    }
}

/// Percent-decoding as VS Code paths need it: `%` and the (up to) two
/// characters after it become the byte they spell in hex, read as a
/// Latin-1 character, or nothing when they spell no byte; any other
/// character stays.
pub open spec fn url_decode(s: Seq<char>) -> Seq<char>
    decreases s.len(),
{
    if s.len() == 0 {
        Seq::empty()
    } else if s[0] == '%' {
        let end: int = if s.len() < 3 {
            s.len() as int
        } else {
            3
        };
        match hex_byte(s.subrange(1, end)) {
            Some(b) => seq![b as char] + url_decode(s.skip(end)),
            None => url_decode(s.skip(end)),
        }
    } else {
        seq![s[0]] + url_decode(s.drop_first())
    }
}

/// Decoding never lengthens a string.
pub proof fn lemma_url_decode_len(s: Seq<char>)
    ensures
        url_decode(s).len() <= s.len(),
    decreases s.len(),
{
    if s.len() > 0 {
        if s[0] == '%' {
            let end: int = if s.len() < 3 {
                s.len() as int
            } else {
                3
            };
            lemma_url_decode_len(s.skip(end));
        } else {
            lemma_url_decode_len(s.drop_first());
        }
    }
}

/// A string without `%` decodes to itself.
pub proof fn lemma_url_decode_plain(s: Seq<char>)
    requires
        !s.contains('%'),
    ensures
        url_decode(s) == s,
    decreases s.len(),
{
    if s.len() > 0 {
        assert(s[0] != '%');
        assert(!s.drop_first().contains('%')) by {
            if s.drop_first().contains('%') {
                let k = choose|k: int| 0 <= k < s.drop_first().len() && s.drop_first()[k] == '%';
                assert(s[k + 1] == '%');
            }
        }
        lemma_url_decode_plain(s.drop_first());
        assert(seq![s[0]] + s.drop_first() =~= s);
    }
}

/// Hex digit `d` (below sixteen) as a character, its letter in upper or
/// lower case.
pub open spec fn hex_char(d: int, upper: bool) -> char {
    if d < 10 {
        (48 + d) as char
    } else if upper {
        (55 + d) as char
    } else {
        (87 + d) as char
    }
}

/// Character `c` written as a percent escape: `%` and its two hex digits,
/// letters in upper case where `upper(c)`.
pub open spec fn percent_escape(c: char, upper: spec_fn(char) -> bool) -> Seq<char> {
    let u = c as u32 as int;
    seq!['%', hex_char(u / 16, upper(c)), hex_char(u % 16, upper(c))]
}

/// `s` with every `%`, and every character that `escaped` picks, written as
/// a percent escape.
pub open spec fn percent_encode(
    s: Seq<char>,
    escaped: spec_fn(char) -> bool,
    upper: spec_fn(char) -> bool,
) -> Seq<char>
    decreases s.len(),
{
    if s.len() == 0 {
        Seq::empty()
    } else {
        let head = if s[0] == '%' || escaped(s[0]) {
            percent_escape(s[0], upper)
        } else {
            seq![s[0]]
        };
        head + percent_encode(s.drop_first(), escaped, upper)
    }
}

/// Whether every character of `s` is ASCII.
pub open spec fn is_ascii_text(s: Seq<char>) -> bool {
    forall|i: int| 0 <= i < s.len() ==> (#[trigger] s[i] as u32) < 128
}

proof fn lemma_hex_char_value(d: int, upper: bool)
    requires
        0 <= d < 16,
    ensures
        hex_digit_value(hex_char(d, upper)) == Some(d as u8),
        hex_char(d, upper) != '+',
{
}

/// Percent-encoding an ASCII string, whichever characters are escaped and
/// in whichever case their hex letters are written, then decoding it gives
/// the string back.
pub proof fn lemma_url_decode_round_trip(
    s: Seq<char>,
    escaped: spec_fn(char) -> bool,
    upper: spec_fn(char) -> bool,
)
    requires
        is_ascii_text(s),
    ensures
        url_decode(percent_encode(s, escaped, upper)) == s,
    decreases s.len(),
{
    if s.len() > 0 {
        let c = s[0];
        let rest = s.drop_first();
        assert(is_ascii_text(rest)) by {
            assert forall|i: int| 0 <= i < rest.len() implies (#[trigger] rest[i] as u32) < 128 by {
                assert(rest[i] == s[i + 1]);
            }
        }
        lemma_url_decode_round_trip(rest, escaped, upper);
        let e = percent_encode(s, escaped, upper);
        let tail = percent_encode(rest, escaped, upper);
        if c == '%' || escaped(c) {
            let u = c as u32 as int;
            assert(u < 128);
            let hi = hex_char(u / 16, upper(c));
            let lo = hex_char(u % 16, upper(c));
            lemma_hex_char_value(u / 16, upper(c));
            lemma_hex_char_value(u % 16, upper(c));
            assert(e =~= seq!['%', hi, lo] + tail);
            assert(e.subrange(1, 3) =~= seq![hi, lo]);
            assert(e.skip(3) =~= tail);
            assert(hex_byte(seq![hi, lo]) == Some(((u / 16) * 16 + u % 16) as u8));
            assert((u / 16) * 16 + u % 16 == u);
            let b: u8 = u as u8;
            assert(b as int == u);
            vstd::utf8::char_u32_cast(c, c as u32);
            assert((b as char) == c);
            assert(url_decode(e) =~= seq![c] + url_decode(tail));
        } else {
            assert(e =~= seq![c] + tail);
            assert(e.drop_first() =~= tail);
        }
        assert(seq![c] + rest =~= s);
    }
}

/// The value of hex digit `c`.
fn hex_digit_exec(c: char) -> (res: Option<u8>)
    ensures
        res == hex_digit_value(c),
{
    let u = c as u32;
    if 48 <= u && u <= 57 {
        Some((u - 48) as u8)
    } else if 97 <= u && u <= 102 {
        Some((u - 87) as u8)
    } else if 65 <= u && u <= 70 {
        Some((u - 55) as u8)
    } else {
        None
    }
}

/// The byte that characters `from..to` of `cs` spell in hex.
fn hex_byte_exec(cs: &Vec<char>, from: usize, to: usize) -> (res: Option<u8>)
    requires
        from <= to <= cs@.len(),
        to - from <= 2,
    ensures
        res == hex_byte(cs@.subrange(from as int, to as int)),
{
    let ghost h = cs@.subrange(from as int, to as int);
    if to == from {
        None
    } else if to - from == 1 {
        assert(h[0] == cs@[from as int]);
        hex_digit_exec(cs[from])
    } else if cs[from] == '+' {
        assert(h[0] == cs@[from as int] && h[1] == cs@[from + 1]);
        hex_digit_exec(cs[from + 1])
    } else {
        assert(h[0] == cs@[from as int] && h[1] == cs@[from + 1]);
        match (hex_digit_exec(cs[from]), hex_digit_exec(cs[from + 1])) {
            (Some(a), Some(b)) => Some(a * 16 + b),
            _ => None,
        }
    }
}

/// Decodes the percent escapes of `input` (see `url_decode`).
pub fn urlencoding_decode(input: &str) -> (res: String)
    ensures
        res@ == url_decode(input@),
{
    let cs = chars_of(input);
    let n = cs.len();
    let mut out = String::new();
    let mut i: usize = 0;
    assert(input@.skip(0) =~= input@);
    while i < n
        invariant
            cs@ == input@,
            n == cs@.len(),
            i <= n,
            out@ + url_decode(input@.skip(i as int)) == url_decode(input@),
        decreases n - i,
    {
        let ghost s = input@.skip(i as int);
        let ghost before = out@;
        assert(s[0] == cs@[i as int]);
        if cs[i] == '%' {
            let end: usize = if n - i < 3 {
                n
            } else {
                i + 3
            };
            let b = hex_byte_exec(&cs, i + 1, end);
            proof {
                let e: int = end - i;
                assert(s.subrange(1, e) =~= cs@.subrange(i + 1, end as int));
                assert(s.skip(e) =~= input@.skip(end as int));
            }
            match b {
                Some(byte) => {
                    push_char(&mut out, byte as char);
                    assert(out@ + url_decode(input@.skip(end as int)) =~= before + url_decode(s));
                },
                None => {},
            }
            i = end;
        } else {
            push_char(&mut out, cs[i]);
            assert(s.drop_first() =~= input@.skip(i + 1));
            assert(out@ + url_decode(input@.skip(i + 1)) =~= before + url_decode(s));
            i = i + 1;
        }
    }
    assert(input@.skip(n as int) =~= Seq::<char>::empty());
    assert(out@ + url_decode(Seq::<char>::empty()) =~= out@);
    out
}

/// How VS Code names a local folder.
pub open spec fn file_uri_prefix() -> Seq<char> {
    "file://"@
}

/// The local path that folder URI `uri` names: `file://` taken off and the
/// rest percent-decoded; `None` for a URI of another scheme.
pub fn folder_uri_to_path(uri: &str) -> (res: Option<String>)
    ensures
        res is Some <==> starts_with(uri@, file_uri_prefix()),
        res matches Some(p) ==> p@ == url_decode(uri@.skip(file_uri_prefix().len() as int)),
{
    match strip_prefix_text(uri, "file://") {
        Some(rest) => Some(urlencoding_decode(rest.as_str())),
        None => None,
    }
}

// ---------------------------------------------------------------- VS Code's list of recent folders

#[verifier::external_type_specification]
#[verifier::external_body]
pub struct ExJsonValue(serde_json::Value);

/// A JSON document in plain values (numbers are not kept: nothing here
/// reads them).
pub enum Json {
    Null,
    Bool(bool),
    Number,
    Str(String),
    Array(Vec<Json>),
    Object(Vec<(String, Json)>),
}

/// The document that `serde_json::from_str` reads from `text` into a
/// `serde_json::Value`, or `None` when the text is no JSON document.
pub uninterp spec fn json_document(text: Seq<char>) -> Option<Json>;

/// Converts a `serde_json::Value`, one variant at a time, into plain values.
#[verifier::external_body]
fn json_from_value(v: &serde_json::Value) -> Json {
    match v {
        serde_json::Value::Null => Json::Null,
        serde_json::Value::Bool(b) => Json::Bool(*b),
        serde_json::Value::Number(_) => Json::Number,
        serde_json::Value::String(t) => Json::Str(t.clone()),
        serde_json::Value::Array(a) => Json::Array(a.iter().map(json_from_value).collect()),
        serde_json::Value::Object(m) => Json::Object(
            m.iter().map(|(k, x)| (k.clone(), json_from_value(x))).collect(),
        ),
    }
}

/// Calls `serde_json::from_str` into a `serde_json::Value` and converts the
/// value. Trusted: the result depends on the text alone, and is `None`
/// exactly when serde_json refuses the text.
#[verifier::external_body]
fn parse_json(text: &str) -> (res: Option<Json>)
    ensures
        res == json_document(text@),
{
    match serde_json::from_str::<serde_json::Value>(text) {
        Ok(v) => Some(json_from_value(&v)),
        Err(_) => None,
    }
}

/// The value of member `key` of an object with members `fields` (the first
/// member of that name), as `serde_json::Value::get` finds it.
pub open spec fn json_field(fields: Seq<(String, Json)>, key: Seq<char>) -> Option<Json>
    decreases fields.len(),
{
    if fields.len() == 0 {
        None
    } else if fields[0].0@ == key {
        Some(fields[0].1)
    } else {
        json_field(fields.drop_first(), key)
    }
}

/// The local folder that an entry of the recent list names: its
/// `folderUri`, when it is a string and a `file://` URI, decoded.
pub open spec fn entry_path(entry: Json) -> Option<Seq<char>> {
    match entry {
        Json::Object(fields) => match json_field(fields@, "folderUri"@) {
            Some(Json::Str(uri)) => if starts_with(uri@, file_uri_prefix()) {
                Some(url_decode(uri@.skip(file_uri_prefix().len() as int)))
            } else {
                None
            },
            _ => None,
        },
        _ => None,
    }
}

/// The folders that `entries` name, in order.
pub open spec fn entry_paths(entries: Seq<Json>) -> Seq<Seq<char>>
    decreases entries.len(),
{
    if entries.len() == 0 {
        Seq::empty()
    } else {
        entry_paths(entries.drop_last()) + match entry_path(entries.last()) {
            Some(p) => seq![p],
            None => Seq::empty(),
        }
    }
}

/// The folders that VS Code's list of recently opened paths names: for each
/// element of its `entries` array, in order, the decoded `folderUri` when
/// that is a `file://` URI.
pub open spec fn folder_paths(d: Json) -> Seq<Seq<char>> {
    match d {
        Json::Object(fields) => match json_field(fields@, "entries"@) {
            Some(Json::Array(items)) => entry_paths(items@),
            _ => Seq::empty(),
        },
        _ => Seq::empty(),
    }
}

/// The value of member `key` among `fields`.
fn find_field<'a>(fields: &'a Vec<(String, Json)>, key: &str) -> (res: Option<&'a Json>)
    ensures
        match res {
            Some(j) => json_field(fields@, key@) == Some(*j),
            None => json_field(fields@, key@) is None,
        },
{
    let k = String::from_str(key);
    let mut i: usize = 0;
    assert(fields@.skip(0) =~= fields@);
    while i < fields.len()
        invariant
            i <= fields@.len(),
            k@ == key@,
            json_field(fields@, key@) == json_field(fields@.skip(i as int), key@),
        decreases fields@.len() - i,
    {
        assert(fields@.skip(i as int)[0] == fields@[i as int]);
        if fields[i].0 == k {
            return Some(&fields[i].1);
        }
        assert(fields@.skip(i as int).drop_first() =~= fields@.skip(i + 1));
        i = i + 1;
    }
    None
}

/// The folder that one entry of the recent list names.
fn entry_folder(entry: &Json) -> (res: Option<String>)
    ensures
        opt_view(res) == entry_path(*entry),
{
    match entry {
        Json::Object(fields) => match find_field(fields, "folderUri") {
            Some(Json::Str(uri)) => folder_uri_to_path(uri.as_str()),
            _ => None,
        },
        _ => None,
    }
}

/// The folders that the recent-paths document `d` names.
pub fn folder_path_list(d: &Json) -> (res: Vec<String>)
    ensures
        res@.map_values(|p: String| p@) == folder_paths(*d),
{
    let mut res: Vec<String> = Vec::new();
    match d {
        Json::Object(fields) => match find_field(fields, "entries") {
            Some(Json::Array(items)) => {
                let mut i: usize = 0;
                while i < items.len()
                    invariant
                        i <= items@.len(),
                        res@.map_values(|p: String| p@) =~= entry_paths(items@.take(i as int)),
                    decreases items@.len() - i,
                {
                    let ghost before = res@;
                    assert(items@.take(i + 1).drop_last() =~= items@.take(i as int));
                    match entry_folder(&items[i]) {
                        Some(p) => {
                            res.push(p);
                            assert(res@.map_values(|p: String| p@) =~= before.map_values(
                                |p: String| p@,
                            ).push(res@[i as int - i as int + before.len()]@));
                        },
                        None => {},
                    }
                    i = i + 1;
                }
                assert(items@.take(items@.len() as int) =~= items@);
            },
            _ => {},
        },
        _ => {},
    }
    res
}

/// The local folders, in order, that VS Code's list of recently opened
/// paths (`history.recentlyOpenedPathsList`, JSON text) names; `None` when
/// the text is no JSON document.
pub fn workspace_candidates(json_text: &str) -> (res: Option<Vec<String>>)
    ensures
        res is None <==> json_document(json_text@) is None,
        res matches Some(v) ==> v@.map_values(|p: String| p@) == folder_paths(
            json_document(json_text@)->0,
        ),
{
    match parse_json(json_text) {
        Some(d) => Some(folder_path_list(&d)),
        None => None,
    }
}

// ---------------------------------------------------------------- recency

/// How recent git activity must be for a branch to count as active: five
/// minutes, in nanoseconds.
pub const RECENT_ACTIVITY_WINDOW_NANOS: u128 = 300_000_000_000;

/// `Duration::MAX` in nanoseconds: the age given to a HEAD whose
/// modification time lies in the future.
pub const DURATION_MAX_NANOS: u128 = 18_446_744_073_709_551_615_999_999_999;

/// How long ago `mtime` was at `now` (nanoseconds since the epoch); a time
/// after `now` is as old as a duration can be.
pub open spec fn age(now: i128, mtime: i128) -> int {
    if mtime <= now {
        now - mtime
    } else {
        DURATION_MAX_NANOS as int
    }
}

/// Whether a HEAD modified at `mtime` saw activity within `window` of `now`
/// (all in nanoseconds, times since the Unix epoch).
pub fn is_recent(now: i128, mtime: i128, window: u128) -> (res: bool)
    ensures
        res == (age(now, mtime) <= window),
{
    let age: u128 = if mtime > now {
        DURATION_MAX_NANOS
    } else if mtime >= 0 || now < 0 {
        (now - mtime) as u128
    } else {
        (now as u128) + ((-(mtime + 1)) as u128) + 1
    };
    age <= window
}

/// Entry `a` comes before entry `b` when its time is later, or the times
/// are equal and it came first.
pub open spec fn comes_before(times: Seq<i128>, a: int, b: int) -> bool {
    times[a] > times[b] || (times[a] == times[b] && a < b)
}

/// `order` lists every position of `times` once, latest time first, and
/// equal times in their original order.
pub open spec fn is_recency_order(times: Seq<i128>, order: Seq<int>) -> bool {
    &&& order.len() == times.len()
    &&& forall|k: int| 0 <= k < order.len() ==> 0 <= #[trigger] order[k] < times.len()
    &&& forall|x: int| 0 <= x < times.len() ==> #[trigger] order.contains(x)
    &&& forall|k: int, l: int|
        0 <= k < l < order.len() ==> comes_before(times, #[trigger] order[k], #[trigger] order[l])
}

/// The times of `entries`.
pub open spec fn times_of(entries: Seq<(i128, BranchInfo)>) -> Seq<i128> {
    entries.map_values(|e: (i128, BranchInfo)| e.0)
}

/// Two recency orders of the same times agree up to position `k`.
proof fn lemma_recency_prefix_equal(times: Seq<i128>, o1: Seq<int>, o2: Seq<int>, k: int)
    requires
        is_recency_order(times, o1),
        is_recency_order(times, o2),
        0 <= k < o1.len(),
    ensures
        forall|j: int| 0 <= j <= k ==> o1[j] == o2[j],
    decreases k,
{
    if k > 0 {
        lemma_recency_prefix_equal(times, o1, o2, k - 1);
    }
    let a = o1[k];
    let b = o2[k];
    if a != b {
        assert(0 <= b < times.len());
        assert(0 <= a < times.len());
        assert(o1.contains(b));
        assert(o2.contains(a));
        let m = choose|m: int| 0 <= m < o1.len() && o1[m] == b;
        let m2 = choose|m2: int| 0 <= m2 < o2.len() && o2[m2] == a;
        if m < k {
            assert(o2[m] == b);
            assert(comes_before(times, o2[m], o2[k]));
        } else if m2 < k {
            assert(o1[m2] == a);
            assert(comes_before(times, o1[m2], o1[k]));
        } else {
            assert(comes_before(times, o1[k], o1[m]));
            assert(comes_before(times, o2[k], o2[m2]));
        }
    }
}

/// A list of times has one recency order: sorting latest first, with ties
/// kept in their original order, has one outcome.
pub proof fn lemma_recency_order_unique(times: Seq<i128>, o1: Seq<int>, o2: Seq<int>)
    requires
        is_recency_order(times, o1),
        is_recency_order(times, o2),
    ensures
        o1 == o2,
{
    if o1.len() > 0 {
        lemma_recency_prefix_equal(times, o1, o2, o1.len() - 1);
    }
    assert(o1 =~= o2);
}

/// The branches of `entries` (modification time of HEAD, branch), latest
/// first, entries with equal times in their original order: a stable sort
/// by time, descending.
pub fn most_recent_first(entries: &Vec<(i128, BranchInfo)>) -> (res: Vec<BranchInfo>)
    ensures
        exists|order: Seq<int>|
            is_recency_order(times_of(entries@), order) && res@ == order.map_values(
                |i: int| entries@[i].1,
            ),
{
    let n = entries.len();
    let ghost times = times_of(entries@);
    let mut order: Vec<usize> = Vec::new();
    let mut j: usize = 0;
    while j < n
        invariant
            n == entries@.len(),
            times == times_of(entries@),
            j <= n,
            order@.len() == j,
            forall|k: int| 0 <= k < j ==> #[trigger] order@[k] < j,
            forall|x: int| 0 <= x < j ==> #[trigger] order@.contains(x as usize),
            forall|k: int, l: int|
                0 <= k < l < j ==> comes_before(times, #[trigger] order@[k] as int, #[trigger] order@[l] as int),
        decreases n - j,
    {
        let tj = entries[j].0;
        let mut p: usize = 0;
        while p < order.len() && entries[order[p]].0 >= tj
            invariant
                n == entries@.len(),
                times == times_of(entries@),
                j < n,
                tj == times[j as int],
                order@.len() == j,
                p <= order@.len(),
                forall|k: int| 0 <= k < j ==> #[trigger] order@[k] < j,
                forall|k: int| 0 <= k < p ==> times[#[trigger] order@[k] as int] >= tj,
            decreases order@.len() - p,
        {
            assert(times[order@[p as int] as int] == entries@[order@[p as int] as int].0);
            p = p + 1;
        }
        proof {
            if p < order@.len() {
                assert(times[order@[p as int] as int] == entries@[order@[p as int] as int].0);
                assert(times[order@[p as int] as int] < tj);
            }
        }
        let ghost old_order = order@;
        order.insert(p, j);
        proof {
            let o = order@;
            assert(o.len() == j + 1);
            assert forall|k: int| 0 <= k < j + 1 implies #[trigger] o[k] < j + 1 by {
                if k < p {
                    assert(o[k] == old_order[k]);
                } else if k > p {
                    assert(o[k] == old_order[k - 1]);
                }
            }
            assert forall|x: int| 0 <= x < j + 1 implies #[trigger] o.contains(x as usize) by {
                if x == j {
                    assert(o[p as int] == j);
                } else {
                    assert(old_order.contains(x as usize));
                    let k = choose|k: int| 0 <= k < old_order.len() && old_order[k] == x as usize;
                    if k < p {
                        assert(o[k] == x as usize);
                    } else {
                        assert(o[k + 1] == x as usize);
                    }
                }
            }
            assert forall|k: int, l: int| 0 <= k < l < j + 1 implies comes_before(
                times,
                #[trigger] o[k] as int,
                #[trigger] o[l] as int,
            ) by {
                if l < p {
                    assert(o[k] == old_order[k] && o[l] == old_order[l]);
                } else if l == p {
                    assert(o[k] == old_order[k]);
                    assert(times[old_order[k] as int] >= tj);
                    assert(old_order[k] < j);
                } else if k == p {
                    assert(o[l] == old_order[l - 1]);
                    assert(times[old_order[p as int] as int] < tj);
                    if l - 1 > p {
                        assert(comes_before(times, old_order[p as int] as int, old_order[l - 1] as int));
                    }
                } else if k < p {
                    assert(o[k] == old_order[k] && o[l] == old_order[l - 1]);
                } else {
                    assert(o[k] == old_order[k - 1] && o[l] == old_order[l - 1]);
                }
            }
        }
        j = j + 1;
    }
    let mut res: Vec<BranchInfo> = Vec::new();
    let mut k: usize = 0;
    while k < n
        invariant
            n == entries@.len(),
            order@.len() == n,
            forall|q: int| 0 <= q < n ==> #[trigger] order@[q] < n,
            k <= n,
            res@ =~= order@.take(k as int).map_values(|i: usize| entries@[i as int].1),
        decreases n - k,
    {
        let item = entries[order[k]].1.clone();
        res.push(item);
        assert(order@.take(k + 1) =~= order@.take(k as int).push(order@[k as int]));
        k = k + 1;
    }
    let ghost order_int = order@.map_values(|i: usize| i as int);
    assert(order@.take(n as int) =~= order@);
    assert(is_recency_order(times, order_int)) by {
        assert forall|x: int| 0 <= x < times.len() implies #[trigger] order_int.contains(x) by {
            assert(order@.contains(x as usize));
            let q = choose|q: int| 0 <= q < order@.len() && order@[q] == x as usize;
            assert(order_int[q] == x);
        }
    }
    assert(res@ =~= order_int.map_values(|i: int| entries@[i].1));
    res
}

} // verus!
