//! Screen lock and idle detection: reading the HID idle time out of
//! `ioreg` output, and deciding from it and the screen saver whether the
//! user is away.
use vstd::prelude::*;
use crate::text::{
    chars_of, contains_text, has_substring, substring, trim, trim_text,
};

verus! {

broadcast use vstd::string::group_string_axioms;

/// Idle time after which the user counts as away: five minutes, in
/// nanoseconds.
pub const IDLE_LIMIT_NANOS: u64 = 300_000_000_000;

/// The first position of `c` in `s`, or -1.
pub open spec fn char_position(s: Seq<char>, c: char) -> int
    decreases s.len(),
{
    if s.len() == 0 {
        -1
    } else {
        let p = char_position(s.drop_last(), c);
        if p >= 0 {
            p
        } else if s.last() == c {
            s.len() - 1
        } else {
            -1
        }
    }
}

/// A found position is in range, holds `c`, and no `c` comes before it;
/// -1 means no `c` at all.
pub proof fn lemma_char_position(s: Seq<char>, c: char)
    ensures
        -1 <= char_position(s, c) < s.len(),
        char_position(s, c) >= 0 ==> s[char_position(s, c)] == c,
        forall|k: int|
            0 <= k < s.len() && (char_position(s, c) < 0 || k < char_position(s, c)) ==> s[k] != c,
    decreases s.len(),
{
    if s.len() > 0 {
        lemma_char_position(s.drop_last(), c);
        let p = char_position(s, c);
        assert forall|k: int| 0 <= k < s.len() && (p < 0 || k < p) implies s[k] != c by {
            if k < s.len() - 1 {
                assert(s.drop_last()[k] == s[k]);
            }
        }
    }
}

/// The first position at or after `from` where `cs` holds `c`.
fn find_char(cs: &Vec<char>, from: usize, c: char) -> (res: Option<usize>)
    requires
        from <= cs@.len(),
    ensures
        match res {
            Some(p) => from <= p < cs@.len() && p - from == char_position(cs@.skip(from as int), c),
            None => char_position(cs@.skip(from as int), c) == -1,
        },
{
    let ghost s = cs@.skip(from as int);
    let mut i: usize = from;
    while i < cs.len()
        invariant
            from <= i <= cs@.len(),
            s == cs@.skip(from as int),
            forall|k: int| from <= k < i ==> cs@[k] != c,
        decreases cs@.len() - i,
    {
        if cs[i] == c {
            proof {
                lemma_char_position(s, c);
                let p = char_position(s, c);
                if p < 0 || p > i - from {
                    assert(s[i - from] == c);
                }
                if 0 <= p < i - from {
                    assert(s[p] == cs@[from + p]);
                }
            }
            return Some(i);
        }
        i = i + 1;
    }
    proof {
        lemma_char_position(s, c);
        let p = char_position(s, c);
        if p >= 0 {
            assert(s[p] == cs@[from + p]);
        }
    }
    None
}

/// The value of decimal digits `d`.
pub open spec fn digits_value(d: Seq<char>) -> nat
    decreases d.len(),
{
    if d.len() == 0 {
        0
    } else {
        digits_value(d.drop_last()) * 10 + ((d.last() as u32) - 48) as nat
    }
}

/// Every character of `d` is an ASCII digit.
pub open spec fn all_digits(d: Seq<char>) -> bool {
    forall|k: int| 0 <= k < d.len() ==> '0' <= #[trigger] d[k] <= '9'
}

/// What `u64::from_str` gives: an optional `+`, then one or more ASCII
/// digits whose value fits in a `u64`.
pub open spec fn parse_u64(t: Seq<char>) -> Option<u64> {
    let d = if t.len() > 0 && t[0] == '+' {
        t.drop_first()
    } else {
        t
    };
    if d.len() > 0 && all_digits(d) && digits_value(d) <= u64::MAX {
        Some(digits_value(d) as u64)
    } else {
        None
    }
}

/// More digits never make a smaller value.
proof fn lemma_digits_value_grows(d: Seq<char>, i: int, j: int)
    requires
        0 <= i <= j <= d.len(),
        all_digits(d),
    ensures
        digits_value(d.take(i)) <= digits_value(d.take(j)),
    decreases j - i,
{
    if i < j {
        lemma_digits_value_grows(d, i, j - 1);
        assert(d.take(j).drop_last() =~= d.take(j - 1));
    }
}

/// Parses `t` as `u64::from_str` does.
pub fn parse_u64_text(t: &str) -> (res: Option<u64>)
    ensures
        res == parse_u64(t@),
{
    let cs = chars_of(t);
    let start: usize = if cs.len() > 0 && cs[0] == '+' {
        1
    } else {
        0
    };
    let ghost d = if t@.len() > 0 && t@[0] == '+' {
        t@.drop_first()
    } else {
        t@
    };
    assert(d =~= cs@.skip(start as int));
    if start == cs.len() {
        return None;
    }
    let mut v: u64 = 0;
    let mut i: usize = start;
    while i < cs.len()
        invariant
            cs@ == t@,
            start <= i <= cs@.len(),
            d == cs@.skip(start as int),
            d == (if t@.len() > 0 && t@[0] == '+' {
                t@.drop_first()
            } else {
                t@
            }),
            forall|k: int| 0 <= k < i - start ==> '0' <= #[trigger] d[k] <= '9',
            v as nat == digits_value(d.take(i - start)),
        decreases cs@.len() - i,
    {
        let c = cs[i];
        assert(d[i - start] == c);
        if c < '0' || c > '9' {
            return None;
        }
        let digit = (c as u32 - 48) as u64;
        assert(d.take(i - start + 1).drop_last() =~= d.take(i - start));
        if v > (u64::MAX - digit) / 10 {
            proof {
                assert(digits_value(d.take(i - start + 1)) > u64::MAX) by (nonlinear_arith)
                    requires
                        v > (u64::MAX - digit) / 10,
                        digits_value(d.take(i - start + 1)) == v * 10 + digit,
                        digit <= 9,
                ;
                if all_digits(d) {
                    lemma_digits_value_grows(d, i - start + 1, d.len() as int);
                    assert(d.take(d.len() as int) =~= d);
                }
            }
            return None;
        }
        assert(v * 10 + digit <= u64::MAX) by (nonlinear_arith)
            requires
                v <= (u64::MAX - digit) / 10,
                digit <= 9,
        ;
        v = v * 10 + digit;
        i = i + 1;
    }
    assert(d.take(d.len() as int) =~= d);
    Some(v)
}

/// The text between the first and the second `=` of `line` (what
/// `line.split('=').nth(1)` gives).
pub open spec fn second_field(line: Seq<char>) -> Option<Seq<char>> {
    let e = char_position(line, '=');
    if e < 0 {
        None
    } else {
        let rest = line.skip(e + 1);
        let e2 = char_position(rest, '=');
        Some(
            if e2 >= 0 {
                rest.take(e2)
            } else {
                rest
            },
        )
    }
}

/// The idle time that line `line` of `ioreg` output gives: in a line that
/// mentions `HIDIdleTime`, the number after the `=`.
pub open spec fn idle_in_line(line: Seq<char>) -> Option<u64> {
    if has_substring(line, "HIDIdleTime"@) {
        match second_field(line) {
            Some(f) => parse_u64(trim(f)),
            None => None,
        }
    } else {
        None
    }
}

/// The idle time of the first line of `s` that gives one.
pub open spec fn idle_in_text(s: Seq<char>) -> Option<u64>
    decreases s.len(),
{
    let nl = char_position(s, '\n');
    let line = if nl >= 0 {
        s.take(nl)
    } else {
        s
    };
    match idle_in_line(line) {
        Some(v) => Some(v),
        None => if 0 <= nl < s.len() {
            idle_in_text(s.skip(nl + 1))
        } else {
            None
        },
    }
}

/// The idle time that `line` gives.
fn idle_in_line_text(line: &str) -> (res: Option<u64>)
    ensures
        res == idle_in_line(line@),
{
    if !contains_text(line, "HIDIdleTime") {
        return None;
    }
    let cs = chars_of(line);
    let n = cs.len();
    match find_char(&cs, 0, '=') {
        None => {
            assert(line@.skip(0) =~= line@);
            None
        },
        Some(e) => {
            assert(line@.skip(0) =~= line@);
            let end = match find_char(&cs, e + 1, '=') {
                Some(e2) => e2,
                None => n,
            };
            let field = substring(line, e + 1, end);
            assert(field@ == second_field(line@)->0);
            let t = trim_text(field.as_str());
            parse_u64_text(t.as_str())
        },
    }
}

/// The HID idle time, in nanoseconds, that `ioreg` output `stdout` gives:
/// the first line that mentions `HIDIdleTime` and has a number after its
/// `=`.
pub fn parse_hid_idle_nanos(stdout: &str) -> (res: Option<u64>)
    ensures
        res == idle_in_text(stdout@),
{
    let cs = chars_of(stdout);
    let n = cs.len();
    let mut start: usize = 0;
    assert(stdout@.skip(0) =~= stdout@);
    while start < n
        invariant
            cs@ == stdout@,
            n == cs@.len(),
            start <= n,
            idle_in_text(stdout@) == idle_in_text(stdout@.skip(start as int)),
        decreases n - start,
    {
        let ghost s = stdout@.skip(start as int);
        let found = find_char(&cs, start, '\n');
        let end = match found {
            Some(p) => p,
            None => n,
        };
        let line = substring(stdout, start, end);
        proof {
            lemma_char_position(s, '\n');
            if found is Some {
                assert(line@ =~= s.take(char_position(s, '\n')));
            } else {
                assert(line@ =~= s);
            }
        }
        match idle_in_line_text(line.as_str()) {
            Some(v) => {
                return Some(v);
            },
            None => {},
        }
        match found {
            Some(p) => {
                assert(s.skip(p - start + 1) =~= stdout@.skip(p + 1));
                start = p + 1;
            },
            None => {
                return None;
            },
        }
    }
    assert(stdout@.skip(start as int) =~= Seq::<char>::empty());
    None
}

/// Detect if the screen is locked or the user is idle: the screen saver
/// runs, or there has been no input for more than five minutes
/// (`idle_nanos`, when it could be read).
pub fn is_screen_locked(screen_saver_running: bool, idle_nanos: Option<u64>) -> (res: bool)
    ensures
        res == (screen_saver_running || (idle_nanos matches Some(v) && v > IDLE_LIMIT_NANOS)),
{
    if screen_saver_running {
        return true;
    }
    match idle_nanos {
        Some(v) => v > IDLE_LIMIT_NANOS,
        None => false,
    }
}

} // verus!
