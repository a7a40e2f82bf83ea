//! `memex versions`: the history lines of a blueprint, from `git log`.
use vstd::prelude::*;
use crate::config::{lines_of, lines_vec};
use crate::text::{chars_of, push_range, push_str, skip_ws, skip_ws_back, string_of, trim};

verus! {

/// The index of the first tab in `s` at or after `j`, or -1.
pub open spec fn tab_at(s: Seq<char>, j: int) -> int
    decreases s.len() - j,
{
    if j < 0 || j >= s.len() {
        -1
    } else if s[j] == '\t' {
        j
    } else {
        tab_at(s, j + 1)
    }
}

pub proof fn lemma_tab_at(s: Seq<char>, j: int)
    requires
        0 <= j,
    ensures
        tab_at(s, j) == -1 || (j <= tab_at(s, j) < s.len() && s[tab_at(s, j)] == '\t'),
        tab_at(s, j) == -1 ==> forall|k: int| j <= k < s.len() ==> s[k] != '\t',
    decreases s.len() - j,
{
    if j < s.len() && s[j] != '\t' {
        lemma_tab_at(s, j + 1);
    }
}

/// A `git log --format=%H\t%ai\t%s` line as printed: hash, date and
/// subject separated by two spaces; none for a blank line or one with fewer
/// than three tab-separated parts (the subject keeps any further tabs).
pub open spec fn log_entry(line: Seq<char>) -> Option<Seq<char>> {
    if trim(line).len() == 0 {
        None
    } else {
        let a = tab_at(line, 0);
        let b = tab_at(line, a + 1);
        if a < 0 || b < 0 {
            None
        } else {
            Some(
                line.subrange(0, a) + "  "@ + line.subrange(a + 1, b) + "  "@ + line.skip(b + 1),
            )
        }
    }
}

/// The entries of the first `n` lines, in order.
pub open spec fn log_entries(lines: Seq<Seq<char>>, n: int) -> Seq<Seq<char>>
    decreases n,
{
    if n <= 0 {
        seq![]
    } else {
        log_entries(lines, n - 1) + match log_entry(lines[n - 1]) {
            Some(e) => seq![e],
            None => seq![],
        }
    }
}

fn find_tab(s: &Vec<char>, from: usize) -> (r: Option<usize>)
    requires
        from <= s.len(),
    ensures
        match r {
            Some(k) => tab_at(s@, from as int) == k,
            None => tab_at(s@, from as int) == -1,
        },
{
    let mut k = from;
    while k < s.len()
        invariant
            from <= k <= s.len(),
            tab_at(s@, from as int) == tab_at(s@, k as int),
        decreases s.len() - k,
    {
        if s[k] == '\t' {
            return Some(k);
        }
        k += 1;
    }
    None
}

fn entry_of(line: &String) -> (r: Option<String>)
    ensures
        match r {
            Some(e) => log_entry(line@) == Some(e@),
            None => log_entry(line@) is None,
        },
{
    let s = chars_of(line);
    let a0 = skip_ws(&s, 0, s.len());
    let b0 = skip_ws_back(&s, a0, s.len());
    assert(s@.subrange(0, s.len() as int) == s@);
    if a0 == b0 {
        assert(trim(line@).len() == 0);
        return None;
    }
    proof {
        lemma_tab_at(s@, 0);
    }
    let a = match find_tab(&s, 0) {
        Some(a) => a,
        None => return None,
    };
    proof {
        lemma_tab_at(s@, a + 1);
    }
    let b = match find_tab(&s, a + 1) {
        Some(b) => b,
        None => return None,
    };
    let mut out: Vec<char> = Vec::new();
    push_range(&mut out, &s, 0, a);
    push_str(&mut out, "  ");
    push_range(&mut out, &s, a + 1, b);
    push_str(&mut out, "  ");
    push_range(&mut out, &s, b + 1, s.len());
    assert(s@.subrange(b + 1, s.len() as int) == s@.skip(b + 1));
    Some(string_of(&out))
}

/// The lines `versions` prints for the output of `git log`.
pub fn format_log(raw: &str) -> (r: Vec<String>)
    ensures
        ({
            let ls = lines_of(raw@);
            r.deep_view() == log_entries(ls, ls.len() as int)
        }),
{
    let lines = lines_vec(raw);
    let mut out: Vec<String> = Vec::new();
    let mut i: usize = 0;
    while i < lines.len()
        invariant
            i <= lines.len(),
            lines.deep_view() == lines_of(raw@),
            out.deep_view() == log_entries(lines.deep_view(), i as int),
        decreases lines.len() - i,
    {
        assert(lines.deep_view()[i as int] == lines@[i as int]@);
        match entry_of(&lines[i]) {
            Some(e) => out.push(e),
            None => {},
        }
        assert(out.deep_view() =~= log_entries(lines.deep_view(), i + 1));
        i += 1;
    }
    out
}

} // verus!
