//! `memex sync`: what to do for each remote-backed source, and how the
//! outcome of a fast-forward pull is summarized.
use vstd::prelude::*;
use crate::config::{lines_of, lines_vec, Source};
use crate::text::{chars_eq, chars_of, occurs_at, push_all, push_str, skip_ws, skip_ws_back, slice_of, starts_with, string_of, trim};

verus! {

/// What `sync` does for one source.
#[derive(PartialEq, Eq, Structural, Debug)]
pub enum SyncStep {
    /// The source has no remote: nothing.
    NoRemote,
    /// The mount does not exist: clone the remote into it.
    Clone,
    /// The mount exists: point `origin` at the configured remote when it
    /// names another one (`set_url`), pull fast-forward only, and push
    /// unless the source is read-only.
    Update { set_url: bool, push: bool },
}

/// The step `sync` takes for a source, `current_url` being the URL of the
/// mount's `origin` (`None` when it has none).
pub open spec fn sync_step_spec(source: Source, mount_exists: bool, current_url: Option<Seq<char>>) -> SyncStep {
    match source.remote {
        None => SyncStep::NoRemote,
        Some(r) => if !mount_exists {
            SyncStep::Clone
        } else {
            SyncStep::Update {
                set_url: current_url matches Some(c) && c != r@,
                push: !source.readonly,
            }
        },
    }
}

/// Decides what `sync` does for a source.
pub fn sync_step(source: &Source, mount_exists: bool, current_url: &Option<String>) -> (s: SyncStep)
    ensures
        s == sync_step_spec(*source, mount_exists, crate::config::opt_view(*current_url)),
{
    match &source.remote {
        None => SyncStep::NoRemote,
        Some(r) => {
            if !mount_exists {
                SyncStep::Clone
            } else {
                let set_url = match current_url {
                    Some(c) => !(*c == *r),
                    None => false,
                };
                SyncStep::Update { set_url, push: !source.readonly }
            }
        },
    }
}

/// `p` occurs somewhere in `s`.
pub open spec fn contains_text(s: Seq<char>, p: Seq<char>) -> bool {
    exists|i: int| 0 <= i <= s.len() - p.len() && #[trigger] starts_with(s.skip(i), p)
}

/// How the output of `git pull --ff-only` is summarized: `up to date`,
/// `updated`, or `updated (<first line>)`.
pub open spec fn ff_pull_summary(stdout: Seq<char>) -> Seq<char> {
    let t = trim(stdout);
    if contains_text(t, "Already up to date"@) {
        "up to date"@
    } else {
        let first = if lines_of(t).len() > 0 {
            trim(lines_of(t)[0])
        } else {
            seq![]
        };
        if first.len() == 0 {
            "updated"@
        } else {
            "updated ("@ + first + ")"@
        }
    }
}

fn contains_chars(s: &Vec<char>, p: &Vec<char>) -> (b: bool)
    ensures
        b == contains_text(s@, p@),
{
    if p.len() > s.len() {
        return false;
    }
    let limit = s.len() - p.len();
    let mut i: usize = 0;
    loop
        invariant
            i <= limit,
            limit == s.len() - p.len(),
            forall|k: int| 0 <= k < i ==> !starts_with(#[trigger] s@.skip(k), p@),
        ensures
            !contains_text(s@, p@),
        decreases limit - i,
    {
        if occurs_at(s, i, p) {
            return true;
        }
        if i == limit {
            break;
        }
        i += 1;
    }
    false
}

/// Summarizes the output of a successful `git pull --ff-only`.
pub fn summarize_ff_pull(stdout: &str) -> (s: String)
    ensures
        s@ == ff_pull_summary(stdout@),
{
    let c = chars_of(stdout);
    let a = skip_ws(&c, 0, c.len());
    let b = skip_ws_back(&c, a, c.len());
    assert(c@.subrange(0, c.len() as int) == c@);
    let t = slice_of(&c, a, b);
    let marker = chars_of("Already up to date");
    if contains_chars(&t, &marker) {
        return "up to date".to_string();
    }
    let ts = string_of(&t);
    let lines = lines_vec(&ts);
    let first: Vec<char> = if lines.len() > 0 {
        let l = chars_of(&lines[0]);
        let la = skip_ws(&l, 0, l.len());
        let lb = skip_ws_back(&l, la, l.len());
        assert(l@.subrange(0, l.len() as int) == l@);
        assert(l@ == lines.deep_view()[0]);
        slice_of(&l, la, lb)
    } else {
        Vec::new()
    };
    if first.len() == 0 {
        "updated".to_string()
    } else {
        let mut out: Vec<char> = Vec::new();
        push_str(&mut out, "updated (");
        push_all(&mut out, &first);
        push_str(&mut out, ")");
        string_of(&out)
    }
}

/// The URL that `git remote get-url` printed, trimmed; none when the
/// command failed (there is no such remote).
pub fn remote_url_from_output(success: bool, stdout: &str) -> (r: Option<String>)
    ensures
        match r {
            Some(u) => success && u@ == trim(stdout@),
            None => !success,
        },
{
    if !success {
        return None;
    }
    let c = chars_of(stdout);
    let a = skip_ws(&c, 0, c.len());
    let b = skip_ws_back(&c, a, c.len());
    assert(c@.subrange(0, c.len() as int) == c@);
    Some(string_of(&slice_of(&c, a, b)))
}

/// How the output of a plain `git pull` is summarized.
pub open spec fn pull_summary(stdout: Seq<char>) -> Seq<char> {
    let t = trim(stdout);
    if contains_text(t, "Already up to date"@) {
        "Already up to date."@
    } else {
        t
    }
}

/// Summarizes the output of a successful `git pull`.
pub fn summarize_pull(stdout: &str) -> (s: String)
    ensures
        s@ == pull_summary(stdout@),
{
    let c = chars_of(stdout);
    let a = skip_ws(&c, 0, c.len());
    let b = skip_ws_back(&c, a, c.len());
    assert(c@.subrange(0, c.len() as int) == c@);
    let t = slice_of(&c, a, b);
    let marker = chars_of("Already up to date");
    if contains_chars(&t, &marker) {
        "Already up to date.".to_string()
    } else {
        string_of(&t)
    }
}

} // verus!
