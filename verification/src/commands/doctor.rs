//! `memex doctor`: how paths are shown in the diagnostics.
use vstd::prelude::*;
use crate::config::{enters, is_noise_dir, is_noise_dir_name};
use crate::paths::{strip_path_prefix, strip_prefix};
use crate::config::Source;
use crate::text::{
    chars_eq, chars_of, decimal, ends_with, joined, lemma_push_string_deep_view, push_decimal, push_joined,
    push_str, slice_of, string_of,
};

verus! {

/// A path shown relative to the project root: `.` for the root itself, the
/// path itself when it is not under the root.
pub open spec fn shown_rel(path: Seq<char>, root: Seq<char>) -> Seq<char> {
    match strip_prefix(path, root) {
        Some(p) => if p.len() == 0 {
            seq!['.']
        } else {
            p
        },
        None => path,
    }
}

/// Formats a path relative to the project root, falling back to the path
/// itself when it is not below the root.
pub fn display_rel(path: &str, root: &str) -> (s: String)
    ensures
        s@ == shown_rel(path@, root@),
{
    match strip_path_prefix(path, root) {
        Some(p) => {
            if p.unicode_len() == 0 {
                proof {
                    reveal_strlit(".");
                }
                ".".to_string()
            } else {
                p
            }
        },
        None => path.to_string(),
    }
}

/// A path without a trailing `/.` component (`/some/path/.` is shown as
/// `/some/path`, `/.` as `/`).
pub open spec fn without_trailing_cur(p: Seq<char>) -> Seq<char> {
    if p.len() >= 2 && ends_with(p, seq!['/', '.']) {
        if p.len() == 2 {
            seq!['/']
        } else {
            p.take(p.len() - 2)
        }
    } else {
        p
    }
}

/// Strips a trailing `.` component so that paths derived from `root = "."`
/// read cleanly.
pub fn normalize_path(p: &str) -> (s: String)
    ensures
        s@ == without_trailing_cur(p@),
{
    let c = chars_of(p);
    if c.len() >= 2 && c[c.len() - 2] == '/' && c[c.len() - 1] == '.' {
        assert(c@.skip(c.len() - 2) =~= seq!['/', '.']);
        if c.len() == 2 {
            let r = vec!['/'];
            assert(r@ =~= seq!['/']);
            return string_of(&r);
        }
        let r = slice_of(&c, 0, c.len() - 2);
        assert(r@ =~= c@.take(c.len() - 2));
        string_of(&r)
    } else {
        assert(!ends_with(c@, seq!['/', '.'])) by {
            if c.len() >= 2 && ends_with(c@, seq!['/', '.']) {
                assert(c@.skip(c.len() - 2)[0] == c@[c.len() - 2]);
                assert(c@.skip(c.len() - 2)[1] == c@[c.len() - 1]);
            }
        }
        string_of(&c)
    }
}

/// Why the walk of a source left a directory or file out.
#[derive(Debug)]
pub enum SkipReason {
    /// A directory holding its own `.git`.
    ForeignGit,
    /// A noise directory, by name.
    NoiseDir(String),
    /// A file that an exclude glob matches.
    ExcludeGlob,
}

/// Why the walk does not enter a directory, when that is worth reporting:
/// noise directories and foreign repositories (`.git` itself is left out
/// silently). The mount, files, and directories whose name is not UTF-8
/// are entered.
pub open spec fn dir_skip(is_mount: bool, is_dir: bool, name: Option<Seq<char>>, has_git: bool) -> Option<
    (bool, Seq<char>),
> {
    if is_mount || !is_dir {
        None
    } else {
        match name {
            None => None,
            Some(n) => if n == ".git"@ {
                None
            } else if is_noise_dir_name(n) {
                Some((false, n))
            } else if has_git {
                Some((true, n))
            } else {
                None
            },
        }
    }
}

/// The reportable reason a directory is skipped (see `dir_skip`: the flag
/// tells a foreign repository from a noise directory).
pub fn dir_skip_reason(is_mount: bool, is_dir: bool, name: Option<&str>, has_git: bool) -> (r: Option<SkipReason>)
    ensures
        match dir_skip(is_mount, is_dir, match name {
            Some(n) => Some(n@),
            None => None,
        }, has_git) {
            None => r is None,
            Some((true, _)) => r matches Some(SkipReason::ForeignGit),
            Some((false, n)) => r matches Some(SkipReason::NoiseDir(m)) && m@ == n,
        },
{
    if is_mount || !is_dir {
        return None;
    }
    match name {
        None => None,
        Some(n) => {
            let c = chars_of(n);
            let git = chars_of(".git");
            if chars_eq(&c, &git) {
                None
            } else if is_noise_dir(n) {
                Some(SkipReason::NoiseDir(n.to_string()))
            } else if has_git {
                Some(SkipReason::ForeignGit)
            } else {
                None
            }
        },
    }
}

/// How a skip reason is shown.
pub open spec fn reason_text(r: SkipReason) -> Seq<char> {
    match r {
        SkipReason::ForeignGit => "foreign .git/ subtree"@,
        SkipReason::NoiseDir(n) => "noise dir ("@ + n@ + ")"@,
        SkipReason::ExcludeGlob => "matched exclude glob"@,
    }
}

impl SkipReason {
    /// How the reason is shown.
    pub fn describe(&self) -> (s: String)
        ensures
            s@ == reason_text(*self),
    {
        let mut out: Vec<char> = Vec::new();
        match self {
            SkipReason::ForeignGit => push_str(&mut out, "foreign .git/ subtree"),
            SkipReason::NoiseDir(n) => {
                push_str(&mut out, "noise dir (");
                push_str(&mut out, n);
                push_str(&mut out, ")");
            },
            SkipReason::ExcludeGlob => push_str(&mut out, "matched exclude glob"),
        }
        string_of(&out)
    }
}

/// The diagnostics account for every directory the walk of a source leaves
/// out: it is skipped exactly when it has a reported reason or is a `.git`
/// directory.
pub proof fn every_skipped_directory_is_accounted_for(
    is_mount: bool,
    is_dir: bool,
    name: Option<Seq<char>>,
    has_git: bool,
)
    ensures
        !enters(is_mount, is_dir, name, has_git) <==> (dir_skip(is_mount, is_dir, name, has_git)
            is Some || (!is_mount && is_dir && name == Some(".git"@))),
{
}

/// Where a probe of a remote stands, given what the `git ls-remote` child
/// has reported.
#[derive(Clone, Copy, Debug, PartialEq, Eq, Structural)]
pub enum RemoteStep {
    /// The child exited with success.
    Reachable,
    /// The child exited with failure.
    Unreachable,
    /// The child still runs past its deadline: it is to be killed.
    TimedOut,
    /// The child still runs: poll again after a pause.
    Wait,
}

/// The step for a probe whose child has `exited` with the given success
/// (`None` while it runs), `past_deadline` telling whether its time is up.
pub open spec fn remote_step_of(exited: Option<bool>, past_deadline: bool) -> RemoteStep {
    match exited {
        Some(true) => RemoteStep::Reachable,
        Some(false) => RemoteStep::Unreachable,
        None => if past_deadline {
            RemoteStep::TimedOut
        } else {
            RemoteStep::Wait
        },
    }
}

/// Decides the next step of a remote probe from the child's state.
pub fn remote_step(exited: Option<bool>, past_deadline: bool) -> (s: RemoteStep)
    ensures
        s == remote_step_of(exited, past_deadline),
{
    match exited {
        Some(true) => RemoteStep::Reachable,
        Some(false) => RemoteStep::Unreachable,
        None => if past_deadline {
            RemoteStep::TimedOut
        } else {
            RemoteStep::Wait
        },
    }
}

/// The verdict shown for a finished probe: whether the remote is reachable,
/// and its label.
pub open spec fn remote_verdict(s: RemoteStep) -> Option<(bool, Seq<char>)> {
    match s {
        RemoteStep::Reachable => Some((true, "\u{2713} reachable"@)),
        RemoteStep::Unreachable => Some((false, "\u{2717} unreachable (non-zero exit)"@)),
        RemoteStep::TimedOut => Some((false, "\u{2717} timeout (>5s)"@)),
        RemoteStep::Wait => None,
    }
}

/// The verdict of a finished probe; none while it is to wait.
pub fn remote_outcome(s: RemoteStep) -> (r: Option<(bool, String)>)
    ensures
        match remote_verdict(s) {
            Some((ok, label)) => r matches Some((b, l)) && b == ok && l@ == label,
            None => r is None,
        },
{
    match s {
        RemoteStep::Reachable => Some((true, "\u{2713} reachable".to_string())),
        RemoteStep::Unreachable => Some((false, "\u{2717} unreachable (non-zero exit)".to_string())),
        RemoteStep::TimedOut => Some((false, "\u{2717} timeout (>5s)".to_string())),
        RemoteStep::Wait => None,
    }
}

/// What the walk of a source's mount gave: nothing when the mount does not
/// exist; else the number of files taken and the entries left out (path
/// below the mount, reason), or why the walk failed.
pub type WalkResult = Option<Result<(usize, Vec<(String, SkipReason)>), String>>;

/// The line for an entry the walk left out.
pub open spec fn skipped_line(e: (String, SkipReason)) -> Seq<char> {
    "      "@ + e.0@ + "/  \u{2014}  "@ + reason_text(e.1)
}

/// The lines about a source's mount.
pub open spec fn mount_lines(source: Source, mount_rel: Seq<char>, walk: WalkResult) -> Seq<
    Seq<char>,
> {
    match walk {
        None => seq!["    mount     "@ + mount_rel + "  \u{2717} path does not exist"@] + if source.remote
            is Some {
            seq!["              run `memex sync` to clone from remote"@]
        } else {
            seq![]
        },
        Some(Ok((n, skipped))) => seq![
            "    mount     "@ + mount_rel + "  \u{2713} "@ + decimal(n as nat) + " indexed"@,
        ] + if skipped.len() > 0 {
            seq!["    skipped:"@] + Seq::new(skipped.len() as nat, |i: int| skipped_line(skipped@[i]))
        } else {
            seq![]
        },
        Some(Err(e)) => seq!["    mount     "@ + mount_rel + "  \u{2717} enumeration failed: "@ + e@],
    }
}

/// The lines about a source's settings that differ from the defaults.
pub open spec fn setting_lines(source: Source) -> Seq<Seq<char>> {
    (if source.prefix@ != source.name@ {
        if source.prefix@.len() == 0 {
            seq!["    prefix    (empty \u{2014} bare slugs)"@]
        } else {
            seq!["    prefix    "@ + source.prefix@]
        }
    } else {
        seq![]
    }) + (if source.include_patterns.len() > 0 {
        seq!["    include   "@ + joined(source.include_patterns.deep_view(), ", "@)]
    } else {
        seq![]
    }) + (if source.exclude.len() > 0 {
        seq!["    exclude   "@ + joined(source.exclude.deep_view(), ", "@)]
    } else {
        seq![]
    }) + (match source.index_filename {
        Some(idx) => seq!["    index     "@ + idx@],
        None => seq![],
    }) + (if source.readonly {
        seq!["    readonly  true"@]
    } else {
        seq![]
    })
}

/// The line about a source's remote, given the verdict of its probe.
pub open spec fn remote_lines(source: Source, verdict: Option<(bool, String)>) -> Seq<Seq<char>> {
    match (source.remote, verdict) {
        (Some(url), Some((_, label))) => seq!["    remote    "@ + url@ + "  "@ + label@],
        _ => seq![],
    }
}

/// The diagnostics of a source: a blank line, its name, its mount, its
/// settings and its remote.
pub open spec fn report_lines(
    source: Source,
    mount_rel: Seq<char>,
    walk: WalkResult,
    verdict: Option<(bool, String)>,
) -> Seq<Seq<char>> {
    seq![Seq::<char>::empty(), "  ["@ + source.name@ + "]"@] + mount_lines(source, mount_rel, walk)
        + setting_lines(source) + remote_lines(source, verdict)
}

/// A source is in error when its mount is missing, its walk failed, or its
/// remote did not answer.
pub open spec fn report_has_error(source: Source, walk: WalkResult, verdict: Option<(bool, String)>) -> bool {
    ||| walk is None
    ||| walk matches Some(Err(_))
    ||| (source.remote is Some && verdict matches Some((false, _)))
}

fn add_line(lines: &mut Vec<String>, text: &Vec<char>)
    ensures
        final(lines).deep_view() == old(lines).deep_view().push(text@),
{
    let ghost prev = *lines;
    let s = string_of(text);
    let ghost g = s;
    lines.push(s);
    proof {
        lemma_push_string_deep_view(prev, *lines, g);
    }
}

fn add_skipped_lines(lines: &mut Vec<String>, skipped: &Vec<(String, SkipReason)>)
    ensures
        final(lines).deep_view() == old(lines).deep_view() + Seq::new(
            skipped.len() as nat,
            |i: int| skipped_line(skipped@[i]),
        ),
{
    let ghost base = lines.deep_view();
    let mut i: usize = 0;
    while i < skipped.len()
        invariant
            i <= skipped.len(),
            lines.deep_view() == base + Seq::new(i as nat, |k: int| skipped_line(skipped@[k])),
        decreases skipped.len() - i,
    {
        let mut t: Vec<char> = Vec::new();
        push_str(&mut t, "      ");
        push_str(&mut t, &skipped[i].0);
        push_str(&mut t, "/  \u{2014}  ");
        let d = skipped[i].1.describe();
        push_str(&mut t, &d);
        add_line(lines, &t);
        assert(base + Seq::new((i + 1) as nat, |k: int| skipped_line(skipped@[k])) =~= (base
            + Seq::new(i as nat, |k: int| skipped_line(skipped@[k]))).push(t@));
        i += 1;
    }
}

fn add_mount_lines(lines: &mut Vec<String>, source: &Source, mount_rel: &str, walk: &WalkResult) -> (error: bool)
    ensures
        final(lines).deep_view() == old(lines).deep_view() + mount_lines(*source, mount_rel@, *walk),
        error == (walk is None || walk matches Some(Err(_))),
{
    let ghost l0 = lines.deep_view();
    match walk {
        None => {
            let mut t: Vec<char> = Vec::new();
            push_str(&mut t, "    mount     ");
            push_str(&mut t, mount_rel);
            push_str(&mut t, "  \u{2717} path does not exist");
            add_line(lines, &t);
            if source.remote.is_some() {
                let mut u: Vec<char> = Vec::new();
                push_str(&mut u, "              run `memex sync` to clone from remote");
                add_line(lines, &u);
            }
            assert(lines.deep_view() =~= l0 + mount_lines(*source, mount_rel@, *walk));
            true
        },
        Some(Ok((n, skipped))) => {
            let mut t: Vec<char> = Vec::new();
            push_str(&mut t, "    mount     ");
            push_str(&mut t, mount_rel);
            push_str(&mut t, "  \u{2713} ");
            push_decimal(&mut t, *n);
            push_str(&mut t, " indexed");
            add_line(lines, &t);
            if skipped.len() > 0 {
                let mut u: Vec<char> = Vec::new();
                push_str(&mut u, "    skipped:");
                add_line(lines, &u);
                add_skipped_lines(lines, skipped);
            }
            assert(lines.deep_view() =~= l0 + mount_lines(*source, mount_rel@, *walk));
            false
        },
        Some(Err(e)) => {
            let mut t: Vec<char> = Vec::new();
            push_str(&mut t, "    mount     ");
            push_str(&mut t, mount_rel);
            push_str(&mut t, "  \u{2717} enumeration failed: ");
            push_str(&mut t, e);
            add_line(lines, &t);
            assert(lines.deep_view() =~= l0 + mount_lines(*source, mount_rel@, *walk));
            true
        },
    }
}

fn add_list_line(lines: &mut Vec<String>, label: &str, items: &Vec<String>)
    ensures
        final(lines).deep_view() == old(lines).deep_view() + if items.len() > 0 {
            seq![label@ + joined(items.deep_view(), ", "@)]
        } else {
            Seq::<Seq<char>>::empty()
        },
{
    let ghost l0 = lines.deep_view();
    if items.len() > 0 {
        let mut t: Vec<char> = Vec::new();
        push_str(&mut t, label);
        push_joined(&mut t, items, ", ");
        add_line(lines, &t);
        assert(lines.deep_view() =~= l0 + seq![label@ + joined(items.deep_view(), ", "@)]);
    } else {
        assert(lines.deep_view() =~= l0 + Seq::<Seq<char>>::empty());
    }
}

fn add_setting_lines(lines: &mut Vec<String>, source: &Source)
    ensures
        final(lines).deep_view() == old(lines).deep_view() + setting_lines(*source),
{
    let ghost l0 = lines.deep_view();
    let ghost p_part = if source.prefix@ != source.name@ {
        if source.prefix@.len() == 0 {
            seq!["    prefix    (empty \u{2014} bare slugs)"@]
        } else {
            seq!["    prefix    "@ + source.prefix@]
        }
    } else {
        Seq::<Seq<char>>::empty()
    };
    let ghost i_part = if source.include_patterns.len() > 0 {
        seq!["    include   "@ + joined(source.include_patterns.deep_view(), ", "@)]
    } else {
        Seq::<Seq<char>>::empty()
    };
    let ghost e_part = if source.exclude.len() > 0 {
        seq!["    exclude   "@ + joined(source.exclude.deep_view(), ", "@)]
    } else {
        Seq::<Seq<char>>::empty()
    };
    let ghost x_part = match &source.index_filename {
        Some(idx) => seq!["    index     "@ + idx@],
        None => Seq::<Seq<char>>::empty(),
    };
    let ghost r_part = if source.readonly {
        seq!["    readonly  true"@]
    } else {
        Seq::<Seq<char>>::empty()
    };
    assert(setting_lines(*source) == p_part + i_part + e_part + x_part + r_part);
    let pc = chars_of(&source.prefix);
    let nc = chars_of(&source.name);
    if !chars_eq(&pc, &nc) {
        let mut t: Vec<char> = Vec::new();
        if source.prefix.unicode_len() == 0 {
            push_str(&mut t, "    prefix    (empty \u{2014} bare slugs)");
        } else {
            push_str(&mut t, "    prefix    ");
            push_str(&mut t, &source.prefix);
        }
        add_line(lines, &t);
    }
    assert(lines.deep_view() =~= l0 + p_part);
    add_list_line(lines, "    include   ", &source.include_patterns);
    add_list_line(lines, "    exclude   ", &source.exclude);
    let ghost l3 = lines.deep_view();
    assert(l3 =~= l0 + p_part + i_part + e_part);
    match &source.index_filename {
        Some(idx) => {
            let mut t: Vec<char> = Vec::new();
            push_str(&mut t, "    index     ");
            push_str(&mut t, idx);
            add_line(lines, &t);
        },
        None => {},
    }
    assert(lines.deep_view() =~= l3 + x_part);
    let ghost l4 = lines.deep_view();
    if source.readonly {
        let mut t: Vec<char> = Vec::new();
        push_str(&mut t, "    readonly  true");
        add_line(lines, &t);
    }
    assert(lines.deep_view() =~= l4 + r_part);
    assert(lines.deep_view() =~= l0 + (p_part + i_part + e_part + x_part + r_part));
}

/// Lays out the diagnostics of one source from what the walk of its mount
/// and the probe of its remote gave; the flag tells whether the source is in
/// error.
pub fn source_report(
    source: &Source,
    mount_rel: &str,
    walk: &WalkResult,
    verdict: &Option<(bool, String)>,
) -> (r: (Vec<String>, bool))
    ensures
        r.0.deep_view() == report_lines(*source, mount_rel@, *walk, *verdict),
        r.1 == report_has_error(*source, *walk, *verdict),
{
    let mut lines: Vec<String> = Vec::new();
    add_line(&mut lines, &Vec::new());
    let mut t: Vec<char> = Vec::new();
    push_str(&mut t, "  [");
    push_str(&mut t, &source.name);
    push_str(&mut t, "]");
    add_line(&mut lines, &t);
    let ghost l0 = lines.deep_view();
    assert(l0 =~= seq![Seq::<char>::empty(), "  ["@ + source.name@ + "]"@]);
    let mut error = add_mount_lines(&mut lines, source, mount_rel, walk);
    add_setting_lines(&mut lines, source);
    let ghost l2 = lines.deep_view();
    match (&source.remote, verdict) {
        (Some(url), Some((ok, label))) => {
            let mut t: Vec<char> = Vec::new();
            push_str(&mut t, "    remote    ");
            push_str(&mut t, url);
            push_str(&mut t, "  ");
            push_str(&mut t, label);
            add_line(&mut lines, &t);
            if !*ok {
                error = true;
            }
        },
        _ => {},
    }
    assert(lines.deep_view() =~= l2 + remote_lines(*source, *verdict));
    (lines, error)
}

/// The lines that list the files matched by the `also_scan` patterns.
pub open spec fn matched_lines(patterns: Seq<Seq<char>>, files: Seq<Seq<char>>, root: Seq<char>) -> Seq<
    Seq<char>,
> {
    let shown = if files.len() < 10 {
        files.len()
    } else {
        10
    };
    Seq::new(patterns.len(), |i: int| "    pattern   "@ + patterns[i]) + seq![
        "    matched:  "@ + decimal(files.len()) + " file(s)"@,
    ] + Seq::new(shown, |i: int| "      "@ + shown_rel(files[i], root)) + if files.len() > 10 {
        seq!["      \u{2026} and "@ + decimal((files.len() - 10) as nat) + " more"@]
    } else {
        seq![]
    }
}

/// The diagnostics of the files outside the sources that are scanned for
/// references: nothing when there are no `also_scan` patterns; else a blank
/// line, a heading, and either the failure of the scan, a note that nothing
/// matched, or the patterns, the count and the first ten files.
pub open spec fn also_scan_lines(
    patterns: Seq<Seq<char>>,
    scan: Result<Seq<Seq<char>>, Seq<char>>,
    root: Seq<char>,
) -> Seq<Seq<char>> {
    if patterns.len() == 0 {
        seq![]
    } else {
        seq![
            Seq::<char>::empty(),
            "External files (also_scan \u{2014} scanned for [[slug]] refs, not indexed):"@,
        ] + match scan {
            Err(e) => seq!["  \u{2717} scan failed: "@ + e],
            Ok(files) => if files.len() == 0 {
                seq!["  (no files match any pattern)"@]
            } else {
                matched_lines(patterns, files, root)
            },
        }
    }
}

/// The view of the outcome of the `also_scan` scan.
pub open spec fn scan_view(scan: Result<Vec<String>, String>) -> Result<Seq<Seq<char>>, Seq<char>> {
    match scan {
        Ok(v) => Ok(v.deep_view()),
        Err(e) => Err(e@),
    }
}

fn add_matched_lines(lines: &mut Vec<String>, patterns: &Vec<String>, files: &Vec<String>, root: &str)
    ensures
        final(lines).deep_view() == old(lines).deep_view() + matched_lines(
            patterns.deep_view(),
            files.deep_view(),
            root@,
        ),
{
    let ghost l0 = lines.deep_view();
    let mut i: usize = 0;
    while i < patterns.len()
        invariant
            i <= patterns.len(),
            lines.deep_view() == l0 + Seq::new(
                i as nat,
                |k: int| "    pattern   "@ + patterns.deep_view()[k],
            ),
        decreases patterns.len() - i,
    {
        let mut t: Vec<char> = Vec::new();
        push_str(&mut t, "    pattern   ");
        push_str(&mut t, &patterns[i]);
        add_line(lines, &t);
        assert(l0 + Seq::new((i + 1) as nat, |k: int| "    pattern   "@ + patterns.deep_view()[k])
            =~= (l0 + Seq::new(i as nat, |k: int| "    pattern   "@ + patterns.deep_view()[k])).push(
            t@,
        ));
        i += 1;
    }
    let ghost l1 = lines.deep_view();
    let mut t: Vec<char> = Vec::new();
    push_str(&mut t, "    matched:  ");
    push_decimal(&mut t, files.len());
    push_str(&mut t, " file(s)");
    add_line(lines, &t);
    let ghost l2 = lines.deep_view();
    let shown: usize = if files.len() < 10 {
        files.len()
    } else {
        10
    };
    let mut j: usize = 0;
    while j < shown
        invariant
            j <= shown <= files.len(),
            shown == (if files.len() < 10 {
                files.len()
            } else {
                10
            }),
            lines.deep_view() == l2 + Seq::new(
                j as nat,
                |k: int| "      "@ + shown_rel(files.deep_view()[k], root@),
            ),
        decreases shown - j,
    {
        let mut u: Vec<char> = Vec::new();
        push_str(&mut u, "      ");
        let d = display_rel(&files[j], root);
        push_str(&mut u, &d);
        add_line(lines, &u);
        assert(files.deep_view()[j as int] == files@[j as int]@);
        assert(l2 + Seq::new((j + 1) as nat, |k: int| "      "@ + shown_rel(files.deep_view()[k], root@))
            =~= (l2 + Seq::new(j as nat, |k: int| "      "@ + shown_rel(files.deep_view()[k], root@))).push(
            u@,
        ));
        j += 1;
    }
    let ghost l3 = lines.deep_view();
    if files.len() > 10 {
        let mut u: Vec<char> = Vec::new();
        push_str(&mut u, "      \u{2026} and ");
        push_decimal(&mut u, files.len() - 10);
        push_str(&mut u, " more");
        add_line(lines, &u);
    }
    assert(lines.deep_view() =~= l0 + matched_lines(patterns.deep_view(), files.deep_view(), root@));
}

/// Lays out the diagnostics of the `also_scan` files from the patterns and
/// the outcome of the scan (the files, shown relative to the project root);
/// the flag tells whether the scan failed.
pub fn also_scan_report(patterns: &Vec<String>, scan: &Result<Vec<String>, String>, root: &str) -> (r:
    (Vec<String>, bool))
    ensures
        r.0.deep_view() == also_scan_lines(patterns.deep_view(), scan_view(*scan), root@),
        r.1 == (patterns.len() > 0 && scan is Err),
{
    let mut lines: Vec<String> = Vec::new();
    if patterns.len() == 0 {
        assert(lines.deep_view() =~= Seq::<Seq<char>>::empty());
        return (lines, false);
    }
    add_line(&mut lines, &Vec::new());
    let mut t: Vec<char> = Vec::new();
    push_str(&mut t, "External files (also_scan \u{2014} scanned for [[slug]] refs, not indexed):");
    add_line(&mut lines, &t);
    let ghost l0 = lines.deep_view();
    let mut error = false;
    match scan {
        Err(e) => {
            let mut u: Vec<char> = Vec::new();
            push_str(&mut u, "  \u{2717} scan failed: ");
            push_str(&mut u, e);
            add_line(&mut lines, &u);
            error = true;
        },
        Ok(files) => {
            if files.len() == 0 {
                let mut u: Vec<char> = Vec::new();
                push_str(&mut u, "  (no files match any pattern)");
                add_line(&mut lines, &u);
            } else {
                add_matched_lines(&mut lines, patterns, files, root);
            }
        },
    }
    assert(lines.deep_view() =~= also_scan_lines(patterns.deep_view(), scan_view(*scan), root@));
    (lines, error)
}

} // verus!
