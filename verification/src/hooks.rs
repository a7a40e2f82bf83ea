//! `hooks.toml`: pre-write / post-write hooks, matched against file paths.
//!
//! Hooks come from one project-level `hooks.toml` and one optional
//! `hooks.toml` per source, merged in that order (project, then sources in
//! configuration order, then entries within each file). The first matching
//! hook of an event wins. Pre-write hooks name blueprints to read; post-write
//! hooks give text advice, optionally only when another file is absent or
//! present.
use vstd::prelude::*;
use crate::config::{clone_opt, clone_strings, contains_string, opt_view, unbackslash, unbackslash_chars, MemexConfig};
use crate::paths::{is_absolute, join, path_join, strip_path_prefix, strip_prefix, strip_prefix_chars};
use crate::text::{chars_eq, chars_of, decimal, lemma_chars_deep_view, push_all, push_range, push_str, string_of};

verus! {

/// The event a hook answers.
#[derive(Clone, Copy, PartialEq, Eq, Structural, Debug)]
pub enum Event {
    PreWrite,
    PostWrite,
}

/// Hard cap on the file size read for `content_pattern` matching. Above
/// this, the hook silently does not match.
pub const MAX_CONTENT_BYTES: u64 = 1024 * 1024;

/// `fancy_regex::Regex`, declared to Verus as an opaque type.
#[verifier::external_type_specification]
#[verifier::external_body]
pub struct ExRegex(fancy_regex::Regex);

/// `fancy_regex::Error`, declared to Verus as an opaque type.
#[verifier::external_type_specification]
#[verifier::external_body]
pub struct ExRegexError(fancy_regex::Error);

/// Whether fancy-regex compiles `pattern` (default options).
pub uninterp spec fn regex_compiles(pattern: Seq<char>) -> bool;

/// What fancy-regex's `captures` gives for `pattern` on `text`: `None` when
/// the search fails with an error, `Some(None)` when there is no match, and
/// otherwise the groups of the first match (group 0 the whole match, `None`
/// for a group that did not take part).
pub uninterp spec fn regex_captures(pattern: Seq<char>, text: Seq<char>) -> Option<
    Option<Seq<Option<Seq<char>>>>,
>;

/// What fancy-regex's `is_match` gives for `pattern` on `text`: `None` when
/// the search fails with an error.
pub uninterp spec fn regex_is_match(pattern: Seq<char>, text: Seq<char>) -> Option<bool>;

/// A compiled regex together with the pattern it was compiled from.
#[derive(Debug)]
pub struct CompiledRegex {
    regex: fancy_regex::Regex,
    source: String,
}

impl View for CompiledRegex {
    type V = Seq<char>;

    /// The pattern the regex was compiled from.
    closed spec fn view(&self) -> Seq<char> {
        self.source@
    }
}

/// The message of the error that fancy-regex gives for a pattern it does
/// not compile (the error's `Display`).
pub uninterp spec fn regex_error_message(pattern: Seq<char>) -> Seq<char>;

/// Calls `fancy_regex::Regex::new`, rendering a failure as its message.
/// Claimed: it succeeds exactly when `regex_compiles` holds of the pattern,
/// and a failure's message is `regex_error_message` of the pattern.
#[verifier::external_body]
fn regex_new(pattern: &str) -> (r: Result<fancy_regex::Regex, String>)
    ensures
        r is Ok <==> regex_compiles(pattern@),
        r matches Err(m) ==> m@ == regex_error_message(pattern@),
{
    match fancy_regex::Regex::new(pattern) {
        Ok(re) => Ok(re),
        Err(e) => Err(format!("{e}")),
    }
}

/// The view of a `captures` outcome.
pub open spec fn captures_view(r: Result<Option<Vec<Option<String>>>, fancy_regex::Error>) -> Option<
    Option<Seq<Option<Seq<char>>>>,
> {
    match r {
        Ok(Some(g)) => Some(Some(g.deep_view())),
        Ok(None) => Some(None),
        Err(_) => None,
    }
}

/// Calls `fancy_regex::Regex::captures` on the compiled regex and turns each
/// group into an owned string. Claimed: the outcome is `regex_captures` of
/// the pattern the regex was compiled from and the text.
#[verifier::external_body]
fn regex_captures_of(re: &CompiledRegex, text: &str) -> (r: Result<
    Option<Vec<Option<String>>>,
    fancy_regex::Error,
>)
    ensures
        captures_view(r) == regex_captures(re@, text@),
{
    match re.regex.captures(text) {
        Ok(Some(c)) => Ok(Some(c.iter().map(|m| m.map(|m| m.as_str().to_string())).collect())),
        Ok(None) => Ok(None),
        Err(e) => Err(e),
    }
}

/// Calls `fancy_regex::Regex::is_match` on the compiled regex. Claimed: the
/// outcome is `regex_is_match` of the pattern and the text.
#[verifier::external_body]
fn regex_is_match_of(re: &CompiledRegex, text: &str) -> (r: Result<bool, fancy_regex::Error>)
    ensures
        match r {
            Ok(b) => regex_is_match(re@, text@) == Some(b),
            Err(_) => regex_is_match(re@, text@) is None,
        },
{
    re.regex.is_match(text)
}

impl CompiledRegex {
    /// Compiles `pattern`; the error's text when it is not a valid regex.
    pub fn compile(pattern: &str) -> (r: Result<CompiledRegex, String>)
        ensures
            r is Ok <==> regex_compiles(pattern@),
            r matches Ok(re) ==> re@ == pattern@,
            r matches Err(m) ==> m@ == regex_error_message(pattern@),
    {
        match regex_new(pattern) {
            Ok(regex) => Ok(CompiledRegex { regex, source: pattern.to_string() }),
            Err(m) => Err(m),
        }
    }

    /// The pattern the regex was compiled from.
    pub fn as_str(&self) -> (s: &str)
        ensures
            s@ == self@,
    {
        self.source.as_str()
    }
}

/// The capture groups of a regex match: group 0 is the whole match, `None`
/// stands for a group that did not take part.
#[derive(Debug)]
pub struct Captures {
    pub groups: Vec<Option<String>>,
}

// ---------- substitution ----------

/// The value of a string of ASCII digits.
pub open spec fn digits_value(s: Seq<char>) -> nat
    decreases s.len(),
{
    if s.len() == 0 {
        0
    } else {
        digits_value(s.drop_last()) * 10 + ((s.last() as u32) - 48) as nat
    }
}

pub open spec fn all_digits(s: Seq<char>) -> bool {
    forall|k: int| 0 <= k < s.len() ==> '0' <= #[trigger] s[k] && s[k] <= '9'
}

/// `s.parse::<usize>()`: an optional `+`, then one or more ASCII digits,
/// whose value fits in a `usize`.
pub open spec fn parse_index(s: Seq<char>) -> Option<nat> {
    let d = if s.len() > 0 && s[0] == '+' {
        s.drop_first()
    } else {
        s
    };
    if d.len() > 0 && all_digits(d) && digits_value(d) <= usize::MAX {
        Some(digits_value(d))
    } else {
        None
    }
}

/// The index of the first `}` in `s` at or after `j`, or -1.
pub open spec fn close_brace(s: Seq<char>, j: int) -> int
    decreases s.len() - j,
{
    if j < 0 || j >= s.len() {
        -1
    } else if s[j] == '}' {
        j
    } else {
        close_brace(s, j + 1)
    }
}

pub proof fn lemma_close_brace(s: Seq<char>, j: int)
    ensures
        close_brace(s, j) == -1 || (j <= close_brace(s, j) < s.len() && s[close_brace(s, j)] == '}'),
    decreases s.len() - j,
{
    if j >= 0 && j < s.len() && s[j] != '}' {
        lemma_close_brace(s, j + 1);
    }
}

/// The text of group `idx`, empty when there is no such group or it did
/// not take part.
pub open spec fn group_text(groups: Seq<Option<Seq<char>>>, idx: nat) -> Seq<char> {
    if idx < groups.len() {
        match groups[idx as int] {
            Some(t) => t,
            None => seq![],
        }
    } else {
        seq![]
    }
}

/// `t` with each `${N}` (N a `usize` in decimal) replaced by the text of
/// group N; any other `$` is kept.
pub open spec fn subst(t: Seq<char>, groups: Seq<Option<Seq<char>>>) -> Seq<char>
    decreases t.len(),
{
    if t.len() == 0 {
        seq![]
    } else if t[0] != '$' {
        seq![t[0]] + subst(t.drop_first(), groups)
    } else if t.len() >= 2 && t[1] == '{' && close_brace(t, 2) >= 0 && parse_index(
        t.subrange(2, close_brace(t, 2)),
    ) is Some {
        proof {
            lemma_close_brace(t, 2);
        }
        let c = close_brace(t, 2);
        group_text(groups, parse_index(t.subrange(2, c))->0) + subst(t.skip(c + 1), groups)
    } else {
        seq!['$'] + subst(t.drop_first(), groups)
    }
}

proof fn lemma_digits_value_grows(s: Seq<char>, k: int)
    requires
        0 <= k <= s.len(),
        all_digits(s),
    ensures
        digits_value(s.take(k)) <= digits_value(s),
    decreases s.len() - k,
{
    if k < s.len() {
        lemma_digits_value_grows(s, k + 1);
        assert(s.take(k + 1).drop_last() == s.take(k));
        assert('0' <= s[k] && s[k] <= '9');
        assert(digits_value(s.take(k + 1)) == digits_value(s.take(k)) * 10 + ((s[k] as u32)
            - 48) as nat);
    } else {
        assert(s.take(k) == s);
    }
}

/// `s[lo..hi].parse::<usize>()`.
fn parse_index_chars(s: &Vec<char>, lo: usize, hi: usize) -> (r: Option<usize>)
    requires
        lo <= hi <= s.len(),
    ensures
        match r {
            Some(v) => parse_index(s@.subrange(lo as int, hi as int)) == Some(v as nat),
            None => parse_index(s@.subrange(lo as int, hi as int)) is None,
        },
{
    let ghost t = s@.subrange(lo as int, hi as int);
    let mut start = lo;
    if start < hi && s[start] == '+' {
        start += 1;
    }
    let ghost d = s@.subrange(start as int, hi as int);
    assert(d == (if t.len() > 0 && t[0] == '+' {
        t.drop_first()
    } else {
        t
    }));
    if start == hi {
        return None;
    }
    let mut v: usize = 0;
    let mut k = start;
    while k < hi
        invariant
            lo <= start <= k <= hi <= s.len(),
            start < hi,
            d == s@.subrange(start as int, hi as int),
            t == s@.subrange(lo as int, hi as int),
            d == (if t.len() > 0 && t[0] == '+' {
                t.drop_first()
            } else {
                t
            }),
            all_digits(d.take(k - start)),
            v == digits_value(d.take(k - start)),
        decreases hi - k,
    {
        let c = s[k];
        assert(c == d[k - start]);
        if !('0' <= c && c <= '9') {
            assert(!all_digits(d));
            return None;
        }
        let dig = (c as u32 - 48) as usize;
        assert(d.take(k + 1 - start).drop_last() == d.take(k - start));
        assert(digits_value(d.take(k + 1 - start)) == v * 10 + dig);
        if v > (usize::MAX - dig) / 10 {
            proof {
                assert(v * 10 + dig > usize::MAX) by (nonlinear_arith)
                    requires
                        v > (usize::MAX - dig) / 10,
                        dig <= 9,
                ;
                if all_digits(d) {
                    lemma_digits_value_grows(d, k + 1 - start);
                }
            }
            return None;
        }
        v = v * 10 + dig;
        k += 1;
    }
    assert(d.take(hi - start) == d);
    Some(v)
}

/// Replace `${0}`, `${1}`, … with the corresponding capture group. Missing
/// groups are replaced with an empty string; anything else is kept.
pub fn substitute(template: &str, caps: &Captures) -> (out: String)
    ensures
        out@ == subst(template@, caps.groups.deep_view()),
{
    let t = chars_of(template);
    let ghost groups = caps.groups.deep_view();
    let mut out: Vec<char> = Vec::new();
    let mut i: usize = 0;
    assert(t@.skip(0) == t@);
    while i < t.len()
        invariant
            i <= t.len(),
            groups == caps.groups.deep_view(),
            out@ + subst(t@.skip(i as int), groups) == subst(t@, groups),
        decreases t.len() - i,
    {
        let ghost r = t@.skip(i as int);
        if t[i] != '$' {
            out.push(t[i]);
            assert(r.drop_first() == t@.skip(i + 1));
            i += 1;
            continue;
        }
        if t.len() - i >= 2 && t[i + 1] == '{' {
            let mut c = i + 2;
            while c < t.len() && t[c] != '}'
                invariant
                    i + 2 <= c <= t.len(),
                    close_brace(r, 2) == close_brace(r, c - i),
                    r == t@.skip(i as int),
                decreases t.len() - c,
            {
                c += 1;
            }
            if c < t.len() {
                assert(close_brace(r, c - i) == c - i);
                assert(r.subrange(2, c - i) == t@.subrange(i + 2, c as int));
                match parse_index_chars(&t, i + 2, c) {
                    Some(idx) => {
                        if idx < caps.groups.len() {
                            match &caps.groups[idx] {
                                Some(g) => {
                                    let gc = chars_of(g);
                                    push_all(&mut out, &gc);
                                },
                                None => {},
                            }
                        }
                        assert(r.skip(c - i + 1) == t@.skip(c + 1));
                        i = c + 1;
                        continue;
                    },
                    None => {},
                }
            } else {
                assert(close_brace(r, 2) == -1);
            }
        }
        out.push('$');
        assert(r.drop_first() == t@.skip(i + 1));
        i += 1;
    }
    assert(t@.skip(t.len() as int).len() == 0);
    assert(out@ + Seq::<char>::empty() == out@);
    string_of(&out)
}

// ---------- events ----------

/// Why hooks could not be set up.
#[derive(Debug)]
pub enum HookError {
    /// An event name other than `pre-write` and `post-write`.
    UnknownEvent { given: String },
    /// A hook with neither `pattern` nor `content_pattern`.
    MissingPattern { event: Event },
    /// A hook with both `content_pattern` and `when_file_missing`.
    ContentWithMissingFile { hook: String },
    /// A pre-write hook with `text`.
    TextOnPreWrite { hook: String },
    /// A pre-write hook with neither `blueprint` nor `blueprints`.
    MissingBlueprint { hook: String },
    /// A pre-write hook with both `blueprint` and `blueprints`.
    BothBlueprintKeys { hook: String },
    /// A post-write hook with `blueprint` or `blueprints`.
    BlueprintOnPostWrite { hook: String },
    /// A post-write hook without `text`.
    MissingText { hook: String },
    /// A `pattern` that does not compile; `detail` is the regex error.
    InvalidPathRegex { pattern: String, detail: String },
    /// A `content_pattern` that does not compile; `detail` is the regex error.
    InvalidContentRegex { pattern: String, detail: String },
}

/// The name an event is written with.
pub open spec fn event_name(e: Event) -> Seq<char> {
    match e {
        Event::PreWrite => "pre-write"@,
        Event::PostWrite => "post-write"@,
    }
}

/// The name an event has in messages (its `Debug` form).
pub open spec fn event_debug_name(e: Event) -> Seq<char> {
    match e {
        Event::PreWrite => "PreWrite"@,
        Event::PostWrite => "PostWrite"@,
    }
}

fn same_text(a: &str, b: &str) -> (r: bool)
    ensures
        r == (a@ == b@),
{
    let x = chars_of(a);
    let y = chars_of(b);
    chars_eq(&x, &y)
}

impl Event {
    /// Reads an event name: `pre-write` or `post-write`.
    pub fn parse(s: &str) -> (r: Result<Event, HookError>)
        ensures
            s@ == "pre-write"@ ==> r == Ok::<Event, HookError>(Event::PreWrite),
            s@ == "post-write"@ ==> r == Ok::<Event, HookError>(Event::PostWrite),
            s@ != "pre-write"@ && s@ != "post-write"@ ==> (r matches Err(HookError::UnknownEvent {
                given,
            }) && given@ == s@),
            r matches Ok(e) ==> event_name(e) == s@,
    {
        proof {
            reveal_strlit("pre-write");
            reveal_strlit("post-write");
            assert("pre-write"@[1] != "post-write"@[1]);
        }
        if same_text(s, "pre-write") {
            Ok(Event::PreWrite)
        } else if same_text(s, "post-write") {
            Ok(Event::PostWrite)
        } else {
            Err(HookError::UnknownEvent { given: s.to_string() })
        }
    }

    /// The name of the agent tool hook that matches the event.
    pub fn claude_hook_name(self) -> (n: &'static str)
        ensures
            n@ == (match self {
                Event::PreWrite => "PreToolUse"@,
                Event::PostWrite => "PostToolUse"@,
            }),
    {
        match self {
            Event::PreWrite => "PreToolUse",
            Event::PostWrite => "PostToolUse",
        }
    }
}

/// The message of a hook error.
pub open spec fn hook_error_text(e: HookError) -> Seq<char> {
    match e {
        HookError::UnknownEvent { given } => "unknown event '"@ + given@
            + "' (expected 'pre-write' or 'post-write')"@,
        HookError::MissingPattern { event } =>
            "hook needs at least one of 'pattern' or 'content_pattern' (event: "@
            + event_debug_name(event) + ")"@,
        HookError::ContentWithMissingFile { hook } => "hook '"@ + hook@
            + "' combines 'content_pattern' with 'when_file_missing' \u{2014} a content match requires the file to exist"@,
        HookError::TextOnPreWrite { hook } => "[[pre-write]] hook '"@ + hook@
            + "' has 'text' (allowed only on post-write)"@,
        HookError::MissingBlueprint { hook } => "[[pre-write]] hook '"@ + hook@
            + "' needs 'blueprint' or 'blueprints'"@,
        HookError::BothBlueprintKeys { hook } => "[[pre-write]] hook '"@ + hook@
            + "' has both 'blueprint' and 'blueprints' \u{2014} pick one"@,
        HookError::BlueprintOnPostWrite { hook } => "[[post-write]] hook '"@ + hook@
            + "' has 'blueprint'/'blueprints' (allowed only on pre-write)"@,
        HookError::MissingText { hook } => "[[post-write]] hook '"@ + hook@
            + "' needs 'text'"@,
        HookError::InvalidPathRegex { pattern, detail } => "invalid path regex in hook: "@
            + pattern@ + ": "@ + detail@,
        HookError::InvalidContentRegex { pattern, detail } =>
            "invalid content_pattern regex in hook: "@ + pattern@ + ": "@ + detail@,
    }
}

impl HookError {
    /// The error's message.
    pub fn message(&self) -> (m: String)
        ensures
            m@ == hook_error_text(*self),
    {
        let mut out: Vec<char> = Vec::new();
        match self {
            HookError::UnknownEvent { given } => {
                push_str(&mut out, "unknown event '");
                push_str(&mut out, given);
                push_str(&mut out, "' (expected 'pre-write' or 'post-write')");
            },
            HookError::MissingPattern { event } => {
                push_str(&mut out, "hook needs at least one of 'pattern' or 'content_pattern' (event: ");
                match event {
                    Event::PreWrite => push_str(&mut out, "PreWrite"),
                    Event::PostWrite => push_str(&mut out, "PostWrite"),
                }
                push_str(&mut out, ")");
            },
            HookError::ContentWithMissingFile { hook } => {
                push_str(&mut out, "hook '");
                push_str(&mut out, hook);
                push_str(
                    &mut out,
                    "' combines 'content_pattern' with 'when_file_missing' \u{2014} a content match requires the file to exist",
                );
            },
            HookError::TextOnPreWrite { hook } => {
                push_str(&mut out, "[[pre-write]] hook '");
                push_str(&mut out, hook);
                push_str(&mut out, "' has 'text' (allowed only on post-write)");
            },
            HookError::MissingBlueprint { hook } => {
                push_str(&mut out, "[[pre-write]] hook '");
                push_str(&mut out, hook);
                push_str(&mut out, "' needs 'blueprint' or 'blueprints'");
            },
            HookError::BothBlueprintKeys { hook } => {
                push_str(&mut out, "[[pre-write]] hook '");
                push_str(&mut out, hook);
                push_str(&mut out, "' has both 'blueprint' and 'blueprints' \u{2014} pick one");
            },
            HookError::BlueprintOnPostWrite { hook } => {
                push_str(&mut out, "[[post-write]] hook '");
                push_str(&mut out, hook);
                push_str(&mut out, "' has 'blueprint'/'blueprints' (allowed only on pre-write)");
            },
            HookError::MissingText { hook } => {
                push_str(&mut out, "[[post-write]] hook '");
                push_str(&mut out, hook);
                push_str(&mut out, "' needs 'text'");
            },
            HookError::InvalidPathRegex { pattern, detail } => {
                push_str(&mut out, "invalid path regex in hook: ");
                push_str(&mut out, pattern);
                push_str(&mut out, ": ");
                push_str(&mut out, detail);
            },
            HookError::InvalidContentRegex { pattern, detail } => {
                push_str(&mut out, "invalid content_pattern regex in hook: ");
                push_str(&mut out, pattern);
                push_str(&mut out, ": ");
                push_str(&mut out, detail);
            },
        }
        string_of(&out)
    }
}

// ---------- hooks as written in hooks.toml ----------

/// A `blueprint` / `blueprints` value: one id or a list of ids.
#[derive(Clone, Debug)]
pub enum StringOrList {
    Str(String),
    List(Vec<String>),
}

/// The ids a `blueprint` / `blueprints` value names.
pub open spec fn list_view(s: StringOrList) -> Seq<Seq<char>> {
    match s {
        StringOrList::Str(x) => seq![x@],
        StringOrList::List(v) => v.deep_view(),
    }
}

impl StringOrList {
    /// The ids, as a list.
    pub fn into_vec(self) -> (v: Vec<String>)
        ensures
            v.deep_view() == list_view(self),
    {
        match self {
            StringOrList::Str(s) => {
                let ghost sv = s@;
                let v = vec![s];
                assert(v.deep_view() =~= seq![sv]);
                v
            },
            StringOrList::List(v) => v,
        }
    }
}

/// One `[[pre-write]]` or `[[post-write]]` entry of a `hooks.toml`.
#[derive(Clone, Debug)]
pub struct RawHook {
    pub pattern: Option<String>,
    pub content_pattern: Option<String>,
    pub blueprint: Option<StringOrList>,
    pub blueprints: Option<StringOrList>,
    pub text: Option<String>,
    pub when_file_missing: Option<String>,
    pub when_file_exists: Option<String>,
}

/// A parsed `hooks.toml`: its pre-write and post-write entries, in order.
#[derive(Clone, Debug)]
pub struct RawHooksFile {
    pub pre_write: Vec<RawHook>,
    pub post_write: Vec<RawHook>,
}

/// A rule that a hook entry breaks.
#[derive(Clone, Copy, PartialEq, Eq, Structural, Debug)]
pub enum Rule {
    NeedsPattern,
    ContentWithMissingFile,
    TextOnPreWrite,
    NeedsBlueprint,
    BothBlueprintKeys,
    BlueprintOnPostWrite,
    NeedsText,
}

/// The first rule (in the order they are checked) that the entry breaks
/// for the event.
pub open spec fn violation(raw: RawHook, event: Event) -> Option<Rule> {
    if raw.pattern is None && raw.content_pattern is None {
        Some(Rule::NeedsPattern)
    } else if raw.content_pattern is Some && raw.when_file_missing is Some {
        Some(Rule::ContentWithMissingFile)
    } else {
        match event {
            Event::PreWrite => if raw.text is Some {
                Some(Rule::TextOnPreWrite)
            } else if raw.blueprint is None && raw.blueprints is None {
                Some(Rule::NeedsBlueprint)
            } else if raw.blueprint is Some && raw.blueprints is Some {
                Some(Rule::BothBlueprintKeys)
            } else {
                None
            },
            Event::PostWrite => if raw.blueprint is Some || raw.blueprints is Some {
                Some(Rule::BlueprintOnPostWrite)
            } else if raw.text is None {
                Some(Rule::NeedsText)
            } else {
                None
            },
        }
    }
}

/// How an entry is named in messages: its path pattern, else its content
/// pattern, else `(unnamed)`.
pub open spec fn hook_id(raw: RawHook) -> Seq<char> {
    match raw.pattern {
        Some(p) => p@,
        None => match raw.content_pattern {
            Some(c) => c@,
            None => "(unnamed)"@,
        },
    }
}

/// `e` reports that the entry named `id` breaks `rule` under `event`.
pub open spec fn error_for_rule(e: HookError, rule: Rule, event: Event, id: Seq<char>) -> bool {
    match rule {
        Rule::NeedsPattern => e matches HookError::MissingPattern { event: ev } && ev == event,
        Rule::ContentWithMissingFile => e matches HookError::ContentWithMissingFile { hook }
            && hook@ == id,
        Rule::TextOnPreWrite => e matches HookError::TextOnPreWrite { hook } && hook@ == id,
        Rule::NeedsBlueprint => e matches HookError::MissingBlueprint { hook } && hook@ == id,
        Rule::BothBlueprintKeys => e matches HookError::BothBlueprintKeys { hook } && hook@ == id,
        Rule::BlueprintOnPostWrite => e matches HookError::BlueprintOnPostWrite { hook } && hook@
            == id,
        Rule::NeedsText => e matches HookError::MissingText { hook } && hook@ == id,
    }
}

/// An absent pattern, or one that compiles.
pub open spec fn regex_ok(p: Option<String>) -> bool {
    match p {
        Some(s) => regex_compiles(s@),
        None => true,
    }
}

/// The entry makes a hook for the event: it breaks no rule and its patterns
/// compile.
pub open spec fn builds(raw: RawHook, event: Event) -> bool {
    violation(raw, event) is None && regex_ok(raw.pattern) && regex_ok(raw.content_pattern)
}

/// `e` is the error that building a hook from the entry gives: the broken
/// rule, else the path pattern that does not compile, else the content
/// pattern that does not compile.
pub open spec fn build_error(e: HookError, raw: RawHook, event: Event) -> bool {
    match violation(raw, event) {
        Some(rule) => error_for_rule(e, rule, event, hook_id(raw)),
        None => if !regex_ok(raw.pattern) {
            e matches HookError::InvalidPathRegex { pattern, detail } && Some(pattern@) == opt_view(
                raw.pattern,
            ) && detail@ == regex_error_message(pattern@)
        } else {
            e matches HookError::InvalidContentRegex { pattern, detail } && Some(pattern@)
                == opt_view(raw.content_pattern) && detail@ == regex_error_message(pattern@)
        },
    }
}

/// The blueprint ids of an entry (`blueprint` takes precedence).
pub open spec fn blueprint_list(raw: RawHook) -> Seq<Seq<char>> {
    match raw.blueprint {
        Some(b) => list_view(b),
        None => match raw.blueprints {
            Some(b) => list_view(b),
            None => seq![],
        },
    }
}

// ---------- hooks ----------

/// A hook, ready to match.
#[derive(Debug)]
pub struct Hook {
    /// Path regex. At least one of `pattern` / `content_pattern` is set.
    pub pattern: Option<CompiledRegex>,
    pub pattern_src: Option<String>,
    /// Content regex, matched against the file's current text.
    pub content_pattern: Option<CompiledRegex>,
    pub content_pattern_src: Option<String>,
    /// Pre-write only: the blueprint ids to read.
    pub blueprints: Vec<String>,
    /// Post-write only: advice text with `${0..n}` substitution.
    pub text: Option<String>,
    pub when_file_missing: Option<String>,
    pub when_file_exists: Option<String>,
    /// The source the hook came from; `None` for the project-level file.
    pub source: Option<String>,
    /// The source's `hook_base`: the hook applies to files under it, with
    /// paths taken relative to it.
    pub base: Option<String>,
}

/// The pattern a compiled regex came from, if any.
pub open spec fn regex_view(o: Option<CompiledRegex>) -> Option<Seq<char>> {
    match o {
        Some(r) => Some(r@),
        None => None,
    }
}

/// `h` is the hook built from entry `raw`, coming from `source` with hook
/// base `base`.
pub open spec fn built_from(
    h: Hook,
    raw: RawHook,
    source: Option<Seq<char>>,
    base: Option<Seq<char>>,
) -> bool {
    &&& regex_view(h.pattern) == opt_view(raw.pattern)
    &&& opt_view(h.pattern_src) == opt_view(raw.pattern)
    &&& regex_view(h.content_pattern) == opt_view(raw.content_pattern)
    &&& opt_view(h.content_pattern_src) == opt_view(raw.content_pattern)
    &&& h.blueprints.deep_view() == blueprint_list(raw)
    &&& opt_view(h.text) == opt_view(raw.text)
    &&& opt_view(h.when_file_missing) == opt_view(raw.when_file_missing)
    &&& opt_view(h.when_file_exists) == opt_view(raw.when_file_exists)
    &&& opt_view(h.source) == source
    &&& opt_view(h.base) == base
}

fn check_rules(raw: &RawHook, event: Event) -> (r: Option<Rule>)
    ensures
        r == violation(*raw, event),
{
    if raw.pattern.is_none() && raw.content_pattern.is_none() {
        return Some(Rule::NeedsPattern);
    }
    if raw.content_pattern.is_some() && raw.when_file_missing.is_some() {
        return Some(Rule::ContentWithMissingFile);
    }
    match event {
        Event::PreWrite => {
            if raw.text.is_some() {
                Some(Rule::TextOnPreWrite)
            } else if raw.blueprint.is_none() && raw.blueprints.is_none() {
                Some(Rule::NeedsBlueprint)
            } else if raw.blueprint.is_some() && raw.blueprints.is_some() {
                Some(Rule::BothBlueprintKeys)
            } else {
                None
            }
        },
        Event::PostWrite => {
            if raw.blueprint.is_some() || raw.blueprints.is_some() {
                Some(Rule::BlueprintOnPostWrite)
            } else if raw.text.is_none() {
                Some(Rule::NeedsText)
            } else {
                None
            }
        },
    }
}

fn hook_id_of(raw: &RawHook) -> (id: String)
    ensures
        id@ == hook_id(*raw),
{
    match &raw.pattern {
        Some(p) => p.clone(),
        None => match &raw.content_pattern {
            Some(c) => c.clone(),
            None => "(unnamed)".to_string(),
        },
    }
}

fn rule_error(rule: Rule, event: Event, hook: String) -> (e: HookError)
    ensures
        error_for_rule(e, rule, event, hook@),
{
    match rule {
        Rule::NeedsPattern => HookError::MissingPattern { event },
        Rule::ContentWithMissingFile => HookError::ContentWithMissingFile { hook },
        Rule::TextOnPreWrite => HookError::TextOnPreWrite { hook },
        Rule::NeedsBlueprint => HookError::MissingBlueprint { hook },
        Rule::BothBlueprintKeys => HookError::BothBlueprintKeys { hook },
        Rule::BlueprintOnPostWrite => HookError::BlueprintOnPostWrite { hook },
        Rule::NeedsText => HookError::MissingText { hook },
    }
}

fn copy_list(s: &StringOrList) -> (c: StringOrList)
    ensures
        list_view(c) == list_view(*s),
{
    match s {
        StringOrList::Str(x) => StringOrList::Str(x.clone()),
        StringOrList::List(v) => StringOrList::List(clone_strings(v)),
    }
}

fn compile_opt(p: &Option<String>) -> (r: Result<Option<CompiledRegex>, String>)
    ensures
        r is Ok <==> regex_ok(*p),
        r matches Ok(c) ==> regex_view(c) == opt_view(*p),
        r matches Err(m) ==> (p matches Some(src) && m@ == regex_error_message(src@)),
{
    match p {
        Some(src) => match CompiledRegex::compile(src) {
            Ok(re) => Ok(Some(re)),
            Err(detail) => Err(detail),
        },
        None => Ok(None),
    }
}

/// Builds a hook for `event` from an entry, checking the entry's rules in
/// order and then compiling its patterns.
pub fn build_hook(raw: &RawHook, event: Event, source: Option<String>, base: Option<String>) -> (r:
    Result<Hook, HookError>)
    ensures
        builds(*raw, event) ==> (r matches Ok(h) && built_from(
            h,
            *raw,
            opt_view(source),
            opt_view(base),
        )),
        !builds(*raw, event) ==> (r matches Err(e) && build_error(e, *raw, event)),
{
    match check_rules(raw, event) {
        Some(rule) => {
            let id = hook_id_of(raw);
            return Err(rule_error(rule, event, id));
        },
        None => {},
    }
    let pattern = match compile_opt(&raw.pattern) {
        Ok(c) => c,
        Err(detail) => {
            let src = clone_opt(&raw.pattern).unwrap();
            return Err(HookError::InvalidPathRegex { pattern: src, detail });
        },
    };
    let content_pattern = match compile_opt(&raw.content_pattern) {
        Ok(c) => c,
        Err(detail) => {
            let src = clone_opt(&raw.content_pattern).unwrap();
            return Err(HookError::InvalidContentRegex { pattern: src, detail });
        },
    };
    let ids: Vec<String> = match &raw.blueprint {
        Some(b) => copy_list(b).into_vec(),
        None => match &raw.blueprints {
            Some(b) => copy_list(b).into_vec(),
            None => Vec::new(),
        },
    };
    assert(ids.deep_view() =~= blueprint_list(*raw));
    Ok(
        Hook {
            pattern,
            pattern_src: clone_opt(&raw.pattern),
            content_pattern,
            content_pattern_src: clone_opt(&raw.content_pattern),
            blueprints: ids,
            text: clone_opt(&raw.text),
            when_file_missing: clone_opt(&raw.when_file_missing),
            when_file_exists: clone_opt(&raw.when_file_exists),
            source,
            base,
        },
    )
}

// ---------- loading ----------

/// The hooks of a configuration, per event, in order.
#[derive(Debug)]
pub struct HookSet {
    pub pre_write: Vec<Hook>,
    pub post_write: Vec<Hook>,
}

/// A hook entry that could not be built, and the file it is in: `None` for
/// the project-level file, `Some(i)` for that of source `i`.
#[derive(Debug)]
pub struct HookLoadError {
    pub origin: Option<usize>,
    pub error: HookError,
}

/// Where a hooks file comes from: `None` for the project, `Some(i)` for
/// source `i`.
pub type Origin = Option<int>;

/// The hooks files, in loading order: the project's, then those of the
/// sources in configuration order. `per_source[i]` is the file of source `i`
/// (`None` when it has none); entries past the sources are not read.
pub open spec fn hook_files(
    n_sources: int,
    project: Option<RawHooksFile>,
    per_source: Seq<Option<RawHooksFile>>,
) -> Seq<(Origin, RawHooksFile)> {
    project_files(project) + source_files(per_source, n_sources)
}

/// The project-level file, if there is one.
pub open spec fn project_files(project: Option<RawHooksFile>) -> Seq<(Origin, RawHooksFile)> {
    match project {
        Some(f) => seq![(None::<int>, f)],
        None => seq![],
    }
}

/// The files of the first `n` sources that have one.
pub open spec fn source_files(per_source: Seq<Option<RawHooksFile>>, n: int) -> Seq<
    (Origin, RawHooksFile),
>
    decreases n,
{
    if n <= 0 {
        seq![]
    } else {
        source_files(per_source, n - 1) + (if n - 1 < per_source.len() && per_source[n - 1] is Some {
            seq![(Some(n - 1), per_source[n - 1]->0)]
        } else {
            seq![]
        })
    }
}

/// The entries of a file for an event, with the file's origin.
pub open spec fn file_entries(f: RawHooksFile, o: Origin, event: Event) -> Seq<(RawHook, Origin)> {
    let v = match event {
        Event::PreWrite => f.pre_write@,
        Event::PostWrite => f.post_write@,
    };
    Seq::new(v.len(), |j: int| (v[j], o))
}

/// The entries of all files for an event, in loading order.
pub open spec fn event_entries(files: Seq<(Origin, RawHooksFile)>, event: Event) -> Seq<
    (RawHook, Origin),
>
    decreases files.len(),
{
    if files.len() == 0 {
        seq![]
    } else {
        event_entries(files.drop_last(), event) + file_entries(
            files.last().1,
            files.last().0,
            event,
        )
    }
}

/// The entries in the order they are built: file by file, the pre-write
/// entries of a file before its post-write entries.
pub open spec fn build_order(files: Seq<(Origin, RawHooksFile)>) -> Seq<(RawHook, Event, Origin)>
    decreases files.len(),
{
    if files.len() == 0 {
        seq![]
    } else {
        let (o, f) = files.last();
        build_order(files.drop_last()) + Seq::new(
            f.pre_write@.len(),
            |j: int| (f.pre_write@[j], Event::PreWrite, o),
        ) + Seq::new(f.post_write@.len(), |j: int| (f.post_write@[j], Event::PostWrite, o))
    }
}

/// The name of the source a file comes from.
pub open spec fn origin_name(cfg: MemexConfig, o: Origin) -> Option<Seq<char>> {
    match o {
        Some(i) => Some(cfg.sources@[i].name@),
        None => None,
    }
}

/// The hook base of the source a file comes from.
pub open spec fn origin_base(cfg: MemexConfig, o: Origin) -> Option<Seq<char>> {
    match o {
        Some(i) => opt_view(cfg.sources@[i].hook_base),
        None => None,
    }
}

pub open spec fn origin_of(o: Option<usize>) -> Origin {
    match o {
        Some(i) => Some(i as int),
        None => None,
    }
}

/// `hooks` are the hooks built from `entries`, one for one.
pub open spec fn built_all(hooks: Seq<Hook>, entries: Seq<(RawHook, Origin)>, cfg: MemexConfig) -> bool {
    &&& hooks.len() == entries.len()
    &&& forall|j: int|
        0 <= j < hooks.len() ==> built_from(
            #[trigger] hooks[j],
            entries[j].0,
            origin_name(cfg, entries[j].1),
            origin_base(cfg, entries[j].1),
        )
}

/// `set` holds the hooks built from all entries of the files.
pub open spec fn loaded(set: HookSet, files: Seq<(Origin, RawHooksFile)>, cfg: MemexConfig) -> bool {
    &&& built_all(set.pre_write@, event_entries(files, Event::PreWrite), cfg)
    &&& built_all(set.post_write@, event_entries(files, Event::PostWrite), cfg)
}

/// Every entry of the sequence builds.
pub open spec fn all_build(order: Seq<(RawHook, Event, Origin)>) -> bool {
    forall|k: int| 0 <= k < order.len() ==> builds(#[trigger] order[k].0, order[k].1)
}

/// `e` reports the first entry of the sequence that does not build.
pub open spec fn first_failure(e: HookLoadError, order: Seq<(RawHook, Event, Origin)>) -> bool {
    exists|k: int|
        0 <= k < order.len() && all_build(order.take(k)) && !builds(order[k].0, order[k].1)
            && build_error(e.error, order[k].0, order[k].1) && origin_of(e.origin) == order[k].2
}

proof fn lemma_all_build_concat(a: Seq<(RawHook, Event, Origin)>, b: Seq<(RawHook, Event, Origin)>)
    ensures
        all_build(a + b) <==> all_build(a) && all_build(b),
{
    if all_build(a + b) {
        assert forall|k: int| 0 <= k < a.len() implies builds(#[trigger] a[k].0, a[k].1) by {
            assert((a + b)[k] == a[k]);
        }
        assert forall|k: int| 0 <= k < b.len() implies builds(#[trigger] b[k].0, b[k].1) by {
            assert((a + b)[a.len() + k] == b[k]);
        }
    }
    if all_build(a) && all_build(b) {
        assert forall|k: int| 0 <= k < (a + b).len() implies builds(
            #[trigger] (a + b)[k].0,
            (a + b)[k].1,
        ) by {
            if k < a.len() {
                assert((a + b)[k] == a[k]);
            } else {
                assert((a + b)[k] == b[k - a.len()]);
            }
        }
    }
}

proof fn lemma_first_failure_concat(
    e: HookLoadError,
    a: Seq<(RawHook, Event, Origin)>,
    b: Seq<(RawHook, Event, Origin)>,
)
    requires
        all_build(a) && first_failure(e, b) || first_failure(e, a),
    ensures
        first_failure(e, a + b),
{
    if first_failure(e, a) {
        let k = choose|k: int|
            0 <= k < a.len() && all_build(a.take(k)) && !builds(a[k].0, a[k].1) && build_error(
                e.error,
                a[k].0,
                a[k].1,
            ) && origin_of(e.origin) == a[k].2;
        assert((a + b).take(k) == a.take(k));
        assert((a + b)[k] == a[k]);
    } else {
        let k = choose|k: int|
            0 <= k < b.len() && all_build(b.take(k)) && !builds(b[k].0, b[k].1) && build_error(
                e.error,
                b[k].0,
                b[k].1,
            ) && origin_of(e.origin) == b[k].2;
        assert((a + b).take(a.len() + k) == a + b.take(k));
        lemma_all_build_concat(a, b.take(k));
        assert((a + b)[a.len() + k] == b[k]);
    }
}

/// Builds the hooks of `entries` for `event` and appends them to `out`.
fn load_entries(
    entries: &Vec<RawHook>,
    event: Event,
    origin: Option<usize>,
    cfg: &MemexConfig,
    out: &mut Vec<Hook>,
) -> (r: Result<(), HookLoadError>)
    requires
        origin matches Some(i) ==> i < cfg.sources.len(),
    ensures
        ({
            let order = Seq::new(
                entries@.len(),
                |j: int| (entries@[j], event, origin_of(origin)),
            );
            &&& r is Ok <==> all_build(order)
            &&& r matches Err(e) ==> first_failure(e, order)
            &&& r is Ok ==> final(out)@.len() == old(out)@.len() + entries@.len()
            &&& r is Ok ==> final(out)@.take(old(out)@.len() as int) == old(out)@ && built_all(
                final(out)@.skip(old(out)@.len() as int),
                Seq::new(entries@.len(), |j: int| (entries@[j], origin_of(origin))),
                *cfg,
            )
        }),
{
    let ghost order = Seq::new(entries@.len(), |j: int| (entries@[j], event, origin_of(origin)));
    let ghost ents = Seq::new(entries@.len(), |j: int| (entries@[j], origin_of(origin)));
    let ghost start = out@.len() as int;
    let mut i: usize = 0;
    while i < entries.len()
        invariant
            i <= entries.len(),
            out@.len() == start + i,
            order == Seq::new(entries@.len(), |j: int| (entries@[j], event, origin_of(origin))),
            ents == Seq::new(entries@.len(), |j: int| (entries@[j], origin_of(origin))),
            origin matches Some(i) ==> i < cfg.sources.len(),
            out@.take(start) == old(out)@,
            start == old(out)@.len(),
            all_build(order.take(i as int)),
            built_all(out@.skip(start), ents.take(i as int), *cfg),
        decreases entries.len() - i,
    {
        let raw = &entries[i];
        let source = match origin {
            Some(k) => Some(cfg.sources[k].name.clone()),
            None => None,
        };
        let base = match origin {
            Some(k) => clone_opt(&cfg.sources[k].hook_base),
            None => None,
        };
        match build_hook(raw, event, source, base) {
            Ok(h) => {
                let ghost before = out@;
                out.push(h);
                proof {
                    assert(order.take(i + 1) == order.take(i as int).push(order[i as int]));
                    lemma_all_build_concat(order.take(i as int), seq![order[i as int]]);
                    assert(out@.skip(start) == before.skip(start).push(h));
                    assert(ents.take(i + 1) == ents.take(i as int).push(ents[i as int]));
                    assert(out@.take(start) == before.take(start));
                }
                i += 1;
            },
            Err(error) => {
                let e = HookLoadError { origin, error };
                assert(first_failure(e, order)) by {
                    assert(order[i as int] == (entries@[i as int], event, origin_of(origin)));
                }
                return Err(e);
            },
        }
    }
    assert(order.take(entries@.len() as int) == order);
    assert(ents.take(entries@.len() as int) == ents);
    Ok(())
}

/// The entries of one file in the order they are built.
pub open spec fn file_order(f: RawHooksFile, o: Origin) -> Seq<(RawHook, Event, Origin)> {
    Seq::new(f.pre_write@.len(), |j: int| (f.pre_write@[j], Event::PreWrite, o)) + Seq::new(
        f.post_write@.len(),
        |j: int| (f.post_write@[j], Event::PostWrite, o),
    )
}

proof fn lemma_build_order_concat(a: Seq<(Origin, RawHooksFile)>, b: Seq<(Origin, RawHooksFile)>)
    ensures
        build_order(a + b) == build_order(a) + build_order(b),
    decreases b.len(),
{
    if b.len() == 0 {
        assert(a + b == a);
    } else {
        assert((a + b).drop_last() == a + b.drop_last());
        lemma_build_order_concat(a, b.drop_last());
        assert((a + b).last() == b.last());
    }
}

proof fn lemma_build_order_push(a: Seq<(Origin, RawHooksFile)>, x: (Origin, RawHooksFile))
    ensures
        build_order(a.push(x)) == build_order(a) + file_order(x.1, x.0),
        event_entries(a.push(x), Event::PreWrite) == event_entries(a, Event::PreWrite)
            + file_entries(x.1, x.0, Event::PreWrite),
        event_entries(a.push(x), Event::PostWrite) == event_entries(a, Event::PostWrite)
            + file_entries(x.1, x.0, Event::PostWrite),
{
    assert(a.push(x).drop_last() == a);
    assert(a.push(x).last() == x);
    let (o, f) = x;
    assert(build_order(a.push(x)) == build_order(a) + Seq::new(
        f.pre_write@.len(),
        |j: int| (f.pre_write@[j], Event::PreWrite, o),
    ) + Seq::new(f.post_write@.len(), |j: int| (f.post_write@[j], Event::PostWrite, o)));
    assert(build_order(a.push(x)) =~= build_order(a) + file_order(x.1, x.0));
}

proof fn lemma_built_all_concat(
    a: Seq<Hook>,
    ea: Seq<(RawHook, Origin)>,
    b: Seq<Hook>,
    eb: Seq<(RawHook, Origin)>,
    cfg: MemexConfig,
)
    requires
        built_all(a, ea, cfg),
        built_all(b, eb, cfg),
    ensures
        built_all(a + b, ea + eb, cfg),
{
    assert forall|j: int| 0 <= j < (a + b).len() implies built_from(
        #[trigger] (a + b)[j],
        (ea + eb)[j].0,
        origin_name(cfg, (ea + eb)[j].1),
        origin_base(cfg, (ea + eb)[j].1),
    ) by {
        if j < a.len() {
            assert((a + b)[j] == a[j]);
            assert((ea + eb)[j] == ea[j]);
        } else {
            assert((a + b)[j] == b[j - a.len()]);
            assert((ea + eb)[j] == eb[j - a.len()]);
        }
    }
}

proof fn lemma_source_files_prefix(ps: Seq<Option<RawHooksFile>>, m: int, n: int) -> (rest: Seq<
    (Origin, RawHooksFile),
>)
    requires
        0 <= m <= n,
    ensures
        source_files(ps, n) == source_files(ps, m) + rest,
    decreases n - m,
{
    if m == n {
        assert(source_files(ps, n) + Seq::<(Origin, RawHooksFile)>::empty() == source_files(ps, n));
        Seq::empty()
    } else {
        let r = lemma_source_files_prefix(ps, m, n - 1);
        let tail = if n - 1 < ps.len() && ps[n - 1] is Some {
            seq![(Some(n - 1), ps[n - 1]->0)]
        } else {
            seq![]
        };
        assert(source_files(ps, n) == source_files(ps, n - 1) + tail);
        assert(source_files(ps, n) == source_files(ps, m) + (r + tail));
        r + tail
    }
}

/// Builds the hooks of one file, pre-write entries first, and appends them
/// to the set.
fn load_file(f: &RawHooksFile, origin: Option<usize>, cfg: &MemexConfig, set: &mut HookSet) -> (r:
    Result<(), HookLoadError>)
    requires
        origin matches Some(i) ==> i < cfg.sources.len(),
    ensures
        r is Ok <==> all_build(file_order(*f, origin_of(origin))),
        r matches Err(e) ==> first_failure(e, file_order(*f, origin_of(origin))),
        r is Ok ==> final(set).pre_write@ == old(set).pre_write@ + final(set).pre_write@.skip(
            old(set).pre_write@.len() as int,
        ) && built_all(
            final(set).pre_write@.skip(old(set).pre_write@.len() as int),
            file_entries(*f, origin_of(origin), Event::PreWrite),
            *cfg,
        ),
        r is Ok ==> final(set).post_write@ == old(set).post_write@ + final(set).post_write@.skip(
            old(set).post_write@.len() as int,
        ) && built_all(
            final(set).post_write@.skip(old(set).post_write@.len() as int),
            file_entries(*f, origin_of(origin), Event::PostWrite),
            *cfg,
        ),
{
    let ghost o = origin_of(origin);
    let ghost pre_order = Seq::new(f.pre_write@.len(), |j: int| (f.pre_write@[j], Event::PreWrite, o));
    let ghost post_order = Seq::new(
        f.post_write@.len(),
        |j: int| (f.post_write@[j], Event::PostWrite, o),
    );
    assert(file_order(*f, o) == pre_order + post_order);
    assert(file_entries(*f, o, Event::PreWrite) =~= Seq::new(
        f.pre_write@.len(),
        |j: int| (f.pre_write@[j], o),
    ));
    assert(file_entries(*f, o, Event::PostWrite) =~= Seq::new(
        f.post_write@.len(),
        |j: int| (f.post_write@[j], o),
    ));
    let ghost pre0 = set.pre_write@;
    let ghost post0 = set.post_write@;
    match load_entries(&f.pre_write, Event::PreWrite, origin, cfg, &mut set.pre_write) {
        Ok(()) => {},
        Err(e) => {
            proof {
                lemma_first_failure_concat(e, pre_order, post_order);
                lemma_all_build_concat(pre_order, post_order);
            }
            return Err(e);
        },
    }
    assert(set.pre_write@.take(pre0.len() as int) == pre0);
    assert(set.pre_write@ =~= set.pre_write@.take(pre0.len() as int) + set.pre_write@.skip(
        pre0.len() as int,
    ));
    match load_entries(&f.post_write, Event::PostWrite, origin, cfg, &mut set.post_write) {
        Ok(()) => {},
        Err(e) => {
            proof {
                lemma_first_failure_concat(e, pre_order, post_order);
                lemma_all_build_concat(pre_order, post_order);
            }
            return Err(e);
        },
    }
    assert(set.post_write@.take(post0.len() as int) == post0);
    assert(set.post_write@ =~= set.post_write@.take(post0.len() as int) + set.post_write@.skip(
        post0.len() as int,
    ));
    proof {
        lemma_all_build_concat(pre_order, post_order);
    }
    Ok(())
}

/// Builds the hooks of a configuration from its hooks files: `project` is
/// the project-level `hooks.toml`, `per_source[i]` that of source `i`
/// (`None` where there is no file). Files are taken in order, project
/// first; the first entry that does not build is the error.
pub fn load(cfg: &MemexConfig, project: &Option<RawHooksFile>, per_source: &Vec<
    Option<RawHooksFile>,
>) -> (r: Result<HookSet, HookLoadError>)
    ensures
        ({
            let files = hook_files(cfg.sources@.len() as int, *project, per_source@);
            &&& r is Ok <==> all_build(build_order(files))
            &&& r matches Ok(set) ==> loaded(set, files, *cfg)
            &&& r matches Err(e) ==> first_failure(e, build_order(files))
        }),
{
    let ghost all = hook_files(cfg.sources@.len() as int, *project, per_source@);
    let ghost head = project_files(*project);
    let mut set = HookSet { pre_write: Vec::new(), post_write: Vec::new() };
    assert(build_order(seq![]) == Seq::<(RawHook, Event, Origin)>::empty());
    assert(loaded(set, seq![], *cfg));
    match project {
        Some(f) => {
            let ghost pre0 = set.pre_write@;
            let ghost post0 = set.post_write@;
            match load_file(f, None, cfg, &mut set) {
                Ok(()) => {
                    proof {
                        lemma_build_order_push(seq![], (None::<int>, *f));
                        assert(seq![].push((None::<int>, *f)) == head);
                        assert(pre0 + set.pre_write@.skip(0) == set.pre_write@);
                        assert(post0 + set.post_write@.skip(0) == set.post_write@);
                        assert(event_entries(seq![], Event::PreWrite) == Seq::<(RawHook, Origin)>::empty());
                        assert(event_entries(seq![], Event::PostWrite) == Seq::<(RawHook, Origin)>::empty());
                        assert(Seq::<(RawHook, Origin)>::empty() + file_entries(*f, None::<int>, Event::PreWrite) == file_entries(*f, None::<int>, Event::PreWrite));
                        assert(Seq::<(RawHook, Origin)>::empty() + file_entries(*f, None::<int>, Event::PostWrite) == file_entries(*f, None::<int>, Event::PostWrite));
                        assert(Seq::<(RawHook, Event, Origin)>::empty() + file_order(*f, None::<int>) == file_order(*f, None::<int>));
                    }
                },
                Err(e) => {
                    proof {
                        lemma_build_order_push(seq![], (None::<int>, *f));
                        assert(seq![].push((None::<int>, *f)) == head);
                        assert(Seq::<(RawHook, Event, Origin)>::empty() + file_order(*f, None::<int>) == file_order(*f, None::<int>));
                        lemma_build_order_concat(head, source_files(per_source@, cfg.sources@.len() as int));
                        lemma_first_failure_concat(e, build_order(head), build_order(source_files(per_source@, cfg.sources@.len() as int)));
                    }
                    return Err(e);
                },
            }
        },
        None => {
            assert(head == Seq::<(Origin, RawHooksFile)>::empty());
        },
    }
    let mut i: usize = 0;
    while i < cfg.sources.len()
        invariant
            i <= cfg.sources.len(),
            all == hook_files(cfg.sources@.len() as int, *project, per_source@),
            all == head + source_files(per_source@, cfg.sources@.len() as int),
            loaded(set, head + source_files(per_source@, i as int), *cfg),
            all_build(build_order(head + source_files(per_source@, i as int))),
        decreases cfg.sources.len() - i,
    {
        let ghost done = head + source_files(per_source@, i as int);
        if i < per_source.len() {
            match &per_source[i] {
                Some(f) => {
                    let ghost pre0 = set.pre_write@;
                    let ghost post0 = set.post_write@;
                    let ghost x = (Some(i as int), *f);
                    proof {
                        assert(source_files(per_source@, i + 1) == source_files(per_source@, i as int).push(x));
                        assert(head + source_files(per_source@, i + 1) == done.push(x));
                        lemma_build_order_push(done, x);
                    }
                    match load_file(f, Some(i), cfg, &mut set) {
                        Ok(()) => {
                            proof {
                                lemma_built_all_concat(pre0, event_entries(done, Event::PreWrite), set.pre_write@.skip(pre0.len() as int), file_entries(*f, Some(i as int), Event::PreWrite), *cfg);
                                lemma_built_all_concat(post0, event_entries(done, Event::PostWrite), set.post_write@.skip(post0.len() as int), file_entries(*f, Some(i as int), Event::PostWrite), *cfg);
                                lemma_all_build_concat(build_order(done), file_order(*f, Some(i as int)));
                            }
                        },
                        Err(e) => {
                            proof {
                                lemma_first_failure_concat(e, build_order(done), file_order(*f, Some(i as int)));
                                let rest = lemma_source_files_prefix(per_source@, i + 1, cfg.sources@.len() as int);
                                assert(all == done.push(x) + rest);
                                lemma_build_order_concat(done.push(x), rest);
                                lemma_first_failure_concat(e, build_order(done.push(x)), build_order(rest));
                            }
                            return Err(e);
                        },
                    }
                },
                None => {
                    assert(source_files(per_source@, i + 1) == source_files(per_source@, i as int));
                },
            }
        } else {
            assert(source_files(per_source@, i + 1) == source_files(per_source@, i as int));
        }
        i += 1;
    }
    Ok(set)
}

// ---------- loading from files ----------

/// What reading a hooks file gave: `Ok(None)` when there is no such file,
/// `Ok(Some(..))` its entries, `Err(..)` why it could not be read or
/// parsed.
pub type FileRead = Result<Option<RawHooksFile>, String>;

/// The entries a read gave, if any.
pub open spec fn read_view(r: FileRead) -> Option<RawHooksFile> {
    match r {
        Ok(f) => f,
        Err(_) => None,
    }
}

/// Among the project's file and those of the first `n` sources, in loading
/// order, the first that could not be read: its origin and the reason.
pub open spec fn first_read_failure(project: FileRead, per_source: Seq<FileRead>, n: int) -> Option<
    (Origin, Seq<char>),
>
    decreases n,
{
    if n <= 0 {
        match project {
            Err(m) => Some((None::<int>, m@)),
            Ok(_) => None,
        }
    } else {
        match first_read_failure(project, per_source, n - 1) {
            Some(x) => Some(x),
            None => match per_source[n - 1] {
                Err(m) => Some((Some(n - 1), m@)),
                Ok(_) => None,
            },
        }
    }
}

/// The file of origin `o` is loaded before the failing one (every file is
/// when none failed).
pub open spec fn before_failure(o: Origin, fail: Option<(Origin, Seq<char>)>) -> bool {
    match fail {
        None => true,
        Some((f, _)) => match (o, f) {
            (None, Some(_)) => true,
            (Some(i), Some(j)) => i < j,
            _ => false,
        },
    }
}

/// The project's entries that are loaded: none when its file failed.
pub open spec fn kept_project(project: FileRead, per_source: Seq<FileRead>) -> Option<RawHooksFile> {
    if before_failure(None, first_read_failure(project, per_source, per_source.len() as int)) {
        read_view(project)
    } else {
        None
    }
}

/// The sources' entries that are loaded: those of files before the first
/// that failed.
pub open spec fn kept_sources(project: FileRead, per_source: Seq<FileRead>) -> Seq<Option<RawHooksFile>> {
    Seq::new(
        per_source.len(),
        |i: int|
            if before_failure(
                Some(i),
                first_read_failure(project, per_source, per_source.len() as int),
            ) {
                read_view(per_source[i])
            } else {
                None
            },
    )
}

/// The `hooks.toml` of an origin: next to the configuration for the
/// project, at the mount for a source.
pub open spec fn hooks_path(cfg: MemexConfig, o: Origin) -> Seq<char> {
    match o {
        Some(i) => if 0 <= i < cfg.sources@.len() {
            join(cfg.sources@[i].mount@, "hooks.toml"@)
        } else {
            join(cfg.config_dir@, "hooks.toml"@)
        },
        None => join(cfg.config_dir@, "hooks.toml"@),
    }
}

/// A failure to load, naming the file: `loading <path>: <reason>`.
pub open spec fn loading_message(cfg: MemexConfig, o: Origin, reason: Seq<char>) -> Seq<char> {
    "loading "@ + hooks_path(cfg, o) + ": "@ + reason
}

proof fn lemma_first_read_failure_stays(project: FileRead, per_source: Seq<FileRead>, k: int, n: int)
    requires
        0 <= k <= n,
        first_read_failure(project, per_source, k) is Some,
    ensures
        first_read_failure(project, per_source, n) == first_read_failure(project, per_source, k),
    decreases n,
{
    if n > k {
        lemma_first_read_failure_stays(project, per_source, k, n - 1);
    }
}

fn hooks_path_of(cfg: &MemexConfig, o: Option<usize>) -> (p: String)
    ensures
        p@ == hooks_path(*cfg, origin_of(o)),
{
    match o {
        Some(i) => if i < cfg.sources.len() {
            path_join(&cfg.sources[i].mount, "hooks.toml")
        } else {
            path_join(&cfg.config_dir, "hooks.toml")
        },
        None => path_join(&cfg.config_dir, "hooks.toml"),
    }
}

fn loading_message_of(cfg: &MemexConfig, o: Option<usize>, reason: &str) -> (m: String)
    ensures
        m@ == loading_message(*cfg, origin_of(o), reason@),
{
    let path = hooks_path_of(cfg, o);
    let mut out: Vec<char> = Vec::new();
    push_str(&mut out, "loading ");
    push_str(&mut out, &path);
    push_str(&mut out, ": ");
    push_str(&mut out, reason);
    string_of(&out)
}

/// The entries of the reads, the first `keep` of them; none for the rest.
fn take_reads(v: Vec<FileRead>, keep: usize) -> (r: Vec<Option<RawHooksFile>>)
    ensures
        r@.len() == v@.len(),
        forall|i: int|
            0 <= i < r@.len() ==> #[trigger] r@[i] == if i < keep {
                read_view(v@[i])
            } else {
                None
            },
{
    let ghost orig = v@;
    let n = v.len();
    let mut v = v;
    let mut rev: Vec<Option<RawHooksFile>> = Vec::new();
    while v.len() > 0
        invariant
            v@ == orig.take(v@.len() as int),
            v@.len() + rev@.len() == n,
            n == orig.len(),
            forall|k: int|
                0 <= k < rev@.len() ==> #[trigger] rev@[k] == if n - 1 - k < keep {
                    read_view(orig[n - 1 - k])
                } else {
                    None
                },
        decreases v.len(),
    {
        let i = v.len() - 1;
        let x = match v.pop() {
            Some(x) => x,
            None => {
                return Vec::new();
            },
        };
        assert(x == orig[i as int]);
        let y = if i < keep {
            match x {
                Ok(f) => f,
                Err(_) => None,
            }
        } else {
            None
        };
        rev.push(y);
        assert(v@ =~= orig.take(v@.len() as int));
    }
    let mut out: Vec<Option<RawHooksFile>> = Vec::new();
    while rev.len() > 0
        invariant
            out@.len() + rev@.len() == n,
            forall|k: int|
                0 <= k < rev@.len() ==> #[trigger] rev@[k] == if n - 1 - k < keep {
                    read_view(orig[n - 1 - k])
                } else {
                    None
                },
            forall|i: int|
                0 <= i < out@.len() ==> #[trigger] out@[i] == if i < keep {
                    read_view(orig[i])
                } else {
                    None
                },
        decreases rev.len(),
    {
        let k = rev.len() - 1;
        let y = match rev.pop() {
            Some(y) => y,
            None => {
                return Vec::new();
            },
        };
        assert(n - 1 - k == out@.len());
        out.push(y);
    }
    out
}

/// Builds the hooks from what reading each hooks file gave (the project's
/// `hooks.toml`, then one per source), file by file as they load: the first
/// file that could not be read, or that has an entry that does not build,
/// stops the loading, and the message names that file (`loading <path>:`)
/// and the reason. On success, gives the set and the files it was built
/// from.
pub fn load_read(cfg: &MemexConfig, project: FileRead, per_source: Vec<FileRead>) -> (r: Result<
    (HookSet, Option<RawHooksFile>, Vec<Option<RawHooksFile>>),
    String,
>)
    requires
        per_source.len() == cfg.sources.len(),
    ensures
        ({
            let fail = first_read_failure(project, per_source@, per_source@.len() as int);
            let files = hook_files(
                cfg.sources@.len() as int,
                kept_project(project, per_source@),
                kept_sources(project, per_source@),
            );
            &&& r is Ok <==> (fail is None && all_build(build_order(files)))
            &&& r matches Ok((set, p, ps)) ==> loaded(set, files, *cfg) && p == kept_project(
                project,
                per_source@,
            ) && ps@ == kept_sources(project, per_source@)
            &&& fail matches Some((o, m)) ==> (all_build(build_order(files)) ==> (r matches Err(
                msg,
            ) && msg@ == loading_message(*cfg, o, m)))
            &&& !all_build(build_order(files)) ==> (r matches Err(msg) && exists|e: HookLoadError|
                first_failure(e, build_order(files)) && msg@ == loading_message(
                    *cfg,
                    origin_of(e.origin),
                    hook_error_text(e.error),
                ))
        }),
{
    let n = per_source.len();
    let ghost ps = per_source@;
    let ghost fail = first_read_failure(project, ps, n as int);
    // The failing file: `Some(0)` the project's, `Some(i + 1)` that of source `i`.
    let mut fail_at: Option<usize> = None;
    let mut reason: String = String::new();
    match &project {
        Err(m) => {
            fail_at = Some(0);
            reason = m.clone();
            proof {
                lemma_first_read_failure_stays(project, ps, 0, n as int);
            }
        },
        Ok(_) => {},
    }
    if fail_at.is_none() {
        let mut i: usize = 0;
        while i < n
            invariant_except_break
                fail_at is None,
                first_read_failure(project, ps, i as int) is None,
            invariant
                i <= n,
                n == per_source.len(),
                ps == per_source@,
            ensures
                fail_at is None ==> first_read_failure(project, ps, n as int) is None,
                fail_at matches Some(j) ==> 1 <= j <= n && first_read_failure(project, ps, n as int)
                    == Some((Some(j - 1), reason@)),
            decreases n - i,
        {
            match &per_source[i] {
                Err(m) => {
                    fail_at = Some(i + 1);
                    reason = m.clone();
                    proof {
                        assert(first_read_failure(project, ps, i + 1) == Some((Some(i as int), m@)));
                        lemma_first_read_failure_stays(project, ps, i + 1, n as int);
                    }
                    break;
                },
                Ok(_) => {},
            }
            i += 1;
        }
    }
    let keep: usize = match fail_at {
        None => n,
        Some(0) => 0,
        Some(j) => j - 1,
    };
    let p_opt: Option<RawHooksFile> = if fail_at != Some(0) {
        match project {
            Ok(f) => f,
            Err(_) => None,
        }
    } else {
        None
    };
    let ps_opt = take_reads(per_source, keep);
    proof {
        assert(p_opt == kept_project(project, ps));
        assert forall|i: int| 0 <= i < ps_opt@.len() implies #[trigger] ps_opt@[i] == kept_sources(project, ps)[i] by {}
        assert(ps_opt@ =~= kept_sources(project, ps));
    }
    match load(cfg, &p_opt, &ps_opt) {
        Err(e) => {
            let msg = e.error.message();
            Err(loading_message_of(cfg, e.origin, &msg))
        },
        Ok(set) => match fail_at {
            None => Ok((set, p_opt, ps_opt)),
            Some(j) => {
                let o: Option<usize> = if j == 0 {
                    None
                } else {
                    Some(j - 1)
                };
                Err(loading_message_of(cfg, o, &reason))
            },
        },
    }
}

// ---------- matching ----------

/// What a matching hook answers.
#[derive(Debug)]
pub struct HookAdvice {
    /// For pre-write: the blueprints to read.
    pub blueprints: Vec<String>,
    /// For post-write: the advice text.
    pub text: Option<String>,
}

/// The blueprints and text of an answer.
pub open spec fn advice_view(a: Option<HookAdvice>) -> Option<(Seq<Seq<char>>, Option<Seq<char>>)> {
    match a {
        Some(a) => Some((a.blueprints.deep_view(), opt_view(a.text))),
        None => None,
    }
}

/// Whether a file of this kind and size is read for content matching: a
/// regular file of at most `MAX_CONTENT_BYTES` bytes.
pub fn content_readable(is_file: bool, len: u64) -> (b: bool)
    ensures
        b == (is_file && len <= MAX_CONTENT_BYTES),
{
    is_file && len <= MAX_CONTENT_BYTES
}

/// The hooks of the set for an event.
pub open spec fn bucket(set: HookSet, event: Event) -> Seq<Hook> {
    match event {
        Event::PreWrite => set.pre_write@,
        Event::PostWrite => set.post_write@,
    }
}

/// The path a hook is matched against: the file path taken relative to the
/// hook's base; none when the file is not under the base.
pub open spec fn match_path(h: Hook, file_path: Seq<char>) -> Option<Seq<char>> {
    match h.base {
        Some(b) => strip_prefix(file_path, b@),
        None => Some(file_path),
    }
}

/// The hook's path pattern; the empty pattern when it has none.
pub open spec fn path_pattern(h: Hook) -> Seq<char> {
    match h.pattern {
        Some(re) => re@,
        None => seq![],
    }
}

/// The capture groups of the hook's path pattern on the file; none when the
/// file is outside the hook's base, when the pattern does not match, or
/// when matching fails.
pub open spec fn path_groups(h: Hook, file_path: Seq<char>) -> Option<Seq<Option<Seq<char>>>> {
    match match_path(h, file_path) {
        None => None,
        Some(rel) => if h.pattern is None && !regex_compiles(seq![]) {
            None
        } else {
            match regex_captures(path_pattern(h), rel) {
                Some(Some(g)) => Some(g),
                _ => None,
            }
        },
    }
}

/// The path a condition names, relative to the project root and the hook's
/// base.
pub open spec fn condition_target(root: Seq<char>, base: Option<Seq<char>>, resolved: Seq<char>) -> Seq<
    char,
> {
    match base {
        Some(b) => join(join(root, b), resolved),
        None => join(root, resolved),
    }
}

/// The hook's content pattern, if any, matches the file's content; a file
/// without readable content matches none.
pub open spec fn content_ok(h: Hook, content: Option<Seq<char>>) -> bool {
    match h.content_pattern {
        None => true,
        Some(re) => match content {
            Some(t) => regex_is_match(re@, t) == Some(true),
            None => false,
        },
    }
}

/// The hook's `when_file_missing` / `when_file_exists` conditions hold,
/// `existing` being the paths that exist.
pub open spec fn conditions_ok(
    h: Hook,
    groups: Seq<Option<Seq<char>>>,
    root: Seq<char>,
    existing: Seq<Seq<char>>,
) -> bool {
    &&& match h.when_file_missing {
        Some(t) => !existing.contains(condition_target(root, opt_view(h.base), subst(t@, groups))),
        None => true,
    }
    &&& match h.when_file_exists {
        Some(t) => existing.contains(condition_target(root, opt_view(h.base), subst(t@, groups))),
        None => true,
    }
}

/// What one hook answers for the file: its blueprints and its substituted
/// text, when its path pattern, content pattern and conditions all hold.
pub open spec fn hook_advice(
    h: Hook,
    file_path: Seq<char>,
    root: Seq<char>,
    content: Option<Seq<char>>,
    existing: Seq<Seq<char>>,
) -> Option<(Seq<Seq<char>>, Option<Seq<char>>)> {
    match path_groups(h, file_path) {
        None => None,
        Some(g) => if content_ok(h, content) && conditions_ok(h, g, root, existing) {
            Some(
                (
                    h.blueprints.deep_view(),
                    match h.text {
                        Some(t) => Some(subst(t@, g)),
                        None => None,
                    },
                ),
            )
        } else {
            None
        },
    }
}

/// The answer of the first hook from `i` on that answers.
pub open spec fn first_advice(
    hooks: Seq<Hook>,
    i: int,
    file_path: Seq<char>,
    root: Seq<char>,
    content: Option<Seq<char>>,
    existing: Seq<Seq<char>>,
) -> Option<(Seq<Seq<char>>, Option<Seq<char>>)>
    decreases hooks.len() - i,
{
    if i < 0 || i >= hooks.len() {
        None
    } else {
        match hook_advice(hooks[i], file_path, root, content, existing) {
            Some(a) => Some(a),
            None => first_advice(hooks, i + 1, file_path, root, content, existing),
        }
    }
}

/// A hook that answers gives its own blueprints, all of them in their order,
/// and text exactly when it has text.
pub proof fn answer_carries_the_hooks_blueprints(
    h: Hook,
    file_path: Seq<char>,
    root: Seq<char>,
    content: Option<Seq<char>>,
    existing: Seq<Seq<char>>,
)
    ensures
        hook_advice(h, file_path, root, content, existing) matches Some((b, t)) ==> b
            == h.blueprints.deep_view() && (t is Some <==> h.text is Some),
{
}

/// The answer for a file is that of one of the hooks from `i` on: the
/// blueprints of that hook, all of them in their order, with text exactly
/// when that hook has text.
pub proof fn first_answer_carries_a_hooks_blueprints(
    hooks: Seq<Hook>,
    i: int,
    file_path: Seq<char>,
    root: Seq<char>,
    content: Option<Seq<char>>,
    existing: Seq<Seq<char>>,
)
    ensures
        first_advice(hooks, i, file_path, root, content, existing) matches Some((b, t)) ==> exists|k: int|
            0 <= i <= k < hooks.len() && b == (#[trigger] hooks[k]).blueprints.deep_view() && (t is Some
                <==> hooks[k].text is Some),
    decreases hooks.len() - i,
{
    if 0 <= i < hooks.len() {
        answer_carries_the_hooks_blueprints(hooks[i], file_path, root, content, existing);
        if hook_advice(hooks[i], file_path, root, content, existing) is None {
            first_answer_carries_a_hooks_blueprints(hooks, i + 1, file_path, root, content, existing);
        }
    }
}

/// The condition paths of one hook whose path pattern matches the file.
pub open spec fn hook_targets(h: Hook, file_path: Seq<char>, root: Seq<char>) -> Seq<Seq<char>> {
    match path_groups(h, file_path) {
        None => seq![],
        Some(g) => (match h.when_file_missing {
            Some(t) => seq![condition_target(root, opt_view(h.base), subst(t@, g))],
            None => seq![],
        }) + (match h.when_file_exists {
            Some(t) => seq![condition_target(root, opt_view(h.base), subst(t@, g))],
            None => seq![],
        }),
    }
}

/// The condition paths of the first `n` hooks.
pub open spec fn targets_of(hooks: Seq<Hook>, n: int, file_path: Seq<char>, root: Seq<char>) -> Seq<
    Seq<char>,
>
    decreases n,
{
    if n <= 0 {
        seq![]
    } else {
        targets_of(hooks, n - 1, file_path, root) + hook_targets(hooks[n - 1], file_path, root)
    }
}

fn path_captures(h: &Hook, file_path: &str) -> (r: Option<Captures>)
    ensures
        match r {
            Some(c) => path_groups(*h, file_path@) == Some(c.groups.deep_view()),
            None => path_groups(*h, file_path@) is None,
        },
{
    let rel: String = match &h.base {
        Some(b) => match strip_path_prefix(file_path, b) {
            Some(r) => r,
            None => return None,
        },
        None => file_path.to_string(),
    };
    let outcome = match &h.pattern {
        Some(re) => regex_captures_of(re, &rel),
        None => {
            let empty = String::new();
            match CompiledRegex::compile(empty.as_str()) {
                Ok(re) => regex_captures_of(&re, &rel),
                Err(_) => return None,
            }
        },
    };
    match outcome {
        Ok(Some(groups)) => Some(Captures { groups }),
        _ => None,
    }
}

fn target_path(root: &str, base: &Option<String>, resolved: &String) -> (t: String)
    ensures
        t@ == condition_target(root@, opt_view(*base), resolved@),
{
    match base {
        Some(b) => {
            let under = path_join(root, b);
            path_join(&under, resolved)
        },
        None => path_join(root, resolved),
    }
}

fn advice_of(
    h: &Hook,
    file_path: &str,
    project_root: &str,
    content: &Option<String>,
    existing: &Vec<String>,
) -> (r: Option<HookAdvice>)
    ensures
        advice_view(r) == hook_advice(
            *h,
            file_path@,
            project_root@,
            opt_view(*content),
            existing.deep_view(),
        ),
{
    let caps = match path_captures(h, file_path) {
        Some(c) => c,
        None => return None,
    };
    match &h.content_pattern {
        Some(re) => match content {
            Some(t) => match regex_is_match_of(re, t) {
                Ok(true) => {},
                _ => return None,
            },
            None => return None,
        },
        None => {},
    }
    match &h.when_file_missing {
        Some(tmpl) => {
            let resolved = substitute(tmpl, &caps);
            let target = target_path(project_root, &h.base, &resolved);
            if contains_string(existing, &target) {
                return None;
            }
        },
        None => {},
    }
    match &h.when_file_exists {
        Some(tmpl) => {
            let resolved = substitute(tmpl, &caps);
            let target = target_path(project_root, &h.base, &resolved);
            if !contains_string(existing, &target) {
                return None;
            }
        },
        None => {},
    }
    let blueprints = clone_strings(&h.blueprints);
    let text = match &h.text {
        Some(t) => Some(substitute(t, &caps)),
        None => None,
    };
    Some(HookAdvice { blueprints, text })
}

fn bucket_of(set: &HookSet, event: Event) -> (hooks: &Vec<Hook>)
    ensures
        hooks@ == bucket(*set, event),
{
    match event {
        Event::PreWrite => &set.pre_write,
        Event::PostWrite => &set.post_write,
    }
}

impl HookSet {
    /// The answer of the first hook of the event that matches `file_path`
    /// (relative to `project_root`, forward slashes). `content` is the
    /// file's text, `None` when it is missing, too large or unreadable;
    /// `existing` lists which of the paths given by `condition_paths` exist.
    pub fn advise(
        &self,
        event: Event,
        file_path: &str,
        project_root: &str,
        content: &Option<String>,
        existing: &Vec<String>,
    ) -> (r: Option<HookAdvice>)
        ensures
            advice_view(r) == first_advice(
                bucket(*self, event),
                0,
                file_path@,
                project_root@,
                opt_view(*content),
                existing.deep_view(),
            ),
    {
        let hooks = bucket_of(self, event);
        let ghost c = opt_view(*content);
        let ghost e = existing.deep_view();
        let mut i: usize = 0;
        while i < hooks.len()
            invariant
                i <= hooks.len(),
                hooks@ == bucket(*self, event),
                c == opt_view(*content),
                e == existing.deep_view(),
                first_advice(hooks@, 0, file_path@, project_root@, c, e) == first_advice(
                    hooks@,
                    i as int,
                    file_path@,
                    project_root@,
                    c,
                    e,
                ),
            decreases hooks.len() - i,
        {
            let r = advice_of(&hooks[i], file_path, project_root, content, existing);
            assert(first_advice(hooks@, i as int, file_path@, project_root@, c, e) == match hook_advice(
                hooks@[i as int],
                file_path@,
                project_root@,
                c,
                e,
            ) {
                Some(a) => Some(a),
                None => first_advice(hooks@, i + 1, file_path@, project_root@, c, e),
            });
            if r.is_some() {
                return r;
            }
            i += 1;
        }
        None
    }

    /// The paths named by the `when_file_missing` / `when_file_exists`
    /// conditions of the event's hooks whose path pattern matches
    /// `file_path`: the paths whose existence `advise` asks about.
    pub fn condition_paths(&self, event: Event, file_path: &str, project_root: &str) -> (r: Vec<
        String,
    >)
        ensures
            r.deep_view() == targets_of(
                bucket(*self, event),
                bucket(*self, event).len() as int,
                file_path@,
                project_root@,
            ),
    {
        let hooks = bucket_of(self, event);
        let mut r: Vec<String> = Vec::new();
        let mut i: usize = 0;
        while i < hooks.len()
            invariant
                i <= hooks.len(),
                r.deep_view() == targets_of(hooks@, i as int, file_path@, project_root@),
            decreases hooks.len() - i,
        {
            let h = &hooks[i];
            let ghost before = r.deep_view();
            match path_captures(h, file_path) {
                Some(caps) => {
                    match &h.when_file_missing {
                        Some(tmpl) => {
                            let resolved = substitute(tmpl, &caps);
                            r.push(target_path(project_root, &h.base, &resolved));
                        },
                        None => {},
                    }
                    match &h.when_file_exists {
                        Some(tmpl) => {
                            let resolved = substitute(tmpl, &caps);
                            r.push(target_path(project_root, &h.base, &resolved));
                        },
                        None => {},
                    }
                },
                None => {},
            }
            assert(r.deep_view() =~= before + hook_targets(*h, file_path@, project_root@));
            i += 1;
        }
        r
    }
}

/// The path of a file as hooks see it: an absolute path under
/// `project_root` taken relative to it (other paths kept), with `\`
/// turned into `/`.
pub open spec fn normalized_for_match(file_path: Seq<char>, project_root: Seq<char>) -> Seq<char> {
    unbackslash(
        if is_absolute(file_path) {
            match strip_prefix(file_path, project_root) {
                Some(r) => r,
                None => file_path,
            }
        } else {
            file_path
        },
    )
}

/// Normalizes a file path into a project-relative forward-slash string.
/// A relative path is returned as is (with slashes normalized).
pub fn normalize_for_match(file_path: &str, project_root: &str) -> (s: String)
    ensures
        s@ == normalized_for_match(file_path@, project_root@),
{
    let p = chars_of(file_path);
    let rel: Vec<char> = if p.len() > 0 && p[0] == '/' {
        let root = chars_of(project_root);
        match strip_prefix_chars(&p, &root) {
            Some(r) => r,
            None => p,
        }
    } else {
        p
    };
    string_of(&unbackslash_chars(&rel))
}

// ---------- laws ----------

proof fn lemma_first_advice_reaches(
    hooks: Seq<Hook>,
    i: int,
    k: int,
    file_path: Seq<char>,
    root: Seq<char>,
    content: Option<Seq<char>>,
    existing: Seq<Seq<char>>,
)
    requires
        0 <= i <= k < hooks.len(),
        hook_advice(hooks[k], file_path, root, content, existing) is Some,
        forall|j: int|
            0 <= j < k ==> (#[trigger] hook_advice(hooks[j], file_path, root, content, existing))
                is None,
    ensures
        first_advice(hooks, i, file_path, root, content, existing) == hook_advice(
            hooks[k],
            file_path,
            root,
            content,
            existing,
        ),
    decreases k - i,
{
    if i < k {
        lemma_first_advice_reaches(hooks, i + 1, k, file_path, root, content, existing);
        assert(hook_advice(hooks[i], file_path, root, content, existing) is None);
    }
}

/// The first hook of an event that answers for a file is the one whose
/// answer `advise` gives: earlier hooks that do not answer are passed over,
/// later ones are not looked at.
pub proof fn first_matching_hook_wins(
    hooks: Seq<Hook>,
    k: int,
    file_path: Seq<char>,
    root: Seq<char>,
    content: Option<Seq<char>>,
    existing: Seq<Seq<char>>,
)
    requires
        0 <= k < hooks.len(),
        hook_advice(hooks[k], file_path, root, content, existing) is Some,
        forall|j: int|
            0 <= j < k ==> (#[trigger] hook_advice(hooks[j], file_path, root, content, existing))
                is None,
    ensures
        first_advice(hooks, 0, file_path, root, content, existing) == hook_advice(
            hooks[k],
            file_path,
            root,
            content,
            existing,
        ),
{
    lemma_first_advice_reaches(hooks, 0, k, file_path, root, content, existing);
}

proof fn lemma_targets_grow(hooks: Seq<Hook>, i: int, n: int, file_path: Seq<char>, root: Seq<char>)
    requires
        0 <= i < n <= hooks.len(),
    ensures
        forall|t: Seq<char>|
            hook_targets(hooks[i], file_path, root).contains(t) ==> targets_of(
                hooks,
                n,
                file_path,
                root,
            ).contains(t),
    decreases n,
{
    let prev = targets_of(hooks, n - 1, file_path, root);
    let last = hook_targets(hooks[n - 1], file_path, root);
    assert(targets_of(hooks, n, file_path, root) == prev + last);
    if i < n - 1 {
        lemma_targets_grow(hooks, i, n - 1, file_path, root);
        assert forall|t: Seq<char>|
            hook_targets(hooks[i], file_path, root).contains(t) implies (prev + last).contains(t) by {
            assert(prev.contains(t));
            let w = choose|w: int| 0 <= w < prev.len() && prev[w] == t;
            assert((prev + last)[w] == t);
        }
    } else {
        assert forall|t: Seq<char>|
            hook_targets(hooks[i], file_path, root).contains(t) implies (prev + last).contains(t) by {
            let w = choose|w: int| 0 <= w < last.len() && last[w] == t;
            assert((prev + last)[prev.len() + w] == t);
        }
    }
}

proof fn lemma_hook_advice_same(
    h: Hook,
    file_path: Seq<char>,
    root: Seq<char>,
    content: Option<Seq<char>>,
    e1: Seq<Seq<char>>,
    e2: Seq<Seq<char>>,
)
    requires
        forall|t: Seq<char>|
            hook_targets(h, file_path, root).contains(t) ==> (e1.contains(t) <==> e2.contains(t)),
    ensures
        hook_advice(h, file_path, root, content, e1) == hook_advice(h, file_path, root, content, e2),
{
    match path_groups(h, file_path) {
        None => {},
        Some(g) => {
            let ts = hook_targets(h, file_path, root);
            match h.when_file_missing {
                Some(t) => {
                    let x = condition_target(root, opt_view(h.base), subst(t@, g));
                    assert(ts[0] == x);
                },
                None => {},
            }
            match h.when_file_exists {
                Some(t) => {
                    let x = condition_target(root, opt_view(h.base), subst(t@, g));
                    assert(ts[ts.len() - 1] == x);
                },
                None => {},
            }
        },
    }
}

proof fn lemma_first_advice_same(
    hooks: Seq<Hook>,
    i: int,
    file_path: Seq<char>,
    root: Seq<char>,
    content: Option<Seq<char>>,
    e1: Seq<Seq<char>>,
    e2: Seq<Seq<char>>,
)
    requires
        0 <= i,
        forall|t: Seq<char>|
            targets_of(hooks, hooks.len() as int, file_path, root).contains(t) ==> (e1.contains(t)
                <==> e2.contains(t)),
    ensures
        first_advice(hooks, i, file_path, root, content, e1) == first_advice(
            hooks,
            i,
            file_path,
            root,
            content,
            e2,
        ),
    decreases hooks.len() - i,
{
    if i < hooks.len() {
        lemma_targets_grow(hooks, i, hooks.len() as int, file_path, root);
        lemma_hook_advice_same(hooks[i], file_path, root, content, e1, e2);
        lemma_first_advice_same(hooks, i + 1, file_path, root, content, e1, e2);
    }
}

/// What `advise` answers depends on which paths exist only through the
/// paths that `condition_paths` lists: two sets of existing paths that agree
/// on those give the same answer.
pub proof fn advice_depends_only_on_condition_paths(
    hooks: Seq<Hook>,
    file_path: Seq<char>,
    root: Seq<char>,
    content: Option<Seq<char>>,
    e1: Seq<Seq<char>>,
    e2: Seq<Seq<char>>,
)
    requires
        forall|t: Seq<char>|
            targets_of(hooks, hooks.len() as int, file_path, root).contains(t) ==> (e1.contains(t)
                <==> e2.contains(t)),
    ensures
        first_advice(hooks, 0, file_path, root, content, e1) == first_advice(
            hooks,
            0,
            file_path,
            root,
            content,
            e2,
        ),
{
    lemma_first_advice_same(hooks, 0, file_path, root, content, e1, e2);
}

/// A hook scoped to a base never answers, and asks about no path, for a
/// file outside that base.
pub proof fn hook_ignores_files_outside_its_base(
    h: Hook,
    file_path: Seq<char>,
    root: Seq<char>,
    content: Option<Seq<char>>,
    existing: Seq<Seq<char>>,
)
    requires
        h.base matches Some(b) && strip_prefix(file_path, b@) is None,
    ensures
        hook_advice(h, file_path, root, content, existing) is None,
        hook_targets(h, file_path, root).len() == 0,
{
}

proof fn lemma_entries_build(files: Seq<(Origin, RawHooksFile)>, event: Event)
    requires
        all_build(build_order(files)),
    ensures
        forall|j: int|
            0 <= j < event_entries(files, event).len() ==> builds(
                #[trigger] event_entries(files, event)[j].0,
                event,
            ),
    decreases files.len(),
{
    if files.len() > 0 {
        let (o, f) = files.last();
        let prev = files.drop_last();
        let pre = Seq::new(f.pre_write@.len(), |j: int| (f.pre_write@[j], Event::PreWrite, o));
        let post = Seq::new(f.post_write@.len(), |j: int| (f.post_write@[j], Event::PostWrite, o));
        assert(build_order(files) == build_order(prev) + pre + post);
        lemma_all_build_concat(build_order(prev) + pre, post);
        lemma_all_build_concat(build_order(prev), pre);
        lemma_entries_build(prev, event);
        let a = event_entries(prev, event);
        let b = file_entries(f, o, event);
        assert(event_entries(files, event) == a + b);
        assert forall|j: int| 0 <= j < (a + b).len() implies builds(#[trigger] (a + b)[j].0, event) by {
            if j < a.len() {
                assert((a + b)[j] == a[j]);
            } else {
                assert((a + b)[j] == b[j - a.len()]);
                match event {
                    Event::PreWrite => assert(pre[j - a.len()].0 == b[j - a.len()].0),
                    Event::PostWrite => assert(post[j - a.len()].0 == b[j - a.len()].0),
                }
            }
        }
    }
}

/// The entries of an event come file by file: those of the earlier files,
/// then those of the later ones, each file's in its own order and tagged
/// with its origin.
pub proof fn entries_come_file_by_file(
    a: Seq<(Origin, RawHooksFile)>,
    b: Seq<(Origin, RawHooksFile)>,
    event: Event,
)
    ensures
        event_entries(a + b, event) == event_entries(a, event) + event_entries(b, event),
    decreases b.len(),
{
    if b.len() == 0 {
        assert(a + b =~= a);
        assert(event_entries(a, event) + Seq::<(RawHook, Origin)>::empty() =~= event_entries(
            a,
            event,
        ));
    } else {
        entries_come_file_by_file(a, b.drop_last(), event);
        assert((a + b).drop_last() =~= a + b.drop_last());
        assert((a + b).last() == b.last());
        assert(event_entries(a, event) + event_entries(b.drop_last(), event) + file_entries(
            b.last().1,
            b.last().0,
            event,
        ) =~= event_entries(a, event) + (event_entries(b.drop_last(), event) + file_entries(
            b.last().1,
            b.last().0,
            event,
        )));
    }
}

/// Every loaded hook obeys the rules of its event: each has a path or a
/// content pattern, none combines a content pattern with
/// `when_file_missing`; pre-write hooks carry no text, post-write hooks
/// carry text and no blueprints.
pub proof fn loaded_hooks_fit_their_event(set: HookSet, files: Seq<(Origin, RawHooksFile)>, cfg: MemexConfig)
    requires
        loaded(set, files, cfg),
        all_build(build_order(files)),
    ensures
        forall|j: int|
            0 <= j < set.pre_write@.len() ==> {
                let h = #[trigger] set.pre_write@[j];
                &&& h.pattern is Some || h.content_pattern is Some
                &&& !(h.content_pattern is Some && h.when_file_missing is Some)
                &&& h.text is None
            },
        forall|j: int|
            0 <= j < set.post_write@.len() ==> {
                let h = #[trigger] set.post_write@[j];
                &&& h.pattern is Some || h.content_pattern is Some
                &&& !(h.content_pattern is Some && h.when_file_missing is Some)
                &&& h.text is Some
                &&& h.blueprints@.len() == 0
            },
{
    lemma_entries_build(files, Event::PreWrite);
    lemma_entries_build(files, Event::PostWrite);
    assert forall|j: int| 0 <= j < set.pre_write@.len() implies {
        let h = #[trigger] set.pre_write@[j];
        &&& h.pattern is Some || h.content_pattern is Some
        &&& !(h.content_pattern is Some && h.when_file_missing is Some)
        &&& h.text is None
    } by {
        let e = event_entries(files, Event::PreWrite)[j];
        assert(builds(e.0, Event::PreWrite));
        assert(built_from(set.pre_write@[j], e.0, origin_name(cfg, e.1), origin_base(cfg, e.1)));
    }
    assert forall|j: int| 0 <= j < set.post_write@.len() implies {
        let h = #[trigger] set.post_write@[j];
        &&& h.pattern is Some || h.content_pattern is Some
        &&& !(h.content_pattern is Some && h.when_file_missing is Some)
        &&& h.text is Some
        &&& h.blueprints@.len() == 0
    } by {
        let e = event_entries(files, Event::PostWrite)[j];
        assert(builds(e.0, Event::PostWrite));
        let h = set.post_write@[j];
        assert(built_from(h, e.0, origin_name(cfg, e.1), origin_base(cfg, e.1)));
        assert(h.blueprints.deep_view().len() == h.blueprints@.len());
    }
}

/// A template without `$` comes out of substitution unchanged.
pub proof fn substitution_keeps_text_without_placeholders(
    t: Seq<char>,
    groups: Seq<Option<Seq<char>>>,
)
    requires
        !t.contains('$'),
    ensures
        subst(t, groups) == t,
    decreases t.len(),
{
    if t.len() > 0 {
        assert(t[0] != '$');
        assert(!t.drop_first().contains('$')) by {
            if t.drop_first().contains('$') {
                let w = choose|w: int| 0 <= w < t.drop_first().len() && t.drop_first()[w] == '$';
                assert(t[w + 1] == '$');
            }
        }
        substitution_keeps_text_without_placeholders(t.drop_first(), groups);
        assert(seq![t[0]] + t.drop_first() =~= t);
    }
}

proof fn lemma_subst_plain_prefix(a: Seq<char>, x: Seq<char>, groups: Seq<Option<Seq<char>>>)
    requires
        !a.contains('$'),
    ensures
        subst(a + x, groups) == a + subst(x, groups),
    decreases a.len(),
{
    if a.len() == 0 {
        assert(a + x =~= x);
    } else {
        assert(a[0] != '$') by {
            if a[0] == '$' {
                assert(a.contains('$'));
            }
        }
        assert(!a.drop_first().contains('$')) by {
            if a.drop_first().contains('$') {
                let w = choose|w: int| 0 <= w < a.drop_first().len() && a.drop_first()[w] == '$';
                assert(a[w + 1] == '$');
            }
        }
        lemma_subst_plain_prefix(a.drop_first(), x, groups);
        assert((a + x).drop_first() =~= a.drop_first() + x);
        assert((a + x)[0] == a[0]);
        assert(seq![a[0]] + (a.drop_first() + subst(x, groups)) =~= a + subst(x, groups));
    }
}

proof fn lemma_decimal_digits(n: nat)
    ensures
        decimal(n).len() > 0,
        all_digits(decimal(n)),
        digits_value(decimal(n)) == n,
    decreases n,
{
    if n >= 10 {
        lemma_decimal_digits(n / 10);
        let d = decimal(n / 10);
        let c = crate::text::digit_char(n % 10);
        assert(decimal(n) == d + seq![c]);
        assert((d + seq![c]).drop_last() =~= d);
        assert(n == (n / 10) * 10 + n % 10) by (nonlinear_arith);
        assert(((c as u32) - 48) as nat == n % 10);
        assert((d + seq![c]).last() == c);
        assert(digits_value(d + seq![c]) == digits_value(d) * 10 + ((c as u32) - 48) as nat);
        assert forall|k: int| 0 <= k < (d + seq![c]).len() implies '0' <= #[trigger] (d + seq![
            c,
        ])[k] && (d + seq![c])[k] <= '9' by {
            if k < d.len() {
                assert((d + seq![c])[k] == d[k]);
            }
        }
    } else {
        let c = crate::text::digit_char(n);
        assert(decimal(n) == seq![c]);
        assert(seq![c].drop_last() =~= Seq::<char>::empty());
        assert(((c as u32) - 48) as nat == n);
        assert(digits_value(Seq::<char>::empty()) == 0);
        assert(seq![c].last() == c);
        assert(digits_value(seq![c]) == digits_value(Seq::<char>::empty()) * 10 + ((c as u32) - 48) as nat);
    }
}

/// Each `${N}` placeholder, N a `usize` written in decimal, stands for the
/// text of group N (empty when there is no such group or it took no part);
/// text before it without `$` is kept as it is.
pub proof fn placeholder_takes_group_text(
    a: Seq<char>,
    n: nat,
    b: Seq<char>,
    groups: Seq<Option<Seq<char>>>,
)
    requires
        !a.contains('$'),
        n <= usize::MAX,
    ensures
        subst(a + seq!['$', '{'] + decimal(n) + seq!['}'] + b, groups) == a + group_text(groups, n)
            + subst(b, groups),
{
    let d = decimal(n);
    let x = seq!['$', '{'] + d + seq!['}'] + b;
    assert(a + seq!['$', '{'] + d + seq!['}'] + b =~= a + x);
    lemma_subst_plain_prefix(a, x, groups);
    lemma_decimal_digits(n);
    let c: int = d.len() as int + 2;
    assert forall|j: int| 2 <= j < c implies x[j] != '}' by {
        assert(x[j] == d[j - 2]);
        assert('0' <= d[j - 2] && d[j - 2] <= '9');
    }
    assert(x[c] == '}');
    assert forall|j: int| 2 <= j <= c implies close_brace(x, j) == c by {
        lemma_close_brace_run(x, j, c);
    }
    assert(x.subrange(2, c) =~= d);
    assert(d[0] != '+') by {
        assert('0' <= d[0] && d[0] <= '9');
    }
    assert(parse_index(d) == Some(n));
    assert(x.skip(c + 1) =~= b);
    assert(a + (group_text(groups, n) + subst(b, groups)) =~= a + group_text(groups, n) + subst(
        b,
        groups,
    ));
}

proof fn lemma_close_brace_run(s: Seq<char>, j: int, c: int)
    requires
        0 <= j <= c < s.len(),
        s[c] == '}',
        forall|i: int| j <= i < c ==> s[i] != '}',
    ensures
        close_brace(s, j) == c,
    decreases c - j,
{
    if j < c {
        lemma_close_brace_run(s, j + 1, c);
    }
}

/// A `$` that does not open a `{` placeholder is kept, and so is the text
/// without `$` before it.
pub proof fn lone_dollar_is_kept(a: Seq<char>, b: Seq<char>, groups: Seq<Option<Seq<char>>>)
    requires
        !a.contains('$'),
        !(b.len() > 0 && b[0] == '{'),
    ensures
        subst(a + seq!['$'] + b, groups) == a + seq!['$'] + subst(b, groups),
{
    let x = seq!['$'] + b;
    assert(a + seq!['$'] + b =~= a + x);
    lemma_subst_plain_prefix(a, x, groups);
    assert(x.drop_first() =~= b);
    assert(a + (seq!['$'] + subst(b, groups)) =~= a + seq!['$'] + subst(b, groups));
}

/// `x`, which starts with `$`, opens a `${N}` placeholder whose N parses as
/// a `usize`; the result is N and the index of the closing `}`.
pub open spec fn placeholder_at(x: Seq<char>) -> Option<(nat, int)> {
    if x.len() >= 2 && x[1] == '{' && close_brace(x, 2) >= 0 && parse_index(
        x.subrange(2, close_brace(x, 2)),
    ) is Some {
        Some((parse_index(x.subrange(2, close_brace(x, 2)))->0, close_brace(x, 2)))
    } else {
        None
    }
}

/// Substitution keeps a template up to its first `$`. There, a `${N}`
/// placeholder (N parsing as a `usize`) gives the text of group N, empty
/// when that group is absent or took no part, and substitution goes on
/// after its `}`; any other `$` is kept and substitution goes on after it.
/// A template without `$` comes out unchanged.
pub proof fn substitution_reads_placeholders(t: Seq<char>, groups: Seq<Option<Seq<char>>>)
    ensures
        !t.contains('$') ==> subst(t, groups) == t,
        forall|k: int|
            0 <= k < t.len() && #[trigger] t[k] == '$' && (forall|j: int| 0 <= j < k ==> t[j] != '$')
                ==> subst(t, groups) == t.take(k) + match placeholder_at(t.skip(k)) {
                Some((n, c)) => group_text(groups, n) + subst(t.skip(k).skip(c + 1), groups),
                None => seq!['$'] + subst(t.skip(k).drop_first(), groups),
            },
{
    if !t.contains('$') {
        substitution_keeps_text_without_placeholders(t, groups);
    }
    assert forall|k: int|
        0 <= k < t.len() && #[trigger] t[k] == '$' && (forall|j: int| 0 <= j < k ==> t[j] != '$')
            implies subst(t, groups) == t.take(k) + match placeholder_at(t.skip(k)) {
            Some((n, c)) => group_text(groups, n) + subst(t.skip(k).skip(c + 1), groups),
            None => seq!['$'] + subst(t.skip(k).drop_first(), groups),
        } by {
        let a = t.take(k);
        let x = t.skip(k);
        assert(!a.contains('$')) by {
            if a.contains('$') {
                let w = choose|w: int| 0 <= w < a.len() && a[w] == '$';
                assert(t[w] == '$');
            }
        }
        assert(t =~= a + x);
        lemma_subst_plain_prefix(a, x, groups);
        assert(x[0] == '$');
        if placeholder_at(x) is Some {
            lemma_close_brace(x, 2);
        }
    }
}

proof fn lemma_same_build_same_advice(
    h1: Hook,
    h2: Hook,
    raw: RawHook,
    source: Option<Seq<char>>,
    base: Option<Seq<char>>,
    file_path: Seq<char>,
    root: Seq<char>,
    content: Option<Seq<char>>,
    existing: Seq<Seq<char>>,
)
    requires
        built_from(h1, raw, source, base),
        built_from(h2, raw, source, base),
    ensures
        hook_advice(h1, file_path, root, content, existing) == hook_advice(
            h2,
            file_path,
            root,
            content,
            existing,
        ),
{
    assert(match_path(h1, file_path) == match_path(h2, file_path));
    assert(path_pattern(h1) == path_pattern(h2));
    assert(path_groups(h1, file_path) == path_groups(h2, file_path));
    assert(content_ok(h1, content) == content_ok(h2, content));
    match path_groups(h1, file_path) {
        Some(g) => {
            assert(conditions_ok(h1, g, root, existing) == conditions_ok(h2, g, root, existing));
        },
        None => {},
    }
}

proof fn lemma_same_build_first_advice(
    a: Seq<Hook>,
    b: Seq<Hook>,
    entries: Seq<(RawHook, Origin)>,
    cfg: MemexConfig,
    i: int,
    file_path: Seq<char>,
    root: Seq<char>,
    content: Option<Seq<char>>,
    existing: Seq<Seq<char>>,
)
    requires
        built_all(a, entries, cfg),
        built_all(b, entries, cfg),
        0 <= i,
    ensures
        first_advice(a, i, file_path, root, content, existing) == first_advice(
            b,
            i,
            file_path,
            root,
            content,
            existing,
        ),
    decreases a.len() - i,
{
    if i < a.len() {
        lemma_same_build_same_advice(
            a[i],
            b[i],
            entries[i].0,
            origin_name(cfg, entries[i].1),
            origin_base(cfg, entries[i].1),
            file_path,
            root,
            content,
            existing,
        );
        lemma_same_build_first_advice(a, b, entries, cfg, i + 1, file_path, root, content, existing);
    }
}

/// Two hook sets loaded from the same files give the same answer for every
/// file: what a loaded set answers depends on the files alone.
pub proof fn loaded_sets_answer_alike(
    s1: HookSet,
    s2: HookSet,
    files: Seq<(Origin, RawHooksFile)>,
    cfg: MemexConfig,
    event: Event,
    file_path: Seq<char>,
    root: Seq<char>,
    content: Option<Seq<char>>,
    existing: Seq<Seq<char>>,
)
    requires
        loaded(s1, files, cfg),
        loaded(s2, files, cfg),
    ensures
        first_advice(bucket(s1, event), 0, file_path, root, content, existing) == first_advice(
            bucket(s2, event),
            0,
            file_path,
            root,
            content,
            existing,
        ),
{
    lemma_same_build_first_advice(
        bucket(s1, event),
        bucket(s2, event),
        event_entries(files, event),
        cfg,
        0,
        file_path,
        root,
        content,
        existing,
    );
}

} // verus!
