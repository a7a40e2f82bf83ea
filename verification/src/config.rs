//! Project configuration: sources, slug derivation and resolution, and the
//! checks made when `memex.toml` is loaded.
use vstd::prelude::*;
use crate::paths::{
    components, is_absolute, join, join_chars, lemma_strip_join, parent, parent_chars, render,
    starts_with_cur, strip_prefix, strip_prefix_chars,
};
use crate::text::{
    chars_eq, chars_of, ends_with, lemma_line_len_bounds, lemma_line_len_concat,
    lemma_line_len_no_newline, lemma_trim_drop_ws, line_len, occurs_at, push_all, push_range,
    push_str, skip_ws, skip_ws_back, slice_of, starts_with, string_of, trim,
};

verus! {

/// One configured source of blueprints.
#[derive(Clone, Debug)]
pub struct Source {
    pub name: String,
    /// Path where this source lives in the filesystem.
    pub mount: String,
    /// Slug prefix. Default is the source name; may be empty (at most one source).
    pub prefix: String,
    pub remote: Option<String>,
    pub include_patterns: Vec<String>,
    pub exclude: Vec<String>,
    /// Writes to a read-only source are refused.
    pub readonly: bool,
    /// Files with this name stand for their parent directory in slugs.
    pub index_filename: Option<String>,
    /// Directory, relative to the project root, that this source's hooks are scoped to.
    pub hook_base: Option<String>,
}

/// A loaded `memex.toml`.
#[derive(Clone, Debug)]
pub struct MemexConfig {
    pub project_name: String,
    /// Directory that contains `memex.toml`.
    pub config_dir: String,
    /// Resolved project root (= config_dir / root).
    pub project_root: String,
    pub config_path: String,
    pub sources: Vec<Source>,
    /// Globs, relative to the project root, of extra files scanned for references.
    pub also_scan: Vec<String>,
}

/// A slug turned into its source and file.
#[derive(Debug)]
pub struct ResolvedBlueprint<'a> {
    pub source: &'a Source,
    pub file_path: String,
    /// Where the blueprint lives when it is an index file of its source.
    pub index_file_path: Option<String>,
}

/// One `[<source>]` table of `memex.toml`, as parsed.
#[derive(Clone, Debug)]
pub struct RawSource {
    pub mount: Option<String>,
    pub prefix: Option<String>,
    pub remote: Option<String>,
    pub include_patterns: Option<Vec<String>>,
    pub exclude: Option<Vec<String>>,
    pub readonly: Option<bool>,
    pub index_filename: Option<String>,
    pub hook_base: Option<String>,
}

/// `memex.toml` as parsed: the source tables in the order the file lists
/// them; sources keep this order.
#[derive(Clone, Debug)]
pub struct RawConfig {
    pub project_name: String,
    pub root: String,
    pub sources: Vec<(String, RawSource)>,
    pub also_scan: Vec<String>,
}

/// One enumerated blueprint file: the index of its source and its path.
#[derive(Clone, Debug)]
pub struct BlueprintFile {
    pub source: usize,
    pub path: String,
}

/// `globset::GlobSet`, declared to Verus as an opaque type.
#[verifier::external_type_specification]
#[verifier::external_body]
pub struct ExGlobSet(globset::GlobSet);

/// `globset::Error`, declared to Verus as an opaque type.
#[verifier::external_type_specification]
#[verifier::external_body]
pub struct ExGlobError(globset::Error);

/// The patterns a glob set was built from.
pub uninterp spec fn globset_patterns(set: globset::GlobSet) -> Seq<Seq<char>>;

/// Whether the glob `pattern` (globset's default options) matches `path`.
pub uninterp spec fn glob_matches(pattern: Seq<char>, path: Seq<char>) -> bool;

/// Whether globset builds a set from `patterns` (each a valid glob, and the
/// set compiles).
pub uninterp spec fn globset_builds(patterns: Seq<Seq<char>>) -> bool;

/// Builds a `globset::GlobSet` from the patterns, each through `Glob::new`,
/// with `GlobSetBuilder`. Claimed: it succeeds exactly when `globset_builds`
/// holds of the patterns, and the set then holds those patterns.
#[verifier::external_body]
fn build_globset(patterns: &Vec<String>) -> (r: Result<globset::GlobSet, globset::Error>)
    ensures
        r is Ok <==> globset_builds(patterns.deep_view()),
        r matches Ok(set) ==> globset_patterns(set) == patterns.deep_view(),
{
    let mut b = globset::GlobSetBuilder::new();
    for p in patterns {
        b.add(globset::Glob::new(p)?);
    }
    b.build()
}

/// Some pattern of `patterns` matches `path`.
pub open spec fn any_glob_matches(patterns: Seq<Seq<char>>, path: Seq<char>) -> bool {
    exists|i: int| 0 <= i < patterns.len() && glob_matches(#[trigger] patterns[i], path)
}

/// Calls `GlobSet::is_match`, which its documentation describes as "true if
/// any glob in this set matches the path given". Claimed: exactly that.
#[verifier::external_body]
fn globset_is_match(set: &globset::GlobSet, path: &str) -> (matched: bool)
    ensures
        matched == (exists|i: int|
            0 <= i < globset_patterns(*set).len() && glob_matches(
                #[trigger] globset_patterns(*set)[i],
                path@,
            )),
{
    set.is_match(path)
}

/// Calls `dirs::home_dir`. The value depends on the environment: nothing is
/// claimed of it.
#[verifier::external_body]
fn home_dir() -> Option<String> {
    dirs::home_dir().map(|p| p.to_string_lossy().into_owned())
}

/// Calls `dirs::cache_dir`. The value depends on the environment: nothing
/// is claimed of it.
#[verifier::external_body]
fn cache_dir() -> Option<String> {
    dirs::cache_dir().map(|p| p.to_string_lossy().into_owned())
}

/// Why a configuration step failed.
#[derive(Debug)]
pub enum ConfigError {
    NotFound { dir: String },
    EmptyProjectName,
    NoParent,
    MultipleEmptyPrefixes { count: usize },
    NoSourceForSlug { id: String, configured: String },
    SlugCollision { id: String, first: String, second: String },
    InvalidGlob { patterns: Vec<String> },
}

// ---------- slugs ----------

pub open spec fn md_ext() -> Seq<char> {
    seq!['.', 'm', 'd']
}

/// `s` with every `\` turned into `/`.
pub open spec fn unbackslash(s: Seq<char>) -> Seq<char> {
    Seq::new(s.len(), |i: int| if s[i] == '\\' { '/' } else { s[i] })
}

/// The index of the last `/` in `s`, or -1.
pub open spec fn last_slash(s: Seq<char>) -> int
    decreases s.len(),
{
    if s.len() == 0 {
        -1
    } else if s.last() == '/' {
        s.len() - 1
    } else {
        last_slash(s.drop_last())
    }
}

pub proof fn lemma_last_slash(s: Seq<char>)
    ensures
        -1 <= last_slash(s) < s.len(),
        last_slash(s) >= 0 ==> s[last_slash(s)] == '/',
        forall|k: int| last_slash(s) < k < s.len() ==> s[k] != '/',
    decreases s.len(),
{
    if s.len() > 0 && s.last() != '/' {
        lemma_last_slash(s.drop_last());
        assert forall|k: int| last_slash(s) < k < s.len() implies s[k] != '/' by {
            if k < s.len() - 1 {
                assert(s.drop_last()[k] == s[k]);
            }
        }
    }
}

/// The path of `file_path` relative to `mount` (the whole path when it is
/// not under `mount`), with `/` as the only separator.
pub open spec fn slug_rel(mount: Seq<char>, file_path: Seq<char>) -> Seq<char> {
    unbackslash(
        match strip_prefix(file_path, mount) {
            Some(r) => r,
            None => file_path,
        },
    )
}

/// `rel` names the source's index file.
pub open spec fn is_index_file(source: Source, rel: Seq<char>) -> bool {
    match source.index_filename {
        Some(idx) => rel.skip(last_slash(rel) + 1) == idx@,
        None => false,
    }
}

/// `rel` without a trailing `.md`.
pub open spec fn strip_md(rel: Seq<char>) -> Seq<char> {
    if ends_with(rel, md_ext()) {
        rel.take(rel.len() - 3)
    } else {
        rel
    }
}

/// The slug of a file: `<prefix>/<path relative to the mount, without .md>`,
/// without `<prefix>/` when the prefix is empty. An index file stands for its
/// directory (for the prefix alone at the mount root).
pub open spec fn slug_of(source: Source, file_path: Seq<char>) -> Seq<char> {
    let rel = slug_rel(source.mount@, file_path);
    let prefix = source.prefix@;
    if is_index_file(source, rel) {
        let dir = if last_slash(rel) >= 0 {
            rel.take(last_slash(rel))
        } else {
            seq![]
        };
        if prefix.len() == 0 {
            dir
        } else if dir.len() == 0 {
            prefix
        } else {
            prefix + seq!['/'] + dir
        }
    } else {
        let stem = strip_md(rel);
        if prefix.len() == 0 {
            stem
        } else {
            prefix + seq!['/'] + stem
        }
    }
}

/// `id` is under the non-empty prefix `p` (starts with `p/`).
pub open spec fn prefix_hits(id: Seq<char>, p: Seq<char>) -> bool {
    p.len() > 0 && starts_with(id, p + seq!['/'])
}

/// Among the first `n` sources, the one whose non-empty prefix `id` is under,
/// with the longest prefix (the first of equally long ones).
pub open spec fn best_match(sources: Seq<Source>, id: Seq<char>, n: int) -> Option<int>
    decreases n,
{
    if n <= 0 {
        None
    } else {
        let b = best_match(sources, id, n - 1);
        let p = sources[n - 1].prefix@;
        if prefix_hits(id, p) && (b is None || p.len() > sources[b->0].prefix@.len()) {
            Some(n - 1)
        } else {
            b
        }
    }
}

pub proof fn lemma_best_match(sources: Seq<Source>, id: Seq<char>, n: int)
    requires
        n <= sources.len(),
    ensures
        best_match(sources, id, n) matches Some(k) ==> 0 <= k < n && prefix_hits(
            id,
            sources[k].prefix@,
        ),
    decreases n,
{
    if n > 0 {
        lemma_best_match(sources, id, n - 1);
    }
}

pub proof fn lemma_fallback_match(sources: Seq<Source>, n: int)
    requires
        n <= sources.len(),
    ensures
        fallback_match(sources, n) matches Some(k) ==> 0 <= k < n && sources[k].prefix@.len()
            == 0,
    decreases n,
{
    if n > 0 {
        lemma_fallback_match(sources, n - 1);
    }
}

/// The last of the first `n` sources with an empty prefix.
pub open spec fn fallback_match(sources: Seq<Source>, n: int) -> Option<int>
    decreases n,
{
    if n <= 0 {
        None
    } else if sources[n - 1].prefix@.len() == 0 {
        Some(n - 1)
    } else {
        fallback_match(sources, n - 1)
    }
}

/// The source that a slug resolves to.
pub open spec fn resolve_source(sources: Seq<Source>, id: Seq<char>) -> Option<int> {
    match best_match(sources, id, sources.len() as int) {
        Some(k) => Some(k),
        None => fallback_match(sources, sources.len() as int),
    }
}

/// The part of `id` after the prefix of the source it resolves to.
pub open spec fn resolve_rest(sources: Seq<Source>, id: Seq<char>) -> Seq<char> {
    match best_match(sources, id, sources.len() as int) {
        Some(k) => id.skip(sources[k].prefix@.len() + 1 as int),
        None => id,
    }
}

/// The file a slug resolves to is `<mount>/<rest>.md`, `rest` being this.
pub open spec fn resolved_file_rel(sources: Seq<Source>, id: Seq<char>) -> Seq<char> {
    resolve_rest(sources, id) + md_ext()
}

/// `rel`, the file a slug resolves to relative to its mount, is in plain
/// form: relative, not starting with `.`, free of `\`, the rendering of its
/// own components, and not the source's index file.
pub open spec fn plain_rel(source: Source, rel: Seq<char>) -> bool {
    &&& !is_absolute(rel)
    &&& !starts_with_cur(rel)
    &&& render(components(rel)) == rel
    &&& !rel.contains('\\')
    &&& !is_index_file(source, rel)
}

/// Resolving a slug and deriving the slug of the file it names gives the
/// slug back, when the file's path below the mount is in plain form.
pub proof fn slug_survives_resolution(sources: Seq<Source>, id: Seq<char>)
    requires
        resolve_source(sources, id) is Some,
        plain_rel(sources[resolve_source(sources, id)->0], resolved_file_rel(sources, id)),
    ensures
        ({
            let src = sources[resolve_source(sources, id)->0];
            slug_of(src, join(src.mount@, resolved_file_rel(sources, id))) == id
        }),
{
    let k = resolve_source(sources, id)->0;
    let src = sources[k];
    let rest = resolve_rest(sources, id);
    let r = resolved_file_rel(sources, id);
    lemma_strip_join(src.mount@, r);
    assert(unbackslash(r) =~= r) by {
        assert forall|i: int| 0 <= i < r.len() implies r[i] != '\\' by {
            if r[i] == '\\' {
                assert(r.contains('\\'));
            }
        }
    }
    assert(slug_rel(src.mount@, join(src.mount@, r)) == r);
    assert(r.skip(r.len() - 3) =~= md_ext());
    assert(r.take(r.len() - 3) =~= rest);
    assert(strip_md(r) == rest);
    lemma_best_match(sources, id, sources.len() as int);
    lemma_fallback_match(sources, sources.len() as int);
    match best_match(sources, id, sources.len() as int) {
        Some(b) => {
            let p = sources[b].prefix@;
            assert(starts_with(id, p + seq!['/']));
            assert(id.take(p.len() + 1int) == p + seq!['/']);
            assert(rest == id.skip(p.len() + 1int));
            assert(p + seq!['/'] + rest =~= id);
        },
        None => {
            assert(rest == id);
        },
    }
}

/// A markdown file below a source's mount, in plain form, comes back from
/// its slug: when resolving the slug picks that same source, the file it
/// names is the file.
pub proof fn file_survives_its_slug(sources: Seq<Source>, k: int, rel: Seq<char>)
    requires
        0 <= k < sources.len(),
        plain_rel(sources[k], rel),
        ends_with(rel, md_ext()),
        resolve_source(sources, slug_of(sources[k], join(sources[k].mount@, rel))) == Some(k),
    ensures
        resolved_file_rel(sources, slug_of(sources[k], join(sources[k].mount@, rel))) == rel,
{
    let src = sources[k];
    let id = slug_of(src, join(src.mount@, rel));
    lemma_strip_join(src.mount@, rel);
    assert(unbackslash(rel) =~= rel) by {
        assert forall|i: int| 0 <= i < rel.len() implies rel[i] != '\\' by {
            if rel[i] == '\\' {
                assert(rel.contains('\\'));
            }
        }
    }
    assert(slug_rel(src.mount@, join(src.mount@, rel)) == rel);
    let stem = strip_md(rel);
    assert(stem == rel.take(rel.len() - 3));
    assert(stem + md_ext() =~= rel);
    lemma_best_match(sources, id, sources.len() as int);
    lemma_fallback_match(sources, sources.len() as int);
    match best_match(sources, id, sources.len() as int) {
        Some(b) => {
            assert(b == k);
            let p = src.prefix@;
            assert(p.len() > 0);
            assert(id == p + seq!['/'] + stem);
            assert(id.skip(p.len() + 1int) =~= stem);
        },
        None => {
            assert(src.prefix@.len() == 0);
            assert(id == stem);
        },
    }
}

/// The slug of a file below a source's mount, named by a path in plain form
/// that is not the source's index file, is the source's prefix, `/` and that
/// path without `.md`; without the prefix and `/` when the prefix is empty.
pub proof fn slug_of_plain_file(src: Source, rel: Seq<char>)
    requires
        plain_rel(src, rel),
    ensures
        slug_of(src, join(src.mount@, rel)) == (if src.prefix@.len() == 0 {
            strip_md(rel)
        } else {
            src.prefix@ + seq!['/'] + strip_md(rel)
        }),
{
    lemma_strip_join(src.mount@, rel);
    assert(unbackslash(rel) =~= rel) by {
        assert forall|i: int| 0 <= i < rel.len() implies rel[i] != '\\' by {
            if rel[i] == '\\' {
                assert(rel.contains('\\'));
            }
        }
    }
    assert(slug_rel(src.mount@, join(src.mount@, rel)) == rel);
}

/// An index file stands for its folder: for a folder `d` below the mount,
/// in plain form and free of `\`, the slug of the source's index file in it
/// is the prefix, `/` and the whole folder path `d` (`d` alone for an empty
/// prefix).
pub proof fn index_file_stands_for_its_folder(src: Source, d: Seq<char>)
    requires
        src.index_filename is Some,
        crate::paths::is_normal_segment(src.index_filename->0@),
        crate::paths::no_slash(src.index_filename->0@),
        !src.index_filename->0@.contains('\\'),
        d.len() > 0,
        !is_absolute(d),
        !starts_with_cur(d),
        render(components(d)) == d,
        !d.contains('\\'),
    ensures
        slug_of(src, join(src.mount@, d + seq!['/'] + src.index_filename->0@)) == (if src.prefix@.len()
            == 0 {
            d
        } else {
            src.prefix@ + seq!['/'] + d
        }),
{
    let idx = src.index_filename->0@;
    let rel = d + seq!['/'] + idx;
    crate::paths::lemma_plain_child(d, idx);
    lemma_strip_join(src.mount@, rel);
    assert(unbackslash(rel) =~= rel) by {
        assert forall|i: int| 0 <= i < rel.len() implies rel[i] != '\\' by {
            if i < d.len() {
                assert(rel[i] == d[i]);
                if d[i] == '\\' {
                    assert(d.contains('\\'));
                }
            } else if i > d.len() {
                assert(rel[i] == idx[i - d.len() - 1]);
                if idx[i - d.len() - 1] == '\\' {
                    assert(idx.contains('\\'));
                }
            }
        }
    }
    assert(slug_rel(src.mount@, join(src.mount@, rel)) == rel);
    lemma_last_slash(rel);
    let l = last_slash(rel);
    assert(rel[d.len() as int] == '/');
    if l > d.len() {
        assert(rel[l] == idx[l - d.len() - 1]);
    }
    assert(l == d.len());
    assert(rel.skip(l + 1) =~= idx);
    assert(is_index_file(src, rel));
    assert(rel.take(l) =~= d);
}

/// The index file of a folder comes back from the folder's slug: when its
/// source claims the slug alone, resolving the slug picks that source, and
/// the index file path of the resolution is the file.
pub proof fn index_file_comes_back_from_its_folder_slug(sources: Seq<Source>, k: int, d: Seq<char>)
    requires
        0 <= k < sources.len(),
        sources[k].index_filename is Some,
        crate::paths::is_normal_segment(sources[k].index_filename->0@),
        crate::paths::no_slash(sources[k].index_filename->0@),
        !sources[k].index_filename->0@.contains('\\'),
        d.len() > 0,
        !is_absolute(d),
        !starts_with_cur(d),
        render(components(d)) == d,
        !d.contains('\\'),
        claims_alone(
            sources,
            k,
            slug_of(sources[k], join(sources[k].mount@, d + seq!['/'] + sources[k].index_filename->0@)),
        ),
    ensures
        ({
            let src = sources[k];
            let idx = src.index_filename->0@;
            let id = slug_of(src, join(src.mount@, d + seq!['/'] + idx));
            &&& resolve_source(sources, id) == Some(k)
            &&& join(join(src.mount@, resolve_rest(sources, id)), idx) == join(
                src.mount@,
                d + seq!['/'] + idx,
            )
        }),
{
    let src = sources[k];
    let idx = src.index_filename->0@;
    let id = slug_of(src, join(src.mount@, d + seq!['/'] + idx));
    index_file_stands_for_its_folder(src, d);
    slug_resolves_to_the_source_that_claims_it(sources, k, id);
    lemma_best_match(sources, id, sources.len() as int);
    lemma_fallback_match(sources, sources.len() as int);
    match best_match(sources, id, sources.len() as int) {
        Some(b) => {
            assert(b == k);
            let p = src.prefix@;
            assert(p.len() > 0);
            assert(id == p + seq!['/'] + d);
            assert(id.skip(p.len() + 1int) =~= d);
        },
        None => {
            assert(src.prefix@.len() == 0);
            assert(id == d);
        },
    }
    assert(resolve_rest(sources, id) == d);
    let m = src.mount@;
    crate::paths::lemma_plain_child(d, idx);
    assert(d[0] != '/');
    assert(idx.len() > 0 && idx[0] != '/');
    if m.len() == 0 {
        assert(join(m, d) == d);
    } else if m.last() == '/' {
        assert(join(m, d) == m + d);
        assert((m + d).last() == d.last());
    } else {
        assert(join(m, d) == m + seq!['/'] + d);
        assert((m + seq!['/'] + d).last() == d.last());
    }
    let x = join(m, d);
    assert(x.len() > 0);
    crate::paths::lemma_plain_path_has_no_trailing_slash(d);
    assert(x.last() == d.last());
    assert(join(x, idx) =~= join(m, d + seq!['/'] + idx));
}

proof fn lemma_best_match_longest(sources: Seq<Source>, id: Seq<char>, n: int, j: int)
    requires
        0 <= j < n <= sources.len(),
        prefix_hits(id, sources[j].prefix@),
    ensures
        best_match(sources, id, n) matches Some(b) && sources[j].prefix@.len()
            <= sources[b].prefix@.len(),
    decreases n,
{
    if j < n - 1 {
        lemma_best_match_longest(sources, id, n - 1, j);
    }
}

/// When a slug is under the non-empty prefix of some source, it resolves to
/// a source whose non-empty prefix it is under, and no such prefix is
/// longer than that source's.
pub proof fn resolution_prefers_longest_prefix(sources: Seq<Source>, id: Seq<char>, j: int)
    requires
        0 <= j < sources.len(),
        prefix_hits(id, sources[j].prefix@),
    ensures
        resolve_source(sources, id) matches Some(k) && prefix_hits(id, sources[k].prefix@)
            && sources[j].prefix@.len() <= sources[k].prefix@.len(),
{
    lemma_best_match_longest(sources, id, sources.len() as int, j);
    lemma_best_match(sources, id, sources.len() as int);
}

/// A slug under no non-empty prefix resolves, whole, to the last source
/// with an empty prefix, and to none when there is no such source.
pub proof fn empty_prefix_is_the_fallback(sources: Seq<Source>, id: Seq<char>)
    requires
        forall|j: int| 0 <= j < sources.len() ==> !prefix_hits(id, #[trigger] sources[j].prefix@),
    ensures
        resolve_rest(sources, id) == id,
        match resolve_source(sources, id) {
            Some(k) => 0 <= k < sources.len() && sources[k].prefix@.len() == 0 && forall|j: int|
                k < j < sources.len() ==> #[trigger] sources[j].prefix@.len() > 0,
            None => forall|j: int| 0 <= j < sources.len() ==> #[trigger] sources[j].prefix@.len() > 0,
        },
{
    lemma_best_match(sources, id, sources.len() as int);
    lemma_fallback_last(sources, sources.len() as int);
}

/// No other source claims `id` as strongly as source `k`: when `k`'s prefix
/// is non-empty, it heads `id` and every other non-empty prefix heading `id`
/// is shorter; when it is empty, no non-empty prefix heads `id` and `k` is
/// the only source with an empty prefix.
pub open spec fn claims_alone(sources: Seq<Source>, k: int, id: Seq<char>) -> bool {
    if sources[k].prefix@.len() > 0 {
        &&& prefix_hits(id, sources[k].prefix@)
        &&& forall|j: int|
            0 <= j < sources.len() && j != k && prefix_hits(id, #[trigger] sources[j].prefix@)
                ==> sources[j].prefix@.len() < sources[k].prefix@.len()
    } else {
        &&& forall|j: int| 0 <= j < sources.len() ==> !prefix_hits(id, #[trigger] sources[j].prefix@)
        &&& forall|j: int| 0 <= j < sources.len() && j != k ==> #[trigger] sources[j].prefix@.len() > 0
    }
}

/// A slug that one source claims alone resolves to that source.
pub proof fn slug_resolves_to_the_source_that_claims_it(sources: Seq<Source>, k: int, id: Seq<char>)
    requires
        0 <= k < sources.len(),
        claims_alone(sources, k, id),
    ensures
        resolve_source(sources, id) == Some(k),
{
    let n = sources.len() as int;
    lemma_best_match(sources, id, n);
    if sources[k].prefix@.len() > 0 {
        lemma_best_match_longest(sources, id, n, k);
        let b = best_match(sources, id, n)->0;
        if b != k {
            assert(prefix_hits(id, sources[b].prefix@));
            assert(sources[b].prefix@.len() < sources[k].prefix@.len());
        }
    } else {
        if best_match(sources, id, n) is Some {
            let b = best_match(sources, id, n)->0;
            assert(prefix_hits(id, sources[b].prefix@));
        }
        lemma_fallback_last(sources, n);
        assert(sources[k].prefix@.len() == 0);
    }
}

/// A markdown file below a source's mount, in plain form, comes back from
/// its slug whenever that source claims the slug alone.
pub proof fn file_round_trips_through_its_slug(sources: Seq<Source>, k: int, rel: Seq<char>)
    requires
        0 <= k < sources.len(),
        plain_rel(sources[k], rel),
        ends_with(rel, md_ext()),
        claims_alone(sources, k, slug_of(sources[k], join(sources[k].mount@, rel))),
    ensures
        resolve_source(sources, slug_of(sources[k], join(sources[k].mount@, rel))) == Some(k),
        resolved_file_rel(sources, slug_of(sources[k], join(sources[k].mount@, rel))) == rel,
{
    slug_resolves_to_the_source_that_claims_it(
        sources,
        k,
        slug_of(sources[k], join(sources[k].mount@, rel)),
    );
    file_survives_its_slug(sources, k, rel);
}

proof fn lemma_fallback_last(sources: Seq<Source>, n: int)
    requires
        0 <= n <= sources.len(),
    ensures
        match fallback_match(sources, n) {
            Some(k) => 0 <= k < n && sources[k].prefix@.len() == 0 && forall|j: int|
                k < j < n ==> #[trigger] sources[j].prefix@.len() > 0,
            None => forall|j: int| 0 <= j < n ==> #[trigger] sources[j].prefix@.len() > 0,
        },
    decreases n,
{
    if n > 0 {
        lemma_fallback_last(sources, n - 1);
    }
}

/// How a source is listed in an error message.
pub open spec fn source_label(s: Source) -> Seq<char> {
    if s.prefix@.len() == 0 {
        s.name@ + " (prefix=\"\")"@
    } else {
        s.name@ + " (prefix="@ + s.prefix@ + ")"@
    }
}

/// The labels of the first `n` sources, separated by `, `.
pub open spec fn source_labels(sources: Seq<Source>, n: int) -> Seq<char>
    decreases n,
{
    if n <= 0 {
        seq![]
    } else if n == 1 {
        source_label(sources[0])
    } else {
        source_labels(sources, n - 1) + ", "@ + source_label(sources[n - 1])
    }
}

// ---------- titles ----------

/// A line as `str::lines` yields it: without its `\n`, and without a `\r`
/// that stood before that `\n`.
pub open spec fn strip_eol(raw: Seq<char>) -> Seq<char> {
    if raw.len() > 0 && raw.last() == '\n' {
        let l = raw.drop_last();
        if l.len() > 0 && l.last() == '\r' {
            l.drop_last()
        } else {
            l
        }
    } else {
        raw
    }
}

/// The text after `# ` of the first line that starts with `# `, trimmed.
pub open spec fn first_heading(s: Seq<char>) -> Option<Seq<char>>
    decreases s.len(),
{
    if s.len() == 0 {
        None
    } else {
        proof {
            lemma_line_len_bounds(s);
        }
        let n = line_len(s);
        let line = strip_eol(s.take(n));
        if starts_with(line, seq!['#', ' ']) {
            Some(trim(line.skip(2)))
        } else {
            first_heading(s.skip(n))
        }
    }
}


/// The first line that starts with `# ` gives the title: the text after
/// those two characters, trimmed. With no such line there is none.
pub proof fn title_comes_from_first_heading_line(s: Seq<char>)
    ensures
        match first_heading(s) {
            Some(t) => exists|i: int|
                0 <= i < lines_of(s).len() && starts_with(lines_of(s)[i], seq!['#', ' ']) && t
                    == trim(lines_of(s)[i].skip(2)) && forall|j: int|
                    0 <= j < i ==> !starts_with(#[trigger] lines_of(s)[j], seq!['#', ' ']),
            None => forall|j: int|
                0 <= j < lines_of(s).len() ==> !starts_with(
                    #[trigger] lines_of(s)[j],
                    seq!['#', ' '],
                ),
        },
    decreases s.len(),
{
    if s.len() > 0 {
        lemma_line_len_bounds(s);
        let n = line_len(s);
        let line = strip_eol(s.take(n));
        let rest = s.skip(n);
        assert(lines_of(s) == seq![line] + lines_of(rest));
        title_comes_from_first_heading_line(rest);
        if !starts_with(line, seq!['#', ' ']) {
            match first_heading(rest) {
                Some(t) => {
                    let i = choose|i: int|
                        0 <= i < lines_of(rest).len() && starts_with(
                            lines_of(rest)[i],
                            seq!['#', ' '],
                        ) && t == trim(lines_of(rest)[i].skip(2)) && forall|j: int|
                            0 <= j < i ==> !starts_with(
                                #[trigger] lines_of(rest)[j],
                                seq!['#', ' '],
                            );
                    assert(lines_of(s)[i + 1] == lines_of(rest)[i]);
                    assert forall|j: int| 0 <= j < i + 1 implies !starts_with(
                        #[trigger] lines_of(s)[j],
                        seq!['#', ' '],
                    ) by {
                        if j > 0 {
                            assert(lines_of(s)[j] == lines_of(rest)[j - 1]);
                        }
                    }
                },
                None => {
                    assert forall|j: int| 0 <= j < lines_of(s).len() implies !starts_with(
                        #[trigger] lines_of(s)[j],
                        seq!['#', ' '],
                    ) by {
                        if j > 0 {
                            assert(lines_of(s)[j] == lines_of(rest)[j - 1]);
                        }
                    }
                },
            }
        } else {
            assert(lines_of(s)[0] == line);
        }
    }
}

// ---------- loading ----------

/// The value given to the first variable of `vars` named `name`; empty when
/// there is none.
pub open spec fn env_lookup(vars: Seq<(String, String)>, name: Seq<char>) -> Seq<char>
    decreases vars.len(),
{
    if vars.len() == 0 {
        seq![]
    } else if vars[0].0@ == name {
        vars[0].1@
    } else {
        env_lookup(vars.drop_first(), name)
    }
}

/// The index of the first `}` in `s` at or after `j`, or -1.
pub open spec fn brace_at(s: Seq<char>, j: int) -> int
    decreases s.len() - j,
{
    if j < 0 || j >= s.len() {
        -1
    } else if s[j] == '}' {
        j
    } else {
        brace_at(s, j + 1)
    }
}

pub proof fn lemma_brace_at(s: Seq<char>, j: int)
    ensures
        brace_at(s, j) == -1 || (j <= brace_at(s, j) < s.len() && s[brace_at(s, j)] == '}'),
    decreases s.len() - j,
{
    if j >= 0 && j < s.len() && s[j] != '}' {
        lemma_brace_at(s, j + 1);
    }
}

/// `${VAR}` expansion of a path from index `i`: each `${name}` with a
/// closing brace becomes the variable's value (empty when unset); every
/// other character is kept.
pub open spec fn expand_env(s: Seq<char>, i: int, vars: Seq<(String, String)>) -> Seq<char>
    decreases s.len() - i,
{
    if i < 0 || i >= s.len() {
        seq![]
    } else if i + 1 < s.len() && s[i] == '$' && s[i + 1] == '{' && brace_at(s, i + 2) >= 0 {
        proof {
            lemma_brace_at(s, i + 2);
        }
        let e = brace_at(s, i + 2);
        env_lookup(vars, s.subrange(i + 2, e)) + expand_env(s, e + 1, vars)
    } else {
        seq![s[i]] + expand_env(s, i + 1, vars)
    }
}

/// `~/rest` becomes `home.join(rest)`, and `~` becomes `home`, when the home
/// directory is known.
pub open spec fn expand_home(p: Seq<char>, home: Option<Seq<char>>) -> Seq<char> {
    match home {
        Some(h) => if starts_with(p, seq!['~', '/']) {
            join(h, p.skip(2))
        } else if p == seq!['~'] {
            h
        } else {
            p
        },
        None => p,
    }
}

/// A configured path after `${VAR}` and `~` expansion.
pub open spec fn expand_path(p: Seq<char>, vars: Seq<(String, String)>, home: Option<Seq<char>>) -> Seq<char> {
    expand_home(expand_env(p, 0, vars), home)
}

proof fn lemma_expand_env_plain(s: Seq<char>, i: int, vars: Seq<(String, String)>)
    requires
        0 <= i <= s.len(),
        forall|k: int| i <= k < s.len() ==> s[k] != '$',
    ensures
        expand_env(s, i, vars) == s.skip(i),
    decreases s.len() - i,
{
    if i < s.len() {
        lemma_expand_env_plain(s, i + 1, vars);
        assert(seq![s[i]] + s.skip(i + 1) =~= s.skip(i));
    } else {
        assert(s.skip(i).len() == 0);
    }
}

/// A path without `$` that does not start with `~/` and is not `~` comes
/// out of expansion unchanged, whatever characters it holds.
pub proof fn expansion_keeps_plain_text(p: Seq<char>, vars: Seq<(String, String)>, home: Option<Seq<char>>)
    requires
        !p.contains('$'),
        !starts_with(p, seq!['~', '/']),
        p != seq!['~'],
    ensures
        expand_path(p, vars, home) == p,
{
    assert forall|k: int| 0 <= k < p.len() implies p[k] != '$' by {
        if p[k] == '$' {
            assert(p.contains('$'));
        }
    }
    lemma_expand_env_plain(p, 0, vars);
    assert(p.skip(0) == p);
}

/// A configured path resolved against `base`: absolute once expanded, or
/// joined onto `base`.
pub open spec fn resolve_spec(
    base: Seq<char>,
    p: Seq<char>,
    vars: Seq<(String, String)>,
    home: Option<Seq<char>>,
) -> Seq<char> {
    let e = expand_path(p, vars, home);
    if is_absolute(e) {
        e
    } else {
        join(base, e)
    }
}

pub open spec fn opt_view(o: Option<String>) -> Option<Seq<char>> {
    match o {
        Some(s) => Some(s@),
        None => None,
    }
}

/// The prefix a source table gets: its `prefix`, else the source's name.
pub open spec fn raw_prefix(entry: (String, RawSource)) -> Seq<char> {
    match entry.1.prefix {
        Some(p) => p@,
        None => entry.0@,
    }
}

/// How many of the first `n` source tables get an empty prefix.
pub open spec fn empty_prefix_count(entries: Seq<(String, RawSource)>, n: int) -> nat
    decreases n,
{
    if n <= 0 {
        0
    } else {
        empty_prefix_count(entries, n - 1) + if raw_prefix(entries[n - 1]).len() == 0 {
            1nat
        } else {
            0nat
        }
    }
}

pub open spec fn default_glob() -> Seq<char> {
    "**/*.md"@
}

/// The source that a source table describes, the project root being `root`.
pub open spec fn source_from_raw(
    s: Source,
    entry: (String, RawSource),
    root: Seq<char>,
    vars: Seq<(String, String)>,
    home: Option<Seq<char>>,
) -> bool {
    let rs = entry.1;
    &&& s.name@ == entry.0@
    &&& s.mount@ == resolve_spec(
        root,
        match rs.mount {
            Some(m) => m@,
            None => seq!['.'],
        },
        vars,
        home,
    )
    &&& s.prefix@ == raw_prefix(entry)
    &&& opt_view(s.remote) == opt_view(rs.remote)
    &&& s.include_patterns.deep_view() == match rs.include_patterns {
        Some(v) => if v.len() > 0 {
            v.deep_view()
        } else {
            seq![default_glob()]
        },
        None => seq![default_glob()],
    }
    &&& s.exclude.deep_view() == match rs.exclude {
        Some(v) => v.deep_view(),
        None => seq![],
    }
    &&& s.readonly == match rs.readonly {
        Some(b) => b,
        None => false,
    }
    &&& opt_view(s.index_filename) == opt_view(rs.index_filename)
    &&& opt_view(s.hook_base) == opt_view(rs.hook_base)
}

/// What loading `raw`, read from `config_path`, gives when the home
/// directory is `home`.
pub open spec fn loaded_from(
    cfg: MemexConfig,
    raw: RawConfig,
    config_path: Seq<char>,
    vars: Seq<(String, String)>,
    home: Option<Seq<char>>,
) -> bool {
    &&& cfg.project_name@ == raw.project_name@
    &&& cfg.config_path@ == config_path
    &&& parent(config_path) == Some(cfg.config_dir@)
    &&& cfg.project_root@ == resolve_spec(cfg.config_dir@, raw.root@, vars, home)
    &&& cfg.sources.len() == raw.sources.len()
    &&& forall|k: int|
        0 <= k < cfg.sources.len() ==> source_from_raw(
            #[trigger] cfg.sources@[k],
            raw.sources@[k],
            cfg.project_root@,
            vars,
            home,
        )
    &&& cfg.also_scan.deep_view() == raw.also_scan.deep_view()
}

/// The outcome of loading: the configuration, or the first failed check.
pub open spec fn load_outcome(
    r: Result<MemexConfig, ConfigError>,
    raw: RawConfig,
    config_path: Seq<char>,
    vars: Seq<(String, String)>,
    home: Option<Seq<char>>,
) -> bool {
    let count = empty_prefix_count(raw.sources@, raw.sources@.len() as int);
    if trim(raw.project_name@).len() == 0 {
        r matches Err(ConfigError::EmptyProjectName)
    } else if parent(config_path) is None {
        r matches Err(ConfigError::NoParent)
    } else if count > 1 {
        r matches Err(ConfigError::MultipleEmptyPrefixes { count: c }) && c == count
    } else {
        r matches Ok(cfg) && loaded_from(cfg, raw, config_path, vars, home)
    }
}

proof fn lemma_empty_prefix_count_mono(entries: Seq<(String, RawSource)>, a: int, b: int)
    requires
        a <= b,
    ensures
        empty_prefix_count(entries, a) <= empty_prefix_count(entries, b),
    decreases b - a,
{
    if a < b {
        lemma_empty_prefix_count_mono(entries, a, b - 1);
    }
}

/// A loaded configuration has at most one source with an empty prefix.
pub proof fn loaded_config_has_at_most_one_empty_prefix(
    r: Result<MemexConfig, ConfigError>,
    raw: RawConfig,
    config_path: Seq<char>,
    vars: Seq<(String, String)>,
    home: Option<Seq<char>>,
)
    requires
        load_outcome(r, raw, config_path, vars, home),
    ensures
        r matches Ok(cfg) ==> forall|i: int, j: int|
            0 <= i < j < cfg.sources@.len() ==> !(#[trigger] cfg.sources@[i].prefix@.len() == 0
                && #[trigger] cfg.sources@[j].prefix@.len() == 0),
{
    if let Ok(cfg) = r {
        let entries = raw.sources@;
        assert forall|i: int, j: int|
            0 <= i < j < cfg.sources@.len() implies !(#[trigger] cfg.sources@[i].prefix@.len() == 0
                && #[trigger] cfg.sources@[j].prefix@.len() == 0) by {
            if cfg.sources@[i].prefix@.len() == 0 && cfg.sources@[j].prefix@.len() == 0 {
                assert(source_from_raw(cfg.sources@[i], entries[i], cfg.project_root@, vars, home));
                assert(source_from_raw(cfg.sources@[j], entries[j], cfg.project_root@, vars, home));
                lemma_empty_prefix_count_mono(entries, i + 1, j);
                lemma_empty_prefix_count_mono(entries, j + 1, entries.len() as int);
                lemma_empty_prefix_count_mono(entries, 0, i);
            }
        }
    }
}

/// The default project root, relative to the directory of `memex.toml`.
pub fn default_root() -> (r: String)
    ensures
        r@ == seq!['.'],
{
    let v = vec!['.'];
    string_of(&v)
}

fn env_value(vars: &Vec<(String, String)>, name: &Vec<char>) -> (r: Vec<char>)
    ensures
        r@ == env_lookup(vars@, name@),
{
    let mut i: usize = 0;
    assert(vars@.skip(0) == vars@);
    while i < vars.len()
        invariant
            i <= vars.len(),
            env_lookup(vars@.skip(i as int), name@) == env_lookup(vars@, name@),
        decreases vars.len() - i,
    {
        let key = chars_of(&vars[i].0);
        assert(vars@.skip(i as int).drop_first() == vars@.skip(i + 1));
        assert(vars@.skip(i as int)[0] == vars@[i as int]);
        if chars_eq(&key, name) {
            return chars_of(&vars[i].1);
        }
        i += 1;
    }
    Vec::new()
}

/// `${VAR}` and `~` expansion of a configured path, `vars` being the
/// environment and `home` the home directory.
pub fn expand_home_and_env(p: &str, vars: &Vec<(String, String)>, home: Option<String>) -> (r: String)
    ensures
        r@ == expand_path(p@, vars@, opt_view(home)),
{
    let b = chars_of(p);
    let mut out: Vec<char> = Vec::new();
    let mut i: usize = 0;
    while i < b.len()
        invariant
            i <= b.len(),
            b@ == p@,
            out@ + expand_env(b@, i as int, vars@) == expand_env(b@, 0, vars@),
        decreases b.len() - i,
    {
        if b.len() - i > 1 && b[i] == '$' && b[i + 1] == '{' {
            let mut e = i + 2;
            while e < b.len() && b[e] != '}'
                invariant
                    i + 2 <= e <= b.len(),
                    brace_at(b@, i + 2) == brace_at(b@, e as int),
                decreases b.len() - e,
            {
                e += 1;
            }
            if e < b.len() {
                let name = slice_of(&b, i + 2, e);
                let val = env_value(vars, &name);
                push_all(&mut out, &val);
                i = e + 1;
                continue;
            }
        }
        out.push(b[i]);
        i += 1;
    }
    assert(out@ + Seq::<char>::empty() == out@);
    // home expansion
    match home {
        Some(h) => {
            if out.len() >= 2 && out[0] == '~' && out[1] == '/' {
                assert(out@.take(2) =~= seq!['~', '/']);
                let rest = slice_of(&out, 2, out.len());
                assert(rest@ == out@.skip(2));
                let hc = chars_of(&h);
                return string_of(&join_chars(&hc, &rest));
            }
            if out.len() == 1 && out[0] == '~' {
                assert(out@ =~= seq!['~']);
                return h;
            }
            proof {
                if starts_with(out@, seq!['~', '/']) {
                    assert(out@[0] == '~' && out@[1] == '/');
                }
                if out@ == seq!['~'] {
                    assert(out@.len() == 1);
                }
            }
            string_of(&out)
        },
        None => string_of(&out),
    }
}

/// A configured path resolved against `base`.
pub fn resolve_path(base: &str, p: &str, vars: &Vec<(String, String)>, home: Option<String>) -> (r: String)
    ensures
        r@ == resolve_spec(base@, p@, vars@, opt_view(home)),
{
    let e = expand_home_and_env(p, vars, home);
    let ec = chars_of(&e);
    if ec.len() > 0 && ec[0] == '/' {
        e
    } else {
        let bc = chars_of(base);
        string_of(&join_chars(&bc, &ec))
    }
}

pub(crate) fn clone_strings(v: &Vec<String>) -> (r: Vec<String>)
    ensures
        r.deep_view() == v.deep_view(),
{
    let mut r: Vec<String> = Vec::new();
    let mut i: usize = 0;
    while i < v.len()
        invariant
            i <= v.len(),
            r.len() == i,
            forall|k: int| 0 <= k < i ==> r@[k]@ == v@[k]@,
        decreases v.len() - i,
    {
        r.push(v[i].clone());
        i += 1;
    }
    assert(r.deep_view() =~= v.deep_view());
    r
}

pub(crate) fn clone_opt(o: &Option<String>) -> (r: Option<String>)
    ensures
        opt_view(r) == opt_view(*o),
{
    match o {
        Some(s) => Some(s.clone()),
        None => None,
    }
}

/// Builds the configuration from the parsed `memex.toml` read at
/// `config_path`, `vars` being the environment and `home` the home directory.
pub fn load_with_home(
    raw: &RawConfig,
    config_path: &str,
    vars: &Vec<(String, String)>,
    home: Option<String>,
) -> (r: Result<MemexConfig, ConfigError>)
    ensures
        load_outcome(r, *raw, config_path@, vars@, opt_view(home)),
{
    let name = chars_of(&raw.project_name);
    let a = skip_ws(&name, 0, name.len());
    let b = crate::text::skip_ws_back(&name, a, name.len());
    assert(name@.subrange(0, name.len() as int) == name@);
    assert(trim(raw.project_name@) == name@.subrange(a as int, b as int));
    if a == b {
        return Err(ConfigError::EmptyProjectName);
    }
    let path = chars_of(config_path);
    let config_dir = match parent_chars(&path) {
        Some(d) => string_of(&d),
        None => {
            return Err(ConfigError::NoParent);
        },
    };
    let project_root = resolve_path(&config_dir, &raw.root, vars, clone_opt(&home));
    let mut sources: Vec<Source> = Vec::new();
    let mut empty: usize = 0;
    let mut i: usize = 0;
    while i < raw.sources.len()
        invariant
            i <= raw.sources.len(),
            sources.len() == i,
            empty == empty_prefix_count(raw.sources@, i as int),
            empty <= i,
            forall|k: int|
                0 <= k < i ==> source_from_raw(
                    #[trigger] sources@[k],
                    raw.sources@[k],
                    project_root@,
                    vars@,
                    opt_view(home),
                ),
        decreases raw.sources.len() - i,
    {
        let entry = &raw.sources[i];
        let rs = &entry.1;
        let mount_rel = match &rs.mount {
            Some(m) => m.clone(),
            None => default_root(),
        };
        let mount = resolve_path(&project_root, &mount_rel, vars, clone_opt(&home));
        let prefix = match &rs.prefix {
            Some(p) => p.clone(),
            None => entry.0.clone(),
        };
        if prefix.unicode_len() == 0 {
            empty += 1;
        }
        let include_patterns = match &rs.include_patterns {
            Some(v) => if v.len() > 0 {
                clone_strings(v)
            } else {
                default_globs()
            },
            None => default_globs(),
        };
        let exclude = match &rs.exclude {
            Some(v) => clone_strings(v),
            None => {
                let e: Vec<String> = Vec::new();
                assert(e.deep_view() =~= Seq::<Seq<char>>::empty());
                e
            },
        };
        let readonly = match rs.readonly {
            Some(b) => b,
            None => false,
        };
        let src = Source {
            name: entry.0.clone(),
            mount,
            prefix,
            remote: clone_opt(&rs.remote),
            include_patterns,
            exclude,
            readonly,
            index_filename: clone_opt(&rs.index_filename),
            hook_base: clone_opt(&rs.hook_base),
        };
        assert(source_from_raw(src, raw.sources@[i as int], project_root@, vars@, opt_view(home)));
        sources.push(src);
        i += 1;
    }
    if empty > 1 {
        return Err(ConfigError::MultipleEmptyPrefixes { count: empty });
    }
    Ok(
        MemexConfig {
            project_name: raw.project_name.clone(),
            config_dir,
            project_root,
            config_path: config_path.to_string(),
            sources,
            also_scan: clone_strings(&raw.also_scan),
        },
    )
}

fn default_globs() -> (r: Vec<String>)
    ensures
        r.deep_view() == seq![default_glob()],
{
    let mut r: Vec<String> = Vec::new();
    r.push("**/*.md".to_string());
    assert(r.deep_view() =~= seq![default_glob()]);
    r
}


// ---------- discovery, collisions, .gitignore, enumeration ----------

/// `dir/memex.toml`.
pub open spec fn config_candidate_spec(dir: Seq<char>) -> Seq<char> {
    join(dir, "memex.toml"@)
}

/// The only place `memex.toml` is looked for: `dir/memex.toml`.
pub fn config_candidate(start_dir: &str) -> (r: String)
    ensures
        r@ == config_candidate_spec(start_dir@),
{
    let d = chars_of(start_dir);
    let f = chars_of("memex.toml");
    string_of(&join_chars(&d, &f))
}

/// Only `./memex.toml` in the given directory counts: no upward search, no
/// `config/`, no `.memex/`. `candidate_exists` tells whether
/// `config_candidate(start_dir)` exists.
pub fn discover(start_dir: &str, candidate_exists: bool) -> (r: Result<String, ConfigError>)
    ensures
        candidate_exists ==> (r matches Ok(p) && p@ == config_candidate_spec(start_dir@)),
        !candidate_exists ==> (r matches Err(ConfigError::NotFound { dir }) && dir@ == start_dir@),
{
    if candidate_exists {
        Ok(config_candidate(start_dir))
    } else {
        Err(ConfigError::NotFound { dir: start_dir.to_string() })
    }
}

/// A path and its ancestors, nearest first: `p`, its parent, that one's
/// parent, and so on while there is one.
pub open spec fn ancestors(p: Seq<char>) -> Seq<Seq<char>>
    decreases p.len(),
{
    if parent(p) is Some {
        proof {
            crate::paths::lemma_parent_shorter(p);
        }
        seq![p] + ancestors(parent(p)->0)
    } else {
        seq![p]
    }
}

/// The directories that `find_enclosing_repo` looks at, nearest first: the
/// start (its parent when the start is a file; none when a file has no
/// parent) and then each parent in turn.
pub open spec fn repo_candidates(start: Seq<char>, start_is_file: bool) -> Seq<Seq<char>> {
    if start_is_file {
        match parent(start) {
            Some(d) => ancestors(d),
            None => seq![],
        }
    } else {
        ancestors(start)
    }
}

/// The candidates of `repo_candidates`.
pub fn enclosing_repo_candidates(start: &str, start_is_file: bool) -> (r: Vec<String>)
    ensures
        r.deep_view() == repo_candidates(start@, start_is_file),
{
    let sc = chars_of(start);
    let mut r: Vec<String> = Vec::new();
    let ghost all = repo_candidates(start@, start_is_file);
    let mut cur: Vec<char> = if start_is_file {
        match parent_chars(&sc) {
            Some(d) => d,
            None => {
                assert(r.deep_view() =~= all);
                return r;
            },
        }
    } else {
        sc
    };
    assert(r.deep_view() + ancestors(cur@) =~= all);
    loop
        invariant
            r.deep_view() + ancestors(cur@) == all,
            all == repo_candidates(start@, start_is_file),
        decreases cur.len(),
    {
        let ghost prev = r;
        let text = string_of(&cur);
        let ghost g = text;
        r.push(text);
        proof {
            crate::text::lemma_push_string_deep_view(prev, r, g);
        }
        match parent_chars(&cur) {
            Some(d) => {
                proof {
                    crate::paths::lemma_parent_shorter(cur@);
                    assert(ancestors(cur@) == seq![cur@] + ancestors(d@));
                    assert(r.deep_view() + ancestors(d@) =~= prev.deep_view() + ancestors(cur@));
                }
                cur = d;
            },
            None => {
                assert(ancestors(cur@) == seq![cur@]);
                assert(r.deep_view() =~= prev.deep_view() + ancestors(cur@));
                return r;
            },
        }
    }
}

/// The nearest candidate directory (see `repo_candidates`) that holds a
/// `.git` entry; `repo_dirs` lists the candidates that do.
pub fn find_enclosing_repo(start: &str, start_is_file: bool, repo_dirs: &Vec<String>) -> (r: Option<String>)
    ensures
        match r {
            Some(d) => exists|i: int|
                0 <= i < repo_candidates(start@, start_is_file).len() && d@ == repo_candidates(
                    start@,
                    start_is_file,
                )[i] && repo_dirs.deep_view().contains(d@) && forall|j: int|
                    0 <= j < i ==> !repo_dirs.deep_view().contains(
                        #[trigger] repo_candidates(start@, start_is_file)[j],
                    ),
            None => forall|j: int|
                0 <= j < repo_candidates(start@, start_is_file).len() ==> !repo_dirs.deep_view().contains(
                    #[trigger] repo_candidates(start@, start_is_file)[j],
                ),
        },
{
    let cands = enclosing_repo_candidates(start, start_is_file);
    let ghost cv = repo_candidates(start@, start_is_file);
    let mut i: usize = 0;
    while i < cands.len()
        invariant
            i <= cands.len(),
            cands.deep_view() == cv,
            cv == repo_candidates(start@, start_is_file),
            forall|j: int| 0 <= j < i ==> !repo_dirs.deep_view().contains(#[trigger] cv[j]),
        decreases cands.len() - i,
    {
        if contains_string(repo_dirs, &cands[i]) {
            assert(cv[i as int] == cands@[i as int]@);
            let d = cands[i].clone();
            assert(d@ == cands@[i as int]@);
            assert(cands.deep_view()[i as int] == cands@[i as int]@);
            assert(d@ == repo_candidates(start@, start_is_file)[i as int]);
            assert(repo_dirs.deep_view().contains(d@));
            return Some(d);
        }
        assert(cv[i as int] == cands@[i as int]@);
        i += 1;
    }
    None
}

pub(crate) fn contains_string(v: &Vec<String>, x: &String) -> (r: bool)
    ensures
        r == v.deep_view().contains(x@),
{
    let mut i: usize = 0;
    while i < v.len()
        invariant
            i <= v.len(),
            forall|k: int| 0 <= k < i ==> v.deep_view()[k] != x@,
        decreases v.len() - i,
    {
        if v[i] == *x {
            assert(v.deep_view()[i as int] == x@);
            return true;
        }
        i += 1;
    }
    false
}

/// The slugs of the enumerated files, in order.
pub open spec fn entry_slugs(sources: Seq<Source>, entries: Seq<BlueprintFile>) -> Seq<Seq<char>> {
    Seq::new(entries.len(), |i: int| slug_of(sources[entries[i].source as int], entries[i].path@))
}

impl MemexConfig {
    /// Every enumerated file must have its own slug. On a repeat, the error
    /// names the slug and the sources of its first file and of the repeat.
    pub fn check_collisions(&self, entries: &Vec<BlueprintFile>) -> (r: Result<(), ConfigError>)
        requires
            forall|i: int| 0 <= i < entries.len() ==> #[trigger] entries@[i].source < self.sources.len(),
        ensures
            r is Ok <==> entry_slugs(self.sources@, entries@).no_duplicates(),
            r matches Err(e) ==> exists|i: int, j: int|
                #![trigger entries@[i], entries@[j]]
                {
                    let ids = entry_slugs(self.sources@, entries@);
                    &&& 0 <= i < j < ids.len()
                    &&& ids.take(j).no_duplicates()
                    &&& ids[i] == ids[j]
                    &&& e matches ConfigError::SlugCollision { id, first, second }
                    &&& id@ == ids[j]
                    &&& first@ == self.sources@[entries@[i].source as int].name@
                    &&& second@ == self.sources@[entries@[j].source as int].name@
                },
    {
        let ghost ids = entry_slugs(self.sources@, entries@);
        let mut seen: Vec<String> = Vec::new();
        let mut j: usize = 0;
        while j < entries.len()
            invariant
                j <= entries.len(),
                forall|i: int| 0 <= i < entries.len() ==> #[trigger] entries@[i].source < self.sources.len(),
                ids == entry_slugs(self.sources@, entries@),
                seen.len() == j,
                forall|k: int| 0 <= k < j ==> seen@[k]@ == ids[k],
                ids.take(j as int).no_duplicates(),
            decreases entries.len() - j,
        {
            let e = &entries[j];
            assert(entries@[j as int].source < self.sources.len());
            let id = self.blueprint_id(&self.sources[e.source], &e.path);
            let mut i: usize = 0;
            while i < j
                invariant
                    i <= j,
                    j < entries.len(),
                    seen.len() == j,
                    forall|k: int| 0 <= k < j ==> seen@[k]@ == ids[k],
                    id@ == ids[j as int],
                    forall|k: int| 0 <= k < i ==> ids[k] != ids[j as int],
                    forall|k: int| 0 <= k < entries.len() ==> #[trigger] entries@[k].source < self.sources.len(),
                    ids == entry_slugs(self.sources@, entries@),
                    ids.take(j as int).no_duplicates(),
                    *e == entries@[j as int],
                decreases j - i,
            {
                if seen[i] == id {
                    assert(ids[i as int] == ids[j as int]);
                    assert(!ids.no_duplicates());
                    assert(entries@[i as int].source < self.sources.len());
                    let first = self.sources[entries[i].source].name.clone();
                    let second = self.sources[e.source].name.clone();
                    assert(first@ == self.sources@[entries@[i as int].source as int].name@);
                    assert(second@ == self.sources@[entries@[j as int].source as int].name@);
                    let ghost ii = i as int;
                    let ghost jj = j as int;
                    assert(0 <= ii < jj < ids.len() && ids.take(jj).no_duplicates() && ids[ii] == ids[jj]);
                    return Err(ConfigError::SlugCollision { id, first, second });
                }
                i += 1;
            }
            seen.push(id);
            assert(ids.take(j + 1) == ids.take(j as int).push(ids[j as int]));
            j += 1;
        }
        assert(ids.take(entries.len() as int) == ids);
        Ok(())
    }
}


// ---------- index location, .gitignore, enumeration ----------

/// `<base>/memex/indexes/<project_name>/vector_index.sqlite`.
pub open spec fn db_path_spec(base: Seq<char>, project_name: Seq<char>) -> Seq<char> {
    join(join(join(join(base, "memex"@), "indexes"@), project_name), "vector_index.sqlite"@)
}

/// The lines of `s` as `str::lines` yields them.
pub open spec fn lines_of(s: Seq<char>) -> Seq<Seq<char>>
    decreases s.len(),
{
    if s.len() == 0 {
        seq![]
    } else {
        proof {
            lemma_line_len_bounds(s);
        }
        let n = line_len(s);
        seq![strip_eol(s.take(n))] + lines_of(s.skip(n))
    }
}

/// The `.gitignore` line for a mount inside the project root: `/<rel>/`.
pub open spec fn gitignore_entry(root: Seq<char>, mount: Seq<char>) -> Option<Seq<char>> {
    match strip_prefix(mount, root) {
        Some(r) => Some(seq!['/'] + unbackslash(r) + seq!['/']),
        None => None,
    }
}

/// `.gitignore` content with `line` added, unless some line already equals
/// it once both are trimmed.
pub open spec fn gitignore_update(current: Seq<char>, line: Seq<char>) -> Option<Seq<char>> {
    let ls = lines_of(current);
    if exists|k: int| 0 <= k < ls.len() && trim(#[trigger] ls[k]) == trim(line) {
        None
    } else {
        Some(
            current + (if current.len() > 0 && current.last() != '\n' {
                seq!['\n']
            } else {
                seq![]
            }) + line + seq!['\n'],
        )
    }
}

proof fn lemma_lines_concat(a: Seq<char>, b: Seq<char>)
    requires
        a.len() == 0 || a.last() == '\n',
    ensures
        lines_of(a + b) == lines_of(a) + lines_of(b),
    decreases a.len(),
{
    if a.len() == 0 {
        assert(a + b == b);
        assert(lines_of(a) == Seq::<Seq<char>>::empty());
    } else {
        assert(a.contains('\n')) by {
            assert(a[a.len() - 1] == '\n');
        }
        lemma_line_len_concat(a, b);
        lemma_line_len_bounds(a);
        let n = line_len(a);
        assert((a + b).take(n) == a.take(n));
        assert((a + b).skip(n) == a.skip(n) + b);
        lemma_lines_concat(a.skip(n), b);
        assert(lines_of(a) == seq![strip_eol(a.take(n))] + lines_of(a.skip(n)));
        assert(lines_of(a + b) == seq![strip_eol(a.take(n))] + lines_of(a.skip(n) + b));
    }
}

proof fn lemma_single_line(l: Seq<char>)
    requires
        !l.contains('\n'),
    ensures
        lines_of(l + seq!['\n']) == seq![strip_eol(l + seq!['\n'])],
{
    let s = l + seq!['\n'];
    lemma_line_len_no_newline(l, seq!['\n']);
    assert(line_len(seq!['\n']) == 1);
    assert(s.take(line_len(s)) == s);
    assert(s.skip(line_len(s)).len() == 0);
    assert(lines_of(s.skip(line_len(s))) == Seq::<Seq<char>>::empty());
}

/// Adding a line to `.gitignore` content is idempotent: once a line without
/// a newline has been added, adding it again changes nothing.
pub proof fn gitignore_update_is_idempotent(current: Seq<char>, line: Seq<char>)
    requires
        !line.contains('\n'),
        gitignore_update(current, line) is Some,
    ensures
        gitignore_update(gitignore_update(current, line)->0, line) is None,
{
    let sep = if current.len() > 0 && current.last() != '\n' {
        seq!['\n']
    } else {
        Seq::<char>::empty()
    };
    let a = current + sep;
    let tail = line + seq!['\n'];
    let c2 = gitignore_update(current, line)->0;
    assert(c2 == a + tail);
    assert(a.len() == 0 || a.last() == '\n');
    lemma_lines_concat(a, tail);
    lemma_single_line(line);
    let ls = lines_of(c2);
    let k = lines_of(a).len() as int;
    assert(ls[k] == strip_eol(tail));
    assert(tail.drop_last() == line);
    if line.len() > 0 && line.last() == '\r' {
        lemma_trim_drop_ws(line);
    }
    assert(trim(ls[k]) == trim(line));
}

/// Directory names that enumeration never enters.
pub open spec fn is_noise_dir_name(name: Seq<char>) -> bool {
    name == "node_modules"@ || name == "target"@ || name == "_build"@ || name == ".next"@
}

/// Whether the walk of a mount enters an entry: the mount itself and files
/// always; a directory unless it is `.git`, a noise directory, or a foreign
/// repository (`has_git`). A directory whose name is not UTF-8 (`None`) is
/// entered.
pub open spec fn enters(is_mount: bool, is_dir: bool, name: Option<Seq<char>>, has_git: bool) -> bool {
    is_mount || !is_dir || match name {
        Some(n) => !(n == ".git"@ || is_noise_dir_name(n) || has_git),
        None => true,
    }
}

/// The index of the last `.` in `s`, or -1.
pub open spec fn last_dot(s: Seq<char>) -> int
    decreases s.len(),
{
    if s.len() == 0 {
        -1
    } else if s.last() == '.' {
        s.len() - 1
    } else {
        last_dot(s.drop_last())
    }
}

/// The file name has the extension `md` (`Path::extension`: the text after
/// the last `.`, none for `..` or when the only `.` leads the name).
pub open spec fn has_md_ext(name: Seq<char>) -> bool {
    name != seq!['.', '.'] && last_dot(name) > 0 && name.skip(last_dot(name) + 1) == seq!['m', 'd']
}

/// The `.gitignore` line for a source mounted at `mount`.
pub fn gitignore_line(project_root: &str, mount: &str) -> (r: Option<String>)
    ensures
        opt_view(r) == gitignore_entry(project_root@, mount@),
{
    let m = chars_of(mount);
    let root = chars_of(project_root);
    match strip_prefix_chars(&m, &root) {
        Some(rel) => {
            let rel = unbackslash_chars(&rel);
            let mut out: Vec<char> = vec!['/'];
            push_all(&mut out, &rel);
            out.push('/');
            assert(out@ =~= seq!['/'] + rel@ + seq!['/']);
            Some(string_of(&out))
        },
        None => None,
    }
}

/// `.gitignore` content with `line` added (see `gitignore_update`); `None`
/// when it is there already.
pub fn updated_gitignore(current: &str, line: &str) -> (r: Option<String>)
    ensures
        opt_view(r) == gitignore_update(current@, line@),
{
    let s = chars_of(current);
    let l = chars_of(line);
    let la = skip_ws(&l, 0, l.len());
    let lb = skip_ws_back(&l, la, l.len());
    let want = slice_of(&l, la, lb);
    assert(l@.subrange(0, l.len() as int) == l@);
    assert(want@ == trim(line@));
    let ghost ls = lines_of(current@);
    let mut i: usize = 0;
    let ghost mut seen: int = 0;
    assert(s@.skip(0) == s@);
    while i < s.len()
        invariant
            i <= s.len(),
            s@ == current@,
            ls == lines_of(current@),
            want@ == trim(line@),
            0 <= seen <= ls.len(),
            ls.skip(seen) == lines_of(s@.skip(i as int)),
            forall|k: int| 0 <= k < seen ==> trim(#[trigger] ls[k]) != want@,
        decreases s.len() - i,
    {
        let ghost t = s@.skip(i as int);
        let mut j = i;
        while j < s.len() && s[j] != '\n'
            invariant
                i <= j <= s.len(),
                line_len(t) == (j - i) + line_len(s@.skip(j as int)),
            decreases s.len() - j,
        {
            assert(s@.skip(j as int).drop_first() == s@.skip(j + 1));
            j += 1;
        }
        let e = if j < s.len() {
            j + 1
        } else {
            j
        };
        assert(line_len(t) == e - i) by {
            if j < s.len() {
                assert(s@.skip(j as int)[0] == '\n');
            } else {
                assert(s@.skip(j as int).len() == 0);
            }
        }
        assert(t.take(e - i) == s@.subrange(i as int, e as int));
        assert(t.skip(e - i) == s@.skip(e as int));
        let mut end = e;
        if end > i && s[end - 1] == '\n' {
            end -= 1;
            if end > i && s[end - 1] == '\r' {
                end -= 1;
            }
        }
        assert(strip_eol(s@.subrange(i as int, e as int)) == s@.subrange(i as int, end as int));
        let a = skip_ws(&s, i, end);
        let b = skip_ws_back(&s, a, end);
        let this = slice_of(&s, a, b);
        proof {
            assert(lines_of(t) == seq![s@.subrange(i as int, end as int)] + lines_of(s@.skip(e as int)));
            assert(ls[seen] == s@.subrange(i as int, end as int)) by {
                assert(lines_of(t).len() > 0);
                assert(ls.skip(seen).len() == ls.len() - seen);
                assert(seen < ls.len());
                assert(ls.skip(seen)[0] == ls[seen]);
            }
            assert(trim(ls[seen]) == this@);
            assert(ls.skip(seen + 1) == ls.skip(seen).drop_first());
        }
        if chars_eq(&this, &want) {
            assert(trim(ls[seen]) == trim(line@));
            return None;
        }
        proof {
            seen = seen + 1;
        }
        i = e;
    }
    assert(s@.skip(s.len() as int).len() == 0);
    assert(ls.skip(seen).len() == 0);
    let mut out = s;
    if out.len() > 0 && out[out.len() - 1] != '\n' {
        out.push('\n');
    }
    push_all(&mut out, &l);
    out.push('\n');
    Some(string_of(&out))
}

/// Whether `name` is a directory name that enumeration skips as noise.
pub fn is_noise_dir(name: &str) -> (b: bool)
    ensures
        b == is_noise_dir_name(name@),
{
    let n = chars_of(name);
    let a = chars_of("node_modules");
    let b = chars_of("target");
    let c = chars_of("_build");
    let d = chars_of(".next");
    chars_eq(&n, &a) || chars_eq(&n, &b) || chars_eq(&n, &c) || chars_eq(&n, &d)
}

/// Whether the walk of a mount enters an entry (see `enters`).
pub fn enter_entry(is_mount: bool, is_dir: bool, name: Option<&str>, has_git: bool) -> (b: bool)
    ensures
        b == enters(
            is_mount,
            is_dir,
            match name {
                Some(n) => Some(n@),
                None => None,
            },
            has_git,
        ),
{
    if is_mount || !is_dir {
        return true;
    }
    match name {
        Some(n) => {
            let nc = chars_of(n);
            let git = chars_of(".git");
            !(chars_eq(&nc, &git) || is_noise_dir(n) || has_git)
        },
        None => true,
    }
}

/// Whether a file name has the extension `md` (see `has_md_ext`).
pub fn has_md_extension(file_name: &str) -> (b: bool)
    ensures
        b == has_md_ext(file_name@),
{
    let n = chars_of(file_name);
    let dots = vec!['.', '.'];
    assert(dots@ =~= seq!['.', '.']);
    if chars_eq(&n, &dots) {
        return false;
    }
    let mut k = n.len();
    assert(n@.take(k as int) == n@);
    while k > 0 && n[k - 1] != '.'
        invariant
            k <= n.len(),
            last_dot(n@) == last_dot(n@.take(k as int)),
        decreases k,
    {
        assert(n@.take(k as int).drop_last() == n@.take(k - 1));
        k -= 1;
    }
    if k <= 1 {
        return false;
    }
    let ext = slice_of(&n, k, n.len());
    let md = vec!['m', 'd'];
    assert(md@ =~= seq!['m', 'd']);
    assert(ext@ == n@.skip(k as int));
    chars_eq(&ext, &md)
}

impl Source {
    /// The glob set of the source's patterns for files to take.
    pub fn include_set(&self) -> (r: Result<globset::GlobSet, ConfigError>)
        ensures
            r is Ok <==> globset_builds(self.include_patterns.deep_view()),
            r matches Ok(set) ==> globset_patterns(set) == self.include_patterns.deep_view(),
            r matches Err(e) ==> e matches ConfigError::InvalidGlob { patterns } && patterns.deep_view()
                == self.include_patterns.deep_view(),
    {
        match build_globset(&self.include_patterns) {
            Ok(set) => Ok(set),
            Err(_) => Err(ConfigError::InvalidGlob { patterns: clone_strings(&self.include_patterns) }),
        }
    }

    /// The glob set of the source's patterns for files to leave out.
    pub fn exclude_set(&self) -> (r: Result<globset::GlobSet, ConfigError>)
        ensures
            r is Ok <==> globset_builds(self.exclude.deep_view()),
            r matches Ok(set) ==> globset_patterns(set) == self.exclude.deep_view(),
            r matches Err(e) ==> e matches ConfigError::InvalidGlob { patterns } && patterns.deep_view()
                == self.exclude.deep_view(),
    {
        match build_globset(&self.exclude) {
            Ok(set) => Ok(set),
            Err(_) => Err(ConfigError::InvalidGlob { patterns: clone_strings(&self.exclude) }),
        }
    }

    /// Whether a `.md` file at `rel` (relative to the mount) is one that a
    /// pattern to take matches but a pattern to leave out removes.
    pub fn file_excluded(&self, take: &globset::GlobSet, exclude: &globset::GlobSet, rel: &str) -> (b: bool)
        ensures
            b == (any_glob_matches(globset_patterns(*take), rel@) && self.exclude.len() > 0
                && any_glob_matches(globset_patterns(*exclude), rel@)),
    {
        globset_is_match(take, rel) && self.exclude.len() > 0 && globset_is_match(exclude, rel)
    }

    /// Whether a `.md` file at `rel` (relative to the mount) is taken: some
    /// pattern to take matches it, and, when there are patterns to leave
    /// out, none of them does.
    pub fn file_selected(&self, take: &globset::GlobSet, exclude: &globset::GlobSet, rel: &str) -> (b: bool)
        ensures
            b == (any_glob_matches(globset_patterns(*take), rel@) && !(self.exclude.len() > 0
                && any_glob_matches(globset_patterns(*exclude), rel@))),
    {
        if !globset_is_match(take, rel) {
            return false;
        }
        !(self.exclude.len() > 0 && globset_is_match(exclude, rel))
    }
}

impl MemexConfig {
    /// `<base>/memex/indexes/<project_name>/vector_index.sqlite`.
    pub fn db_path_in(&self, base: &str) -> (r: String)
        ensures
            r@ == db_path_spec(base@, self.project_name@),
    {
        let b = chars_of(base);
        let p1 = join_chars(&b, &chars_of("memex"));
        let p2 = join_chars(&p1, &chars_of("indexes"));
        let p3 = join_chars(&p2, &chars_of(&self.project_name));
        let p4 = join_chars(&p3, &chars_of("vector_index.sqlite"));
        string_of(&p4)
    }

    /// The index file, under the user's cache directory (the current
    /// directory when there is none).
    pub fn db_path(&self) -> (r: String)
        ensures
            exists|base: Seq<char>| r@ == db_path_spec(base, self.project_name@),
    {
        let base = match cache_dir() {
            Some(b) => b,
            None => default_root(),
        };
        self.db_path_in(&base)
    }
}

/// Builds the configuration from the parsed `memex.toml` read at
/// `config_path`, `vars` being the environment; the home directory comes
/// from `dirs::home_dir`.
pub fn load(raw: &RawConfig, config_path: &str, vars: &Vec<(String, String)>) -> (r: Result<MemexConfig, ConfigError>)
    ensures
        exists|home: Option<Seq<char>>| load_outcome(r, *raw, config_path@, vars@, home),
{
    let home = home_dir();
    let ghost h = opt_view(home);
    let r = load_with_home(raw, config_path, vars, home);
    assert(load_outcome(r, *raw, config_path@, vars@, h));
    r
}

impl ConfigError {
    /// The error's message.
    pub fn message(&self) -> (m: String)
        ensures
            match self {
                ConfigError::NotFound { dir } => m@ == "No memex.toml found in "@ + dir@
                    + ". Create a memex.toml to configure your blueprint sources."@,
                ConfigError::EmptyProjectName => m@
                    == "'project_name' in memex.toml must be non-empty"@,
                ConfigError::NoParent => m@ == "config path has no parent"@,
                ConfigError::MultipleEmptyPrefixes { count } => m@
                    == "At most one source may set prefix = \"\" (found "@ + crate::text::decimal(*count as nat)
                    + ")"@,
                ConfigError::NoSourceForSlug { id, configured } => m@ == "No source matches slug '"@
                    + id@ + "'. Configured sources: "@ + configured@,
                ConfigError::SlugCollision { id, first, second } => m@ == "slug collision: '"@ + id@
                    + "' is produced by sources '"@ + first@ + "' and '"@ + second@ + "'"@,
                ConfigError::InvalidGlob { patterns } => m@ == "invalid glob in: "@
                    + crate::text::joined(patterns.deep_view(), ", "@),
            },
    {
        let mut out: Vec<char> = Vec::new();
        match self {
            ConfigError::NotFound { dir } => {
                push_str(&mut out, "No memex.toml found in ");
                push_str(&mut out, dir);
                push_str(&mut out, ". Create a memex.toml to configure your blueprint sources.");
            },
            ConfigError::EmptyProjectName => {
                push_str(&mut out, "'project_name' in memex.toml must be non-empty");
            },
            ConfigError::NoParent => {
                push_str(&mut out, "config path has no parent");
            },
            ConfigError::MultipleEmptyPrefixes { count } => {
                push_str(&mut out, "At most one source may set prefix = \"\" (found ");
                crate::text::push_decimal(&mut out, *count);
                push_str(&mut out, ")");
            },
            ConfigError::NoSourceForSlug { id, configured } => {
                push_str(&mut out, "No source matches slug '");
                push_str(&mut out, id);
                push_str(&mut out, "'. Configured sources: ");
                push_str(&mut out, configured);
            },
            ConfigError::SlugCollision { id, first, second } => {
                push_str(&mut out, "slug collision: '");
                push_str(&mut out, id);
                push_str(&mut out, "' is produced by sources '");
                push_str(&mut out, first);
                push_str(&mut out, "' and '");
                push_str(&mut out, second);
                push_str(&mut out, "'");
            },
            ConfigError::InvalidGlob { patterns } => {
                push_str(&mut out, "invalid glob in: ");
                crate::text::push_joined(&mut out, patterns, ", ");
            },
        }
        string_of(&out)
    }
}

// ---------- implementation ----------

pub(crate) fn unbackslash_chars(s: &Vec<char>) -> (r: Vec<char>)
    ensures
        r@ == unbackslash(s@),
{
    let mut r: Vec<char> = Vec::new();
    let mut i: usize = 0;
    while i < s.len()
        invariant
            i <= s.len(),
            r@ == unbackslash(s@).take(i as int),
        decreases s.len() - i,
    {
        if s[i] == '\\' {
            r.push('/');
        } else {
            r.push(s[i]);
        }
        i += 1;
        assert(r@ =~= unbackslash(s@).take(i as int));
    }
    assert(unbackslash(s@).take(s.len() as int) =~= unbackslash(s@));
    r
}

pub(crate) fn last_slash_chars(s: &Vec<char>) -> (r: Option<usize>)
    ensures
        match r {
            Some(k) => last_slash(s@) == k,
            None => last_slash(s@) == -1,
        },
{
    let mut k = s.len();
    assert(s@.take(k as int) == s@);
    while k > 0 && s[k - 1] != '/'
        invariant
            k <= s.len(),
            last_slash(s@) == last_slash(s@.take(k as int)),
        decreases k,
    {
        assert(s@.take(k as int).drop_last() == s@.take(k - 1));
        k -= 1;
    }
    if k == 0 {
        None
    } else {
        Some(k - 1)
    }
}

fn ends_with_md(s: &Vec<char>) -> (b: bool)
    ensures
        b == ends_with(s@, md_ext()),
{
    if s.len() < 3 {
        return false;
    }
    let md = vec!['.', 'm', 'd'];
    let r = occurs_at(s, s.len() - 3, &md);
    assert(s@.skip(s.len() - 3).take(3) == s@.skip(s.len() - 3));
    assert(md@ =~= md_ext());
    r
}

impl ResolvedBlueprint<'_> {
    /// The resolution to use on disk: the index file when the default file is
    /// absent and the index file is present.
    pub fn prefer_index_file(self, default_exists: bool, index_exists: bool) -> (r: Self)
        ensures
            r.source == self.source,
            r.index_file_path == self.index_file_path,
            r.file_path == (match self.index_file_path {
                Some(p) => if !default_exists && index_exists {
                    p
                } else {
                    self.file_path
                },
                None => self.file_path,
            }),
    {
        let ResolvedBlueprint { source, file_path, index_file_path } = self;
        match index_file_path {
            Some(p) => {
                if !default_exists && index_exists {
                    let fp = p.clone();
                    ResolvedBlueprint { source, file_path: fp, index_file_path: Some(p) }
                } else {
                    ResolvedBlueprint { source, file_path, index_file_path: Some(p) }
                }
            },
            None => ResolvedBlueprint { source, file_path, index_file_path: None },
        }
    }
}

impl MemexConfig {
    /// Compute the slug of a file of `source`.
    pub fn blueprint_id(&self, source: &Source, file_path: &str) -> (id: String)
        ensures
            id@ == slug_of(*source, file_path@),
    {
        let fp = chars_of(file_path);
        let mount = chars_of(&source.mount);
        let rel0 = match strip_prefix_chars(&fp, &mount) {
            Some(r) => r,
            None => fp,
        };
        let rel = unbackslash_chars(&rel0);
        let prefix = chars_of(&source.prefix);
        let ls = last_slash_chars(&rel);
        proof {
            lemma_last_slash(rel@);
        }
        let name_start: usize = match ls {
            Some(k) => {
                assert(k < rel@.len());
                assert(k < rel.len());
                k + 1
            },
            None => 0,
        };
        let is_index = match &source.index_filename {
            Some(idx) => {
                let name = slice_of(&rel, name_start, rel.len());
                let idx_chars = chars_of(idx);
                assert(rel@.skip(name_start as int) == rel@.subrange(
                    name_start as int,
                    rel.len() as int,
                ));
                chars_eq(&name, &idx_chars)
            },
            None => false,
        };
        let mut out: Vec<char> = Vec::new();
        if is_index {
            let dir_end: usize = match ls {
                Some(k) => k,
                None => 0,
            };
            if prefix.len() == 0 {
                push_range(&mut out, &rel, 0, dir_end);
            } else if dir_end == 0 {
                push_all(&mut out, &prefix);
            } else {
                push_all(&mut out, &prefix);
                out.push('/');
                push_range(&mut out, &rel, 0, dir_end);
            }
            assert(rel@.subrange(0, dir_end as int) == rel@.take(dir_end as int));
        } else {
            let stem_end = if ends_with_md(&rel) {
                rel.len() - 3
            } else {
                rel.len()
            };
            assert(rel@.subrange(0, stem_end as int) == strip_md(rel@));
            if prefix.len() != 0 {
                push_all(&mut out, &prefix);
                out.push('/');
            }
            push_range(&mut out, &rel, 0, stem_end);
        }
        string_of(&out)
    }

    /// Turn a slug into its source and file path. The source whose non-empty
    /// prefix the slug is under wins, the longest such prefix first; the
    /// empty-prefix source is the fallback.
    pub fn resolve_blueprint(&self, id: &str) -> (r: Result<ResolvedBlueprint<'_>, ConfigError>)
        ensures
            match r {
                Ok(res) => {
                    let k = resolve_source(self.sources@, id@)->0;
                    let rest = resolve_rest(self.sources@, id@);
                    let src = self.sources@[k];
                    &&& resolve_source(self.sources@, id@) is Some
                    &&& 0 <= k < self.sources@.len()
                    &&& res.source == src
                    &&& res.file_path@ == join(src.mount@, rest + md_ext())
                    &&& match src.index_filename {
                        Some(idx) => res.index_file_path matches Some(p) && p@ == join(
                            join(src.mount@, rest),
                            idx@,
                        ),
                        None => res.index_file_path is None,
                    }
                },
                Err(e) => {
                    &&& resolve_source(self.sources@, id@) is None
                    &&& e matches ConfigError::NoSourceForSlug { id: eid, configured }
                    &&& eid@ == id@
                    &&& configured@ == source_labels(self.sources@, self.sources@.len() as int)
                },
            },
    {
        let idc = chars_of(id);
        let mut best: Option<usize> = None;
        let mut best_len: usize = 0;
        let mut fallback: Option<usize> = None;
        let mut i: usize = 0;
        while i < self.sources.len()
            invariant
                i <= self.sources.len(),
                idc@ == id@,
                match best {
                    Some(b) => best_match(self.sources@, id@, i as int) == Some(b as int),
                    None => best_match(self.sources@, id@, i as int) is None,
                },
                best is Some ==> best_len == self.sources@[best->0 as int].prefix@.len() && best->0
                    < i,
                best is None ==> best_len == 0,
                match fallback {
                    Some(f) => fallback_match(self.sources@, i as int) == Some(f as int),
                    None => fallback_match(self.sources@, i as int) is None,
                },
                fallback is Some ==> fallback->0 < i,
            decreases self.sources.len() - i,
        {
            let p = chars_of(&self.sources[i].prefix);
            if p.len() == 0 {
                fallback = Some(i);
            } else {
                let mut pfx = p.clone();
                pfx.push('/');
                assert(pfx@ =~= p@ + seq!['/']);
                let hit = occurs_at(&idc, 0, &pfx);
                assert(idc@.skip(0) == idc@);
                if hit && p.len() > best_len {
                    best = Some(i);
                    best_len = p.len();
                }
            }
            i += 1;
        }
        let (k, rest) = match best {
            Some(b) => {
                let plen = self.sources[b].prefix.unicode_len();
                proof {
                    lemma_best_match(self.sources@, id@, self.sources@.len() as int);
                    assert(prefix_hits(id@, self.sources@[b as int].prefix@));
                    assert((self.sources@[b as int].prefix@ + seq!['/']).len() == plen + 1);
                    assert(plen + 1 <= idc@.len());
                    assert(idc@.len() == idc.len());
                }
                (b, slice_of(&idc, plen + 1, idc.len()))
            },
            None => match fallback {
                Some(f) => (f, idc.clone()),
                None => {
                    let configured = self.describe_sources();
                    return Err(ConfigError::NoSourceForSlug { id: id.to_string(), configured });
                },
            },
        };
        assert(rest@ == resolve_rest(self.sources@, id@));
        let source = &self.sources[k];
        let mount = chars_of(&source.mount);
        let mut rest_md = rest.clone();
        rest_md.push('.');
        rest_md.push('m');
        rest_md.push('d');
        assert(rest_md@ =~= rest@ + md_ext());
        let file_path = string_of(&join_chars(&mount, &rest_md));
        let index_file_path = match &source.index_filename {
            Some(idx) => {
                let dir = join_chars(&mount, &rest);
                let idxc = chars_of(idx);
                Some(string_of(&join_chars(&dir, &idxc)))
            },
            None => None,
        };
        Ok(ResolvedBlueprint { source, file_path, index_file_path })
    }

    fn describe_sources(&self) -> (r: String)
        ensures
            r@ == source_labels(self.sources@, self.sources@.len() as int),
    {
        let mut out: Vec<char> = Vec::new();
        let mut i: usize = 0;
        while i < self.sources.len()
            invariant
                i <= self.sources.len(),
                out@ == source_labels(self.sources@, i as int),
            decreases self.sources.len() - i,
        {
            if i > 0 {
                push_str(&mut out, ", ");
            }
            let s = &self.sources[i];
            push_str(&mut out, &s.name);
            if s.prefix.unicode_len() == 0 {
                push_str(&mut out, " (prefix=\"\")");
            } else {
                push_str(&mut out, " (prefix=");
                push_str(&mut out, &s.prefix);
                push_str(&mut out, ")");
            }
            i += 1;
        }
        string_of(&out)
    }

    /// The names of all sources, in order.
    pub fn all_source_names(&self) -> (names: Vec<String>)
        ensures
            names.len() == self.sources.len(),
            forall|k: int| 0 <= k < names.len() ==> names@[k]@ == self.sources@[k].name@,
    {
        let mut names: Vec<String> = Vec::new();
        let mut i: usize = 0;
        while i < self.sources.len()
            invariant
                i <= self.sources.len(),
                names.len() == i,
                forall|k: int| 0 <= k < i ==> names@[k]@ == self.sources@[k].name@,
            decreases self.sources.len() - i,
        {
            names.push(self.sources[i].name.clone());
            i += 1;
        }
        names
    }

    /// The first source with the given name.
    pub fn source_by_name(&self, name: &str) -> (r: Option<&Source>)
        ensures
            match r {
                Some(s) => exists|k: int|
                    0 <= k < self.sources@.len() && self.sources@[k] == *s && s.name@ == name@
                        && forall|j: int| 0 <= j < k ==> self.sources@[j].name@ != name@,
                None => forall|j: int| 0 <= j < self.sources@.len() ==> self.sources@[j].name@ != name@,
            },
    {
        let target = chars_of(name);
        let mut i: usize = 0;
        while i < self.sources.len()
            invariant
                i <= self.sources.len(),
                target@ == name@,
                forall|j: int| 0 <= j < i ==> self.sources@[j].name@ != name@,
            decreases self.sources.len() - i,
        {
            let n = chars_of(&self.sources[i].name);
            if chars_eq(&n, &target) {
                return Some(&self.sources[i]);
            }
            i += 1;
        }
        None
    }

    /// The text after `# ` of the first line starting with `# `, trimmed;
    /// `Untitled` when there is none.
    pub fn extract_title(&self, content: &str) -> (t: String)
        ensures
            match first_heading(content@) {
                Some(h) => t@ == h,
                None => t@ == "Untitled"@,
            },
    {
        let s = chars_of(content);
        let mut i: usize = 0;
        assert(s@.skip(0) == s@);
        while i < s.len()
            invariant
                i <= s.len(),
                first_heading(s@.skip(i as int)) == first_heading(content@),
                s@ == content@,
            decreases s.len() - i,
        {
            let ghost t = s@.skip(i as int);
            let mut j = i;
            while j < s.len() && s[j] != '\n'
                invariant
                    i <= j <= s.len(),
                    line_len(t) == (j - i) + line_len(s@.skip(j as int)),
                decreases s.len() - j,
            {
                assert(s@.skip(j as int).drop_first() == s@.skip(j + 1));
                j += 1;
            }
            let e = if j < s.len() {
                j + 1
            } else {
                j
            };
            assert(line_len(t) == e - i) by {
                if j < s.len() {
                    assert(s@.skip(j as int)[0] == '\n');
                } else {
                    assert(s@.skip(j as int).len() == 0);
                }
            }
            assert(t.take(e - i) == s@.subrange(i as int, e as int));
            assert(t.skip(e - i) == s@.skip(e as int));
            // the line without its ending
            let mut end = e;
            if end > i && s[end - 1] == '\n' {
                end -= 1;
                if end > i && s[end - 1] == '\r' {
                    end -= 1;
                }
            }
            assert(strip_eol(s@.subrange(i as int, e as int)) == s@.subrange(i as int, end as int));
            if end - i >= 2 && s[i] == '#' && s[i + 1] == ' ' {
                let ghost line = s@.subrange(i as int, end as int);
                assert(line.take(2) =~= seq!['#', ' ']);
                assert(line.skip(2) == s@.subrange(i + 2, end as int));
                let a = skip_ws(&s, i + 2, end);
                let b = skip_ws_back(&s, a, end);
                assert(trim(line.skip(2)) == s@.subrange(a as int, b as int));
                let title = slice_of(&s, a, b);
                return string_of(&title);
            }
            proof {
                let line = s@.subrange(i as int, end as int);
                if starts_with(line, seq!['#', ' ']) {
                    assert(line[0] == s@[i as int]);
                    assert(line[1] == s@[i + 1]);
                }
            }
            i = e;
        }
        "Untitled".to_string()
    }
}

/// The lines of `s`, as `str::lines` yields them.
pub fn lines_vec(s: &str) -> (r: Vec<String>)
    ensures
        r.deep_view() == lines_of(s@),
{
    let c = chars_of(s);
    let mut r: Vec<String> = Vec::new();
    let mut i: usize = 0;
    assert(c@.skip(0) == c@);
    while i < c.len()
        invariant
            i <= c.len(),
            c@ == s@,
            r.deep_view() + lines_of(c@.skip(i as int)) == lines_of(s@),
        decreases c.len() - i,
    {
        let ghost t = c@.skip(i as int);
        let mut j = i;
        while j < c.len() && c[j] != '\n'
            invariant
                i <= j <= c.len(),
                line_len(t) == (j - i) + line_len(c@.skip(j as int)),
            decreases c.len() - j,
        {
            assert(c@.skip(j as int).drop_first() == c@.skip(j + 1));
            j += 1;
        }
        let e = if j < c.len() {
            j + 1
        } else {
            j
        };
        assert(line_len(t) == e - i) by {
            if j < c.len() {
                assert(c@.skip(j as int)[0] == '\n');
            } else {
                assert(c@.skip(j as int).len() == 0);
            }
        }
        assert(t.take(e - i) == c@.subrange(i as int, e as int));
        assert(t.skip(e - i) == c@.skip(e as int));
        let mut end = e;
        if end > i && c[end - 1] == '\n' {
            end -= 1;
            if end > i && c[end - 1] == '\r' {
                end -= 1;
            }
        }
        assert(strip_eol(c@.subrange(i as int, e as int)) == c@.subrange(i as int, end as int));
        let line = slice_of(&c, i, end);
        let ghost before = r.deep_view();
        r.push(string_of(&line));
        assert(r.deep_view() =~= before.push(line@));
        assert(lines_of(t) == seq![strip_eol(t.take(e - i))] + lines_of(t.skip(e - i)));
        assert(before + lines_of(t) =~= r.deep_view() + lines_of(c@.skip(e as int)));
        i = e;
    }
    assert(lines_of(c@.skip(i as int)) == Seq::<Seq<char>>::empty());
    assert(r.deep_view() + Seq::<Seq<char>>::empty() == r.deep_view());
    r
}

/// Whether the walk for `also_scan` files enters a directory: not `.git`,
/// not a noise directory, not `deps`. A directory whose name is not UTF-8
/// (`None`) is entered, as is the project root itself.
pub open spec fn scan_enters(is_root: bool, is_dir: bool, name: Option<Seq<char>>) -> bool {
    is_root || !is_dir || match name {
        Some(n) => !(n == ".git"@ || is_noise_dir_name(n) || n == "deps"@),
        None => true,
    }
}

/// Whether the walk for `also_scan` files enters an entry.
pub fn scan_enter_entry(is_root: bool, is_dir: bool, name: Option<&str>) -> (b: bool)
    ensures
        b == scan_enters(is_root, is_dir, match name {
            Some(n) => Some(n@),
            None => None,
        }),
{
    if is_root || !is_dir {
        return true;
    }
    match name {
        Some(n) => {
            let c = chars_of(n);
            let git = chars_of(".git");
            let deps = chars_of("deps");
            !(chars_eq(&c, &git) || is_noise_dir(n) || chars_eq(&c, &deps))
        },
        None => true,
    }
}

impl MemexConfig {
    /// The glob set of the `also_scan` patterns.
    pub fn also_scan_set(&self) -> (r: Result<globset::GlobSet, ConfigError>)
        ensures
            r is Ok <==> globset_builds(self.also_scan.deep_view()),
            r matches Ok(set) ==> globset_patterns(set) == self.also_scan.deep_view(),
            r matches Err(e) ==> e matches ConfigError::InvalidGlob { patterns } && patterns.deep_view()
                == self.also_scan.deep_view(),
    {
        match build_globset(&self.also_scan) {
            Ok(set) => Ok(set),
            Err(_) => Err(ConfigError::InvalidGlob { patterns: clone_strings(&self.also_scan) }),
        }
    }
}

/// Whether a file at `rel` (relative to the project root) is scanned: some
/// pattern of the `also_scan` set matches it.
pub fn scan_selected(set: &globset::GlobSet, rel: &str) -> (b: bool)
    ensures
        b == any_glob_matches(globset_patterns(*set), rel@),
{
    globset_is_match(set, rel)
}

} // verus!
