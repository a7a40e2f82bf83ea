//! `memex broken-refs`: which `[[slug]]` references resolve to no blueprint.
use vstd::prelude::*;
use crate::config::{contains_string, last_slash, last_slash_chars, lemma_last_slash};
use crate::text::{chars_eq, chars_of, joined, push_joined, push_str, slice_of, string_of};

verus! {

/// The last segment of a slug: the text after its last `/`, or all of it.
pub open spec fn slug_tail(s: Seq<char>) -> Seq<char> {
    s.skip(last_slash(s) + 1)
}

/// A reference resolves when some slug equals it, or, for a reference
/// without `/`, when some slug's last segment equals it.
pub open spec fn ref_resolves(slugs: Seq<Seq<char>>, r: Seq<char>) -> bool {
    ||| slugs.contains(r)
    ||| (!r.contains('/') && exists|k: int| 0 <= k < slugs.len() && slug_tail(#[trigger] slugs[k]) == r)
}

/// The references that do not resolve, in order.
pub open spec fn unresolved_of(slugs: Seq<Seq<char>>, refs: Seq<Seq<char>>) -> Seq<Seq<char>>
    decreases refs.len(),
{
    if refs.len() == 0 {
        seq![]
    } else {
        unresolved_of(slugs, refs.drop_last()) + if ref_resolves(slugs, refs.last()) {
            seq![]
        } else {
            seq![refs.last()]
        }
    }
}

fn tail_of(slug: &String) -> (t: Vec<char>)
    ensures
        t@ == slug_tail(slug@),
{
    let c = chars_of(slug);
    proof {
        lemma_last_slash(c@);
    }
    let start: usize = match last_slash_chars(&c) {
        Some(k) => {
            assert(k < c@.len());
            k + 1
        },
        None => 0,
    };
    assert(c@.skip(start as int) == c@.subrange(start as int, c.len() as int));
    slice_of(&c, start, c.len())
}

fn has_slash(r: &Vec<char>) -> (b: bool)
    ensures
        b == r@.contains('/'),
{
    let mut i: usize = 0;
    while i < r.len()
        invariant
            i <= r.len(),
            forall|k: int| 0 <= k < i ==> r@[k] != '/',
        decreases r.len() - i,
    {
        if r[i] == '/' {
            assert(r@[i as int] == '/');
            return true;
        }
        i += 1;
    }
    false
}

fn resolves(slugs: &Vec<String>, r: &String) -> (b: bool)
    ensures
        b == ref_resolves(slugs.deep_view(), r@),
{
    if contains_string(slugs, r) {
        return true;
    }
    let rc = chars_of(r);
    if has_slash(&rc) {
        return false;
    }
    let mut k: usize = 0;
    while k < slugs.len()
        invariant
            k <= slugs.len(),
            rc@ == r@,
            !r@.contains('/'),
            !slugs.deep_view().contains(r@),
            forall|m: int| 0 <= m < k ==> slug_tail(#[trigger] slugs.deep_view()[m]) != r@,
        decreases slugs.len() - k,
    {
        let t = tail_of(&slugs[k]);
        assert(slugs.deep_view()[k as int] == slugs@[k as int]@);
        if chars_eq(&t, &rc) {
            assert(slug_tail(slugs.deep_view()[k as int]) == r@);
            return true;
        }
        k += 1;
    }
    false
}

/// The references among `refs` that resolve to none of `slugs`, in order.
pub fn unresolved_refs(slugs: &Vec<String>, refs: &Vec<String>) -> (r: Vec<String>)
    ensures
        r.deep_view() == unresolved_of(slugs.deep_view(), refs.deep_view()),
{
    let mut out: Vec<String> = Vec::new();
    let mut i: usize = 0;
    while i < refs.len()
        invariant
            i <= refs.len(),
            out.deep_view() == unresolved_of(slugs.deep_view(), refs.deep_view().take(i as int)),
        decreases refs.len() - i,
    {
        if !resolves(slugs, &refs[i]) {
            out.push(refs[i].clone());
        }
        assert(refs.deep_view().take(i + 1).drop_last() == refs.deep_view().take(i as int));
        assert(out.deep_view() =~= unresolved_of(slugs.deep_view(), refs.deep_view().take(i + 1)));
        i += 1;
    }
    assert(refs.deep_view().take(refs.len() as int) == refs.deep_view());
    out
}

/// The report line of a file with unresolved references.
pub open spec fn broken_line(id: Seq<char>, unresolved: Seq<Seq<char>>) -> Seq<char> {
    id + ": "@ + joined(unresolved, ", "@)
}

/// The report lines of the first `n` files: one per file with unresolved
/// references.
pub open spec fn broken_lines(files: Seq<(String, Vec<String>)>, n: int) -> Seq<Seq<char>>
    decreases n,
{
    if n <= 0 {
        seq![]
    } else {
        broken_lines(files, n - 1) + if files[n - 1].1@.len() > 0 {
            seq![broken_line(files[n - 1].0@, files[n - 1].1.deep_view())]
        } else {
            seq![]
        }
    }
}

/// What `broken-refs` prints for the files (each a slug and its unresolved
/// references): a line per file with some, or that none were found.
pub open spec fn broken_report(files: Seq<(String, Vec<String>)>) -> Seq<Seq<char>> {
    let lines = broken_lines(files, files.len() as int);
    if lines.len() == 0 {
        seq!["No broken references found."@]
    } else {
        lines
    }
}

/// The lines `broken-refs` prints.
pub fn report(files: &Vec<(String, Vec<String>)>) -> (r: Vec<String>)
    ensures
        r.deep_view() == broken_report(files@),
{
    let mut out: Vec<String> = Vec::new();
    let mut i: usize = 0;
    while i < files.len()
        invariant
            i <= files.len(),
            out.deep_view() == broken_lines(files@, i as int),
        decreases files.len() - i,
    {
        let (id, unresolved) = &files[i];
        if unresolved.len() > 0 {
            let mut line: Vec<char> = Vec::new();
            push_str(&mut line, id);
            push_str(&mut line, ": ");
            push_joined(&mut line, unresolved, ", ");
            out.push(string_of(&line));
        }
        assert(out.deep_view() =~= broken_lines(files@, i + 1));
        i += 1;
    }
    if out.len() == 0 {
        out.push("No broken references found.".to_string());
        assert(out.deep_view() =~= seq!["No broken references found."@]);
    }
    out
}

proof fn lemma_tail_is_last_segment(s: Seq<char>, r: Seq<char>)
    requires
        !r.contains('/'),
    ensures
        slug_tail(s) == r <==> (s == r || crate::text::ends_with(s, seq!['/'] + r)),
{
    lemma_last_slash(s);
    let l = last_slash(s);
    let p = seq!['/'] + r;
    assert(p[0] == '/');
    assert(p.len() == r.len() + 1);
    assert(forall|j: int| 0 <= j < r.len() ==> r[j] != '/') by {
        assert forall|j: int| 0 <= j < r.len() implies r[j] != '/' by {
            if r[j] == '/' {
                assert(r.contains('/'));
            }
        }
    }
    if crate::text::ends_with(s, p) {
        let m = s.len() - p.len();
        assert(s.skip(m)[0] == s[m]);
        assert(s[m] == '/');
        assert(l >= m);
        if l > m {
            assert(s[l] == s.skip(m)[l - m]);
            assert(p[l - m] == r[l - m - 1]);
        }
        assert(l == m);
        assert(s.skip(l + 1) =~= s.skip(m).drop_first());
        assert(slug_tail(s) == r);
    }
    if s == r {
        if l >= 0 {
            assert(r[l] == '/');
        }
        assert(s.skip(0) =~= s);
        assert(slug_tail(s) == r);
    }
    if slug_tail(s) == r {
        if l < 0 {
            assert(s.skip(0) =~= s);
            assert(s == r);
        } else {
            assert(s.len() - p.len() == l);
            assert forall|j: int| 0 <= j < p.len() implies s.skip(l)[j] == p[j] by {
                if j > 0 {
                    assert(s.skip(l)[j] == s.skip(l + 1)[j - 1]);
                }
            }
            assert(s.skip(s.len() - p.len()) =~= p);
            assert(crate::text::ends_with(s, p));
        }
    }
}

/// How references resolve, in terms of the slugs alone: a reference with a
/// `/` resolves exactly when some slug equals it; one without resolves
/// exactly when some slug equals it or ends with `/` and the reference.
pub proof fn references_resolve_by_whole_slug_or_last_segment(slugs: Seq<Seq<char>>, r: Seq<char>)
    ensures
        r.contains('/') ==> (ref_resolves(slugs, r) <==> slugs.contains(r)),
        !r.contains('/') ==> (ref_resolves(slugs, r) <==> (slugs.contains(r) || exists|k: int|
            0 <= k < slugs.len() && crate::text::ends_with(#[trigger] slugs[k], seq!['/'] + r))),
{
    if !r.contains('/') {
        assert forall|k: int| 0 <= k < slugs.len() implies (slug_tail(#[trigger] slugs[k]) == r <==> (
        slugs[k] == r || crate::text::ends_with(slugs[k], seq!['/'] + r))) by {
            lemma_tail_is_last_segment(slugs[k], r);
        }
        if exists|k: int| 0 <= k < slugs.len() && slug_tail(#[trigger] slugs[k]) == r {
            let k = choose|k: int| 0 <= k < slugs.len() && slug_tail(#[trigger] slugs[k]) == r;
            if slugs[k] == r {
                assert(slugs.contains(r));
            }
        }
        if slugs.contains(r) {
        }
    }
}

/// A reported reference is one that resolves to no slug in the terms above,
/// and every such reference is reported.
pub proof fn broken_references_are_those_nothing_matches(slugs: Seq<Seq<char>>, refs: Seq<Seq<char>>)
    ensures
        forall|x: Seq<char>|
            unresolved_of(slugs, refs).contains(x) <==> (refs.contains(x) && !slugs.contains(x) && (
            x.contains('/') || forall|k: int|
                0 <= k < slugs.len() ==> !crate::text::ends_with(#[trigger] slugs[k], seq!['/'] + x))),
    decreases refs.len(),
{
    if refs.len() > 0 {
        let p = refs.drop_last();
        broken_references_are_those_nothing_matches(slugs, p);
        let l = refs.last();
        references_resolve_by_whole_slug_or_last_segment(slugs, l);
        let u = unresolved_of(slugs, p);
        let tail: Seq<Seq<char>> = if ref_resolves(slugs, l) {
            seq![]
        } else {
            seq![l]
        };
        assert(unresolved_of(slugs, refs) == u + tail);
        assert forall|x: Seq<char>|
            unresolved_of(slugs, refs).contains(x) <==> (refs.contains(x) && !slugs.contains(x) && (
            x.contains('/') || forall|k: int|
                0 <= k < slugs.len() ==> !crate::text::ends_with(#[trigger] slugs[k], seq!['/'] + x))) by {
            references_resolve_by_whole_slug_or_last_segment(slugs, x);
            let w = u + tail;
            if w.contains(x) {
                let m = choose|m: int| 0 <= m < w.len() && w[m] == x;
                if m < u.len() {
                    assert(u[m] == x);
                    assert(u.contains(x));
                    let j = choose|j: int| 0 <= j < p.len() && p[j] == x;
                    assert(refs[j] == x);
                } else {
                    assert(x == l);
                    assert(refs[refs.len() - 1] == x);
                }
            }
            if refs.contains(x) {
                let j = choose|j: int| 0 <= j < refs.len() && refs[j] == x;
                if j < refs.len() - 1 {
                    assert(p[j] == x);
                    assert(p.contains(x));
                    if u.contains(x) {
                        let m = choose|m: int| 0 <= m < u.len() && u[m] == x;
                        assert(w[m] == x);
                    }
                } else if !ref_resolves(slugs, x) {
                    assert(w[u.len() as int] == x);
                }
            }
        }
    }
}

} // verus!
