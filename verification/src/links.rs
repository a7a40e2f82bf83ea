//! `[[slug]]` cross-reference extraction from markdown content.
use vstd::prelude::*;
use crate::text::{
    lemma_line_len_bounds, line_len,
    chars_eq, chars_of, is_ws, lemma_chars_deep_view, lemma_push_deep_view,
    lemma_push_string_deep_view, occurs_at, push_range, skip_ws, slice_of, starts_with, string_of,
    trim_start,
};

verus! {

// ---------- specification ----------

/// A line that opens or closes a fenced code block: it starts with three
/// backticks once its leading whitespace is removed.
pub open spec fn is_fence(line: Seq<char>) -> bool {
    starts_with(trim_start(line), seq!['`', '`', '`'])
}

/// `s` without fenced code blocks (fence lines included), starting in or out
/// of a fence.
pub open spec fn strip_fenced_from(s: Seq<char>, in_fence: bool) -> Seq<char>
    decreases s.len(),
{
    if s.len() == 0 {
        seq![]
    } else {
        proof {
            lemma_line_len_bounds(s);
        }
        let n = line_len(s);
        let line = s.take(n);
        let rest = s.skip(n);
        if is_fence(line) {
            strip_fenced_from(rest, !in_fence)
        } else if in_fence {
            strip_fenced_from(rest, in_fence)
        } else {
            line + strip_fenced_from(rest, in_fence)
        }
    }
}

/// What follows the first backtick of `s` (nothing if there is none).
pub open spec fn after_tick(s: Seq<char>) -> Seq<char>
    decreases s.len(),
{
    if s.len() == 0 {
        s
    } else if s[0] == '`' {
        s.drop_first()
    } else {
        after_tick(s.drop_first())
    }
}

pub proof fn lemma_after_tick_shorter(s: Seq<char>)
    ensures
        after_tick(s).len() <= s.len(),
        exists|k: int| 0 <= k <= s.len() && after_tick(s) == s.skip(k),
    decreases s.len(),
{
    if s.len() == 0 {
        assert(s.skip(0) == s);
    } else if s[0] == '`' {
        assert(s.drop_first() == s.skip(1));
    } else {
        lemma_after_tick_shorter(s.drop_first());
        let k = choose|k: int| 0 <= k <= s.drop_first().len() && after_tick(s.drop_first()) == s.drop_first().skip(k);
        assert(s.drop_first().skip(k) == s.skip(k + 1));
    }
}

/// `s` without inline code spans: a backtick drops everything up to and
/// including the next backtick, or to the end when there is none.
pub open spec fn strip_inline(s: Seq<char>) -> Seq<char>
    decreases s.len(),
{
    if s.len() == 0 {
        s
    } else if s[0] == '`' {
        proof {
            lemma_after_tick_shorter(s.drop_first());
        }
        strip_inline(after_tick(s.drop_first()))
    } else {
        seq![s[0]] + strip_inline(s.drop_first())
    }
}

/// `s` with code (fenced blocks, then inline spans) removed.
pub open spec fn strip_code(s: Seq<char>) -> Seq<char> {
    strip_inline(strip_fenced_from(s, false))
}

/// Characters allowed in a slug.
pub open spec fn is_slug_char(c: char) -> bool {
    ||| ('0' <= c && c <= '9')
    ||| ('a' <= c && c <= 'z')
    ||| ('A' <= c && c <= 'Z')
    ||| c == '-'
    ||| c == '_'
    ||| c == '.'
    ||| c == '/'
}

/// A valid slug: non-empty, only slug characters, no leading or trailing
/// `/`, and no `//`.
pub open spec fn valid_slug(s: Seq<char>) -> bool {
    &&& s.len() > 0
    &&& forall|k: int| 0 <= k < s.len() ==> is_slug_char(#[trigger] s[k])
    &&& s[0] != '/'
    &&& s.last() != '/'
    &&& !(exists|k: int| 0 <= k < s.len() - 1 && #[trigger] s[k] == '/' && s[k + 1] == '/')
}

/// The index of the first `]]` in `s` at or after `j`, or -1.
pub open spec fn close_at(s: Seq<char>, j: int) -> int
    decreases s.len() - j,
{
    if j < 0 || j + 1 >= s.len() {
        -1
    } else if s[j] == ']' && s[j + 1] == ']' {
        j
    } else {
        close_at(s, j + 1)
    }
}

pub proof fn lemma_close_at(s: Seq<char>, j: int)
    ensures
        close_at(s, j) == -1 || (j <= close_at(s, j) && close_at(s, j) + 1 < s.len()
            && s[close_at(s, j)] == ']' && s[close_at(s, j) + 1] == ']'),
    decreases s.len() - j,
{
    if j >= 0 && j + 1 < s.len() && !(s[j] == ']' && s[j + 1] == ']') {
        lemma_close_at(s, j + 1);
    }
}

/// The valid `[[slug]]` references of `s`, scanning from index `i`, in order
/// of occurrence (repeats kept). A `[[` whose text up to the next `]]` is not
/// a valid slug contributes nothing, and scanning resumes after that `]]`.
pub open spec fn links_from(s: Seq<char>, i: int) -> Seq<Seq<char>>
    decreases s.len() - i,
{
    if i < 0 || i + 1 >= s.len() {
        seq![]
    } else if s[i] == '[' && s[i + 1] == '[' && close_at(s, i + 2) >= 0 {
        proof {
            lemma_close_at(s, i + 2);
        }
        let j = close_at(s, i + 2);
        let slug = s.subrange(i + 2, j);
        (if valid_slug(slug) {
            seq![slug]
        } else {
            seq![]
        }) + links_from(s, j + 2)
    } else {
        links_from(s, i + 1)
    }
}

/// `s` without repeats, each item kept at its first occurrence.
pub open spec fn dedup(s: Seq<Seq<char>>) -> Seq<Seq<char>>
    decreases s.len(),
{
    if s.len() == 0 {
        seq![]
    } else {
        let d = dedup(s.drop_last());
        if d.contains(s.last()) {
            d
        } else {
            d.push(s.last())
        }
    }
}

/// The slugs that `extract` returns for `content`.
pub open spec fn extract_spec(content: Seq<char>) -> Seq<Seq<char>> {
    dedup(links_from(strip_code(content), 0))
}


// ---------- laws ----------

proof fn lemma_dedup(s: Seq<Seq<char>>)
    ensures
        dedup(s).no_duplicates(),
        forall|x: Seq<char>| dedup(s).contains(x) <==> s.contains(x),
    decreases s.len(),
{
    if s.len() > 0 {
        let p = s.drop_last();
        lemma_dedup(p);
        let d = dedup(p);
        assert forall|x: Seq<char>| s.contains(x) <==> (p.contains(x) || x == s.last()) by {
            if s.contains(x) {
                let k = choose|k: int| 0 <= k < s.len() && s[k] == x;
                if k < s.len() - 1 {
                    assert(p[k] == x);
                }
            }
            if p.contains(x) {
                let k = choose|k: int| 0 <= k < p.len() && p[k] == x;
                assert(s[k] == x);
            }
            if x == s.last() {
                assert(s[s.len() - 1] == x);
            }
        }
        if !d.contains(s.last()) {
            let e = d.push(s.last());
            assert forall|x: Seq<char>| e.contains(x) <==> (d.contains(x) || x == s.last()) by {
                if e.contains(x) {
                    let k = choose|k: int| 0 <= k < e.len() && e[k] == x;
                    if k < d.len() {
                        assert(d[k] == x);
                    }
                }
                if d.contains(x) {
                    let k = choose|k: int| 0 <= k < d.len() && d[k] == x;
                    assert(e[k] == x);
                }
                if x == s.last() {
                    assert(e[e.len() - 1] == x);
                }
            }
            assert forall|a: int, b: int| 0 <= a < e.len() && 0 <= b < e.len() && a != b implies e[a]
                != e[b] by {
                if a == e.len() - 1 {
                    assert(d.contains(e[b]));
                } else if b == e.len() - 1 {
                    assert(d.contains(e[a]));
                }
            }
        }
    }
}

proof fn lemma_links_valid(s: Seq<char>, i: int)
    ensures
        forall|k: int| 0 <= k < links_from(s, i).len() ==> valid_slug(#[trigger] links_from(s, i)[k]),
    decreases s.len() - i,
{
    if i < 0 || i + 1 >= s.len() {
    } else if s[i] == '[' && s[i + 1] == '[' && close_at(s, i + 2) >= 0 {
        lemma_close_at(s, i + 2);
        let j = close_at(s, i + 2);
        lemma_links_valid(s, j + 2);
        let slug = s.subrange(i + 2, j);
        let head: Seq<Seq<char>> = if valid_slug(slug) {
            seq![slug]
        } else {
            seq![]
        };
        let r = head + links_from(s, j + 2);
        assert(links_from(s, i) == r);
        assert forall|k: int| 0 <= k < r.len() implies valid_slug(#[trigger] r[k]) by {
            if k >= head.len() {
                assert(r[k] == links_from(s, j + 2)[k - head.len()]);
            } else {
                assert(r[k] == slug);
            }
        }
    } else {
        lemma_links_valid(s, i + 1);
        assert(links_from(s, i) == links_from(s, i + 1));
    }
}

proof fn lemma_links_need_bracket(s: Seq<char>, i: int)
    requires
        !s.contains('['),
    ensures
        links_from(s, i).len() == 0,
    decreases s.len() - i,
{
    if i < 0 || i + 1 >= s.len() {
    } else {
        assert(s[i] != '[');
        lemma_links_need_bracket(s, i + 1);
    }
}

proof fn lemma_fenced_subset(s: Seq<char>, f: bool, c: char)
    requires
        !s.contains(c),
    ensures
        !strip_fenced_from(s, f).contains(c),
    decreases s.len(),
{
    if s.len() > 0 {
        lemma_line_len_bounds(s);
        let n = line_len(s);
        let rest = s.skip(n);
        let line = s.take(n);
        assert(!rest.contains(c)) by {
            if rest.contains(c) {
                let k = choose|k: int| 0 <= k < rest.len() && rest[k] == c;
                assert(s[k + n] == c);
            }
        }
        assert(!line.contains(c)) by {
            if line.contains(c) {
                let k = choose|k: int| 0 <= k < line.len() && line[k] == c;
                assert(s[k] == c);
            }
        }
        lemma_fenced_subset(rest, !f, c);
        lemma_fenced_subset(rest, f, c);
        let r = line + strip_fenced_from(rest, f);
        assert(!r.contains(c)) by {
            if r.contains(c) {
                let k = choose|k: int| 0 <= k < r.len() && r[k] == c;
                if k < line.len() {
                    assert(line[k] == c);
                } else {
                    assert(strip_fenced_from(rest, f)[k - line.len()] == c);
                }
            }
        }
    }
}

proof fn lemma_inline_subset(s: Seq<char>, c: char)
    requires
        !s.contains(c),
    ensures
        !strip_inline(s).contains(c),
    decreases s.len(),
{
    if s.len() > 0 {
        let t = s.drop_first();
        assert(!t.contains(c)) by {
            if t.contains(c) {
                let k = choose|k: int| 0 <= k < t.len() && t[k] == c;
                assert(s[k + 1] == c);
            }
        }
        if s[0] == '`' {
            lemma_after_tick_shorter(t);
            let k = choose|k: int| 0 <= k <= t.len() && after_tick(t) == t.skip(k);
            assert(!t.skip(k).contains(c)) by {
                if t.skip(k).contains(c) {
                    let m = choose|m: int| 0 <= m < t.skip(k).len() && t.skip(k)[m] == c;
                    assert(t[m + k] == c);
                }
            }
            lemma_inline_subset(after_tick(t), c);
        } else {
            lemma_inline_subset(t, c);
            let r = seq![s[0]] + strip_inline(t);
            assert(!r.contains(c)) by {
                if r.contains(c) {
                    let k = choose|k: int| 0 <= k < r.len() && r[k] == c;
                    if k == 0 {
                        assert(s[0] == c);
                    } else {
                        assert(strip_inline(t)[k - 1] == c);
                    }
                }
            }
        }
    }
}

/// Every slug that `extract` returns is a valid slug, no slug is returned
/// twice, and every valid reference found outside code is returned.
pub proof fn extract_returns_each_valid_reference_once(content: Seq<char>)
    ensures
        forall|k: int|
            0 <= k < extract_spec(content).len() ==> valid_slug(#[trigger] extract_spec(content)[k]),
        extract_spec(content).no_duplicates(),
        forall|x: Seq<char>|
            links_from(strip_code(content), 0).contains(x) <==> extract_spec(content).contains(x),
{
    let found = links_from(strip_code(content), 0);
    lemma_dedup(found);
    lemma_links_valid(strip_code(content), 0);
    assert forall|k: int| 0 <= k < extract_spec(content).len() implies valid_slug(
        #[trigger] extract_spec(content)[k],
    ) by {
        let x = extract_spec(content)[k];
        assert(extract_spec(content).contains(x));
        assert(found.contains(x));
        let m = choose|m: int| 0 <= m < found.len() && found[m] == x;
        assert(valid_slug(found[m]));
    }
}

/// Content without any `[` holds no references.
pub proof fn extract_of_text_without_brackets_is_empty(content: Seq<char>)
    requires
        !content.contains('['),
    ensures
        extract_spec(content).len() == 0,
{
    lemma_fenced_subset(content, false, '[');
    lemma_inline_subset(strip_fenced_from(content, false), '[');
    lemma_links_need_bracket(strip_code(content), 0);
    assert(links_from(strip_code(content), 0) == Seq::<Seq<char>>::empty());
    assert(dedup(Seq::<Seq<char>>::empty()) == Seq::<Seq<char>>::empty());
}

// ---------- implementation ----------

/// Every distinct valid `[[slug]]` reference in `content`, in order of first
/// occurrence, ignoring fenced code blocks and inline code spans.
pub fn extract(content: &str) -> (out: Vec<String>)
    ensures
        out.deep_view() == extract_spec(content@),
{
    let chars = chars_of(content);
    let stripped = strip_code_chars(&chars);
    let found = find_links(&stripped);
    let mut uniq: Vec<Vec<char>> = Vec::new();
    let mut k: usize = 0;
    while k < found.len()
        invariant
            k <= found.len(),
            uniq.deep_view() == dedup(found.deep_view().take(k as int)),
        decreases found.len() - k,
    {
        let ghost before = found.deep_view().take(k as int);
        assert(found.deep_view().take(k + 1).drop_last() == before);
        proof {
            lemma_chars_deep_view(found@[k as int]);
        }
        if !contains_chars(&uniq, &found[k]) {
            let ghost prev = uniq;
            let item = found[k].clone();
            let ghost gi = item;
            uniq.push(item);
            proof {
                lemma_push_deep_view(prev, uniq, gi);
            }
        }
        k += 1;
    }
    assert(found.deep_view().take(found.len() as int) == found.deep_view());
    let mut out: Vec<String> = Vec::new();
    let mut m: usize = 0;
    while m < uniq.len()
        invariant
            m <= uniq.len(),
            out.deep_view() == uniq.deep_view().take(m as int),
        decreases uniq.len() - m,
    {
        let ghost prev = out;
        let item = string_of(&uniq[m]);
        let ghost gi = item;
        out.push(item);
        proof {
            lemma_push_string_deep_view(prev, out, gi);
            lemma_chars_deep_view(uniq@[m as int]);
            assert(uniq.deep_view().take(m + 1) == uniq.deep_view().take(m as int).push(
                uniq.deep_view()[m as int],
            ));
        }
        m += 1;
    }
    assert(uniq.deep_view().take(uniq.len() as int) == uniq.deep_view());
    out
}

fn contains_chars(v: &Vec<Vec<char>>, x: &Vec<char>) -> (r: bool)
    ensures
        r == v.deep_view().contains(x@),
{
    let mut i: usize = 0;
    while i < v.len()
        invariant
            i <= v.len(),
            forall|k: int| 0 <= k < i ==> v.deep_view()[k] != x@,
        decreases v.len() - i,
    {
        proof {
            lemma_chars_deep_view(v@[i as int]);
        }
        if chars_eq(&v[i], x) {
            assert(v.deep_view()[i as int] == x@);
            return true;
        }
        i += 1;
    }
    false
}

fn strip_code_chars(s: &Vec<char>) -> (out: Vec<char>)
    ensures
        out@ == strip_code(s@),
{
    let no_fences = strip_fenced(s);
    strip_inline_chars(&no_fences)
}

fn strip_fenced(s: &Vec<char>) -> (out: Vec<char>)
    ensures
        out@ == strip_fenced_from(s@, false),
{
    let mut out: Vec<char> = Vec::new();
    let mut in_fence = false;
    let mut i: usize = 0;
    assert(s@.skip(0) == s@);
    while i < s.len()
        invariant
            i <= s.len(),
            out@ + strip_fenced_from(s@.skip(i as int), in_fence) == strip_fenced_from(s@, false),
        decreases s.len() - i,
    {
        let ghost t = s@.skip(i as int);
        // find the end of the line starting at i
        let mut j = i;
        while j < s.len() && s[j] != '\n'
            invariant
                i <= j <= s.len(),
                line_len(t) == (j - i) + line_len(s@.skip(j as int)),
            decreases s.len() - j,
        {
            assert(s@.skip(j as int).drop_first() == s@.skip(j + 1));
            j += 1;
        }
        let e = if j < s.len() {
            j + 1
        } else {
            j
        };
        assert(line_len(t) == e - i) by {
            if j < s.len() {
                assert(s@.skip(j as int)[0] == '\n');
            } else {
                assert(s@.skip(j as int).len() == 0);
            }
        }
        assert(t.take(e - i) == s@.subrange(i as int, e as int));
        assert(t.skip(e - i) == s@.skip(e as int));
        let k = skip_ws(s, i, e);
        let tick = vec!['`', '`', '`'];
        let fence = occurs_at(s, k, &tick) && k + 3 <= e;
        proof {
            let line = s@.subrange(i as int, e as int);
            let tl = s@.subrange(k as int, e as int);
            assert(trim_start(line) == tl);
            if k + 3 <= e {
                assert(s@.skip(k as int).take(3) == tl.take(3));
            }
            assert(fence == is_fence(line));
        }
        if fence {
            in_fence = !in_fence;
        } else if !in_fence {
            push_range(&mut out, s, i, e);
            assert(out@ + strip_fenced_from(s@.skip(e as int), in_fence) == strip_fenced_from(
                s@,
                false,
            ));
        }
        i = e;
    }
    assert(s@.skip(s.len() as int).len() == 0);
    assert(out@ + Seq::<char>::empty() == out@);
    out
}

fn strip_inline_chars(s: &Vec<char>) -> (out: Vec<char>)
    ensures
        out@ == strip_inline(s@),
{
    let mut out: Vec<char> = Vec::new();
    let mut i: usize = 0;
    assert(s@.skip(0) == s@);
    while i < s.len()
        invariant
            i <= s.len(),
            out@ + strip_inline(s@.skip(i as int)) == strip_inline(s@),
        decreases s.len() - i,
    {
        let ghost t = s@.skip(i as int);
        if s[i] == '`' {
            let mut j = i + 1;
            proof {
                assert(t.drop_first() == s@.skip(i + 1));
            }
            while j < s.len() && s[j] != '`'
                invariant
                    i + 1 <= j <= s.len(),
                    after_tick(t.drop_first()) == after_tick(s@.skip(j as int)),
                decreases s.len() - j,
            {
                assert(s@.skip(j as int).drop_first() == s@.skip(j + 1));
                j += 1;
            }
            let next = if j < s.len() {
                j + 1
            } else {
                j
            };
            assert(after_tick(s@.skip(j as int)) == s@.skip(next as int)) by {
                if j < s.len() {
                    assert(s@.skip(j as int).drop_first() == s@.skip(j + 1));
                } else {
                    assert(s@.skip(j as int).len() == 0);
                }
            }
            i = next;
        } else {
            out.push(s[i]);
            assert(t.drop_first() == s@.skip(i + 1));
            assert(strip_inline(t) == seq![s@[i as int]] + strip_inline(s@.skip(i + 1)));
            assert(out@ + strip_inline(s@.skip(i + 1)) == strip_inline(s@));
            i += 1;
        }
    }
    assert(s@.skip(s.len() as int).len() == 0);
    assert(out@ + Seq::<char>::empty() == out@);
    out
}

fn is_slug_char_exec(c: char) -> (b: bool)
    ensures
        b == is_slug_char(c),
{
    ('0' <= c && c <= '9') || ('a' <= c && c <= 'z') || ('A' <= c && c <= 'Z') || c == '-' || c
        == '_' || c == '.' || c == '/'
}

fn is_valid_slug(s: &Vec<char>, lo: usize, hi: usize) -> (b: bool)
    requires
        lo <= hi <= s.len(),
    ensures
        b == valid_slug(s@.subrange(lo as int, hi as int)),
{
    let ghost t = s@.subrange(lo as int, hi as int);
    if lo == hi {
        return false;
    }
    let mut k = lo;
    while k < hi
        invariant
            lo <= k <= hi <= s.len(),
            t == s@.subrange(lo as int, hi as int),
            forall|m: int| 0 <= m < k - lo ==> is_slug_char(#[trigger] t[m]),
            forall|m: int|
                0 <= m < k - lo && m + 1 < t.len() ==> !(#[trigger] t[m] == '/' && t[m + 1] == '/'),
        decreases hi - k,
    {
        if !is_slug_char_exec(s[k]) {
            assert(!is_slug_char(t[k - lo]));
            return false;
        }
        assert(t[k - lo] == s@[k as int]);
        if k + 1 < hi && s[k] == '/' && s[k + 1] == '/' {
            assert(t[k - lo] == '/' && t[k - lo + 1] == '/');
            return false;
        }
        proof {
            if k + 1 < hi {
                assert(t[k - lo + 1] == s@[k + 1]);
            }
        }
        k += 1;
    }
    assert(t[0] == s@[lo as int]);
    assert(t.last() == s@[hi - 1]);
    s[lo] != '/' && s[hi - 1] != '/'
}

fn find_links(s: &Vec<char>) -> (out: Vec<Vec<char>>)
    ensures
        out.deep_view() == links_from(s@, 0),
{
    let mut out: Vec<Vec<char>> = Vec::new();
    let mut i: usize = 0;
    while s.len() > 0 && i < s.len() - 1
        invariant
            out.deep_view() + links_from(s@, i as int) == links_from(s@, 0),
        decreases s.len() - i,
    {
        if s[i] == '[' && s[i + 1] == '[' {
            let start = i + 2;
            let mut j = start;
            while j < s.len() - 1 && !(s[j] == ']' && s[j + 1] == ']')
                invariant
                    start <= j,
                    start == i + 2,
                    i + 1 < s.len(),
                    close_at(s@, start as int) == close_at(s@, j as int),
                decreases s.len() - j,
            {
                j += 1;
            }
            if j < s.len() - 1 {
                assert(close_at(s@, j as int) == j);
                let ghost slug = s@.subrange(start as int, j as int);
                if is_valid_slug(s, start, j) {
                    let ghost prev = out;
                    let v = slice_of(s, start, j);
                    let ghost gv = v;
                    out.push(v);
                    proof {
                        lemma_push_deep_view(prev, out, gv);
                    }
                }
                proof {
                    assert(links_from(s@, i as int) == (if valid_slug(slug) {
                        seq![slug]
                    } else {
                        seq![]
                    }) + links_from(s@, j + 2));
                }
                i = j + 2;
                continue;
            } else {
                assert(close_at(s@, start as int) == -1);
            }
        }
        i += 1;
    }
    out
}

proof fn lemma_tick_free_tail(a: Seq<char>)
    requires
        !a.contains('`'),
        a.len() > 0,
    ensures
        a[0] != '`',
        !a.drop_first().contains('`'),
{
    assert(a[0] != '`') by {
        if a[0] == '`' {
            assert(a.contains('`'));
        }
    }
    assert(!a.drop_first().contains('`')) by {
        if a.drop_first().contains('`') {
            let w = choose|w: int| 0 <= w < a.drop_first().len() && a.drop_first()[w] == '`';
            assert(a[w + 1] == '`');
        }
    }
}

proof fn lemma_after_tick_skips(a: Seq<char>, b: Seq<char>)
    requires
        !a.contains('`'),
    ensures
        after_tick(a + seq!['`'] + b) == b,
        after_tick(a) == Seq::<char>::empty(),
    decreases a.len(),
{
    if a.len() == 0 {
        assert(a + seq!['`'] + b =~= seq!['`'] + b);
        assert((seq!['`'] + b).drop_first() =~= b);
    } else {
        lemma_tick_free_tail(a);
        lemma_after_tick_skips(a.drop_first(), b);
        assert((a + seq!['`'] + b).drop_first() =~= a.drop_first() + seq!['`'] + b);
    }
}

/// Inline code spans leave the text around them: text without a backtick is
/// kept, a span from a backtick to the next one is dropped whole, and a
/// backtick that no other follows drops the rest of the text.
pub proof fn inline_code_spans_are_dropped(a: Seq<char>, b: Seq<char>)
    requires
        !a.contains('`'),
    ensures
        strip_inline(a + b) == a + strip_inline(b),
        strip_inline(seq!['`'] + a + seq!['`'] + b) == strip_inline(b),
        strip_inline(seq!['`'] + a) == Seq::<char>::empty(),
    decreases a.len(),
{
    lemma_after_tick_skips(a, b);
    assert((seq!['`'] + a + seq!['`'] + b).drop_first() =~= a + seq!['`'] + b);
    assert((seq!['`'] + a).drop_first() =~= a);
    assert((seq!['`'] + a)[0] == '`');
    assert(strip_inline(seq!['`'] + a) == strip_inline(after_tick(a)));
    assert(strip_inline(Seq::<char>::empty()) == Seq::<char>::empty());
    if a.len() == 0 {
        assert(a + b =~= b);
    } else {
        lemma_tick_free_tail(a);
        inline_code_spans_are_dropped(a.drop_first(), b);
        assert((a + b).drop_first() =~= a.drop_first() + b);
        assert(seq![a[0]] + (a.drop_first() + strip_inline(b)) =~= a + strip_inline(b));
    }
}

/// Text with inline code stripped holds no backtick.
pub proof fn stripped_text_has_no_backtick(s: Seq<char>)
    ensures
        !strip_inline(s).contains('`'),
    decreases s.len(),
{
    if s.len() > 0 {
        if s[0] == '`' {
            lemma_after_tick_shorter(s.drop_first());
            stripped_text_has_no_backtick(after_tick(s.drop_first()));
        } else {
            stripped_text_has_no_backtick(s.drop_first());
            let r = strip_inline(s.drop_first());
            assert(!(seq![s[0]] + r).contains('`')) by {
                if (seq![s[0]] + r).contains('`') {
                    let w = choose|w: int| 0 <= w < (seq![s[0]] + r).len() && (seq![s[0]] + r)[w] == '`';
                    if w > 0 {
                        assert(r[w - 1] == '`');
                    }
                }
            }
        }
    }
}

/// `r` can be had from `s` by leaving characters out.
pub open spec fn is_subsequence(r: Seq<char>, s: Seq<char>) -> bool
    decreases s.len(),
{
    if r.len() == 0 {
        true
    } else if s.len() == 0 {
        false
    } else {
        (r[0] == s[0] && is_subsequence(r.drop_first(), s.drop_first())) || is_subsequence(
            r,
            s.drop_first(),
        )
    }
}

proof fn lemma_subsequence_of_suffix(r: Seq<char>, s: Seq<char>, k: int)
    requires
        0 <= k <= s.len(),
        is_subsequence(r, s.skip(k)),
    ensures
        is_subsequence(r, s),
    decreases k,
{
    if k > 0 {
        assert(s.drop_first().skip(k - 1) =~= s.skip(k));
        lemma_subsequence_of_suffix(r, s.drop_first(), k - 1);
    } else {
        assert(s.skip(0) =~= s);
    }
}

proof fn lemma_strip_inline_subsequence(s: Seq<char>)
    ensures
        is_subsequence(strip_inline(s), s),
    decreases s.len(),
{
    if s.len() > 0 {
        if s[0] == '`' {
            let t = s.drop_first();
            lemma_after_tick_shorter(t);
            let k = choose|k: int| 0 <= k <= t.len() && after_tick(t) == t.skip(k);
            lemma_strip_inline_subsequence(after_tick(t));
            assert(t.skip(k) =~= s.skip(k + 1));
            lemma_subsequence_of_suffix(strip_inline(s), s, k + 1);
        } else {
            lemma_strip_inline_subsequence(s.drop_first());
            let r = strip_inline(s);
            assert(r == seq![s[0]] + strip_inline(s.drop_first()));
            assert(r.drop_first() =~= strip_inline(s.drop_first()));
        }
    }
}

/// Stripping inline code leaves no backtick and only leaves characters out;
/// text without a backtick is kept whole, and text with a single backtick
/// is cut just before it.
pub proof fn inline_code_stripping(s: Seq<char>)
    ensures
        !strip_inline(s).contains('`'),
        is_subsequence(strip_inline(s), s),
        !s.contains('`') ==> strip_inline(s) == s,
        forall|k: int|
            0 <= k < s.len() && s[k] == '`' && (forall|j: int|
                0 <= j < s.len() && j != k ==> #[trigger] s[j] != '`') ==> #[trigger] strip_inline(s)
                == s.take(k),
{
    stripped_text_has_no_backtick(s);
    lemma_strip_inline_subsequence(s);
    if !s.contains('`') {
        inline_code_spans_are_dropped(s, Seq::<char>::empty());
        assert(s + Seq::<char>::empty() =~= s);
        assert(strip_inline(Seq::<char>::empty()) == Seq::<char>::empty());
    }
    assert forall|k: int|
        0 <= k < s.len() && s[k] == '`' && (forall|j: int|
            0 <= j < s.len() && j != k ==> #[trigger] s[j] != '`') implies #[trigger] strip_inline(s)
        == s.take(k) by {
        let a = s.take(k);
        let b = s.skip(k + 1);
        assert(!a.contains('`')) by {
            if a.contains('`') {
                let w = choose|w: int| 0 <= w < a.len() && a[w] == '`';
                assert(s[w] == '`');
            }
        }
        assert(!b.contains('`')) by {
            if b.contains('`') {
                let w = choose|w: int| 0 <= w < b.len() && b[w] == '`';
                assert(s[k + 1 + w] == '`');
            }
        }
        assert(s =~= a + (seq!['`'] + b));
        inline_code_spans_are_dropped(a, seq!['`'] + b);
        inline_code_spans_are_dropped(b, Seq::<char>::empty());
        assert(a + Seq::<char>::empty() =~= a);
    }
}

proof fn lemma_no_fences(s: Seq<char>)
    requires
        !s.contains('`'),
    ensures
        strip_fenced_from(s, false) == s,
    decreases s.len(),
{
    if s.len() > 0 {
        lemma_line_len_bounds(s);
        let n = line_len(s);
        let line = s.take(n);
        let rest = s.skip(n);
        assert(!is_fence(line)) by {
            crate::text::lemma_trim_start_suffix(line);
            let t = trim_start(line);
            if is_fence(line) {
                assert(t.take(3)[0] == '`');
                let j = line.len() - t.len();
                assert(t[0] == line[j]);
                assert(s[j] == '`');
            }
        }
        assert(!rest.contains('`')) by {
            if rest.contains('`') {
                let k = choose|k: int| 0 <= k < rest.len() && rest[k] == '`';
                assert(s[k + n] == '`');
            }
        }
        lemma_no_fences(rest);
        assert(line + rest =~= s);
    }
}

proof fn lemma_close_at_run(s: Seq<char>, j: int, c: int)
    requires
        0 <= j <= c,
        c + 1 < s.len(),
        s[c] == ']' && s[c + 1] == ']',
        forall|m: int| j <= m < c ==> s[m] != ']',
    ensures
        close_at(s, j) == c,
    decreases c - j,
{
    if j < c {
        lemma_close_at_run(s, j + 1, c);
    }
}

proof fn lemma_links_skip_plain(s: Seq<char>, i: int, e: int)
    requires
        0 <= i <= e,
        e + 1 < s.len(),
        forall|m: int| i <= m < e ==> s[m] != '[',
    ensures
        links_from(s, i) == links_from(s, e),
    decreases e - i,
{
    if i < e {
        lemma_links_skip_plain(s, i + 1, e);
    }
}

/// The characters a reference may hold, written out: ASCII letters,
/// digits, `-`, `_`, `.` and `/`.
pub open spec fn reference_char(c: char) -> bool {
    if c == '-' || c == '_' || c == '.' || c == '/' {
        true
    } else {
        ('0' <= c && c <= '9') || ('a' <= c && c <= 'z') || ('A' <= c && c <= 'Z')
    }
}

proof fn lemma_code_free(t: Seq<char>)
    requires
        !t.contains('`'),
    ensures
        strip_code(t) == t,
{
    lemma_no_fences(t);
    inline_code_stripping(t);
}

proof fn lemma_written_out_slug_is_valid(s: Seq<char>)
    requires
        s.len() > 0,
        forall|k: int| 0 <= k < s.len() ==> reference_char(#[trigger] s[k]),
        s[0] != '/',
        s.last() != '/',
        forall|k: int| 0 <= k < s.len() - 1 ==> !(#[trigger] s[k] == '/' && s[k + 1] == '/'),
    ensures
        valid_slug(s),
        forall|k: int| 0 <= k < s.len() ==> #[trigger] s[k] != ']' && s[k] != '[',
{
    assert forall|k: int| 0 <= k < s.len() implies is_slug_char(#[trigger] s[k]) by {
        assert(reference_char(s[k]));
    }
    assert forall|k: int| 0 <= k < s.len() implies #[trigger] s[k] != ']' && s[k] != '[' by {
        assert(reference_char(s[k]));
    }
}

proof fn lemma_reference_found(t: Seq<char>, e: int, s: Seq<char>)
    requires
        0 <= e,
        e + s.len() + 3 < t.len(),
        forall|m: int| 0 <= m < e ==> #[trigger] t[m] != '[',
        t[e] == '[' && t[e + 1] == '[',
        t.subrange(e + 2, e + 2 + s.len()) == s,
        t[e + 2 + s.len()] == ']' && t[e + 3 + s.len()] == ']',
        valid_slug(s),
        forall|k: int| 0 <= k < s.len() ==> #[trigger] s[k] != ']',
    ensures
        links_from(t, 0).contains(s),
{
    let c = e + 2 + s.len();
    lemma_links_skip_plain(t, 0, e);
    assert forall|m: int| e + 2 <= m < c implies t[m] != ']' by {
        assert(t[m] == t.subrange(e + 2, c)[m - e - 2]);
    }
    lemma_close_at_run(t, e + 2, c);
    let found = links_from(t, 0);
    assert(found == seq![s] + links_from(t, c + 2));
    assert(found[0] == s);
}

/// A reference whose text is non-empty, made only of ASCII letters, digits,
/// `-`, `_`, `.` and `/`, neither starting nor ending with `/` and without
/// `//`, is among what `extract` returns, when it stands in text without
/// backticks after text without `[`.
pub proof fn plain_reference_is_extracted(a: Seq<char>, s: Seq<char>, b: Seq<char>)
    requires
        !a.contains('['),
        !(a + seq!['[', '['] + s + seq![']', ']'] + b).contains('`'),
        s.len() > 0,
        forall|k: int| 0 <= k < s.len() ==> reference_char(#[trigger] s[k]),
        s[0] != '/',
        s.last() != '/',
        forall|k: int| 0 <= k < s.len() - 1 ==> !(#[trigger] s[k] == '/' && s[k + 1] == '/'),
    ensures
        extract_spec(a + seq!['[', '['] + s + seq![']', ']'] + b).contains(s),
{
    let t = a + seq!['[', '['] + s + seq![']', ']'] + b;
    lemma_code_free(t);
    lemma_written_out_slug_is_valid(s);
    let e = a.len() as int;
    assert forall|m: int| 0 <= m < e implies #[trigger] t[m] != '[' by {
        assert(t[m] == a[m]);
        if a[m] == '[' {
            assert(a.contains('['));
        }
    }
    assert(t.subrange(e + 2, e + 2 + s.len()) =~= s);
    assert(t[e] == '[' && t[e + 1] == '[');
    assert(t[e + 2 + s.len()] == ']' && t[e + 3 + s.len()] == ']');
    lemma_reference_found(t, e, s);
    lemma_dedup(links_from(t, 0));
}

} // verus!
