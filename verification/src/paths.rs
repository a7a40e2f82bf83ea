//! Unix path text, held as character sequences: joining, components,
//! prefix stripping and parents, following `std::path`: a stripped prefix
//! and a parent are, as there, parts of the text of the path itself.
use vstd::prelude::*;
use crate::text::{chars_of, lemma_chars_deep_view, lemma_push_deep_view, push_all, slice_of, string_of};

verus! {

/// A path that starts at the root.
pub open spec fn is_absolute(p: Seq<char>) -> bool {
    p.len() > 0 && p[0] == '/'
}

/// `base.join(p)`: an absolute `p` replaces `base`; otherwise `p` is appended
/// after a separator (none is added to an empty base or one that ends in `/`).
pub open spec fn join(base: Seq<char>, p: Seq<char>) -> Seq<char> {
    if is_absolute(p) {
        p
    } else if base.len() == 0 {
        p
    } else if base.last() == '/' {
        base + p
    } else {
        base + seq!['/'] + p
    }
}

/// The component that stands for the root directory.
pub open spec fn root_component() -> Seq<char> {
    seq!['/']
}

/// The component that stands for a leading `.`.
pub open spec fn cur_component() -> Seq<char> {
    seq!['.']
}

/// Adds a finished segment to the components, unless it is empty or `.`.
pub open spec fn flush(acc: Seq<Seq<char>>, seg: Seq<char>) -> Seq<Seq<char>> {
    if seg.len() == 0 || seg == cur_component() {
        acc
    } else {
        acc.push(seg)
    }
}

/// The state after scanning the first `n` characters of `s`: the finished
/// normal components and the segment being read.
pub open spec fn scan(s: Seq<char>, n: int) -> (Seq<Seq<char>>, Seq<char>)
    decreases n,
{
    if n <= 0 {
        (seq![], seq![])
    } else {
        let (acc, seg) = scan(s, n - 1);
        if s[n - 1] == '/' {
            (flush(acc, seg), seq![])
        } else {
            (acc, seg.push(s[n - 1]))
        }
    }
}

/// The segments of `s` between separators, without empty and `.` segments.
pub open spec fn normal_components(s: Seq<char>) -> Seq<Seq<char>> {
    flush(scan(s, s.len() as int).0, scan(s, s.len() as int).1)
}

/// `s` is `.` or starts with `./`.
pub open spec fn starts_with_cur(s: Seq<char>) -> bool {
    s.len() > 0 && s[0] == '.' && (s.len() == 1 || s[1] == '/')
}

/// `Path::components`: the root (as `/`), a leading `.`, then the normal
/// segments. Repeated separators, inner `.` segments and trailing
/// separators do not show.
pub open spec fn components(s: Seq<char>) -> Seq<Seq<char>> {
    (if is_absolute(s) {
        seq![root_component()]
    } else if starts_with_cur(s) {
        seq![cur_component()]
    } else {
        seq![]
    }) + normal_components(s)
}

/// The components joined by `/`.
pub open spec fn join_slash(cs: Seq<Seq<char>>) -> Seq<char>
    decreases cs.len(),
{
    if cs.len() == 0 {
        seq![]
    } else if cs.len() == 1 {
        cs[0]
    } else {
        join_slash(cs.drop_last()) + seq!['/'] + cs.last()
    }
}

/// The text of a path made of the given components.
pub open spec fn render(cs: Seq<Seq<char>>) -> Seq<char> {
    if cs.len() > 0 && cs[0] == root_component() {
        seq!['/'] + join_slash(cs.drop_first())
    } else {
        join_slash(cs)
    }
}

/// The number of characters before the first `/` of `t` (all of them when
/// `t` has none).
pub open spec fn first_slash(t: Seq<char>) -> int
    decreases t.len(),
{
    if t.len() == 0 || t[0] == '/' {
        0
    } else {
        1 + first_slash(t.skip(1))
    }
}

/// A segment that `Path::components` yields: neither empty nor `.`.
pub open spec fn is_normal_segment(seg: Seq<char>) -> bool {
    seg.len() > 0 && seg != cur_component()
}

/// What follows the segment that `t` starts with and the separator after it.
pub open spec fn after_segment(t: Seq<char>) -> Seq<char> {
    if first_slash(t) < t.len() {
        t.skip(first_slash(t) + 1)
    } else {
        seq![]
    }
}

/// The text left of `t` once `k` components have been read off its front:
/// each segment is read together with the separator after it, and empty
/// and `.` segments count for nothing.
pub open spec fn skip_components(t: Seq<char>, k: nat) -> Seq<char>
    decreases t.len(),
{
    if k == 0 || t.len() == 0 {
        t
    } else {
        proof {
            lemma_first_slash(t);
        }
        if is_normal_segment(t.take(first_slash(t))) {
            skip_components(after_segment(t), (k - 1) as nat)
        } else {
            skip_components(after_segment(t), k)
        }
    }
}

/// `t` without the empty and `.` segments it starts with, each taken with
/// its separator.
pub open spec fn trim_front(t: Seq<char>) -> Seq<char>
    decreases t.len(),
{
    if t.len() > 0 && t[0] == '/' {
        trim_front(t.skip(1))
    } else if t == cur_component() {
        seq![]
    } else if t.len() >= 2 && t[0] == '.' && t[1] == '/' {
        trim_front(t.skip(2))
    } else {
        t
    }
}

/// `t` without the empty and `.` segments it ends with, each taken with
/// its separator; its first `keep` characters stay.
pub open spec fn trim_back(t: Seq<char>, keep: int) -> Seq<char>
    decreases t.len(),
{
    if t.len() > keep && t.len() > 0 && t.last() == '/' {
        trim_back(t.drop_last(), keep)
    } else if t.len() == keep + 1 && t.len() > 0 && t.last() == '.' {
        t.drop_last()
    } else if t.len() >= keep + 2 && t.len() >= 2 && t.last() == '.' && t[t.len() - 2] == '/' {
        trim_back(t.take(t.len() - 2), keep)
    } else {
        t
    }
}

/// The characters of the component a path starts with when that is the
/// root or `.`: one; none otherwise.
pub open spec fn lead_len(p: Seq<char>) -> int {
    if is_absolute(p) || starts_with_cur(p) {
        1
    } else {
        0
    }
}

/// `path.strip_prefix(base)`: defined when the components of `base` begin
/// the components of `path`. The result is the text of `path` after those
/// components, without the empty and `.` segments at either end; an empty
/// `base` leaves `path` whole but for such segments at its end.
pub open spec fn strip_prefix(path: Seq<char>, base: Seq<char>) -> Option<Seq<char>> {
    let pc = components(path);
    let bc = components(base);
    if bc.len() <= pc.len() && pc.take(bc.len() as int) == bc {
        if bc.len() == 0 {
            Some(trim_back(path, lead_len(path)))
        } else {
            let body = path.skip(lead_len(path));
            Some(
                trim_back(
                    trim_front(skip_components(body, (bc.len() - lead_len(path)) as nat)),
                    0,
                ),
            )
        }
    } else {
        None
    }
}

/// `t` without its last segment and the separator before it; its first
/// `keep` characters stay.
pub open spec fn drop_segment(t: Seq<char>, keep: int) -> Seq<char>
    decreases t.len(),
{
    if t.len() <= keep || t.len() == 0 {
        t
    } else if t.last() == '/' {
        t.drop_last()
    } else {
        drop_segment(t.drop_last(), keep)
    }
}

/// `path.parent()`: none for a path without components and for the root
/// alone; empty for a path whose only component is `.`; otherwise the text
/// of `path` before its last component, without the empty and `.` segments
/// at its end.
pub open spec fn parent(path: Seq<char>) -> Option<Seq<char>> {
    let cs = components(path);
    let keep = lead_len(path);
    if cs.len() == 0 || cs.last() == root_component() {
        None
    } else if normal_components(path).len() == 0 {
        Some(seq![])
    } else {
        Some(trim_back(drop_segment(trim_back(path, keep), keep), keep))
    }
}

// ---------- facts about components ----------

/// One step of the scan: a separator closes the segment being read.
pub open spec fn scan_step(st: (Seq<Seq<char>>, Seq<char>), c: char) -> (Seq<Seq<char>>, Seq<char>) {
    if c == '/' {
        (flush(st.0, st.1), seq![])
    } else {
        (st.0, st.1.push(c))
    }
}

/// The scan continued from state `st` over the first `k` characters of `b`.
pub open spec fn scan_from(st: (Seq<Seq<char>>, Seq<char>), b: Seq<char>, k: int) -> (
    Seq<Seq<char>>,
    Seq<char>,
)
    decreases k,
{
    if k <= 0 {
        st
    } else {
        scan_step(scan_from(st, b, k - 1), b[k - 1])
    }
}

proof fn lemma_scan_prefix(a: Seq<char>, b: Seq<char>, n: int)
    requires
        0 <= n <= a.len(),
    ensures
        scan(a + b, n) == scan(a, n),
    decreases n,
{
    if n > 0 {
        lemma_scan_prefix(a, b, n - 1);
        assert((a + b)[n - 1] == a[n - 1]);
    }
}

proof fn lemma_scan_concat(a: Seq<char>, b: Seq<char>, k: int)
    requires
        0 <= k <= b.len(),
    ensures
        scan(a + b, a.len() + k) == scan_from(scan(a, a.len() as int), b, k),
    decreases k,
{
    if k == 0 {
        lemma_scan_prefix(a, b, a.len() as int);
    } else {
        lemma_scan_concat(a, b, k - 1);
        assert((a + b)[a.len() + k - 1] == b[k - 1]);
    }
}

proof fn lemma_scan_from_fresh(acc: Seq<Seq<char>>, b: Seq<char>, k: int)
    requires
        0 <= k <= b.len(),
    ensures
        scan_from((acc, seq![]), b, k) == (acc + scan(b, k).0, scan(b, k).1),
    decreases k,
{
    if k > 0 {
        lemma_scan_from_fresh(acc, b, k - 1);
        let (x, seg) = scan(b, k - 1);
        if seg.len() == 0 || seg == cur_component() {
        } else {
            assert((acc + x).push(seg) == acc + x.push(seg));
        }
    } else {
        assert(acc + Seq::<Seq<char>>::empty() == acc);
    }
}

proof fn lemma_normal_components_concat(a: Seq<char>, b: Seq<char>)
    requires
        scan(a, a.len() as int).1 == Seq::<char>::empty(),
    ensures
        normal_components(a + b) == normal_components(a) + normal_components(b),
{
    let x = scan(a, a.len() as int).0;
    lemma_scan_concat(a, b, b.len() as int);
    lemma_scan_from_fresh(x, b, b.len() as int);
    assert((a + b).len() == a.len() + b.len());
    let (y, seg) = scan(b, b.len() as int);
    if seg.len() == 0 || seg == cur_component() {
    } else {
        assert((x + y).push(seg) == x + y.push(seg));
    }
}

/// `first_slash(t)` is the index of the first `/` of `t`, or its length.
pub proof fn lemma_first_slash(t: Seq<char>)
    ensures
        0 <= first_slash(t) <= t.len(),
        forall|j: int| 0 <= j < first_slash(t) ==> t[j] != '/',
        first_slash(t) < t.len() ==> t[first_slash(t)] == '/',
    decreases t.len(),
{
    if t.len() > 0 && t[0] != '/' {
        lemma_first_slash(t.skip(1));
        assert forall|j: int| 0 <= j < first_slash(t) implies t[j] != '/' by {
            if j > 0 {
                assert(t[j] == t.skip(1)[j - 1]);
            }
        }
        if first_slash(t) < t.len() {
            assert(t[first_slash(t)] == t.skip(1)[first_slash(t) - 1]);
        }
    }
}

/// An index before which `t` has no `/`, and at which it has one or ends,
/// is `first_slash(t)`.
proof fn lemma_first_slash_at(t: Seq<char>, e: int)
    requires
        0 <= e <= t.len(),
        forall|j: int| 0 <= j < e ==> t[j] != '/',
        e < t.len() ==> t[e] == '/',
    ensures
        first_slash(t) == e,
    decreases e,
{
    if e > 0 {
        assert(t[0] != '/');
        assert forall|j: int| 0 <= j < e - 1 implies t.skip(1)[j] != '/' by {
            assert(t.skip(1)[j] == t[j + 1]);
        }
        if e - 1 < t.skip(1).len() {
            assert(t.skip(1)[e - 1] == t[e]);
        }
        lemma_first_slash_at(t.skip(1), e - 1);
    }
}

proof fn lemma_scan_no_slash(x: Seq<char>, n: int)
    requires
        0 <= n <= x.len(),
        forall|j: int| 0 <= j < n ==> x[j] != '/',
    ensures
        scan(x, n) == (Seq::<Seq<char>>::empty(), x.take(n)),
    decreases n,
{
    if n > 0 {
        lemma_scan_no_slash(x, n - 1);
        assert(x.take(n - 1).push(x[n - 1]) =~= x.take(n));
    } else {
        assert(x.take(0) =~= Seq::<char>::empty());
    }
}

/// The normal components of `t` are those of its first segment followed by
/// those of the rest; the segment being read at the end is the same.
proof fn lemma_segment_split(t: Seq<char>)
    ensures
        normal_components(t) == flush(seq![], t.take(first_slash(t))) + normal_components(
            after_segment(t),
        ),
        first_slash(t) < t.len() ==> scan(t, t.len() as int).1 == scan(
            after_segment(t),
            after_segment(t).len() as int,
        ).1,
{
    lemma_first_slash(t);
    let e = first_slash(t);
    let seg = t.take(e);
    if e < t.len() {
        let a = seg.push('/');
        let rest = t.skip(e + 1);
        assert(a + rest =~= t);
        assert forall|j: int| 0 <= j < e implies seg[j] != '/' by {
            assert(seg[j] == t[j]);
        }
        lemma_scan_no_slash(seg, e);
        assert(seg.take(e) =~= seg);
        assert(seg + seq!['/'] =~= a);
        lemma_scan_prefix(seg, seq!['/'], e);
        assert(a[e] == '/');
        assert(scan(a, a.len() as int) == (flush(seq![], seg), Seq::<char>::empty()));
        lemma_normal_components_concat(a, rest);
        assert(normal_components(a) == flush(seq![], seg));
        lemma_scan_concat(a, rest, rest.len() as int);
        lemma_scan_from_fresh(flush(seq![], seg), rest, rest.len() as int);
        assert((a + rest).len() == a.len() + rest.len());
    } else {
        assert(seg =~= t);
        lemma_scan_no_slash(t, t.len() as int);
        assert(t.take(t.len() as int) =~= t);
        assert(scan(Seq::<char>::empty(), 0) == (
            Seq::<Seq<char>>::empty(),
            Seq::<char>::empty(),
        ));
        assert(normal_components(seq![]) =~= Seq::<Seq<char>>::empty());
        assert(flush(seq![], seg) + Seq::<Seq<char>>::empty() =~= flush(seq![], seg));
    }
}

/// Every character of `c` is other than `/`.
pub open spec fn no_slash(c: Seq<char>) -> bool {
    forall|j: int| 0 <= j < c.len() ==> c[j] != '/'
}

proof fn lemma_scan_clean(s: Seq<char>, n: int)
    requires
        0 <= n <= s.len(),
    ensures
        forall|i: int|
            0 <= i < scan(s, n).0.len() ==> is_normal_segment(#[trigger] scan(s, n).0[i])
                && no_slash(scan(s, n).0[i]),
        no_slash(scan(s, n).1),
    decreases n,
{
    if n > 0 {
        lemma_scan_clean(s, n - 1);
        let (acc, seg) = scan(s, n - 1);
        if s[n - 1] != '/' {
            let ext = seg.push(s[n - 1]);
            assert forall|j: int| 0 <= j < ext.len() implies #[trigger] ext[j] != '/' by {
                if j < seg.len() {
                    assert(ext[j] == seg[j]);
                }
            }
        }
    }
}

/// The normal components are neither empty nor `.`, and hold no `/`.
proof fn lemma_normal_clean(s: Seq<char>)
    ensures
        forall|i: int|
            0 <= i < normal_components(s).len() ==> is_normal_segment(
                #[trigger] normal_components(s)[i],
            ) && no_slash(normal_components(s)[i]),
{
    lemma_scan_clean(s, s.len() as int);
}

/// A relative path that renders back from its own components has nothing to
/// trim at either end.
proof fn lemma_plain_trims(r: Seq<char>)
    requires
        !is_absolute(r),
        !starts_with_cur(r),
        render(components(r)) == r,
    ensures
        trim_front(r) == r,
        trim_back(r, 0) == r,
{
    let cs = normal_components(r);
    assert(components(r) =~= cs);
    lemma_normal_clean(r);
    if cs.len() > 0 {
        assert(is_normal_segment(cs[0]) && no_slash(cs[0]));
        assert(cs[0] != root_component()) by {
            assert(root_component()[0] == '/');
        }
        assert(r == join_slash(cs));
        let l = cs.last();
        assert(is_normal_segment(cs[cs.len() - 1]) && no_slash(cs[cs.len() - 1]));
        let p = if cs.len() == 1 {
            Seq::<char>::empty()
        } else {
            join_slash(cs.drop_last()) + seq!['/']
        };
        assert(r =~= p + l);
        assert(r.last() == l[l.len() - 1]);
        if l.len() >= 2 {
            assert(r[r.len() - 2] == l[l.len() - 2]);
        } else if l[0] == '.' {
            assert(l =~= cur_component());
        }
    } else {
        assert(r == join_slash(cs));
    }
}

/// The path `m`, closed by a separator when it lacks one: same normal
/// components, and no segment left open.
proof fn lemma_close(m: Seq<char>)
    requires
        m.len() > 0,
    ensures
        ({
            let a = if m.last() == '/' {
                m
            } else {
                m.push('/')
            };
            scan(a, a.len() as int).1.len() == 0 && normal_components(a) == normal_components(m)
        }),
{
    if m.last() == '/' {
        assert(scan(m, m.len() as int) == scan_step(scan(m, m.len() - 1), m[m.len() - 1]));
    } else {
        let a = m.push('/');
        assert(m + seq!['/'] =~= a);
        lemma_scan_prefix(m, seq!['/'], m.len() as int);
        assert(a[a.len() - 1] == '/');
        assert(scan(a, a.len() as int) == scan_step(scan(a, m.len() as int), '/'));
    }
}

/// A text made of empty and `.` segments only, each closed by its
/// separator, is trimmed off the front of what follows it.
proof fn lemma_trim_front_junk(x: Seq<char>, r: Seq<char>)
    requires
        normal_components(x).len() == 0,
        scan(x, x.len() as int).1.len() == 0,
    ensures
        trim_front(x + r) == trim_front(r),
    decreases x.len(),
{
    if x.len() == 0 {
        assert(x + r =~= r);
    } else {
        lemma_first_slash(x);
        let e = first_slash(x);
        if e == x.len() {
            lemma_scan_no_slash(x, x.len() as int);
            assert(x.take(x.len() as int) =~= x);
        }
        lemma_segment_split(x);
        let seg = x.take(e);
        let rest = after_segment(x);
        assert(flush(seq![], seg).len() == 0);
        assert(normal_components(rest).len() == 0);
        assert((x + r).skip(e + 1) =~= rest + r);
        if seg.len() == 0 {
            assert((x + r)[0] == x[0]);
            lemma_trim_front_junk(rest, r);
        } else {
            assert(seg == cur_component());
            assert(seg[0] == x[0]);
            assert((x + r)[0] == x[0]);
            assert((x + r)[1] == x[1]);
            lemma_trim_front_junk(rest, r);
        }
    }
}

/// Reading as many components off `x + r` as `x` has, where `x` is empty or
/// ends with a separator, leaves `r` once the front is trimmed.
proof fn lemma_skip_components_concat(x: Seq<char>, r: Seq<char>)
    requires
        scan(x, x.len() as int).1.len() == 0,
    ensures
        trim_front(skip_components(x + r, normal_components(x).len())) == trim_front(r),
    decreases x.len(),
{
    let k = normal_components(x).len();
    if k == 0 {
        lemma_trim_front_junk(x, r);
    } else {
        lemma_first_slash(x);
        let e = first_slash(x);
        if e == x.len() {
            lemma_scan_no_slash(x, x.len() as int);
            assert(x.take(x.len() as int) =~= x);
        }
        lemma_segment_split(x);
        let seg = x.take(e);
        let rest = after_segment(x);
        let t = x + r;
        assert forall|j: int| 0 <= j < e implies t[j] != '/' by {
            assert(t[j] == x[j]);
        }
        assert(t[e] == x[e]);
        lemma_first_slash_at(t, e);
        assert(t.take(e) =~= seg);
        assert(after_segment(t) =~= rest + r);
        if is_normal_segment(seg) {
            assert(flush(seq![], seg) =~= seq![seg]);
            assert(skip_components(t, k) == skip_components(rest + r, (k - 1) as nat));
        } else {
            assert(skip_components(t, k) == skip_components(rest + r, k));
        }
        lemma_skip_components_concat(rest, r);
    }
}

proof fn lemma_trim_back_len(t: Seq<char>, keep: int)
    ensures
        trim_back(t, keep).len() <= t.len(),
    decreases t.len(),
{
    if t.len() > keep && t.len() > 0 && t.last() == '/' {
        lemma_trim_back_len(t.drop_last(), keep);
    } else if t.len() == keep + 1 && t.len() > 0 && t.last() == '.' {
    } else if t.len() >= keep + 2 && t.len() >= 2 && t.last() == '.' && t[t.len() - 2] == '/' {
        lemma_trim_back_len(t.take(t.len() - 2), keep);
    }
}

proof fn lemma_drop_segment_len(t: Seq<char>, keep: int)
    ensures
        drop_segment(t, keep).len() <= t.len(),
        t.len() > keep && t.len() > 0 ==> drop_segment(t, keep).len() < t.len(),
    decreases t.len(),
{
    if t.len() > keep && t.len() > 0 && t.last() != '/' {
        lemma_drop_segment_len(t.drop_last(), keep);
    }
}

/// A parent is shorter than the path it is the parent of.
pub proof fn lemma_parent_shorter(p: Seq<char>)
    ensures
        parent(p) matches Some(q) ==> q.len() < p.len(),
{
    let keep = lead_len(p);
    if parent(p) is Some && normal_components(p).len() > 0 {
        let t = trim_back(p, keep);
        lemma_trim_back_len(p, keep);
        lemma_drop_segment_len(t, keep);
        lemma_trim_back_len(drop_segment(t, keep), keep);
        if p.len() <= 1 {
            if p.len() == 1 {
                assert(scan(p, 0) == (Seq::<Seq<char>>::empty(), Seq::<char>::empty()));
                if p[0] == '/' || p[0] == '.' {
                    assert(scan(p, 1).1.len() == 0 || scan(p, 1).1 =~= cur_component());
                }
            } else {
                assert(scan(p, 0) == (Seq::<Seq<char>>::empty(), Seq::<char>::empty()));
            }
        }
    }
}

/// A non-empty path in plain form does not end with `/`.
pub proof fn lemma_plain_path_has_no_trailing_slash(d: Seq<char>)
    requires
        d.len() > 0,
        !is_absolute(d),
        !starts_with_cur(d),
        render(components(d)) == d,
    ensures
        d.last() != '/',
{
    lemma_plain_trims(d);
    if d.last() == '/' {
        lemma_trim_back_len(d.drop_last(), 0);
        assert(trim_back(d, 0) == trim_back(d.drop_last(), 0));
    }
}

/// A path in plain form followed by `/` and a name (a segment that is
/// neither empty nor `.` and has no `/`) is in plain form too, with that
/// name as its last component.
pub proof fn lemma_plain_child(d: Seq<char>, name: Seq<char>)
    requires
        d.len() > 0,
        !is_absolute(d),
        !starts_with_cur(d),
        render(components(d)) == d,
        is_normal_segment(name),
        no_slash(name),
    ensures
        !is_absolute(d + seq!['/'] + name),
        !starts_with_cur(d + seq!['/'] + name),
        components(d + seq!['/'] + name) == components(d).push(name),
        render(components(d + seq!['/'] + name)) == d + seq!['/'] + name,
{
    let c = d + seq!['/'] + name;
    let a = d + seq!['/'];
    lemma_plain_trims(d);
    if d.last() == '/' {
        lemma_trim_back_len(d.drop_last(), 0);
        assert(trim_back(d, 0) == trim_back(d.drop_last(), 0));
    }
    lemma_close(d);
    assert(d.push('/') =~= a);
    assert(normal_components(a) == normal_components(d));
    assert(scan(a, a.len() as int).1.len() == 0);
    assert(a + name =~= c);
    lemma_scan_no_slash(name, name.len() as int);
    assert(name.take(name.len() as int) =~= name);
    assert(normal_components(name) == seq![name]);
    lemma_normal_components_concat(a, name);
    assert(normal_components(c) == normal_components(d) + seq![name]);
    let cs = normal_components(d);
    assert(components(d) =~= cs);
    assert(c[0] == d[0]);
    if d.len() >= 2 {
        assert(c[1] == d[1]);
    } else {
        assert(c[1] == '/');
    }
    assert(!is_absolute(c));
    assert(!starts_with_cur(c));
    assert(components(c) =~= cs.push(name));
    lemma_normal_clean(d);
    if cs.len() == 0 {
        assert(render(cs) == Seq::<char>::empty());
    }
    assert(cs[0] != root_component()) by {
        assert(root_component()[0] == '/');
        assert(no_slash(cs[0]));
    }
    assert(cs.push(name)[0] == cs[0]);
    assert(cs.push(name).drop_last() =~= cs);
    assert(render(cs) == join_slash(cs));
    assert(render(cs.push(name)) == join_slash(cs.push(name)));
}

/// Joining a relative path that does not start with `.` onto a base adds
/// the path's components after the base's.
pub proof fn lemma_join_components(m: Seq<char>, r: Seq<char>)
    requires
        !is_absolute(r),
        !starts_with_cur(r),
    ensures
        components(join(m, r)) == components(m) + normal_components(r),
{
    if m.len() == 0 {
        assert(join(m, r) == r);
        assert(components(r) == seq![] + normal_components(r));
        assert(scan(m, 0) == (Seq::<Seq<char>>::empty(), Seq::<char>::empty()));
        assert(normal_components(m) == Seq::<Seq<char>>::empty());
        assert(components(m) == Seq::<Seq<char>>::empty());
        assert(components(m) + normal_components(r) == normal_components(r));
    } else if m.last() == '/' {
        let s = m + r;
        assert(join(m, r) == s);
        assert(scan(m, m.len() as int) == scan_step(scan(m, m.len() - 1), m[m.len() - 1]));
        assert(scan(m, m.len() as int).1 == Seq::<char>::empty());
        lemma_normal_components_concat(m, r);
        assert(s[0] == m[0]);
        if m.len() >= 2 {
            assert(s[1] == m[1]);
        }
    } else {
        let a = m.push('/');
        let s = a + r;
        assert(join(m, r) == m + seq!['/'] + r);
        assert(m + seq!['/'] == a);
        assert(join(m, r) == s);
        assert(a == m + seq!['/']);
        lemma_scan_prefix(m, seq!['/'], m.len() as int);
        assert(a[a.len() - 1] == '/');
        assert(scan(a, a.len() as int) == scan_step(scan(a, m.len() as int), '/'));
        assert(scan(a, a.len() as int).1 == Seq::<char>::empty());
        assert(normal_components(a) == normal_components(m));
        lemma_normal_components_concat(a, r);
        assert(s[0] == m[0]);
        if m.len() >= 2 {
            assert(s[1] == m[1]);
        } else {
            assert(s[1] == '/');
        }
    }
}

/// `m` closed by a separator when it lacks one.
pub open spec fn closed(m: Seq<char>) -> Seq<char> {
    if m.len() > 0 && m.last() == '/' {
        m
    } else {
        m.push('/')
    }
}

/// After its leading root or `.`, the closed form of a non-empty `m` holds
/// the rest of `m`'s components and leaves no segment open.
proof fn lemma_closed_body(m: Seq<char>)
    requires
        m.len() > 0,
    ensures
        ({
            let x = closed(m).skip(lead_len(m));
            &&& scan(x, x.len() as int).1.len() == 0
            &&& normal_components(x).len() + lead_len(m) == components(m).len()
            &&& components(m).len() >= 1
        }),
{
    lemma_close(m);
    let a = closed(m);
    assert(a == (if m.last() == '/' {
        m
    } else {
        m.push('/')
    }));
    assert(scan(a, a.len() as int).1.len() == 0);
    assert(normal_components(a) == normal_components(m));
    let x = a.skip(lead_len(m));
    assert(a[0] == m[0]);
    if m.len() >= 2 {
        assert(a[1] == m[1]);
    } else if m.last() != '/' {
        assert(a[1] == '/');
    }
    if is_absolute(m) {
        lemma_closed_root(a);
        assert(components(m) =~= seq![root_component()] + normal_components(m));
        assert(x.len() == a.len() - 1);
    } else if starts_with_cur(m) {
        lemma_closed_cur(a);
        assert(components(m) =~= seq![cur_component()] + normal_components(m));
        assert(x.len() == a.len() - 1);
    } else {
        lemma_plain_start(m);
        assert(components(m) =~= normal_components(m));
        assert(x =~= a);
    }
}

proof fn lemma_closed_root(a: Seq<char>)
    requires
        a.len() > 0,
        a[0] == '/',
        scan(a, a.len() as int).1.len() == 0,
    ensures
        scan(a.skip(1), a.len() - 1).1.len() == 0,
        normal_components(a.skip(1)) == normal_components(a),
{
    lemma_first_slash_at(a, 0);
    lemma_segment_split(a);
    assert(a.take(0) =~= Seq::<char>::empty());
    assert(after_segment(a) == a.skip(1));
    assert(flush(seq![], Seq::<char>::empty()) + normal_components(a.skip(1)) =~= normal_components(
        a.skip(1),
    ));
}

proof fn lemma_closed_cur(a: Seq<char>)
    requires
        a.len() >= 2,
        a[0] == '.',
        a[1] == '/',
        scan(a, a.len() as int).1.len() == 0,
    ensures
        scan(a.skip(1), a.len() - 1).1.len() == 0,
        normal_components(a.skip(1)) == normal_components(a),
{
    let x = a.skip(1);
    lemma_first_slash_at(a, 1);
    lemma_segment_split(a);
    assert(a.take(1) =~= cur_component());
    assert(x[0] == '/');
    lemma_first_slash_at(x, 0);
    lemma_segment_split(x);
    assert(x.take(0) =~= Seq::<char>::empty());
    assert(after_segment(a) =~= after_segment(x));
    assert(flush(seq![], Seq::<char>::empty()) + normal_components(after_segment(x))
        =~= normal_components(after_segment(x)));
    assert(flush(seq![], cur_component()) + normal_components(after_segment(a))
        =~= normal_components(after_segment(a)));
}

proof fn lemma_plain_start(m: Seq<char>)
    requires
        m.len() > 0,
        !is_absolute(m),
        !starts_with_cur(m),
    ensures
        normal_components(m).len() >= 1,
{
    lemma_first_slash(m);
    lemma_segment_split(m);
    let seg = m.take(first_slash(m));
    assert(first_slash(m) > 0);
    assert(seg[0] == m[0]);
    if seg == cur_component() {
        assert(first_slash(m) == 1);
    }
    assert(flush(seq![], seg) =~= seq![seg]);
}

/// A relative path in plain form (one that its components render back to)
/// comes back out of the base it was joined to.
pub proof fn lemma_strip_join(m: Seq<char>, r: Seq<char>)
    requires
        !is_absolute(r),
        !starts_with_cur(r),
        render(components(r)) == r,
    ensures
        strip_prefix(join(m, r), m) == Some(r),
{
    lemma_join_components(m, r);
    lemma_plain_trims(r);
    let path = join(m, r);
    let pc = components(path);
    let bc = components(m);
    assert(components(r) =~= normal_components(r));
    assert(pc.take(bc.len() as int) =~= bc);
    if m.len() == 0 {
        assert(scan(m, 0) == (Seq::<Seq<char>>::empty(), Seq::<char>::empty()));
        assert(bc =~= Seq::<Seq<char>>::empty());
        assert(path == r);
    } else {
        lemma_closed_body(m);
        let a = closed(m);
        assert(path =~= a + r);
        assert(path[0] == m[0]);
        if m.len() >= 2 {
            assert(path[1] == m[1]);
        } else if m.last() != '/' {
            assert(path[1] == '/');
        }
        assert(lead_len(path) == lead_len(m));
        let x = a.skip(lead_len(m));
        assert(path.skip(lead_len(path)) =~= x + r);
        lemma_skip_components_concat(x, r);
    }
}

// ---------- implementation ----------

fn is_absolute_chars(p: &Vec<char>) -> (b: bool)
    ensures
        b == is_absolute(p@),
{
    p.len() > 0 && p[0] == '/'
}

/// `base.join(p)` on character vectors.
pub fn join_chars(base: &Vec<char>, p: &Vec<char>) -> (r: Vec<char>)
    ensures
        r@ == join(base@, p@),
{
    let mut r: Vec<char> = Vec::new();
    if is_absolute_chars(p) || base.len() == 0 {
        push_all(&mut r, p);
        assert(r@ == p@);
    } else {
        push_all(&mut r, base);
        if base[base.len() - 1] != '/' {
            r.push('/');
        }
        push_all(&mut r, p);
    }
    r
}

/// `base.join(p)`.
pub fn path_join(base: &str, p: &str) -> (r: String)
    ensures
        r@ == join(base@, p@),
{
    let b = chars_of(base);
    let q = chars_of(p);
    let r = join_chars(&b, &q);
    string_of(&r)
}

fn is_cur(seg: &Vec<char>) -> (b: bool)
    ensures
        b == (seg@ == cur_component()),
{
    if seg.len() == 1 && seg[0] == '.' {
        assert(seg@ =~= cur_component());
        true
    } else {
        false
    }
}

fn flush_exec(acc: &mut Vec<Vec<char>>, seg: Vec<char>)
    ensures
        final(acc).deep_view() == flush(old(acc).deep_view(), seg@),
{
    if seg.len() != 0 && !is_cur(&seg) {
        let ghost prev = *acc;
        let ghost g = seg;
        acc.push(seg);
        proof {
            lemma_push_deep_view(prev, *acc, g);
        }
    }
}

/// The normal components of `s`.
fn normal_components_of(s: &Vec<char>) -> (r: Vec<Vec<char>>)
    ensures
        r.deep_view() == normal_components(s@),
{
    let mut acc: Vec<Vec<char>> = Vec::new();
    let mut seg: Vec<char> = Vec::new();
    let mut i: usize = 0;
    while i < s.len()
        invariant
            i <= s.len(),
            (acc.deep_view(), seg@) == scan(s@, i as int),
        decreases s.len() - i,
    {
        if s[i] == '/' {
            flush_exec(&mut acc, seg);
            seg = Vec::new();
        } else {
            seg.push(s[i]);
        }
        i += 1;
    }
    flush_exec(&mut acc, seg);
    acc
}

/// `Path::components` of `s`.
pub fn components_of(s: &Vec<char>) -> (r: Vec<Vec<char>>)
    ensures
        r.deep_view() == components(s@),
{
    let normals = normal_components_of(s);
    let mut r: Vec<Vec<char>> = Vec::new();
    if is_absolute_chars(s) {
        let root = vec!['/'];
        proof {
            lemma_chars_deep_view(root);
            assert(root@ =~= root_component());
        }
        r.push(root);
        assert(r.deep_view() =~= seq![root_component()]);
    } else if s.len() > 0 && s[0] == '.' && (s.len() == 1 || s[1] == '/') {
        let cur = vec!['.'];
        proof {
            lemma_chars_deep_view(cur);
            assert(cur@ =~= cur_component());
        }
        r.push(cur);
        assert(r.deep_view() =~= seq![cur_component()]);
    }
    let ghost head = r.deep_view();
    assert(head =~= (if is_absolute(s@) {
        seq![root_component()]
    } else if starts_with_cur(s@) {
        seq![cur_component()]
    } else {
        seq![]
    }));
    let mut k: usize = 0;
    while k < normals.len()
        invariant
            k <= normals.len(),
            r.deep_view() == head + normals.deep_view().take(k as int),
        decreases normals.len() - k,
    {
        let ghost prev = r;
        let item = normals[k].clone();
        let ghost g = item;
        r.push(item);
        proof {
            lemma_push_deep_view(prev, r, g);
            lemma_chars_deep_view(normals@[k as int]);
            assert(normals.deep_view().take(k + 1) == normals.deep_view().take(k as int).push(
                normals.deep_view()[k as int],
            ));
        }
        k += 1;
    }
    assert(normals.deep_view().take(normals.len() as int) == normals.deep_view());
    r
}

fn components_prefix(pc: &Vec<Vec<char>>, bc: &Vec<Vec<char>>) -> (b: bool)
    ensures
        b == (bc.deep_view().len() <= pc.deep_view().len() && pc.deep_view().take(
            bc.deep_view().len() as int,
        ) == bc.deep_view()),
{
    if bc.len() > pc.len() {
        return false;
    }
    let mut k: usize = 0;
    while k < bc.len()
        invariant
            bc.len() <= pc.len(),
            k <= bc.len(),
            pc.deep_view().take(k as int) == bc.deep_view().take(k as int),
        decreases bc.len() - k,
    {
        proof {
            lemma_chars_deep_view(pc@[k as int]);
            lemma_chars_deep_view(bc@[k as int]);
        }
        if !crate::text::chars_eq(&pc[k], &bc[k]) {
            assert(pc.deep_view().take(bc.len() as int)[k as int] != bc.deep_view()[k as int]);
            return false;
        }
        k += 1;
        assert(pc.deep_view().take(k as int) == pc.deep_view().take(k - 1).push(
            pc.deep_view()[k - 1],
        ));
        assert(bc.deep_view().take(k as int) == bc.deep_view().take(k - 1).push(
            bc.deep_view()[k - 1],
        ));
    }
    assert(bc.deep_view().take(bc.len() as int) == bc.deep_view());
    true
}

/// The index of the first `/` of `v` at or after `from`, or `v.len()`.
fn segment_end(v: &Vec<char>, from: usize) -> (e: usize)
    requires
        from <= v.len(),
    ensures
        from <= e <= v.len(),
        e - from == first_slash(v@.skip(from as int)),
{
    let mut e = from;
    while e < v.len() && v[e] != '/'
        invariant
            from <= e <= v.len(),
            forall|j: int| from <= j < e ==> v@[j] != '/',
        decreases v.len() - e,
    {
        e += 1;
    }
    let ghost t = v@.skip(from as int);
    assert forall|j: int| 0 <= j < e - from implies t[j] != '/' by {
        assert(t[j] == v@[from + j]);
    }
    if e < v.len() {
        assert(t[e - from] == v@[e as int]);
    }
    proof {
        lemma_first_slash_at(t, e - from);
    }
    e
}

/// Where the text left after reading `k` components off `v[from..]` starts.
fn skip_components_from(v: &Vec<char>, from: usize, k: usize) -> (i: usize)
    requires
        from <= v.len(),
    ensures
        from <= i <= v.len(),
        v@.skip(i as int) == skip_components(v@.skip(from as int), k as nat),
{
    let mut i = from;
    let mut left = k;
    while left > 0 && i < v.len()
        invariant
            from <= i <= v.len(),
            skip_components(v@.skip(i as int), left as nat) == skip_components(
                v@.skip(from as int),
                k as nat,
            ),
        decreases v.len() - i,
    {
        let ghost t = v@.skip(i as int);
        let e = segment_end(v, i);
        let normal = e > i && !(e == i + 1 && v[i] == '.');
        proof {
            let seg = t.take(e - i);
            assert(seg =~= v@.subrange(i as int, e as int));
            if e == i + 1 && v[i as int] == '.' {
                assert(seg =~= cur_component());
            }
            if seg == cur_component() {
                assert(seg[0] == v@[i as int]);
            }
            assert(is_normal_segment(seg) == normal);
        }
        let next = if e < v.len() {
            e + 1
        } else {
            e
        };
        proof {
            if e < v.len() {
                assert(after_segment(t) =~= v@.skip(next as int));
            } else {
                assert(after_segment(t) =~= v@.skip(next as int));
            }
        }
        if normal {
            left -= 1;
        }
        i = next;
    }
    i
}

/// Where `v[from..]` starts once its leading empty and `.` segments are
/// trimmed.
fn trim_front_from(v: &Vec<char>, from: usize) -> (j: usize)
    requires
        from <= v.len(),
    ensures
        from <= j <= v.len(),
        v@.skip(j as int) == trim_front(v@.skip(from as int)),
{
    let mut j = from;
    loop
        invariant
            from <= j <= v.len(),
            trim_front(v@.skip(j as int)) == trim_front(v@.skip(from as int)),
        decreases v.len() - j,
    {
        let ghost t = v@.skip(j as int);
        if j < v.len() && v[j] == '/' {
            assert(t.skip(1) =~= v@.skip(j + 1));
            j += 1;
        } else if j < v.len() && v.len() - j == 1 && v[j] == '.' {
            assert(t =~= cur_component());
            assert(v@.skip(v.len() as int) =~= Seq::<char>::empty());
            return v.len();
        } else if j < v.len() && v.len() - j >= 2 && v[j] == '.' && v[j + 1] == '/' {
            assert(t.skip(2) =~= v@.skip(j + 2));
            j += 2;
        } else {
            proof {
                if t == cur_component() {
                    assert(t[0] == v@[j as int]);
                }
            }
            return j;
        }
    }
}

/// Where `v[lo..end]` ends once its trailing empty and `.` segments are
/// trimmed, its first `keep` characters staying.
fn trim_back_to(v: &Vec<char>, lo: usize, end: usize, keep: usize) -> (hi: usize)
    requires
        lo <= end <= v.len(),
        keep <= end - lo,
    ensures
        lo <= hi <= end,
        v@.subrange(lo as int, hi as int) == trim_back(
            v@.subrange(lo as int, end as int),
            keep as int,
        ),
{
    let mut hi = end;
    loop
        invariant
            lo <= hi <= end <= v.len(),
            trim_back(v@.subrange(lo as int, hi as int), keep as int) == trim_back(
                v@.subrange(lo as int, end as int),
                keep as int,
            ),
        decreases hi - lo,
    {
        let ghost t = v@.subrange(lo as int, hi as int);
        let n = hi - lo;
        if n > keep && v[hi - 1] == '/' {
            assert(t.last() == v@[hi - 1]);
            assert(t.drop_last() =~= v@.subrange(lo as int, hi - 1));
            hi -= 1;
        } else if n > keep && n - keep == 1 && v[hi - 1] == '.' {
            assert(t.last() == v@[hi - 1]);
            assert(t.drop_last() =~= v@.subrange(lo as int, hi - 1));
            return hi - 1;
        } else if n > keep && n - keep >= 2 && v[hi - 1] == '.' && v[hi - 2] == '/' {
            assert(t.last() == v@[hi - 1]);
            assert(t[t.len() - 2] == v@[hi - 2]);
            assert(t.take(t.len() - 2) =~= v@.subrange(lo as int, hi - 2));
            hi -= 2;
        } else {
            if n > 0 {
                assert(t.last() == v@[hi - 1]);
            }
            if n >= 2 {
                assert(t[t.len() - 2] == v@[hi - 2]);
            }
            return hi;
        }
    }
}

/// `path.strip_prefix(base)` on character vectors.
pub fn strip_prefix_chars(path: &Vec<char>, base: &Vec<char>) -> (r: Option<Vec<char>>)
    ensures
        match r {
            Some(v) => strip_prefix(path@, base@) == Some(v@),
            None => strip_prefix(path@, base@) is None,
        },
{
    let pc = components_of(path);
    let bc = components_of(base);
    if !components_prefix(&pc, &bc) {
        return None;
    }
    let lead: usize = if is_absolute_chars(path) || (path.len() > 0 && path[0] == '.' && (
    path.len() == 1 || path[1] == '/')) {
        1
    } else {
        0
    };
    assert(lead == lead_len(path@));
    if bc.len() == 0 {
        assert(path@.subrange(0, path.len() as int) =~= path@);
        let hi = trim_back_to(path, 0, path.len(), lead);
        return Some(slice_of(path, 0, hi));
    }
    let i = skip_components_from(path, lead, bc.len() - lead);
    let j = trim_front_from(path, i);
    assert(path@.subrange(j as int, path.len() as int) =~= path@.skip(j as int));
    let hi = trim_back_to(path, j, path.len(), 0);
    Some(slice_of(path, j, hi))
}

/// `path.strip_prefix(base)`.
pub fn strip_path_prefix(path: &str, base: &str) -> (r: Option<String>)
    ensures
        match r {
            Some(v) => strip_prefix(path@, base@) == Some(v@),
            None => strip_prefix(path@, base@) is None,
        },
{
    let p = chars_of(path);
    let b = chars_of(base);
    match strip_prefix_chars(&p, &b) {
        Some(v) => Some(string_of(&v)),
        None => None,
    }
}

/// Where `v[..hi0]` ends once its last segment and the separator before it
/// are dropped, its first `keep` characters staying.
fn drop_segment_to(v: &Vec<char>, hi0: usize, keep: usize) -> (hi: usize)
    requires
        hi0 <= v.len(),
    ensures
        hi <= hi0,
        v@.subrange(0, hi as int) == drop_segment(v@.subrange(0, hi0 as int), keep as int),
{
    let mut hi = hi0;
    loop
        invariant
            hi <= hi0 <= v.len(),
            drop_segment(v@.subrange(0, hi as int), keep as int) == drop_segment(
                v@.subrange(0, hi0 as int),
                keep as int,
            ),
        decreases hi,
    {
        let ghost t = v@.subrange(0, hi as int);
        if hi <= keep || hi == 0 {
            return hi;
        }
        assert(t.last() == v@[hi - 1]);
        assert(t.drop_last() =~= v@.subrange(0, hi - 1));
        if v[hi - 1] == '/' {
            return hi - 1;
        }
        hi -= 1;
    }
}

/// `path.parent()` on character vectors.
pub fn parent_chars(path: &Vec<char>) -> (r: Option<Vec<char>>)
    ensures
        match r {
            Some(v) => parent(path@) == Some(v@),
            None => parent(path@) is None,
        },
{
    let cs = components_of(path);
    if cs.len() == 0 {
        return None;
    }
    let last = &cs[cs.len() - 1];
    proof {
        lemma_chars_deep_view(cs@[cs.len() - 1]);
    }
    if last.len() == 1 && last[0] == '/' {
        assert(cs.deep_view().last() =~= root_component());
        return None;
    }
    assert(cs.deep_view().last() != root_component());
    let lead: usize = if is_absolute_chars(path) || (path.len() > 0 && path[0] == '.' && (
    path.len() == 1 || path[1] == '/')) {
        1
    } else {
        0
    };
    assert(lead == lead_len(path@));
    assert(cs.deep_view().len() == lead + normal_components(path@).len());
    if cs.len() == lead {
        return Some(Vec::new());
    }
    assert(path@.subrange(0, path.len() as int) =~= path@);
    let h1 = trim_back_to(path, 0, path.len(), lead);
    let h2 = drop_segment_to(path, h1, lead);
    proof {
        lemma_drop_segment_len(path@.subrange(0, h1 as int), lead as int);
    }
    let h3 = if h2 >= lead {
        trim_back_to(path, 0, h2, lead)
    } else {
        h2
    };
    proof {
        if h2 < lead {
            assert(trim_back(path@.subrange(0, h2 as int), lead as int) == path@.subrange(0, h2 as int));
        }
    }
    Some(slice_of(path, 0, h3))
}

/// `path.parent()`.
pub fn path_parent(path: &str) -> (r: Option<String>)
    ensures
        match r {
            Some(v) => parent(path@) == Some(v@),
            None => parent(path@) is None,
        },
{
    let p = chars_of(path);
    match parent_chars(&p) {
        Some(v) => Some(string_of(&v)),
        None => None,
    }
}

} // verus!
