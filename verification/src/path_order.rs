//! The order of paths: component by component, as `std::path` compares
//! them, and a stable sort of path lists by it.
use vstd::prelude::*;
use crate::paths::{components, components_of, cur_component, root_component};
use crate::text::{chars_of, lemma_chars_deep_view, lemma_push_string_deep_view};

verus! {

/// `a` comes before `b`, character by character by code point (the order
/// of their UTF-8 bytes); a proper prefix comes first.
pub open spec fn chars_less(a: Seq<char>, b: Seq<char>) -> bool
    decreases a.len(),
{
    if a.len() == 0 {
        b.len() > 0
    } else if b.len() == 0 {
        false
    } else if a[0] != b[0] {
        a[0] < b[0]
    } else {
        chars_less(a.drop_first(), b.drop_first())
    }
}

/// The kind of a component, in the order `std::path` ranks them: the root,
/// `.`, `..`, then names.
pub open spec fn component_rank(c: Seq<char>) -> int {
    if c == root_component() {
        0
    } else if c == cur_component() {
        1
    } else if c == seq!['.', '.'] {
        2
    } else {
        3
    }
}

/// `a` comes before `b` as a component.
pub open spec fn component_less(a: Seq<char>, b: Seq<char>) -> bool {
    component_rank(a) < component_rank(b) || (component_rank(a) == component_rank(b)
        && component_rank(a) == 3 && chars_less(a, b))
}

/// `a` comes before `b` component by component; a proper prefix comes first.
pub open spec fn components_less(a: Seq<Seq<char>>, b: Seq<Seq<char>>) -> bool
    decreases a.len(),
{
    if a.len() == 0 {
        b.len() > 0
    } else if b.len() == 0 {
        false
    } else if a[0] != b[0] {
        component_less(a[0], b[0])
    } else {
        components_less(a.drop_first(), b.drop_first())
    }
}

/// The path `a` comes before the path `b`.
pub open spec fn path_less(a: Seq<char>, b: Seq<char>) -> bool {
    components_less(components(a), components(b))
}

// ---------- the order is strict and total ----------

proof fn lemma_same_head_tail<A>(a: Seq<A>, b: Seq<A>)
    requires
        a.len() > 0,
        b.len() > 0,
        a[0] == b[0],
        a.drop_first() == b.drop_first(),
    ensures
        a == b,
{
    assert(a.drop_first().len() == a.len() - 1);
    assert(b.drop_first().len() == b.len() - 1);
    assert(a.len() == b.len());
    assert forall|i: int| 0 <= i < a.len() implies a[i] == b[i] by {
        if i > 0 {
            assert(a[i] == a.drop_first()[i - 1]);
            assert(b[i] == b.drop_first()[i - 1]);
        }
    }
    assert(a =~= b);
}

proof fn lemma_chars_less(a: Seq<char>, b: Seq<char>, c: Seq<char>)
    ensures
        !(chars_less(a, b) && chars_less(b, a)),
        chars_less(a, b) && chars_less(b, c) ==> chars_less(a, c),
        a != b ==> chars_less(a, b) || chars_less(b, a),
        !chars_less(a, a),
    decreases a.len(),
{
    if a.len() > 0 && b.len() > 0 && c.len() > 0 {
        lemma_chars_less(a.drop_first(), b.drop_first(), c.drop_first());
        if a[0] == b[0] && a != b {
            assert(a.drop_first() != b.drop_first()) by {
                if a.drop_first() == b.drop_first() {
                    lemma_same_head_tail(a, b);
                }
            }
        }
    } else if a.len() > 0 && b.len() > 0 {
        lemma_chars_less(a.drop_first(), b.drop_first(), b.drop_first());
        if a[0] == b[0] && a != b {
            assert(a.drop_first() != b.drop_first()) by {
                if a.drop_first() == b.drop_first() {
                    lemma_same_head_tail(a, b);
                }
            }
        }
    } else if a.len() == 0 && b.len() == 0 {
        assert(a =~= b);
    }
    if a.len() > 0 {
        lemma_chars_less(a.drop_first(), a.drop_first(), a.drop_first());
    }

}

proof fn lemma_component_less(a: Seq<char>, b: Seq<char>, c: Seq<char>)
    ensures
        !(component_less(a, b) && component_less(b, a)),
        component_less(a, b) && component_less(b, c) ==> component_less(a, c),
        a != b ==> component_less(a, b) || component_less(b, a),
        !component_less(a, a),
{
    lemma_chars_less(a, b, c);
    lemma_chars_less(b, a, c);
}

proof fn lemma_components_less(a: Seq<Seq<char>>, b: Seq<Seq<char>>, c: Seq<Seq<char>>)
    ensures
        !(components_less(a, b) && components_less(b, a)),
        components_less(a, b) && components_less(b, c) ==> components_less(a, c),
        a != b ==> components_less(a, b) || components_less(b, a),
        !components_less(a, a),
    decreases a.len(),
{
    if a.len() > 0 && b.len() > 0 {
        lemma_component_less(a[0], b[0], if c.len() > 0 {
            c[0]
        } else {
            b[0]
        });
        lemma_component_less(a[0], a[0], a[0]);
        let c1 = if c.len() > 0 {
            c.drop_first()
        } else {
            b.drop_first()
        };
        lemma_components_less(a.drop_first(), b.drop_first(), c1);
        lemma_components_less(a.drop_first(), a.drop_first(), a.drop_first());
        if a[0] == b[0] && a != b {
            assert(a.drop_first() != b.drop_first()) by {
                if a.drop_first() == b.drop_first() {
                    lemma_same_head_tail(a, b);
                }
            }
        }
        if c.len() > 0 {
            lemma_component_less(b[0], c[0], a[0]);
            lemma_component_less(a[0], c[0], b[0]);
        }
    } else if a.len() == 0 && b.len() == 0 {
        assert(a =~= b);
    } else if a.len() > 0 {
        lemma_component_less(a[0], a[0], a[0]);
        lemma_components_less(a.drop_first(), a.drop_first(), a.drop_first());
    }
}

// ---------- sorting ----------

/// The index in `r` where `x` goes: after every path that `x` does not come
/// before.
pub open spec fn path_slot(r: Seq<Seq<char>>, x: Seq<char>) -> int
    decreases r.len(),
{
    if r.len() == 0 {
        0
    } else if path_less(x, r[0]) {
        0
    } else {
        1 + path_slot(r.drop_first(), x)
    }
}

proof fn lemma_path_slot(r: Seq<Seq<char>>, x: Seq<char>)
    ensures
        0 <= path_slot(r, x) <= r.len(),
        forall|j: int| 0 <= j < path_slot(r, x) ==> !path_less(x, #[trigger] r[j]),
        path_slot(r, x) < r.len() ==> path_less(x, r[path_slot(r, x)]),
    decreases r.len(),
{
    if r.len() > 0 && !path_less(x, r[0]) {
        lemma_path_slot(r.drop_first(), x);
        assert forall|j: int| 0 <= j < path_slot(r, x) implies !path_less(x, #[trigger] r[j]) by {
            if j > 0 {
                assert(r[j] == r.drop_first()[j - 1]);
            }
        }
        if path_slot(r, x) < r.len() {
            assert(r[path_slot(r, x)] == r.drop_first()[path_slot(r, x) - 1]);
        }
    }
}

proof fn lemma_path_slot_at(r: Seq<Seq<char>>, x: Seq<char>, k: int)
    requires
        0 <= k <= r.len(),
        forall|j: int| 0 <= j < k ==> !path_less(x, #[trigger] r[j]),
        k < r.len() ==> path_less(x, r[k]),
    ensures
        path_slot(r, x) == k,
    decreases k,
{
    if k > 0 {
        assert(!path_less(x, r[0]));
        assert forall|j: int| 0 <= j < k - 1 implies !path_less(x, #[trigger] r.drop_first()[j]) by {
            assert(r.drop_first()[j] == r[j + 1]);
        }
        if k - 1 < r.drop_first().len() {
            assert(r.drop_first()[k - 1] == r[k]);
        }
        lemma_path_slot_at(r.drop_first(), x, k - 1);
    }
}

/// `s` sorted by path order; paths that compare equal keep their order.
pub open spec fn sorted_paths(s: Seq<Seq<char>>) -> Seq<Seq<char>>
    decreases s.len(),
{
    if s.len() == 0 {
        seq![]
    } else {
        let r = sorted_paths(s.drop_last());
        r.insert(path_slot(r, s.last()), s.last())
    }
}

/// No path of `s` comes before one that precedes it.
pub open spec fn paths_ascending(s: Seq<Seq<char>>) -> bool {
    forall|i: int, j: int| 0 <= i < j < s.len() ==> !path_less(#[trigger] s[j], #[trigger] s[i])
}

/// No two paths of `s` have the same components.
pub open spec fn distinct_paths(s: Seq<Seq<char>>) -> bool {
    forall|i: int, j: int|
        0 <= i < s.len() && 0 <= j < s.len() && i != j ==> components(#[trigger] s[i]) != components(
            #[trigger] s[j],
        )
}

/// Sorting paths keeps them all and puts none before a path it does not
/// come before; when no two have the same components, each comes strictly
/// before the next.
pub proof fn sorting_orders_paths(s: Seq<Seq<char>>)
    ensures
        sorted_paths(s).to_multiset() == s.to_multiset(),
        paths_ascending(sorted_paths(s)),
        distinct_paths(s) ==> distinct_paths(sorted_paths(s)) && forall|i: int, j: int|
            0 <= i < j < sorted_paths(s).len() ==> path_less(
                #[trigger] sorted_paths(s)[i],
                #[trigger] sorted_paths(s)[j],
            ),
    decreases s.len(),
{
    broadcast use vstd::seq_lib::group_to_multiset_ensures;

    if s.len() == 0 {
        assert(sorted_paths(s) =~= s);
    } else {
        let s0 = s.drop_last();
        let r = sorted_paths(s0);
        sorting_orders_paths(s0);
        let x = s.last();
        let k = path_slot(r, x);
        lemma_path_slot(r, x);
        let t = r.insert(k, x);
        assert(s0.push(x) =~= s);
        assert forall|i: int, j: int| 0 <= i < j < t.len() implies !path_less(
            #[trigger] t[j],
            #[trigger] t[i],
        ) by {
            if j < k {
                assert(t[i] == r[i] && t[j] == r[j]);
            } else if j == k {
                assert(t[i] == r[i]);
            } else if i < k {
                assert(t[i] == r[i] && t[j] == r[j - 1]);
            } else if i == k {
                assert(t[j] == r[j - 1]);
                lemma_components_less(components(r[j - 1]), components(x), components(r[k]));
                if j - 1 > k {
                    assert(!path_less(r[j - 1], r[k]));
                }
            } else {
                assert(t[i] == r[i - 1] && t[j] == r[j - 1]);
            }
        }
        if distinct_paths(s) {
            assert(distinct_paths(s0)) by {
                assert forall|i: int, j: int|
                    0 <= i < s0.len() && 0 <= j < s0.len() && i != j implies components(
                        #[trigger] s0[i],
                    ) != components(#[trigger] s0[j]) by {
                    assert(s0[i] == s[i] && s0[j] == s[j]);
                }
            }
            assert forall|m: int| 0 <= m < r.len() implies components(#[trigger] r[m]) != components(
                x,
            ) by {
                assert(r.contains(r[m]));
                assert(r.to_multiset().count(r[m]) > 0);
                assert(s0.contains(r[m]));
                let w = choose|w: int| 0 <= w < s0.len() && s0[w] == r[m];
                assert(s[w] == s0[w]);
                assert(s[s.len() - 1] == x);
            }
            assert forall|i: int, j: int|
                0 <= i < t.len() && 0 <= j < t.len() && i != j implies components(#[trigger] t[i])
                != components(#[trigger] t[j]) by {
                let ri = if i < k {
                    i
                } else {
                    i - 1
                };
                let rj = if j < k {
                    j
                } else {
                    j - 1
                };
                if i != k && j != k {
                    assert(t[i] == r[ri] && t[j] == r[rj]);
                } else if i == k {
                    assert(t[j] == r[rj]);
                } else {
                    assert(t[i] == r[ri]);
                }
            }
            assert forall|i: int, j: int| 0 <= i < j < t.len() implies path_less(
                #[trigger] t[i],
                #[trigger] t[j],
            ) by {
                assert(!path_less(t[j], t[i]));
                assert(components(t[i]) != components(t[j]));
                lemma_components_less(components(t[i]), components(t[j]), components(t[j]));
            }
        }
    }
}

// ---------- comparing ----------

fn chars_less_exec(a: &Vec<char>, b: &Vec<char>) -> (r: bool)
    ensures
        r == chars_less(a@, b@),
{
    let mut i: usize = 0;
    assert(a@.skip(0) =~= a@ && b@.skip(0) =~= b@);
    loop
        invariant
            i <= a.len(),
            i <= b.len(),
            chars_less(a@, b@) == chars_less(a@.skip(i as int), b@.skip(i as int)),
        decreases a.len() - i,
    {
        let ghost ta = a@.skip(i as int);
        let ghost tb = b@.skip(i as int);
        if i == a.len() {
            return i < b.len();
        }
        if i == b.len() {
            return false;
        }
        assert(ta[0] == a@[i as int] && tb[0] == b@[i as int]);
        if a[i] != b[i] {
            return a[i] < b[i];
        }
        assert(ta.drop_first() =~= a@.skip(i + 1));
        assert(tb.drop_first() =~= b@.skip(i + 1));
        i += 1;
    }
}

fn component_rank_exec(c: &Vec<char>) -> (r: u8)
    ensures
        r as int == component_rank(c@),
{
    if c.len() == 1 && c[0] == '/' {
        assert(c@ =~= root_component());
        0
    } else if c.len() == 1 && c[0] == '.' {
        assert(c@ =~= cur_component());
        1
    } else if c.len() == 2 && c[0] == '.' && c[1] == '.' {
        assert(c@ =~= seq!['.', '.']);
        2
    } else {
        proof {
            if c@ == root_component() || c@ == cur_component() {
                assert(c@[0] == c[0]);
            }
            if c@ == seq!['.', '.'] {
                assert(c@[0] == c[0] && c@[1] == c[1]);
            }
        }
        3
    }
}

fn component_less_exec(a: &Vec<char>, b: &Vec<char>) -> (r: bool)
    ensures
        r == component_less(a@, b@),
{
    let ra = component_rank_exec(a);
    let rb = component_rank_exec(b);
    ra < rb || (ra == rb && ra == 3 && chars_less_exec(a, b))
}

fn components_less_exec(a: &Vec<Vec<char>>, b: &Vec<Vec<char>>) -> (r: bool)
    ensures
        r == components_less(a.deep_view(), b.deep_view()),
{
    let ghost av = a.deep_view();
    let ghost bv = b.deep_view();
    let mut i: usize = 0;
    assert(av.skip(0) =~= av && bv.skip(0) =~= bv);
    loop
        invariant
            i <= a.len(),
            i <= b.len(),
            av == a.deep_view(),
            bv == b.deep_view(),
            components_less(av, bv) == components_less(av.skip(i as int), bv.skip(i as int)),
        decreases a.len() - i,
    {
        let ghost ta = av.skip(i as int);
        let ghost tb = bv.skip(i as int);
        if i == a.len() {
            return i < b.len();
        }
        if i == b.len() {
            return false;
        }
        proof {
            lemma_chars_deep_view(a@[i as int]);
            lemma_chars_deep_view(b@[i as int]);
        }
        assert(ta[0] == a@[i as int]@ && tb[0] == b@[i as int]@);
        if !crate::text::chars_eq(&a[i], &b[i]) {
            return component_less_exec(&a[i], &b[i]);
        }
        assert(ta.drop_first() =~= av.skip(i + 1));
        assert(tb.drop_first() =~= bv.skip(i + 1));
        i += 1;
    }
}

/// Sorts paths by path order (as `std::path` compares them); paths that
/// compare equal keep their order.
pub fn sort_paths(paths: &Vec<String>) -> (r: Vec<String>)
    ensures
        r.deep_view() == sorted_paths(paths.deep_view()),
{
    let ghost pv = paths.deep_view();
    let n = paths.len();
    let mut comps: Vec<Vec<Vec<char>>> = Vec::new();
    let mut c: usize = 0;
    while c < n
        invariant
            c <= n,
            n == paths.len(),
            pv == paths.deep_view(),
            comps.len() == c,
            forall|m: int| 0 <= m < c ==> (#[trigger] comps@[m]).deep_view() == components(pv[m]),
        decreases n - c,
    {
        let cs = chars_of(&paths[c]);
        let k = components_of(&cs);
        comps.push(k);
        c += 1;
    }
    let mut order: Vec<usize> = Vec::new();
    let mut i: usize = 0;
    while i < n
        invariant
            i <= n,
            n == paths.len(),
            pv == paths.deep_view(),
            comps.len() == n,
            forall|m: int| 0 <= m < n ==> (#[trigger] comps@[m]).deep_view() == components(pv[m]),
            forall|k: int| 0 <= k < order.len() ==> #[trigger] order@[k] < i,
            Seq::new(order.len() as nat, |k: int| pv[order@[k] as int]) == sorted_paths(pv.take(i as int)),
        decreases n - i,
    {
        let ghost view = Seq::new(order.len() as nat, |k: int| pv[order@[k] as int]);
        let ghost x = pv[i as int];
        let mut k: usize = 0;
        while k < order.len() && !components_less_exec(&comps[i], &comps[order[k]])
            invariant
                k <= order.len(),
                comps.len() == n,
                i < n,
                forall|m: int| 0 <= m < n ==> (#[trigger] comps@[m]).deep_view() == components(pv[m]),
                forall|m: int| 0 <= m < order.len() ==> #[trigger] order@[m] < i,
                view == Seq::new(order.len() as nat, |k: int| pv[order@[k] as int]),
                x == pv[i as int],
                forall|m: int| 0 <= m < k ==> !path_less(x, #[trigger] view[m]),
            decreases order.len() - k,
        {
            k += 1;
        }
        proof {
            if k < order.len() {
                assert(path_less(x, view[k as int]));
            }
            lemma_path_slot_at(view, x, k as int);
            assert(pv.take(i + 1).drop_last() =~= pv.take(i as int));
            assert(pv.take(i + 1).last() == x);
        }
        order.insert(k, i);
        assert(Seq::new(order.len() as nat, |m: int| pv[order@[m] as int]) =~= view.insert(
            k as int,
            x,
        ));
        i += 1;
    }
    assert(pv.take(n as int) =~= pv);
    let ghost sorted = Seq::new(order.len() as nat, |k: int| pv[order@[k] as int]);
    let mut out: Vec<String> = Vec::new();
    let mut j: usize = 0;
    while j < order.len()
        invariant
            j <= order.len(),
            n == paths.len(),
            pv == paths.deep_view(),
            forall|k: int| 0 <= k < order.len() ==> #[trigger] order@[k] < n,
            sorted == Seq::new(order.len() as nat, |k: int| pv[order@[k] as int]),
            out.deep_view() == sorted.take(j as int),
        decreases order.len() - j,
    {
        let s = paths[order[j]].clone();
        let ghost prev = out;
        let ghost g = s;
        out.push(s);
        proof {
            lemma_push_string_deep_view(prev, out, g);
            assert(sorted.take(j + 1) =~= sorted.take(j as int).push(g@));
        }
        j += 1;
    }
    assert(sorted.take(order.len() as int) =~= sorted);
    out
}

} // verus!
