//! `memex edit`: replacing the first occurrence of a string in a blueprint.
use vstd::prelude::*;
use crate::config::opt_view;
use crate::text::{chars_of, occurs_at, push_all, push_range, starts_with, string_of};

verus! {

/// The first position at or after `i` where `p` occurs in `s`.
pub open spec fn occurrence_from(s: Seq<char>, p: Seq<char>, i: int) -> Option<int>
    decreases s.len() + 1 - i,
{
    if i < 0 || i + p.len() > s.len() {
        None
    } else if starts_with(s.skip(i), p) {
        Some(i)
    } else {
        occurrence_from(s, p, i + 1)
    }
}

/// `s` with its first occurrence of `old` replaced by `new`; none when
/// `old` does not occur.
pub open spec fn replaced_first(s: Seq<char>, old: Seq<char>, new: Seq<char>) -> Option<Seq<char>> {
    match occurrence_from(s, old, 0) {
        Some(i) => Some(s.take(i) + new + s.skip(i + old.len())),
        None => None,
    }
}

/// Replaces the first occurrence of `old` in `content` by `new`; `None`
/// when `old` does not occur (an empty `old` occurs at the start).
pub fn replace_first(content: &str, old: &str, new: &str) -> (r: Option<String>)
    ensures
        opt_view(r) == replaced_first(content@, old@, new@),
{
    let c = chars_of(content);
    let o = chars_of(old);
    let n = chars_of(new);
    if o.len() > c.len() {
        return None;
    }
    let limit = c.len() - o.len();
    let mut i: usize = 0;
    loop
        invariant
            i <= limit,
            limit == c.len() - o.len(),
            c@ == content@,
            o@ == old@,
            n@ == new@,
            occurrence_from(c@, o@, 0) == occurrence_from(c@, o@, i as int),
        ensures
            occurrence_from(c@, o@, 0) is None,
        decreases limit - i,
    {
        if occurs_at(&c, i, &o) {
            let mut out: Vec<char> = Vec::new();
            push_range(&mut out, &c, 0, i);
            push_all(&mut out, &n);
            push_range(&mut out, &c, i + o.len(), c.len());
            assert(c@.subrange(0, i as int) == c@.take(i as int));
            assert(c@.subrange(i + o.len(), c.len() as int) == c@.skip(i + o.len()));
            return Some(string_of(&out));
        }
        if i == limit {
            assert(occurrence_from(c@, o@, i + 1) is None);
            break;
        }
        i += 1;
    }
    None
}

/// `p` stands in `s` at index `i`.
pub open spec fn stands_at(s: Seq<char>, p: Seq<char>, i: int) -> bool {
    0 <= i && i + p.len() <= s.len() && s.subrange(i, i + p.len()) == p
}

proof fn lemma_occurrence_from(s: Seq<char>, p: Seq<char>, i: int)
    requires
        0 <= i,
    ensures
        match occurrence_from(s, p, i) {
            Some(k) => i <= k && stands_at(s, p, k) && forall|j: int|
                i <= j < k ==> !stands_at(s, p, j),
            None => forall|j: int| i <= j ==> !stands_at(s, p, j),
        },
    decreases s.len() + 1 - i,
{
    if i + p.len() <= s.len() {
        assert(s.skip(i).take(p.len() as int) =~= s.subrange(i, i + p.len()));
        if !starts_with(s.skip(i), p) {
            lemma_occurrence_from(s, p, i + 1);
        }
    }
}

/// The first occurrence is replaced: the content has a replacement exactly
/// when `old` stands in it somewhere; the replacement is the content before
/// the leftmost place where `old` stands, then `new`, then the content
/// after that occurrence.
pub proof fn replacing_takes_the_leftmost_occurrence(content: Seq<char>, old: Seq<char>, new: Seq<char>)
    ensures
        (exists|i: int| #[trigger] stands_at(content, old, i)) <==> replaced_first(content, old, new)
            is Some,
        replaced_first(content, old, new) matches Some(r) ==> exists|i: int|
            #[trigger] stands_at(content, old, i) && r == content.take(i) + new + content.skip(
                i + old.len(),
            ) && forall|j: int| 0 <= j < i ==> !stands_at(content, old, j),
{
    lemma_occurrence_from(content, old, 0);
    if exists|i: int| #[trigger] stands_at(content, old, i) {
        let i = choose|i: int| #[trigger] stands_at(content, old, i);
        assert(0 <= i);
    }
}

/// Whatever stands around an occurrence, replacing gives something: if
/// `content` is `a + old + b`, the result is `a2 + new + b2` where
/// `a2 + old + b2` is `content` and `a2` is no longer than `a`.
pub proof fn replacing_an_occurring_text(a: Seq<char>, old: Seq<char>, b: Seq<char>, new: Seq<char>)
    ensures
        replaced_first(a + old + b, old, new) matches Some(r) && exists|a2: Seq<char>, b2: Seq<char>|
            a2 + old + b2 == a + old + b && r == a2 + new + b2 && a2.len() <= a.len(),
{
    let c = a + old + b;
    assert(c.subrange(a.len() as int, (a.len() + old.len()) as int) =~= old);
    assert(stands_at(c, old, a.len() as int));
    replacing_takes_the_leftmost_occurrence(c, old, new);
    let r = replaced_first(c, old, new)->0;
    let i = choose|i: int|
        #[trigger] stands_at(c, old, i) && r == c.take(i) + new + c.skip(i + old.len()) && forall|j: int|
            0 <= j < i ==> !stands_at(c, old, j);
    let a2 = c.take(i);
    let b2 = c.skip(i + old.len());
    assert(a2 + old + b2 =~= c);
    assert(i <= a.len());
}

} // verus!
