//! The order in which a TOML text writes its top-level keys, and the order
//! of the sources that follows from it.
use vstd::prelude::*;

verus! {

/// `toml::de::Error`, declared to Verus as an opaque type.
#[verifier::external_type_specification]
#[verifier::external_body]
pub struct ExTomlError(toml::de::Error);

/// What the toml parser gives for a text read as a document: its top-level
/// keys, each with the position where the text writes it, in the parser's
/// order; or the message of the parse error.
pub uninterp spec fn toml_top_keys(content: Seq<char>) -> Result<Seq<(usize, Seq<char>)>, Seq<char>>;

/// Calls `toml::de::DeTable::parse` and lists each top-level key with the
/// start of its span; a failure is rendered as its message. Claimed: the
/// outcome is `toml_top_keys` of the text.
#[verifier::external_body]
fn toml_key_positions(content: &str) -> (r: Result<Vec<(usize, String)>, String>)
    ensures
        match r {
            Ok(v) => toml_top_keys(content@) == Ok::<Seq<(usize, Seq<char>)>, Seq<char>>(
                v.deep_view(),
            ),
            Err(m) => toml_top_keys(content@) == Err::<Seq<(usize, Seq<char>)>, Seq<char>>(m@),
        },
{
    match toml::de::DeTable::parse(content) {
        Ok(doc) => Ok(doc.get_ref().iter().map(|(k, _)| (k.span().start, k.get_ref().to_string())).collect()),
        Err(e) => Err(format!("{e}")),
    }
}

/// The index in `s` at which an entry at position `p` goes: after every
/// entry up to the first one whose position is greater than `p`.
pub open spec fn slot_after(s: Seq<(usize, usize)>, p: usize) -> int
    decreases s.len(),
{
    if s.len() == 0 {
        0
    } else if s[0].0 > p {
        0
    } else {
        1 + slot_after(s.drop_first(), p)
    }
}

pub proof fn lemma_slot_after(s: Seq<(usize, usize)>, p: usize)
    ensures
        0 <= slot_after(s, p) <= s.len(),
        forall|j: int| 0 <= j < slot_after(s, p) ==> #[trigger] s[j].0 <= p,
        slot_after(s, p) < s.len() ==> s[slot_after(s, p)].0 > p,
    decreases s.len(),
{
    if s.len() > 0 && s[0].0 <= p {
        lemma_slot_after(s.drop_first(), p);
        assert forall|j: int| 0 <= j < slot_after(s, p) implies #[trigger] s[j].0 <= p by {
            if j > 0 {
                assert(s[j] == s.drop_first()[j - 1]);
            }
        }
        if slot_after(s, p) < s.len() {
            assert(s[slot_after(s, p)] == s.drop_first()[slot_after(s, p) - 1]);
        }
    }
}

/// The entries of `s` ordered by position (the first element of each
/// pair); entries at the same position keep their order.
pub open spec fn by_position(s: Seq<(usize, usize)>) -> Seq<(usize, usize)>
    decreases s.len(),
{
    if s.len() == 0 {
        seq![]
    } else {
        let r = by_position(s.drop_last());
        r.insert(slot_after(r, s.last().0), s.last())
    }
}

/// The positions of `s` do not decrease.
pub open spec fn ascending(s: Seq<(usize, usize)>) -> bool {
    forall|i: int, j: int| 0 <= i < j < s.len() ==> #[trigger] s[i].0 <= #[trigger] s[j].0
}

/// Ordering by position gives the same entries, with positions that do not
/// decrease.
pub proof fn ordering_by_position_sorts(s: Seq<(usize, usize)>)
    ensures
        ascending(by_position(s)),
        by_position(s).to_multiset() == s.to_multiset(),
    decreases s.len(),
{
    broadcast use vstd::seq_lib::group_to_multiset_ensures;

    if s.len() == 0 {
        assert(by_position(s) =~= s);
    } else {
        let r = by_position(s.drop_last());
        ordering_by_position_sorts(s.drop_last());
        let x = s.last();
        let k = slot_after(r, x.0);
        lemma_slot_after(r, x.0);
        let t = r.insert(k, x);
        assert forall|i: int, j: int| 0 <= i < j < t.len() implies #[trigger] t[i].0
            <= #[trigger] t[j].0 by {
            if j < k {
                assert(t[i] == r[i] && t[j] == r[j]);
            } else if j == k {
                assert(t[i] == r[i]);
            } else if i < k {
                assert(t[i] == r[i] && t[j] == r[j - 1]);
                if k < r.len() {
                    assert(r[k].0 > x.0);
                    if j - 1 > k {
                        assert(r[k].0 <= r[j - 1].0);
                    }
                }
            } else if i == k {
                assert(t[j] == r[j - 1]);
                assert(r[k].0 > x.0);
                if j - 1 > k {
                    assert(r[k].0 <= r[j - 1].0);
                }
            } else {
                assert(t[i] == r[i - 1] && t[j] == r[j - 1]);
            }
        }
        assert(s.drop_last().push(x) =~= s);
    }
}

fn slot_after_exec(r: &Vec<(usize, usize)>, p: usize) -> (k: usize)
    ensures
        k == slot_after(r@, p),
{
    let mut k: usize = 0;
    assert(r@.skip(0) =~= r@);
    while k < r.len() && r[k].0 <= p
        invariant
            k <= r.len(),
            slot_after(r@, p) == k + slot_after(r@.skip(k as int), p),
        decreases r.len() - k,
    {
        assert(r@.skip(k as int).drop_first() =~= r@.skip(k + 1));
        k += 1;
    }
    assert(r@.skip(k as int).len() == 0 || r@.skip(k as int)[0].0 > p);
    k
}

/// Orders entries by position, those at the same position keeping their
/// order.
pub fn order_by_position(v: &Vec<(usize, usize)>) -> (r: Vec<(usize, usize)>)
    ensures
        r@ == by_position(v@),
{
    let mut r: Vec<(usize, usize)> = Vec::new();
    let mut i: usize = 0;
    while i < v.len()
        invariant
            i <= v.len(),
            r@ == by_position(v@.take(i as int)),
        decreases v.len() - i,
    {
        let x = v[i];
        let k = slot_after_exec(&r, x.0);
        proof {
            lemma_slot_after(r@, x.0);
            assert(v@.take(i + 1).drop_last() =~= v@.take(i as int));
            assert(v@.take(i + 1).last() == x);
        }
        r.insert(k, x);
        i += 1;
    }
    assert(v@.take(v.len() as int) =~= v@);
    r
}

/// Each key tagged with its place in the parser's list.
pub open spec fn tagged(keys: Seq<(usize, Seq<char>)>) -> Seq<(usize, usize)> {
    Seq::new(keys.len(), |i: int| (keys[i].0, i as usize))
}

/// The keys in the order the text writes them.
pub open spec fn keys_by_position(keys: Seq<(usize, Seq<char>)>) -> Seq<Seq<char>> {
    let s = by_position(tagged(keys));
    Seq::new(s.len(), |k: int| keys[s[k].1 as int].1)
}

/// The top-level keys of a TOML text in the order the text writes them; the
/// parser's message when the text is not TOML.
pub fn keys_in_file_order(content: &str) -> (r: Result<Vec<String>, String>)
    ensures
        match toml_top_keys(content@) {
            Ok(keys) => r matches Ok(v) && v.deep_view() == keys_by_position(keys),
            Err(m) => r matches Err(e) && e@ == m,
        },
{
    let keys = match toml_key_positions(content) {
        Ok(k) => k,
        Err(m) => return Err(m),
    };
    let ghost kv = keys.deep_view();
    let mut t: Vec<(usize, usize)> = Vec::new();
    let mut i: usize = 0;
    while i < keys.len()
        invariant
            i <= keys.len(),
            kv == keys.deep_view(),
            t@ == tagged(kv).take(i as int),
        decreases keys.len() - i,
    {
        t.push((keys[i].0, i));
        assert(t@ =~= tagged(kv).take(i + 1));
        i += 1;
    }
    assert(t@ =~= tagged(kv));
    let s = order_by_position(&t);
    proof {
        ordering_by_position_sorts(tagged(kv));
    }
    let mut out: Vec<String> = Vec::new();
    let mut k: usize = 0;
    while k < s.len()
        invariant
            k <= s.len(),
            s@ == by_position(tagged(kv)),
            by_position(tagged(kv)).to_multiset() == tagged(kv).to_multiset(),
            kv == keys.deep_view(),
            kv.len() == keys.len(),
            out.deep_view() == Seq::new(k as nat, |j: int| kv[s@[j].1 as int].1),
        decreases s.len() - k,
    {
        proof {
            broadcast use vstd::seq_lib::group_to_multiset_ensures;
            assert(s@.to_multiset().count(s@[k as int]) > 0);
            assert(tagged(kv).contains(s@[k as int]));
            let w = choose|w: int| 0 <= w < tagged(kv).len() && tagged(kv)[w] == s@[k as int];
            assert(s@[k as int].1 < keys.len());
        }
        let idx = s[k].1;
        let name = keys[idx].1.clone();
        let ghost prev = out;
        let ghost g = name;
        out.push(name);
        proof {
            crate::text::lemma_push_string_deep_view(prev, out, g);
            assert(out.deep_view() =~= Seq::new((k + 1) as nat, |j: int| kv[s@[j].1 as int].1));
        }
        k += 1;
    }
    Ok(out)
}

/// The index of the first of `names` from `from` on that equals `n`; -1
/// when there is none.
pub open spec fn first_named(names: Seq<Seq<char>>, n: Seq<char>, from: int) -> int
    decreases names.len() - from,
{
    if from < 0 || from >= names.len() {
        -1
    } else if names[from] == n {
        from
    } else {
        first_named(names, n, from + 1)
    }
}

/// For the first `m` names of `order`: the index of the source each names,
/// at its first mention and when some source has that name.
pub open spec fn named_first(names: Seq<Seq<char>>, order: Seq<Seq<char>>, m: int) -> Seq<int>
    decreases m,
{
    if m <= 0 {
        seq![]
    } else {
        named_first(names, order, m - 1) + if !order.take(m - 1).contains(order[m - 1])
            && first_named(names, order[m - 1], 0) >= 0 {
            seq![first_named(names, order[m - 1], 0)]
        } else {
            seq![]
        }
    }
}

/// Among the first `n` sources, the indices of those that `order` does not
/// name, in order.
pub open spec fn unnamed(names: Seq<Seq<char>>, order: Seq<Seq<char>>, n: int) -> Seq<int>
    decreases n,
{
    if n <= 0 {
        seq![]
    } else {
        unnamed(names, order, n - 1) + if !order.contains(names[n - 1]) {
            seq![n - 1]
        } else {
            seq![]
        }
    }
}

/// The order of the sources: those that `order` names, as it names them,
/// then the others as they come.
pub open spec fn arranged(names: Seq<Seq<char>>, order: Seq<Seq<char>>) -> Seq<int> {
    named_first(names, order, order.len() as int) + unnamed(names, order, names.len() as int)
}

fn first_named_exec(names: &Vec<String>, n: &String) -> (r: Option<usize>)
    ensures
        match r {
            Some(i) => i as int == first_named(names.deep_view(), n@, 0),
            None => first_named(names.deep_view(), n@, 0) == -1,
        },
{
    let mut i: usize = 0;
    while i < names.len()
        invariant
            i <= names.len(),
            first_named(names.deep_view(), n@, 0) == first_named(names.deep_view(), n@, i as int),
        decreases names.len() - i,
    {
        if names[i] == *n {
            return Some(i);
        }
        i += 1;
    }
    None
}

fn mentions(order: &Vec<String>, upto: usize, n: &String) -> (b: bool)
    requires
        upto <= order.len(),
    ensures
        b == order.deep_view().take(upto as int).contains(n@),
{
    let mut j: usize = 0;
    while j < upto
        invariant
            j <= upto <= order.len(),
            forall|k: int| 0 <= k < j ==> order.deep_view()[k] != n@,
        decreases upto - j,
    {
        if order[j] == *n {
            assert(order.deep_view().take(upto as int)[j as int] == n@);
            return true;
        }
        j += 1;
    }
    assert forall|k: int| 0 <= k < upto implies order.deep_view().take(upto as int)[k] != n@ by {
        assert(order.deep_view().take(upto as int)[k] == order.deep_view()[k]);
    }
    false
}

/// The order in which sources are kept: given their names and the order in
/// which the configuration file writes its keys, the indices of the sources
/// it names, as it names them, then those of the others as they come.
pub fn source_order(names: &Vec<String>, order: &Vec<String>) -> (r: Vec<usize>)
    ensures
        r@.len() == arranged(names.deep_view(), order.deep_view()).len(),
        forall|k: int| 0 <= k < r@.len() ==> r@[k] as int == #[trigger] arranged(
            names.deep_view(),
            order.deep_view(),
        )[k],
{
    let ghost nv = names.deep_view();
    let ghost ov = order.deep_view();
    let mut r: Vec<usize> = Vec::new();
    let mut m: usize = 0;
    while m < order.len()
        invariant
            m <= order.len(),
            nv == names.deep_view(),
            ov == order.deep_view(),
            r@.len() == named_first(nv, ov, m as int).len(),
            forall|k: int| 0 <= k < r@.len() ==> r@[k] as int == #[trigger] named_first(nv, ov, m as int)[k],
        decreases order.len() - m,
    {
        let seen = mentions(order, m, &order[m]);
        if !seen {
            match first_named_exec(names, &order[m]) {
                Some(i) => {
                    r.push(i);
                },
                None => {},
            }
        }
        proof {
            let prev = named_first(nv, ov, m as int);
            assert(ov[m as int] == order@[m as int]@);
            assert forall|k: int| 0 <= k < r@.len() implies r@[k] as int == #[trigger] named_first(nv, ov, m + 1)[k] by {
                if k < prev.len() {
                    assert(named_first(nv, ov, m + 1)[k] == prev[k]);
                }
            }
        }
        m += 1;
    }
    let ghost head = named_first(nv, ov, order.len() as int);
    let mut n: usize = 0;
    while n < names.len()
        invariant
            n <= names.len(),
            nv == names.deep_view(),
            ov == order.deep_view(),
            head == named_first(nv, ov, order.len() as int),
            r@.len() == head.len() + unnamed(nv, ov, n as int).len(),
            forall|k: int| 0 <= k < r@.len() ==> r@[k] as int == #[trigger] (head + unnamed(nv, ov, n as int))[k],
        decreases names.len() - n,
    {
        let named = mentions(order, order.len(), &names[n]);
        proof {
            assert(ov.take(order.len() as int) =~= ov);
            assert(nv[n as int] == names@[n as int]@);
        }
        if !named {
            r.push(n);
        }
        proof {
            let prev = head + unnamed(nv, ov, n as int);
            assert forall|k: int| 0 <= k < r@.len() implies r@[k] as int == #[trigger] (head + unnamed(nv, ov, n + 1))[k] by {
                if k < prev.len() {
                    assert((head + unnamed(nv, ov, n + 1))[k] == prev[k]);
                }
            }
        }
        n += 1;
    }
    r
}

} // verus!
