//! Keeping the search index in step with the files on disk: content hashes,
//! and which index rows to drop or re-embed.
use vstd::prelude::*;
use crate::text::string_of;

verus! {

/// The SHA-256 digest of `data`.
pub uninterp spec fn sha256(data: Seq<u8>) -> Seq<u8>;

/// Calls `sha2::Sha256::digest` (from the `Digest` trait) and copies the
/// 32-byte output. Claimed: the bytes are `sha256` of the input, and there
/// are 32 of them (the hasher's fixed output size).
#[verifier::external_body]
fn sha256_digest(data: &[u8]) -> (d: Vec<u8>)
    ensures
        d@ == sha256(data@),
        d@.len() == 32,
{
    <sha2::Sha256 as sha2::Digest>::digest(data).to_vec()
}

/// The lowercase hexadecimal digit of `d` (below 16).
pub open spec fn hex_digit(d: u8) -> char {
    if d < 10 {
        (48 + d) as char
    } else {
        (87 + d) as char
    }
}

/// The bytes as lowercase hexadecimal, two digits per byte.
pub open spec fn hex_lower(b: Seq<u8>) -> Seq<char>
    decreases b.len(),
{
    if b.len() == 0 {
        seq![]
    } else {
        hex_lower(b.drop_last()) + seq![hex_digit(b.last() / 16), hex_digit(b.last() % 16)]
    }
}

fn hex_digit_of(d: u8) -> (c: char)
    requires
        d < 16,
    ensures
        c == hex_digit(d),
{
    if d < 10 {
        (48 + d) as char
    } else {
        (87 + d) as char
    }
}

/// The SHA-256 digest of `bytes` as 64 lowercase hexadecimal digits.
pub fn sha256_hex(bytes: &[u8]) -> (s: String)
    ensures
        s@ == hex_lower(sha256(bytes@)),
        s@.len() == 64,
{
    let d = sha256_digest(bytes);
    let mut out: Vec<char> = Vec::new();
    let mut i: usize = 0;
    while i < d.len()
        invariant
            i <= d.len(),
            out@ == hex_lower(d@.take(i as int)),
            out@.len() == 2 * i,
        decreases d.len() - i,
    {
        let b = d[i];
        out.push(hex_digit_of(b / 16));
        out.push(hex_digit_of(b % 16));
        assert(d@.take(i + 1).drop_last() == d@.take(i as int));
        i += 1;
    }
    assert(d@.take(d.len() as int) == d@);
    string_of(&out)
}

// ---------- planning ----------

/// What to do to the index: the ids of rows whose file is gone, and the
/// positions (in the disk listing) of files to embed again.
#[derive(Debug)]
pub struct RefreshPlan {
    pub to_delete: Vec<String>,
    pub to_embed: Vec<usize>,
}

/// The hash recorded for `id` among the first `n` entries: that of the last
/// entry with that id.
pub open spec fn hash_of(entries: Seq<(String, String)>, id: Seq<char>, n: int) -> Option<Seq<char>>
    decreases n,
{
    if n <= 0 {
        None
    } else if entries[n - 1].0@ == id {
        Some(entries[n - 1].1@)
    } else {
        hash_of(entries, id, n - 1)
    }
}

/// The entries of `entries` from `from` on have none with this id.
pub open spec fn no_later(entries: Seq<(String, String)>, id: Seq<char>, from: int) -> bool {
    forall|j: int| from <= j < entries.len() ==> #[trigger] entries[j].0@ != id
}

/// Among the first `n` index rows, the ids of those with no file on disk,
/// in index order.
pub open spec fn stale_ids(indexed: Seq<(String, String)>, disk: Seq<(String, String)>, n: int) -> Seq<
    Seq<char>,
>
    decreases n,
{
    if n <= 0 {
        seq![]
    } else {
        stale_ids(indexed, disk, n - 1) + if hash_of(disk, indexed[n - 1].0@, disk.len() as int)
            is None {
            seq![indexed[n - 1].0@]
        } else {
            seq![]
        }
    }
}

/// Disk entry `i` is the last one with its id, and the index has no row
/// for it or a row with another hash.
pub open spec fn needs_embedding(disk: Seq<(String, String)>, indexed: Seq<(String, String)>, i: int) -> bool {
    &&& no_later(disk, disk[i].0@, i + 1)
    &&& hash_of(indexed, disk[i].0@, indexed.len() as int) != Some(disk[i].1@)
}

/// Among the first `n` disk entries, the positions of those to embed, in
/// order.
pub open spec fn embed_positions(disk: Seq<(String, String)>, indexed: Seq<(String, String)>, n: int) -> Seq<
    usize,
>
    decreases n,
{
    if n <= 0 {
        seq![]
    } else {
        embed_positions(disk, indexed, n - 1) + if needs_embedding(disk, indexed, n - 1) {
            seq![(n - 1) as usize]
        } else {
            seq![]
        }
    }
}

fn lookup_hash(entries: &Vec<(String, String)>, id: &String) -> (r: Option<usize>)
    ensures
        match r {
            Some(k) => k < entries.len() && entries@[k as int].0@ == id@ && hash_of(
                entries@,
                id@,
                entries.len() as int,
            ) == Some(entries@[k as int].1@),
            None => hash_of(entries@, id@, entries.len() as int) is None,
        },
{
    let mut k = entries.len();
    while k > 0
        invariant
            k <= entries.len(),
            hash_of(entries@, id@, entries.len() as int) == hash_of(entries@, id@, k as int),
        decreases k,
    {
        if entries[k - 1].0 == *id {
            return Some(k - 1);
        }
        k -= 1;
    }
    None
}

fn occurs_after(entries: &Vec<(String, String)>, id: &String, from: usize) -> (b: bool)
    requires
        from <= entries.len(),
    ensures
        b == !no_later(entries@, id@, from as int),
{
    let mut j = from;
    while j < entries.len()
        invariant
            from <= j <= entries.len(),
            forall|m: int| from <= m < j ==> #[trigger] entries@[m].0@ != id@,
        decreases entries.len() - j,
    {
        if entries[j].0 == *id {
            return true;
        }
        j += 1;
    }
    false
}

/// Compares the files on disk (`disk`: id and content hash, in enumeration
/// order) with the index rows (`indexed`: id and recorded hash): rows whose
/// id no file has are to be deleted; a file is to be embedded when the index
/// has no row for its id or one with another hash. A file whose id a later
/// file repeats is passed over for that later one.
pub fn plan_refresh(disk: &Vec<(String, String)>, indexed: &Vec<(String, String)>) -> (p: RefreshPlan)
    ensures
        p.to_delete.deep_view() == stale_ids(indexed@, disk@, indexed@.len() as int),
        p.to_embed@ == embed_positions(disk@, indexed@, disk@.len() as int),
{
    let mut to_delete: Vec<String> = Vec::new();
    let mut i: usize = 0;
    while i < indexed.len()
        invariant
            i <= indexed.len(),
            to_delete.deep_view() == stale_ids(indexed@, disk@, i as int),
        decreases indexed.len() - i,
    {
        let id = &indexed[i].0;
        if lookup_hash(disk, id).is_none() {
            to_delete.push(id.clone());
        }
        assert(to_delete.deep_view() =~= stale_ids(indexed@, disk@, i + 1));
        i += 1;
    }
    let mut to_embed: Vec<usize> = Vec::new();
    let mut k: usize = 0;
    while k < disk.len()
        invariant
            k <= disk.len(),
            to_embed@ == embed_positions(disk@, indexed@, k as int),
        decreases disk.len() - k,
    {
        let (id, hash) = &disk[k];
        let needed = if occurs_after(disk, id, k + 1) {
            false
        } else {
            match lookup_hash(indexed, id) {
                None => true,
                Some(j) => indexed[j].1 != *hash,
            }
        };
        if needed {
            to_embed.push(k);
        }
        assert(to_embed@ =~= embed_positions(disk@, indexed@, k + 1));
        k += 1;
    }
    RefreshPlan { to_delete, to_embed }
}

proof fn lemma_hash_of_last(entries: Seq<(String, String)>, i: int, n: int)
    requires
        0 <= i < n <= entries.len(),
        forall|j: int| i < j < n ==> #[trigger] entries[j].0@ != entries[i].0@,
    ensures
        hash_of(entries, entries[i].0@, n) == Some(entries[i].1@),
    decreases n,
{
    if n - 1 > i {
        lemma_hash_of_last(entries, i, n - 1);
    }
}

proof fn lemma_hash_of_present(entries: Seq<(String, String)>, i: int, n: int)
    requires
        0 <= i < n <= entries.len(),
    ensures
        hash_of(entries, entries[i].0@, n) is Some,
    decreases n,
{
    if n - 1 > i && entries[n - 1].0@ != entries[i].0@ {
        lemma_hash_of_present(entries, i, n - 1);
    }
}

/// When the index already holds exactly what is on disk, refreshing deletes
/// nothing and embeds nothing.
pub proof fn refresh_of_a_current_index_plans_nothing(entries: Seq<(String, String)>)
    ensures
        stale_ids(entries, entries, entries.len() as int).len() == 0,
        embed_positions(entries, entries, entries.len() as int).len() == 0,
{
    lemma_nothing_stale(entries, entries.len() as int);
    lemma_nothing_to_embed(entries, entries.len() as int);
}

proof fn lemma_nothing_stale(entries: Seq<(String, String)>, n: int)
    requires
        0 <= n <= entries.len(),
    ensures
        stale_ids(entries, entries, n).len() == 0,
    decreases n,
{
    if n > 0 {
        lemma_nothing_stale(entries, n - 1);
        lemma_hash_of_present(entries, n - 1, entries.len() as int);
    }
}

proof fn lemma_nothing_to_embed(entries: Seq<(String, String)>, n: int)
    requires
        0 <= n <= entries.len(),
    ensures
        embed_positions(entries, entries, n).len() == 0,
    decreases n,
{
    if n > 0 {
        lemma_nothing_to_embed(entries, n - 1);
        if no_later(entries, entries[n - 1].0@, n) {
            lemma_hash_of_last(entries, n - 1, entries.len() as int);
        }
    }
}

/// The rows as a map from id to hash; the last row of an id counts.
pub open spec fn hash_map(entries: Seq<(String, String)>) -> Map<Seq<char>, Seq<char>> {
    Map::new(
        |id: Seq<char>| hash_of(entries, id, entries.len() as int) is Some,
        |id: Seq<char>| hash_of(entries, id, entries.len() as int)->0,
    )
}

/// `m` with the files at the given disk positions written in, in order.
pub open spec fn upserted(
    m: Map<Seq<char>, Seq<char>>,
    disk: Seq<(String, String)>,
    pos: Seq<usize>,
) -> Map<Seq<char>, Seq<char>>
    decreases pos.len(),
{
    if pos.len() == 0 {
        m
    } else {
        upserted(m, disk, pos.drop_last()).insert(
            disk[pos.last() as int].0@,
            disk[pos.last() as int].1@,
        )
    }
}

/// The index once a plan is carried out: the rows of the ids to delete
/// removed, then the files to embed written in with their hashes.
pub open spec fn after_plan(
    indexed: Seq<(String, String)>,
    disk: Seq<(String, String)>,
    to_delete: Seq<Seq<char>>,
    to_embed: Seq<usize>,
) -> Map<Seq<char>, Seq<char>> {
    upserted(hash_map(indexed).remove_keys(to_delete.to_set()), disk, to_embed)
}

proof fn lemma_hash_of_witness(entries: Seq<(String, String)>, id: Seq<char>, n: int)
    requires
        0 <= n <= entries.len(),
    ensures
        hash_of(entries, id, n) matches Some(h) ==> exists|i: int|
            0 <= i < n && entries[i].0@ == id && entries[i].1@ == h && forall|j: int|
                i < j < n ==> #[trigger] entries[j].0@ != id,
    decreases n,
{
    if n > 0 {
        lemma_hash_of_witness(entries, id, n - 1);
        if entries[n - 1].0@ == id {
            assert(forall|j: int| n - 1 < j < n ==> #[trigger] entries[j].0@ != id);
        } else if hash_of(entries, id, n - 1) is Some {
            let i = choose|i: int|
                0 <= i < n - 1 && entries[i].0@ == id && entries[i].1@ == hash_of(
                    entries,
                    id,
                    n - 1,
                )->0 && forall|j: int| i < j < n - 1 ==> #[trigger] entries[j].0@ != id;
            assert(forall|j: int| i < j < n ==> #[trigger] entries[j].0@ != id);
        }
    }
}

proof fn lemma_hash_of_absent(entries: Seq<(String, String)>, id: Seq<char>, n: int)
    requires
        0 <= n <= entries.len(),
        hash_of(entries, id, n) is None,
    ensures
        forall|j: int| 0 <= j < n ==> #[trigger] entries[j].0@ != id,
    decreases n,
{
    if n > 0 {
        lemma_hash_of_absent(entries, id, n - 1);
    }
}

proof fn lemma_stale_ids(indexed: Seq<(String, String)>, disk: Seq<(String, String)>, n: int, id: Seq<char>)
    requires
        0 <= n <= indexed.len(),
        hash_of(disk, id, disk.len() as int) is None,
        exists|j: int| 0 <= j < n && #[trigger] indexed[j].0@ == id,
    ensures
        stale_ids(indexed, disk, n).contains(id),
    decreases n,
{
    let prev = stale_ids(indexed, disk, n - 1);
    if indexed[n - 1].0@ == id {
        assert(stale_ids(indexed, disk, n) == prev + seq![id]);
        assert((prev + seq![id])[prev.len() as int] == id);
    } else {
        let j = choose|j: int| 0 <= j < n && #[trigger] indexed[j].0@ == id;
        assert(j < n - 1);
        lemma_stale_ids(indexed, disk, n - 1, id);
        let k = choose|k: int| 0 <= k < prev.len() && prev[k] == id;
        assert(stale_ids(indexed, disk, n)[k] == id);
    }
}

proof fn lemma_stale_on_disk(indexed: Seq<(String, String)>, disk: Seq<(String, String)>, n: int, id: Seq<char>)
    requires
        0 <= n <= indexed.len(),
        hash_of(disk, id, disk.len() as int) is Some,
    ensures
        !stale_ids(indexed, disk, n).contains(id),
    decreases n,
{
    if n > 0 {
        lemma_stale_on_disk(indexed, disk, n - 1, id);
        let prev = stale_ids(indexed, disk, n - 1);
        let cur = stale_ids(indexed, disk, n);
        if cur.contains(id) {
            let k = choose|k: int| 0 <= k < cur.len() && cur[k] == id;
            if k < prev.len() {
                assert(cur[k] == prev[k]);
            }
        }
    }
}

proof fn lemma_embed_positions(disk: Seq<(String, String)>, indexed: Seq<(String, String)>, n: int)
    requires
        0 <= n <= disk.len(),
        disk.len() <= usize::MAX,
    ensures
        forall|k: int|
            0 <= k < embed_positions(disk, indexed, n).len() ==> #[trigger] embed_positions(
                disk,
                indexed,
                n,
            )[k] < n && needs_embedding(disk, indexed, embed_positions(disk, indexed, n)[k] as int),
        forall|i: int|
            0 <= i < n && needs_embedding(disk, indexed, i) ==> exists|k: int|
                0 <= k < embed_positions(disk, indexed, n).len() && #[trigger] embed_positions(
                    disk,
                    indexed,
                    n,
                )[k] == i,
        forall|k1: int, k2: int|
            0 <= k1 < k2 < embed_positions(disk, indexed, n).len() ==> #[trigger] embed_positions(
                disk,
                indexed,
                n,
            )[k1] < #[trigger] embed_positions(disk, indexed, n)[k2],
    decreases n,
{
    if n > 0 {
        lemma_embed_positions(disk, indexed, n - 1);
        let prev = embed_positions(disk, indexed, n - 1);
        let cur = embed_positions(disk, indexed, n);
        assert forall|k: int| 0 <= k < prev.len() implies #[trigger] cur[k] == prev[k] by {}
        if needs_embedding(disk, indexed, n - 1) {
            assert(cur == prev + seq![(n - 1) as usize]);
            assert(cur[prev.len() as int] == n - 1);
        }
        assert forall|i: int| 0 <= i < n && needs_embedding(disk, indexed, i) implies exists|k: int|
            0 <= k < cur.len() && #[trigger] cur[k] == i by {
            if i < n - 1 {
                let k = choose|k: int| 0 <= k < prev.len() && #[trigger] prev[k] == i;
                assert(cur[k] == prev[k]);
            } else {
                assert(cur == prev + seq![(n - 1) as usize]);
                assert(cur[prev.len() as int] == i);
            }
        }
    }
}

proof fn lemma_upserted(
    m: Map<Seq<char>, Seq<char>>,
    disk: Seq<(String, String)>,
    pos: Seq<usize>,
    id: Seq<char>,
)
    requires
        forall|k: int| 0 <= k < pos.len() ==> #[trigger] pos[k] < disk.len(),
        forall|k1: int, k2: int|
            0 <= k1 < k2 < pos.len() ==> disk[#[trigger] pos[k1] as int].0@ != disk[#[trigger] pos[k2] as int].0@,
    ensures
        forall|k: int|
            0 <= k < pos.len() && disk[#[trigger] pos[k] as int].0@ == id ==> upserted(
                m,
                disk,
                pos,
            ).dom().contains(id) && upserted(m, disk, pos)[id] == disk[pos[k] as int].1@,
        (forall|k: int| 0 <= k < pos.len() ==> disk[#[trigger] pos[k] as int].0@ != id) ==> (
        upserted(m, disk, pos).dom().contains(id) == m.dom().contains(id) && (m.dom().contains(id)
            ==> upserted(m, disk, pos)[id] == m[id])),
    decreases pos.len(),
{
    if pos.len() > 0 {
        let init = pos.drop_last();
        assert forall|k: int| 0 <= k < init.len() implies #[trigger] init[k] < disk.len() by {
            assert(init[k] == pos[k]);
        }
        assert forall|k1: int, k2: int| 0 <= k1 < k2 < init.len() implies disk[#[trigger] init[k1] as int].0@
            != disk[#[trigger] init[k2] as int].0@ by {
            assert(init[k1] == pos[k1]);
            assert(init[k2] == pos[k2]);
        }
        lemma_upserted(m, disk, init, id);
        let last = pos.last();
        assert forall|k: int| 0 <= k < pos.len() && disk[#[trigger] pos[k] as int].0@ == id implies upserted(
            m,
            disk,
            pos,
        ).dom().contains(id) && upserted(m, disk, pos)[id] == disk[pos[k] as int].1@ by {
            if k < pos.len() - 1 {
                assert(init[k] == pos[k]);
                assert(disk[pos[k] as int].0@ != disk[pos[pos.len() - 1] as int].0@);
            }
        }
        if forall|k: int| 0 <= k < pos.len() ==> disk[#[trigger] pos[k] as int].0@ != id {
            assert(disk[pos[pos.len() - 1] as int].0@ != id);
            assert forall|k: int| 0 <= k < init.len() implies disk[#[trigger] init[k] as int].0@ != id by {
                assert(init[k] == pos[k]);
            }
        }
    }
}

/// Carrying out the plan of a refresh leaves the index holding, for each
/// id, the hash of the last file on disk with that id, and no other id.
pub proof fn refresh_makes_the_index_match_the_disk(
    disk: Seq<(String, String)>,
    indexed: Seq<(String, String)>,
)
    requires
        disk.len() <= usize::MAX,
    ensures
        after_plan(
            indexed,
            disk,
            stale_ids(indexed, disk, indexed.len() as int),
            embed_positions(disk, indexed, disk.len() as int),
        ) == hash_map(disk),
{
    let del = stale_ids(indexed, disk, indexed.len() as int);
    let pos = embed_positions(disk, indexed, disk.len() as int);
    let m = hash_map(indexed).remove_keys(del.to_set());
    let after = after_plan(indexed, disk, del, pos);
    let want = hash_map(disk);
    lemma_embed_positions(disk, indexed, disk.len() as int);
    assert forall|k1: int, k2: int| 0 <= k1 < k2 < pos.len() implies disk[#[trigger] pos[k1] as int].0@
        != disk[#[trigger] pos[k2] as int].0@ by {
        let p1 = pos[k1] as int;
        let p2 = pos[k2] as int;
        assert(needs_embedding(disk, indexed, p1));
        assert(needs_embedding(disk, indexed, p2));
        if disk[p1].0@ == disk[p2].0@ {
            if p1 < p2 {
                assert(disk[p2].0@ != disk[p1].0@);
            } else if p2 < p1 {
                assert(disk[p1].0@ != disk[p2].0@);
            }
            assert(pos[k1] < pos[k2]);
        }
    }
    assert forall|id: Seq<char>| #[trigger] after.dom().contains(id) == want.dom().contains(id)
        && (want.dom().contains(id) ==> after[id] == want[id]) by {
        lemma_upserted(m, disk, pos, id);
        lemma_hash_of_witness(disk, id, disk.len() as int);
        lemma_hash_of_witness(indexed, id, indexed.len() as int);
        match hash_of(disk, id, disk.len() as int) {
            Some(h) => {
                let i = choose|i: int|
                    0 <= i < disk.len() && disk[i].0@ == id && disk[i].1@ == h && forall|j: int|
                        i < j < disk.len() ==> #[trigger] disk[j].0@ != id;
                lemma_stale_on_disk(indexed, disk, indexed.len() as int, id);
                if needs_embedding(disk, indexed, i) {
                    let k = choose|k: int| 0 <= k < pos.len() && #[trigger] pos[k] == i;
                    assert(disk[pos[k] as int].0@ == id);
                } else {
                    assert(no_later(disk, id, i + 1));
                    assert(hash_of(indexed, id, indexed.len() as int) == Some(h));
                    assert forall|k: int| 0 <= k < pos.len() implies disk[#[trigger] pos[k] as int].0@ != id by {
                        let p = pos[k] as int;
                        if disk[p].0@ == id {
                            assert(needs_embedding(disk, indexed, p));
                            if p < i {
                                assert(disk[i].0@ != id);
                            } else if p > i {
                                assert(disk[p].0@ != id);
                            }
                        }
                    }
                    assert(!del.to_set().contains(id));
                    assert(hash_map(indexed).dom().contains(id));
                }
            },
            None => {
                assert forall|k: int| 0 <= k < pos.len() implies disk[#[trigger] pos[k] as int].0@ != id by {
                    lemma_hash_of_present(disk, pos[k] as int, disk.len() as int);
                }
                if hash_of(indexed, id, indexed.len() as int) is Some {
                    let j = choose|j: int|
                        0 <= j < indexed.len() && indexed[j].0@ == id && indexed[j].1@ == hash_of(
                            indexed,
                            id,
                            indexed.len() as int,
                        )->0 && forall|l: int| j < l < indexed.len() ==> #[trigger] indexed[l].0@ != id;
                    assert(indexed[j].0@ == id);
                    lemma_stale_ids(indexed, disk, indexed.len() as int, id);
                    assert(del.to_set().contains(id));
                }
            },
        }
    }
    assert(after =~= want);
}

} // verus!
