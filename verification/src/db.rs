//! The search index's rows, and the parts of its queries that are computed.
use vstd::prelude::*;
use crate::text::{joined, push_str, string_of};

verus! {

/// One stored blueprint.
#[derive(Debug)]
pub struct BlueprintRow {
    pub id: String,
    pub title: String,
    pub path: String,
    pub folder: String,
    pub content: String,
}

/// The schema version the index is created with.
pub const SCHEMA_VERSION: i64 = 2;

/// Whether an index at `version` predates the current schema, so that its
/// tables are dropped and created anew.
pub fn needs_reset(version: i64) -> (b: bool)
    ensures
        b == (version < SCHEMA_VERSION),
{
    version < SCHEMA_VERSION
}

/// `n` SQL placeholders separated by `, `.
pub open spec fn placeholders_spec(n: nat) -> Seq<char> {
    joined(Seq::new(n, |i: int| seq!['?']), ", "@)
}

/// The placeholder list for an `IN (...)` over `n` values.
pub fn placeholders(n: usize) -> (s: String)
    ensures
        s@ == placeholders_spec(n as nat),
{
    let mut out: Vec<char> = Vec::new();
    let mut i: usize = 0;
    while i < n
        invariant
            i <= n,
            out@ == joined(Seq::new(i as nat, |k: int| seq!['?']), ", "@),
        decreases n - i,
    {
        let ghost items = Seq::new((i + 1) as nat, |k: int| seq!['?']);
        assert(items.drop_last() =~= Seq::new(i as nat, |k: int| seq!['?']));
        if i > 0 {
            push_str(&mut out, ", ");
        }
        out.push('?');
        proof {
            reveal_strlit(", ");
            if i == 0 {
                assert(out@ =~= items[0]);
            } else {
                assert(out@ =~= joined(items.drop_last(), ", "@) + ", "@ + items.last());
            }
        }
        i += 1;
    }
    string_of(&out)
}

/// The line `list` prints for a row: id and title, two spaces apart.
pub fn list_line(row: &BlueprintRow) -> (s: String)
    ensures
        s@ == row.id@ + "  "@ + row.title@,
{
    let mut out: Vec<char> = Vec::new();
    push_str(&mut out, &row.id);
    push_str(&mut out, "  ");
    push_str(&mut out, &row.title);
    string_of(&out)
}

} // verus!
