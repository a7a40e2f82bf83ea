//! `memex write`: the commit message and report of a write.
use vstd::prelude::*;
use crate::text::{push_str, string_of};

verus! {

/// The commit message of a write: `Rewrite` when the file existed, `Add`
/// when it is new.
pub open spec fn write_commit_message(id: Seq<char>, existed: bool) -> Seq<char> {
    (if existed {
        "Rewrite"@
    } else {
        "Add"@
    }) + " blueprint: "@ + id
}

/// The line printed after a write.
pub open spec fn write_report(id: Seq<char>, existed: bool) -> Seq<char> {
    (if existed {
        "Rewrote"@
    } else {
        "Added"@
    }) + " blueprint '"@ + id + "'"@
}

/// The commit message for writing blueprint `id`.
pub fn commit_message(id: &str, existed: bool) -> (s: String)
    ensures
        s@ == write_commit_message(id@, existed),
{
    let mut out: Vec<char> = Vec::new();
    if existed {
        push_str(&mut out, "Rewrite");
    } else {
        push_str(&mut out, "Add");
    }
    push_str(&mut out, " blueprint: ");
    push_str(&mut out, id);
    string_of(&out)
}

/// The line printed after writing blueprint `id`.
pub fn report(id: &str, existed: bool) -> (s: String)
    ensures
        s@ == write_report(id@, existed),
{
    let mut out: Vec<char> = Vec::new();
    if existed {
        push_str(&mut out, "Rewrote");
    } else {
        push_str(&mut out, "Added");
    }
    push_str(&mut out, " blueprint '");
    push_str(&mut out, id);
    push_str(&mut out, "'");
    string_of(&out)
}

} // verus!
