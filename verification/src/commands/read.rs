//! `memex read`: how a stored blueprint is printed.
use vstd::prelude::*;
use crate::text::{chars_of, occurs_at, push_all, push_str, skip_ws, starts_with, string_of, trim_start};

verus! {

/// What `read` prints for a blueprint: its content when that starts (after
/// leading whitespace) with a `# ` heading, ended by a newline if it has
/// none; otherwise a `# <title>` heading, a blank line, and the content.
pub open spec fn rendered(content: Seq<char>, title: Seq<char>) -> Seq<char> {
    if starts_with(trim_start(content), seq!['#', ' ']) {
        content + if content.len() > 0 && content.last() == '\n' {
            seq![]
        } else {
            seq!['\n']
        }
    } else {
        "# "@ + title + "\n\n"@ + content + "\n"@
    }
}

/// The text `read` prints for a blueprint with this content and title.
pub fn render_blueprint(content: &str, title: &str) -> (s: String)
    ensures
        s@ == rendered(content@, title@),
{
    let c = chars_of(content);
    let k = skip_ws(&c, 0, c.len());
    assert(c@.subrange(0, c.len() as int) == c@);
    let heading = vec!['#', ' '];
    let has_heading = occurs_at(&c, k, &heading);
    assert(c@.subrange(k as int, c.len() as int) == c@.skip(k as int));
    assert(heading@ =~= seq!['#', ' ']);
    let mut out: Vec<char> = Vec::new();
    if has_heading {
        push_all(&mut out, &c);
        if !(c.len() > 0 && c[c.len() - 1] == '\n') {
            out.push('\n');
        }
    } else {
        push_str(&mut out, "# ");
        push_str(&mut out, title);
        push_str(&mut out, "\n\n");
        push_all(&mut out, &c);
        push_str(&mut out, "\n");
    }
    string_of(&out)
}

} // verus!
