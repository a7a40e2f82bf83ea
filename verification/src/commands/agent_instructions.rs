//! `memex agent-instructions`: the usage brief for coding agents, as
//! markdown or wrapped in a session-start hook envelope.
use vstd::prelude::*;
use crate::commands::{json_escape, json_escaped};
use crate::text::{push_str, string_of};

verus! {

/// The brief: how to use memex's tools, project-agnostic.
pub const INSTRUCTIONS: &'static str = "# Using memex

memex is a semantic blueprint index. Blueprints are markdown documents with
stable slug IDs (like `shared/phoenix-liveview/liveview`). You use them as
reference material — architecture patterns, coding conventions, gotchas.

## Tool names (via MCP)

- `mcp__memex__search_blueprints` — semantic search. Use free-form queries
  describing the problem, not exact slug guesses.
- `mcp__memex__read_blueprint` — read a blueprint by slug ID. Use this after
  search finds a relevant one, or when you already know the slug.
- `mcp__memex__list_blueprints` — enumerate all blueprints (rarely useful
  except for sanity checks).

## When to reach for memex

- Starting a new file that matches a recognizable pattern (LiveView, context
  module, Oban worker, schema migration, etc.) — pre-write hooks may already
  inject the right blueprint for you; otherwise search.
- Debugging a subtle behavior that looks like it might have a convention
  attached — search before asking the user.
- User references a pattern by name — look it up before guessing.

## What NOT to do

- Don't paraphrase blueprint content from memory. Read the current version.
- Don't skip a pre-write hook's advice just because the blueprint name sounds
  familiar. Version drift happens.
- Don't write to read-only sources (they'll reject the write). Suggest the
  user edit the upstream repo if content needs changing.

## CLI fallbacks

If MCP tools aren't available, the CLI has equivalents:
`memex search <query>`, `memex read <slug>`, `memex list`.
";

/// What `agent-instructions` prints: the brief as markdown, or, for a
/// session-start hook, a JSON envelope holding it followed by a newline.
pub open spec fn instructions_output(brief: Seq<char>, hook: bool) -> Seq<char> {
    if hook {
        "{\"hookSpecificOutput\":{\"hookEventName\":\"SessionStart\",\"additionalContext\":\""@
            + json_escaped(brief) + "\"}}\n"@
    } else {
        brief
    }
}

/// The text `agent-instructions` prints.
pub fn run(claude_hook: bool) -> (s: String)
    ensures
        s@ == instructions_output(INSTRUCTIONS@, claude_hook),
{
    if claude_hook {
        let escaped = json_escape(INSTRUCTIONS);
        let mut out: Vec<char> = Vec::new();
        push_str(&mut out, "{\"hookSpecificOutput\":{\"hookEventName\":\"SessionStart\",\"additionalContext\":\"");
        push_str(&mut out, &escaped);
        push_str(&mut out, "\"}}\n");
        string_of(&out)
    } else {
        INSTRUCTIONS.to_string()
    }
}

} // verus!
