//! `memex hook-advice`: the answer of the hooks for one file, as a line for
//! people or as a JSON envelope for an agent's tool hooks.
use vstd::prelude::*;
use crate::commands::{json_escape, json_escaped};
use crate::config::{opt_view, MemexConfig};
use crate::hooks::{
    advice_view, all_build, bucket, build_order, event_name, first_advice, first_failure,
    hook_files, load, loaded, normalize_for_match, normalized_for_match, Event, HookAdvice,
    HookError, HookLoadError, HookSet, RawHooksFile,
};
use crate::text::{joined, push_joined, push_str, string_of};

verus! {

/// The sentence that asks for one blueprint to be read.
pub open spec fn read_request(id: Seq<char>) -> Seq<char> {
    "Read blueprint '"@ + id
        + "' via mcp__memex__read_blueprint before editing this file, unless it is already in your context. "@
}

/// The sentences for all blueprints, in order.
pub open spec fn read_requests(ids: Seq<Seq<char>>) -> Seq<char>
    decreases ids.len(),
{
    if ids.len() == 0 {
        seq![]
    } else {
        read_requests(ids.drop_last()) + read_request(ids.last())
    }
}

/// The message an answer gives an agent: the read requests before a write,
/// the advice text (or nothing) after one.
pub open spec fn agent_message(event: Event, blueprints: Seq<Seq<char>>, text: Option<Seq<char>>) -> Seq<char> {
    match event {
        Event::PreWrite => read_requests(blueprints),
        Event::PostWrite => match text {
            Some(t) => t,
            None => seq![],
        },
    }
}

/// The name of the agent's tool hook for an event.
pub open spec fn claude_event_name(event: Event) -> Seq<char> {
    match event {
        Event::PreWrite => "PreToolUse"@,
        Event::PostWrite => "PostToolUse"@,
    }
}

/// The JSON hook envelope for an answer; nothing when there is no
/// answer or its message is empty.
pub open spec fn claude_output(
    event: Event,
    advice: Option<(Seq<Seq<char>>, Option<Seq<char>>)>,
) -> Option<Seq<char>> {
    match advice {
        None => None,
        Some((b, t)) => {
            let msg = agent_message(event, b, t);
            if msg.len() == 0 {
                None
            } else {
                Some(
                    "{\"hookSpecificOutput\":{\"hookEventName\":\""@ + claude_event_name(event)
                        + "\",\"additionalContext\":\""@ + json_escaped(msg) + "\"}}"@,
                )
            }
        },
    }
}

/// The line shown to people: `(no match)`, the blueprints to read, or the
/// advice; nothing for a post-write answer without text.
pub open spec fn human_output(
    event: Event,
    advice: Option<(Seq<Seq<char>>, Option<Seq<char>>)>,
) -> Option<Seq<char>> {
    match advice {
        None => Some("(no match)"@),
        Some((b, t)) => match event {
            Event::PreWrite => Some("Read: "@ + joined(b, ", "@)),
            Event::PostWrite => match t {
                Some(t) => Some("Advice: "@ + t),
                None => None,
            },
        },
    }
}

/// The JSON hook envelope, or `None` when nothing is to be
/// printed.
pub fn claude_hook_output(event: Event, advice: &Option<HookAdvice>) -> (r: Option<String>)
    ensures
        opt_view(r) == claude_output(event, advice_view(*advice)),
{
    let a = match advice {
        Some(a) => a,
        None => return None,
    };
    let mut msg: Vec<char> = Vec::new();
    match event {
        Event::PreWrite => {
            let mut i: usize = 0;
            while i < a.blueprints.len()
                invariant
                    i <= a.blueprints.len(),
                    msg@ == read_requests(a.blueprints.deep_view().take(i as int)),
                decreases a.blueprints.len() - i,
            {
                push_str(&mut msg, "Read blueprint '");
                push_str(&mut msg, &a.blueprints[i]);
                push_str(
                    &mut msg,
                    "' via mcp__memex__read_blueprint before editing this file, unless it is already in your context. ",
                );
                assert(a.blueprints.deep_view().take(i + 1).drop_last() == a.blueprints.deep_view().take(
                    i as int,
                ));
                i += 1;
            }
            assert(a.blueprints.deep_view().take(a.blueprints.len() as int) == a.blueprints.deep_view());
        },
        Event::PostWrite => {
            match &a.text {
                Some(t) => push_str(&mut msg, t),
                None => {},
            }
        },
    }
    if msg.len() == 0 {
        return None;
    }
    let text = string_of(&msg);
    let escaped = json_escape(&text);
    let mut out: Vec<char> = Vec::new();
    push_str(&mut out, "{\"hookSpecificOutput\":{\"hookEventName\":\"");
    push_str(&mut out, event.claude_hook_name());
    push_str(&mut out, "\",\"additionalContext\":\"");
    push_str(&mut out, &escaped);
    push_str(&mut out, "\"}}");
    Some(string_of(&out))
}

/// The line for people, or `None` when nothing is to be printed.
pub fn human_line(event: Event, advice: &Option<HookAdvice>) -> (r: Option<String>)
    ensures
        opt_view(r) == human_output(event, advice_view(*advice)),
{
    match advice {
        None => Some("(no match)".to_string()),
        Some(a) => match event {
            Event::PreWrite => {
                let mut out: Vec<char> = Vec::new();
                push_str(&mut out, "Read: ");
                push_joined(&mut out, &a.blueprints, ", ");
                Some(string_of(&out))
            },
            Event::PostWrite => match &a.text {
                Some(t) => {
                    let mut out: Vec<char> = Vec::new();
                    push_str(&mut out, "Advice: ");
                    push_str(&mut out, t);
                    Some(string_of(&out))
                },
                None => None,
            },
        },
    }
}

/// Why `hook-advice` failed.
#[derive(Debug)]
pub enum AdviceError {
    /// The event name is unknown.
    Event(HookError),
    /// A hook entry could not be built.
    Load(HookLoadError),
}

/// What is printed for the answer of `set`'s hooks for `file_path`.
pub open spec fn advice_output(
    set: HookSet,
    event: Event,
    claude_hook: bool,
    file_path: Seq<char>,
    root: Seq<char>,
    content: Option<Seq<char>>,
    existing: Seq<Seq<char>>,
) -> Option<Seq<char>> {
    let a = first_advice(
        bucket(set, event),
        0,
        normalized_for_match(file_path, root),
        root,
        content,
        existing,
    );
    if claude_hook {
        claude_output(event, a)
    } else {
        human_output(event, a)
    }
}

/// `memex hook-advice <file> --event <event>`: reads the event, builds the
/// hooks from the project-level file and those of the sources, takes the
/// file path relative to the project root, and gives what is to be printed
/// (`None`: nothing). `content` is the file's text and `existing` the
/// condition paths that exist, as `HookSet::advise` takes them.
pub fn run(
    cfg: &MemexConfig,
    file_path: &str,
    event_str: &str,
    claude_hook: bool,
    project: &Option<RawHooksFile>,
    per_source: &Vec<Option<RawHooksFile>>,
    content: &Option<String>,
    existing: &Vec<String>,
) -> (r: Result<Option<String>, AdviceError>)
    ensures
        ({
            let files = hook_files(cfg.sources@.len() as int, *project, per_source@);
            let known = event_str@ == "pre-write"@ || event_str@ == "post-write"@;
            &&& !known <==> (r matches Err(AdviceError::Event(_)))
            &&& (r matches Err(AdviceError::Event(e)) ==> (e matches HookError::UnknownEvent {
                given,
            } && given@ == event_str@))
            &&& known ==> (r matches Err(AdviceError::Load(_)) <==> !all_build(build_order(files)))
            &&& (r matches Err(AdviceError::Load(e)) ==> first_failure(e, build_order(files)))
            &&& (r matches Ok(out) ==> exists|event: Event, set: HookSet|
                event_name(event) == event_str@ && loaded(set, files, *cfg) && opt_view(out)
                    == advice_output(
                    set,
                    event,
                    claude_hook,
                    file_path@,
                    cfg.project_root@,
                    opt_view(*content),
                    existing.deep_view(),
                ))
        }),
{
    proof {
        reveal_strlit("pre-write");
        reveal_strlit("post-write");
    }
    let event = match Event::parse(event_str) {
        Ok(e) => e,
        Err(e) => return Err(AdviceError::Event(e)),
    };
    let set = match load(cfg, project, per_source) {
        Ok(s) => s,
        Err(e) => return Err(AdviceError::Load(e)),
    };
    let normalized = normalize_for_match(file_path, &cfg.project_root);
    let advice = set.advise(event, &normalized, &cfg.project_root, content, existing);
    let out = if claude_hook {
        claude_hook_output(event, &advice)
    } else {
        human_line(event, &advice)
    };
    assert(opt_view(out) == advice_output(
        set,
        event,
        claude_hook,
        file_path@,
        cfg.project_root@,
        opt_view(*content),
        existing.deep_view(),
    ));
    Ok(out)
}

/// No character of `s` breaks a line.
pub open spec fn single_line(s: Seq<char>) -> bool {
    forall|k: int| 0 <= k < s.len() ==> #[trigger] s[k] != '\n' && s[k] != '\r'
}

proof fn lemma_single_line_concat(a: Seq<char>, b: Seq<char>)
    requires
        single_line(a),
        single_line(b),
    ensures
        single_line(a + b),
{
    assert forall|k: int| 0 <= k < (a + b).len() implies #[trigger] (a + b)[k] != '\n' && (a
        + b)[k] != '\r' by {
        if k < a.len() {
            assert((a + b)[k] == a[k]);
        } else {
            assert((a + b)[k] == b[k - a.len()]);
        }
    }
}

/// The envelope for an agent's hook is a single line of text.
pub proof fn agent_output_is_one_line(
    event: Event,
    advice: Option<(Seq<Seq<char>>, Option<Seq<char>>)>,
)
    ensures
        claude_output(event, advice) matches Some(out) ==> single_line(out),
{
    if let Some((b, t)) = advice {
        let msg = agent_message(event, b, t);
        if msg.len() > 0 {
            reveal_strlit("{\"hookSpecificOutput\":{\"hookEventName\":\"");
            reveal_strlit("\",\"additionalContext\":\"");
            reveal_strlit("\"}}");
            reveal_strlit("PreToolUse");
            reveal_strlit("PostToolUse");
            let head = "{\"hookSpecificOutput\":{\"hookEventName\":\""@;
            let mid = "\",\"additionalContext\":\""@;
            let tail = "\"}}"@;
            let name = claude_event_name(event);
            let body = json_escaped(msg);
            crate::commands::json_escaped_has_no_control_characters(msg);
            assert(single_line(body)) by {
                assert forall|k: int| 0 <= k < body.len() implies #[trigger] body[k] != '\n'
                    && body[k] != '\r' by {
                    assert((body[k] as u32) >= 0x20);
                }
            }
            assert(single_line(head));
            assert(single_line(mid));
            assert(single_line(tail));
            assert(single_line(name));
            lemma_single_line_concat(head, name);
            lemma_single_line_concat(head + name, mid);
            lemma_single_line_concat(head + name + mid, body);
            lemma_single_line_concat(head + name + mid + body, tail);
        }
    }
}

} // verus!
