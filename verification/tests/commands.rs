use memex::commands::broken_refs::{report, unresolved_refs};
use memex::commands::agent_instructions::{self, INSTRUCTIONS};
use memex::commands::doctor::{
    dir_skip_reason, display_rel, normalize_path, remote_outcome, remote_step, source_report, RemoteStep,
    SkipReason,
};
use memex::commands::edit::replace_first;
use memex::commands::hook_advice::{self, claude_hook_output, human_line, AdviceError};
use memex::commands::read::render_blueprint;
use memex::commands::sync::{remote_url_from_output, summarize_ff_pull, sync_step, SyncStep};
use memex::commands::versions::format_log;
use memex::commands::{ensure_writable, json_escape, resolve_content, wants_stdin};
use memex::config::{self, default_root, MemexConfig, RawConfig, RawSource};
use memex::db::{list_line, needs_reset, placeholders, BlueprintRow};
use memex::hooks::{Event, HookAdvice, RawHook, RawHooksFile, StringOrList};

fn raw_source() -> RawSource {
    RawSource {
        mount: None,
        prefix: None,
        remote: None,
        include_patterns: None,
        exclude: None,
        readonly: None,
        index_filename: None,
        hook_base: None,
    }
}

fn cfg_with(sources: Vec<(&str, RawSource)>) -> MemexConfig {
    let raw = RawConfig {
        project_name: "testproject".to_string(),
        root: default_root(),
        sources: sources.into_iter().map(|(n, s)| (n.to_string(), s)).collect(),
        also_scan: vec![],
    };
    config::load(&raw, "/work/project/memex.toml", &vec![]).unwrap()
}

fn strings(xs: &[&str]) -> Vec<String> {
    xs.iter().map(|x| x.to_string()).collect()
}

// ---------- content and JSON ----------

#[test]
fn dash_content_reads_stdin() {
    assert!(wants_stdin("-"));
    assert!(!wants_stdin("--"));
    assert_eq!(resolve_content("-".to_string(), "from stdin".to_string()), "from stdin");
    assert_eq!(resolve_content("# Title".to_string(), "ignored".to_string()), "# Title");
}

#[test]
fn json_escape_escapes_specials_and_controls() {
    assert_eq!(json_escape("a\"b\\c\nd\re\tf"), "a\\\"b\\\\c\\nd\\re\\tf");
    assert_eq!(json_escape("\u{1}\u{1f}"), "\\u0001\\u001f");
    assert_eq!(json_escape("é ok"), "é ok");
}

#[test]
fn escaped_output_has_no_control_characters() {
    let out = json_escape("line\nnext\u{7}\u{0}");
    assert!(out.chars().all(|c| (c as u32) >= 0x20));
}

// ---------- hook advice output ----------

fn advice(blueprints: &[&str], text: Option<&str>) -> Option<HookAdvice> {
    Some(HookAdvice {
        blueprints: strings(blueprints),
        text: text.map(|t| t.to_string()),
    })
}

#[test]
fn claude_output_for_pre_write_lists_reads() {
    let out = claude_hook_output(Event::PreWrite, &advice(&["a/b"], None)).unwrap();
    assert_eq!(
        out,
        "{\"hookSpecificOutput\":{\"hookEventName\":\"PreToolUse\",\"additionalContext\":\"Read blueprint 'a/b' via mcp__memex__read_blueprint before editing this file, unless it is already in your context. \"}}"
    );
}

#[test]
fn claude_output_for_post_write_escapes_text() {
    let out = claude_hook_output(Event::PostWrite, &advice(&[], Some("say \"hi\"\n"))).unwrap();
    assert_eq!(
        out,
        "{\"hookSpecificOutput\":{\"hookEventName\":\"PostToolUse\",\"additionalContext\":\"say \\\"hi\\\"\\n\"}}"
    );
}

#[test]
fn claude_output_is_empty_without_message() {
    assert!(claude_hook_output(Event::PreWrite, &None).is_none());
    assert!(claude_hook_output(Event::PreWrite, &advice(&[], None)).is_none());
    assert!(claude_hook_output(Event::PostWrite, &advice(&[], None)).is_none());
}

#[test]
fn human_output_lines() {
    assert_eq!(human_line(Event::PreWrite, &None).as_deref(), Some("(no match)"));
    assert_eq!(human_line(Event::PreWrite, &advice(&["a", "b"], None)).as_deref(), Some("Read: a, b"));
    assert_eq!(human_line(Event::PostWrite, &advice(&[], Some("do it"))).as_deref(), Some("Advice: do it"));
    assert_eq!(human_line(Event::PostWrite, &advice(&[], None)), None);
}

#[test]
fn hook_advice_run_end_to_end() {
    let cfg = cfg_with(vec![("docs", RawSource { mount: Some("docs".to_string()), ..raw_source() })]);
    let project = Some(RawHooksFile {
        pre_write: vec![RawHook {
            pattern: Some("_live\\.ex$".to_string()),
            content_pattern: None,
            blueprint: Some(StringOrList::Str("liveview".to_string())),
            blueprints: None,
            text: None,
            when_file_missing: None,
            when_file_exists: None,
        }],
        post_write: vec![],
    });
    let out = hook_advice::run(
        &cfg,
        "/work/project/./lib/page_live.ex",
        "pre-write",
        false,
        &project,
        &vec![None],
        &None,
        &vec![],
    );
    assert_eq!(out.ok().unwrap().as_deref(), Some("Read: liveview"));

    let none = hook_advice::run(&cfg, "lib/other.ex", "pre-write", false, &project, &vec![None], &None, &vec![]);
    assert_eq!(none.ok().unwrap().as_deref(), Some("(no match)"));

    match hook_advice::run(&cfg, "x", "sometime", false, &project, &vec![None], &None, &vec![]) {
        Err(AdviceError::Event(e)) => assert!(e.message().contains("unknown event 'sometime'")),
        _ => panic!("expected an event error"),
    }

    let bad = Some(RawHooksFile {
        pre_write: vec![],
        post_write: vec![RawHook {
            pattern: Some("x".to_string()),
            content_pattern: None,
            blueprint: None,
            blueprints: None,
            text: None,
            when_file_missing: None,
            when_file_exists: None,
        }],
    });
    match hook_advice::run(&cfg, "x", "pre-write", true, &None, &vec![bad], &None, &vec![]) {
        Err(AdviceError::Load(e)) => {
            assert_eq!(e.origin, Some(0));
            assert_eq!(e.error.message(), "[[post-write]] hook 'x' needs 'text'");
        }
        _ => panic!("expected a load error"),
    }
}

// ---------- writes ----------

#[test]
fn readonly_source_refuses_writes() {
    let cfg = cfg_with(vec![
        ("open", raw_source()),
        ("frozen", RawSource { readonly: Some(true), ..raw_source() }),
    ]);
    assert!(ensure_writable(&cfg.sources[0]).is_ok());
    let err = ensure_writable(&cfg.sources[1]).unwrap_err().message();
    assert_eq!(err, "source 'frozen' is read-only");
}

#[test]
fn write_messages_depend_on_existence() {
    assert_eq!(memex::commands::write::commit_message("s/a", true), "Rewrite blueprint: s/a");
    assert_eq!(memex::commands::write::commit_message("s/a", false), "Add blueprint: s/a");
    assert_eq!(memex::commands::write::report("s/a", true), "Rewrote blueprint 's/a'");
    assert_eq!(memex::commands::write::report("s/a", false), "Added blueprint 's/a'");
}

#[test]
fn edit_replaces_first_occurrence_only() {
    assert_eq!(
        replace_first("# Title\n\nfoo bar foo", "foo", "baz").as_deref(),
        Some("# Title\n\nbaz bar foo")
    );
    assert_eq!(replace_first("abc", "x", "y"), None);
    assert_eq!(replace_first("abc", "", "y").as_deref(), Some("yabc"));
}

// ---------- read ----------

#[test]
fn read_prints_content_with_heading_as_is() {
    assert_eq!(render_blueprint("  # T\nbody", "ignored"), "  # T\nbody\n");
    assert_eq!(render_blueprint("# T\n", "ignored"), "# T\n");
}

#[test]
fn read_adds_title_heading_when_missing() {
    assert_eq!(render_blueprint("body", "Title"), "# Title\n\nbody\n");
}

// ---------- broken refs ----------

#[test]
fn unresolved_refs_are_those_no_slug_answers() {
    let slugs = strings(&["testsource/a", "testsource/deep/context"]);
    let refs = strings(&["testsource/missing", "testsource/a", "context", "a/context", "nope"]);
    assert_eq!(
        unresolved_refs(&slugs, &refs),
        vec!["testsource/missing", "a/context", "nope"]
    );
}

#[test]
fn broken_refs_report_lines() {
    let files = vec![
        ("s/a".to_string(), strings(&["x", "y"])),
        ("s/b".to_string(), vec![]),
    ];
    assert_eq!(report(&files), vec!["s/a: x, y"]);
    let clean = vec![("s/b".to_string(), vec![])];
    assert_eq!(report(&clean), vec!["No broken references found."]);
}

// ---------- versions ----------

#[test]
fn log_lines_are_reformatted() {
    let raw = "abc\t2024-01-01 10:00:00 +0000\tInit\n\n  \nbad line\nd\t2024\tsub\tject\n";
    assert_eq!(
        format_log(raw),
        vec![
            "abc  2024-01-01 10:00:00 +0000  Init",
            "d  2024  sub\tject"
        ]
    );
}

// ---------- sync ----------

#[test]
fn sync_steps() {
    let cfg = cfg_with(vec![
        ("plain", raw_source()),
        ("docs", RawSource { remote: Some("git@x:a.git".to_string()), ..raw_source() }),
        ("vendor", RawSource { remote: Some("git@x:b.git".to_string()), readonly: Some(true), ..raw_source() }),
    ]);
    let plain = cfg.source_by_name("plain").unwrap();
    let docs = cfg.source_by_name("docs").unwrap();
    let vendor = cfg.source_by_name("vendor").unwrap();
    assert_eq!(sync_step(plain, true, &None), SyncStep::NoRemote);
    assert_eq!(sync_step(docs, false, &None), SyncStep::Clone);
    assert_eq!(
        sync_step(docs, true, &Some("git@x:old.git".to_string())),
        SyncStep::Update { set_url: true, push: true }
    );
    assert_eq!(
        sync_step(docs, true, &Some("git@x:a.git".to_string())),
        SyncStep::Update { set_url: false, push: true }
    );
    assert_eq!(
        sync_step(vendor, true, &Some("git@x:b.git".to_string())),
        SyncStep::Update { set_url: false, push: false }
    );
}

#[test]
fn ff_pull_summaries() {
    assert_eq!(summarize_ff_pull("Already up to date.\n"), "up to date");
    assert_eq!(summarize_ff_pull("  \n"), "updated");
    assert_eq!(
        summarize_ff_pull("Updating 1a2b..3c4d\nFast-forward\n a.md | 2 +-\n"),
        "updated (Updating 1a2b..3c4d)"
    );
}

#[test]
fn remote_url_output() {
    assert_eq!(remote_url_from_output(true, " git@x:a.git\n").as_deref(), Some("git@x:a.git"));
    assert_eq!(remote_url_from_output(false, "error"), None);
}

// ---------- doctor ----------

#[test]
fn doctor_paths() {
    assert_eq!(display_rel("/p/docs/shared", "/p"), "docs/shared");
    assert_eq!(display_rel("/p", "/p"), ".");
    assert_eq!(display_rel("/elsewhere", "/p"), "/elsewhere");
    assert_eq!(normalize_path("/some/path/."), "/some/path");
    assert_eq!(normalize_path("/."), "/");
    assert_eq!(normalize_path("/some/path"), "/some/path");
}

// ---------- db ----------

#[test]
fn db_helpers() {
    assert!(needs_reset(1));
    assert!(!needs_reset(2));
    assert_eq!(placeholders(3), "?, ?, ?");
    assert_eq!(placeholders(0), "");
    let row = BlueprintRow {
        id: "s/a".to_string(),
        title: "A".to_string(),
        path: "/p/a.md".to_string(),
        folder: "s".to_string(),
        content: "# A".to_string(),
    };
    assert_eq!(list_line(&row), "s/a  A");
}

#[test]
fn doctor_skip_reasons() {
    assert!(matches!(dir_skip_reason(false, true, Some("node_modules"), false), Some(SkipReason::NoiseDir(n)) if n == "node_modules"));
    assert!(matches!(dir_skip_reason(false, true, Some("vendored"), true), Some(SkipReason::ForeignGit)));
    assert!(dir_skip_reason(false, true, Some(".git"), false).is_none());
    assert!(dir_skip_reason(true, true, Some("target"), true).is_none());
    assert!(dir_skip_reason(false, false, Some("target"), false).is_none());
    assert_eq!(SkipReason::NoiseDir("target".to_string()).describe(), "noise dir (target)");
    assert_eq!(SkipReason::ForeignGit.describe(), "foreign .git/ subtree");
    assert_eq!(SkipReason::ExcludeGlob.describe(), "matched exclude glob");
}

#[test]
fn excluded_files_are_told_apart_from_unmatched_ones() {
    let cfg = cfg_with(vec![(
        "s",
        RawSource {
            include_patterns: Some(vec!["docs/**/*.md".to_string()]),
            exclude: Some(vec!["docs/drafts/**".to_string()]),
            ..raw_source()
        },
    )]);
    let s = &cfg.sources[0];
    let take = s.include_set().unwrap();
    let leave = s.exclude_set().unwrap();
    assert!(s.file_excluded(&take, &leave, "docs/drafts/a.md"));
    assert!(!s.file_selected(&take, &leave, "docs/drafts/a.md"));
    assert!(!s.file_excluded(&take, &leave, "other/a.md"));
    assert!(s.file_selected(&take, &leave, "docs/a.md"));
}

#[test]
fn agent_instructions_plain_and_wrapped() {
    assert_eq!(agent_instructions::run(false), INSTRUCTIONS);
    let wrapped = agent_instructions::run(true);
    assert!(wrapped.starts_with("{\"hookSpecificOutput\":{\"hookEventName\":\"SessionStart\",\"additionalContext\":\"# Using memex\\n"));
    assert!(wrapped.ends_with("\"}}\n"));
}

#[test]
fn pushes_only_writable_remote_sources() {
    let cfg = cfg_with(vec![
        ("local", raw_source()),
        ("shared", RawSource { remote: Some("git@x:s.git".to_string()), ..raw_source() }),
        ("vendor", RawSource { remote: Some("git@x:v.git".to_string()), readonly: Some(true), ..raw_source() }),
    ]);
    assert!(!memex::commands::pushes_after_commit(cfg.source_by_name("local").unwrap()));
    assert!(memex::commands::pushes_after_commit(cfg.source_by_name("shared").unwrap()));
    assert!(!memex::commands::pushes_after_commit(cfg.source_by_name("vendor").unwrap()));
}

#[test]
fn plain_pull_summaries() {
    assert_eq!(memex::commands::sync::summarize_pull("Already up to date.\n"), "Already up to date.");
    assert_eq!(
        memex::commands::sync::summarize_pull("  Updating a..b\nFast-forward\n"),
        "Updating a..b\nFast-forward"
    );
}

#[test]
fn remote_probe_steps() {
    assert_eq!(remote_step(Some(true), false), RemoteStep::Reachable);
    assert_eq!(remote_step(Some(false), true), RemoteStep::Unreachable);
    assert_eq!(remote_step(None, false), RemoteStep::Wait);
    assert_eq!(remote_step(None, true), RemoteStep::TimedOut);
    assert_eq!(remote_outcome(RemoteStep::Reachable), Some((true, "✓ reachable".to_string())));
    assert_eq!(
        remote_outcome(RemoteStep::Unreachable),
        Some((false, "✗ unreachable (non-zero exit)".to_string()))
    );
    assert_eq!(remote_outcome(RemoteStep::TimedOut), Some((false, "✗ timeout (>5s)".to_string())));
    assert_eq!(remote_outcome(RemoteStep::Wait), None);
}

#[test]
fn agent_envelope_is_one_line() {
    let out = claude_hook_output(Event::PostWrite, &advice(&[], Some("line one\nline two\r\n"))).unwrap();
    assert!(!out.contains('\n') && !out.contains('\r'));
    assert!(out.contains("line one\\nline two\\r\\n"));
    let out = claude_hook_output(Event::PreWrite, &advice(&["a/b"], None)).unwrap();
    assert!(!out.contains('\n'));
}

#[test]
fn source_report_for_a_walked_source() {
    let cfg = cfg_with(vec![("docs", raw_source())]);
    let source = &cfg.sources[0];
    let walk = Some(Ok((3usize, vec![("vendor".to_string(), SkipReason::ForeignGit)])));
    let (lines, error) = source_report(source, "docs", &walk, &None);
    assert_eq!(
        lines,
        strings(&[
            "",
            "  [docs]",
            "    mount     docs  ✓ 3 indexed",
            "    skipped:",
            "      vendor/  —  foreign .git/ subtree",
            "    include   **/*.md",
        ])
    );
    assert!(!error);
}

#[test]
fn source_report_for_missing_mount_and_dead_remote() {
    let cfg = cfg_with(vec![(
        "notes",
        RawSource {
            prefix: Some(String::new()),
            remote: Some("git@example.com:x.git".to_string()),
            readonly: Some(true),
            exclude: Some(vec!["drafts/**".to_string(), "tmp/**".to_string()]),
            index_filename: Some("README.md".to_string()),
            ..raw_source()
        },
    )]);
    let source = &cfg.sources[0];
    let verdict = Some((false, "✗ timeout (>5s)".to_string()));
    let (lines, error) = source_report(source, "notes", &None, &verdict);
    assert_eq!(
        lines,
        strings(&[
            "",
            "  [notes]",
            "    mount     notes  ✗ path does not exist",
            "              run `memex sync` to clone from remote",
            "    prefix    (empty — bare slugs)",
            "    include   **/*.md",
            "    exclude   drafts/**, tmp/**",
            "    index     README.md",
            "    readonly  true",
            "    remote    git@example.com:x.git  ✗ timeout (>5s)",
        ])
    );
    assert!(error);
    let walk = Some(Err("boom".to_string()));
    let (lines, error) = source_report(source, "notes", &walk, &None);
    assert_eq!(lines[2], "    mount     notes  ✗ enumeration failed: boom");
    assert!(error);
}
