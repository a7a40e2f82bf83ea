use std::path::PathBuf;

use memex::config::{self, default_root, MemexConfig, RawConfig, RawSource};
use memex::hooks::{
    self, content_readable, Captures, Event, HookSet, RawHook, RawHooksFile, StringOrList,
};

// ---------- fixtures ----------

fn project_dir() -> PathBuf {
    PathBuf::from("/work/project")
}

fn root() -> String {
    project_dir().to_string_lossy().into_owned()
}

fn raw_source() -> RawSource {
    RawSource {
        mount: None,
        prefix: None,
        remote: None,
        include_patterns: None,
        exclude: None,
        readonly: None,
        index_filename: None,
        hook_base: None,
    }
}

fn config_of(sources: Vec<(String, RawSource)>) -> MemexConfig {
    let raw = RawConfig {
        project_name: "testproject".to_string(),
        root: default_root(),
        sources,
        also_scan: vec![],
    };
    config::load(&raw, "/work/project/memex.toml", &vec![]).unwrap()
}

/// One source, `testsource`, mounted at `<project>/blueprints`.
fn default_cfg() -> MemexConfig {
    config_of(vec![(
        "testsource".to_string(),
        RawSource {
            mount: Some("blueprints".to_string()),
            ..raw_source()
        },
    )])
}

/// One source, `shared-docs`, whose hooks are scoped to `hook_base`.
fn cfg_with_hook_base(hook_base: &str) -> MemexConfig {
    config_of(vec![(
        "shared-docs".to_string(),
        RawSource {
            mount: Some("shared-docs".to_string()),
            hook_base: Some(hook_base.to_string()),
            ..raw_source()
        },
    )])
}

fn entry() -> RawHook {
    RawHook {
        pattern: None,
        content_pattern: None,
        blueprint: None,
        blueprints: None,
        text: None,
        when_file_missing: None,
        when_file_exists: None,
    }
}

fn s(x: &str) -> Option<String> {
    Some(x.to_string())
}

fn one(x: &str) -> Option<StringOrList> {
    Some(StringOrList::Str(x.to_string()))
}

fn list(xs: &[&str]) -> Option<StringOrList> {
    Some(StringOrList::List(xs.iter().map(|x| x.to_string()).collect()))
}

fn pre(entries: Vec<RawHook>) -> RawHooksFile {
    RawHooksFile { pre_write: entries, post_write: vec![] }
}

fn post(entries: Vec<RawHook>) -> RawHooksFile {
    RawHooksFile { pre_write: vec![], post_write: entries }
}

/// Hooks from the project-level file only.
fn load_project(cfg: &MemexConfig, file: RawHooksFile) -> HookSet {
    hooks::load(cfg, &Some(file), &vec![]).unwrap()
}

/// Hooks from the file of the first source only.
fn load_source(cfg: &MemexConfig, file: RawHooksFile) -> HookSet {
    hooks::load(cfg, &None, &vec![Some(file)]).unwrap()
}

fn load_error(cfg: &MemexConfig, file: RawHooksFile) -> String {
    hooks::load(cfg, &Some(file), &vec![]).unwrap_err().error.message()
}

fn captures_of(pattern: &str, text: &str) -> Captures {
    let re = fancy_regex::Regex::new(pattern).unwrap();
    let caps = re.captures(text).unwrap().unwrap();
    Captures {
        groups: caps.iter().map(|m| m.map(|m| m.as_str().to_string())).collect(),
    }
}

fn advise(set: &HookSet, event: Event, file: &str, existing: &[String]) -> Option<hooks::HookAdvice> {
    set.advise(event, file, &root(), &None, &existing.to_vec())
}

// ---------- substitution ----------

#[test]
fn substitute_replaces_group_references() {
    let caps = captures_of(r"^lib/(.+)\.ex$", "lib/foo/bar.ex");
    assert_eq!(
        hooks::substitute("test/${1}_test.exs", &caps),
        "test/foo/bar_test.exs"
    );
}

#[test]
fn substitute_handles_group_zero_as_full_match() {
    let caps = captures_of(r"^lib/(.+)\.ex$", "lib/foo.ex");
    assert_eq!(
        hooks::substitute("formatted: ${0}", &caps),
        "formatted: lib/foo.ex"
    );
}

#[test]
fn substitute_leaves_non_numeric_placeholders_alone() {
    let caps = captures_of(r"^(.+)$", "x");
    assert_eq!(hooks::substitute("${bogus}", &caps), "${bogus}");
}

// ---------- loading ----------

#[test]
fn load_returns_empty_when_no_hooks_file_present() {
    let cfg = default_cfg();
    let set = hooks::load(&cfg, &None, &vec![None]).unwrap();
    assert!(set.pre_write.is_empty());
    assert!(set.post_write.is_empty());
}

#[test]
fn load_reads_project_level_hooks_toml() {
    let cfg = default_cfg();
    let set = load_project(
        &cfg,
        pre(vec![RawHook {
            pattern: s("_live\\.ex$"),
            blueprint: one("phoenix-liveview/liveview"),
            ..entry()
        }]),
    );
    assert_eq!(set.pre_write.len(), 1);
    assert_eq!(set.pre_write[0].blueprints, vec!["phoenix-liveview/liveview"]);
    assert!(set.pre_write[0].source.is_none()); // project-level
}

#[test]
fn load_reads_source_level_hooks_toml() {
    let cfg = default_cfg();
    let set = load_source(
        &cfg,
        pre(vec![RawHook {
            pattern: s("ctx\\.ex$"),
            blueprints: list(&["a", "b"]),
            ..entry()
        }]),
    );
    assert_eq!(set.pre_write.len(), 1);
    assert_eq!(set.pre_write[0].blueprints, vec!["a", "b"]);
    assert_eq!(set.pre_write[0].source.as_deref(), Some("testsource"));
}

#[test]
fn load_merges_project_then_source_order() {
    let cfg = default_cfg();
    let project = pre(vec![RawHook {
        pattern: s("^a$"),
        blueprint: one("proj"),
        ..entry()
    }]);
    let source = pre(vec![RawHook {
        pattern: s("^a$"),
        blueprint: one("source"),
        ..entry()
    }]);
    let set = hooks::load(&cfg, &Some(project), &vec![Some(source)]).unwrap();
    assert_eq!(set.pre_write.len(), 2);
    assert_eq!(set.pre_write[0].blueprints, vec!["proj"]);
    assert_eq!(set.pre_write[1].blueprints, vec!["source"]);
}

#[test]
fn load_errors_on_pre_write_with_text() {
    let cfg = default_cfg();
    let err = load_error(
        &cfg,
        pre(vec![RawHook {
            pattern: s("x"),
            blueprint: one("foo"),
            text: s("nope"),
            ..entry()
        }]),
    );
    assert!(err.contains("pre-write") && err.contains("text"), "got: {err}");
}

#[test]
fn load_errors_on_post_write_with_blueprint() {
    let cfg = default_cfg();
    let err = load_error(
        &cfg,
        post(vec![RawHook {
            pattern: s("x"),
            blueprint: one("nope"),
            text: s("text"),
            ..entry()
        }]),
    );
    assert!(err.contains("post-write") && err.contains("blueprint"), "got: {err}");
}

#[test]
fn load_errors_on_both_blueprint_and_blueprints() {
    let cfg = default_cfg();
    let err = load_error(
        &cfg,
        pre(vec![RawHook {
            pattern: s("x"),
            blueprint: one("a"),
            blueprints: list(&["b"]),
            ..entry()
        }]),
    );
    assert!(err.contains("both") || err.contains("pick one"), "got: {err}");
}

#[test]
fn load_errors_on_pre_write_without_blueprint() {
    let cfg = default_cfg();
    let err = load_error(&cfg, pre(vec![RawHook { pattern: s("x"), ..entry() }]));
    assert!(err.contains("pre-write") && err.contains("needs"), "got: {err}");
}

#[test]
fn load_errors_on_post_write_without_text() {
    let cfg = default_cfg();
    let err = load_error(&cfg, post(vec![RawHook { pattern: s("x"), ..entry() }]));
    assert!(err.contains("post-write") && err.contains("text"), "got: {err}");
}

#[test]
fn load_errors_on_invalid_regex() {
    let cfg = default_cfg();
    let err = load_error(
        &cfg,
        pre(vec![RawHook {
            pattern: s("*"),
            blueprint: one("foo"),
            ..entry()
        }]),
    );
    assert!(err.contains("regex") || err.contains("*"), "got: {err}");
}

#[test]
fn load_accepts_blueprint_as_string_or_list() {
    let cfg = default_cfg();
    let set = load_project(
        &cfg,
        pre(vec![
            RawHook {
                pattern: s("a"),
                blueprint: one("single"),
                ..entry()
            },
            RawHook {
                pattern: s("b"),
                blueprints: list(&["one", "two"]),
                ..entry()
            },
        ]),
    );
    assert_eq!(set.pre_write[0].blueprints, vec!["single"]);
    assert_eq!(set.pre_write[1].blueprints, vec!["one", "two"]);
}

// ---------- advise (first match wins) ----------

#[test]
fn advise_returns_first_matching_pre_write_hook() {
    let cfg = default_cfg();
    let set = load_project(
        &cfg,
        pre(vec![
            RawHook {
                pattern: s("lib/platform/([^/]+)/\\1\\.ex$"),
                blueprint: one("context"),
                ..entry()
            },
            RawHook {
                pattern: s("lib/platform/[^/]+/[^/]+\\.ex$"),
                blueprint: one("schema"),
                ..entry()
            },
        ]),
    );

    // Context/context.ex — matches the first (backref) hook.
    let a = advise(&set, Event::PreWrite, "lib/platform/articles/articles.ex", &[]).unwrap();
    assert_eq!(a.blueprints, vec!["context"]);

    // Context/other.ex — doesn't match the backref, falls through to schema.
    let b = advise(&set, Event::PreWrite, "lib/platform/articles/article.ex", &[]).unwrap();
    assert_eq!(b.blueprints, vec!["schema"]);
}

#[test]
fn advise_returns_none_when_nothing_matches() {
    let cfg = default_cfg();
    let set = load_project(
        &cfg,
        pre(vec![RawHook {
            pattern: s("_live\\.ex$"),
            blueprint: one("liveview"),
            ..entry()
        }]),
    );
    assert!(advise(&set, Event::PreWrite, "lib/foo.ex", &[]).is_none());
}

#[test]
fn advise_separates_pre_and_post_write_buckets() {
    let cfg = default_cfg();
    let set = load_project(
        &cfg,
        RawHooksFile {
            pre_write: vec![RawHook {
                pattern: s("x"),
                blueprint: one("bp"),
                ..entry()
            }],
            post_write: vec![RawHook {
                pattern: s("x"),
                text: s("advice"),
                ..entry()
            }],
        },
    );
    let pre = advise(&set, Event::PreWrite, "x", &[]).unwrap();
    assert_eq!(pre.blueprints, vec!["bp"]);
    assert!(pre.text.is_none());

    let post = advise(&set, Event::PostWrite, "x", &[]).unwrap();
    assert_eq!(post.text.as_deref(), Some("advice"));
    assert!(post.blueprints.is_empty());
}

// ---------- conditions ----------

#[test]
fn when_file_missing_fires_only_if_target_absent() {
    let cfg = default_cfg();
    let set = load_project(
        &cfg,
        post(vec![RawHook {
            pattern: s("^lib/(.+)\\.ex$"),
            text: s("write test/${1}_test.exs"),
            when_file_missing: s("test/${1}_test.exs"),
            ..entry()
        }]),
    );

    // Target absent → fires.
    let fired = advise(&set, Event::PostWrite, "lib/foo.ex", &[]);
    assert!(fired.is_some());
    assert_eq!(fired.unwrap().text.as_deref(), Some("write test/foo_test.exs"));

    // Create the target; now the hook should NOT fire.
    let target = project_dir().join("test/foo_test.exs").to_string_lossy().into_owned();
    assert_eq!(set.condition_paths(Event::PostWrite, "lib/foo.ex", &root()), vec![target.clone()]);
    let silent = advise(&set, Event::PostWrite, "lib/foo.ex", &[target]);
    assert!(silent.is_none());
}

#[test]
fn when_file_exists_fires_only_if_target_present() {
    let cfg = default_cfg();
    let set = load_project(
        &cfg,
        post(vec![RawHook {
            pattern: s("^lib/(.+)\\.ex$"),
            text: s("target is there"),
            when_file_exists: s("lib/${1}_companion.ex"),
            ..entry()
        }]),
    );

    // Companion absent → no fire.
    assert!(advise(&set, Event::PostWrite, "lib/foo.ex", &[]).is_none());

    // Companion present → fires.
    let companion = project_dir().join("lib/foo_companion.ex").to_string_lossy().into_owned();
    let fired = advise(&set, Event::PostWrite, "lib/foo.ex", &[companion]);
    assert!(fired.is_some());
}

// ---------- normalization ----------

#[test]
fn normalize_for_match_strips_project_root_for_absolute_paths() {
    let abs = project_dir().join("lib/foo.ex");
    let s = hooks::normalize_for_match(&abs.to_string_lossy(), &root());
    assert_eq!(s, "lib/foo.ex");
}

#[test]
fn normalize_for_match_preserves_relative_paths() {
    assert_eq!(hooks::normalize_for_match("lib/foo.ex", &root()), "lib/foo.ex");
}

// ---------- readonly source ----------

#[test]
fn readonly_source_loads_with_flag() {
    let cfg = config_of(vec![
        (
            "normal".to_string(),
            RawSource {
                mount: Some("docs".to_string()),
                ..raw_source()
            },
        ),
        (
            "frozen".to_string(),
            RawSource {
                mount: Some("vendor".to_string()),
                readonly: Some(true),
                ..raw_source()
            },
        ),
    ]);
    assert!(!cfg.source_by_name("normal").unwrap().readonly);
    assert!(cfg.source_by_name("frozen").unwrap().readonly);
}

// ---------- content_pattern ----------

#[test]
fn content_pattern_matches_when_file_contains_marker() {
    let cfg = default_cfg();
    let set = load_project(
        &cfg,
        pre(vec![RawHook {
            pattern: s("lib/.*\\.ex$"),
            content_pattern: s("(?m)^\\s*use Ecto\\.Schema"),
            blueprint: one("ecto-schema"),
            ..entry()
        }]),
    );
    let foo = Some("defmodule Foo do\n  use Ecto.Schema\nend\n".to_string());
    let bar = Some("defmodule Bar do\n  # no schema here\nend\n".to_string());

    let hit = set.advise(Event::PreWrite, "lib/foo.ex", &root(), &foo, &vec![]).unwrap();
    assert_eq!(hit.blueprints, vec!["ecto-schema"]);

    assert!(set.advise(Event::PreWrite, "lib/bar.ex", &root(), &bar, &vec![]).is_none());
}

#[test]
fn content_pattern_alone_without_path_pattern_is_valid() {
    let cfg = default_cfg();
    let set = load_project(
        &cfg,
        pre(vec![RawHook {
            content_pattern: s("Req\\.Test"),
            blueprint: one("req-testing"),
            ..entry()
        }]),
    );
    let content = Some("setup do\n  Req.Test.stub(...)\nend\n".to_string());
    let hit = set
        .advise(Event::PreWrite, "test/some_test.exs", &root(), &content, &vec![])
        .unwrap();
    assert_eq!(hit.blueprints, vec!["req-testing"]);
}

#[test]
fn content_pattern_does_not_match_when_file_missing() {
    let cfg = default_cfg();
    let set = load_project(
        &cfg,
        pre(vec![RawHook {
            pattern: s("lib/.*\\.ex$"),
            content_pattern: s("anything"),
            blueprint: one("x"),
            ..entry()
        }]),
    );
    // A missing file has no content.
    assert!(set
        .advise(Event::PreWrite, "lib/nonexistent.ex", &root(), &None, &vec![])
        .is_none());
}

#[test]
fn content_pattern_skips_oversize_files() {
    let cfg = default_cfg();
    let set = load_project(
        &cfg,
        pre(vec![RawHook {
            content_pattern: s("marker"),
            blueprint: one("x"),
            ..entry()
        }]),
    );
    // A file just over the 1 MB cap, with the marker at the top.
    let big = format!("marker\n{}", "a".repeat(memex::hooks::MAX_CONTENT_BYTES as usize));
    let content = if content_readable(true, big.len() as u64) { Some(big) } else { None };
    assert!(set.advise(Event::PreWrite, "big.txt", &root(), &content, &vec![]).is_none());
}

#[test]
fn load_errors_when_neither_pattern_nor_content_pattern_set() {
    let cfg = default_cfg();
    let err = load_error(&cfg, pre(vec![RawHook { blueprint: one("x"), ..entry() }]));
    assert!(err.contains("pattern") && err.contains("content_pattern"), "got: {err}");
}

#[test]
fn load_errors_on_content_pattern_with_when_file_missing() {
    let cfg = default_cfg();
    let err = load_error(
        &cfg,
        pre(vec![RawHook {
            pattern: s("lib/.*"),
            content_pattern: s("foo"),
            when_file_missing: s("bar"),
            blueprint: one("x"),
            ..entry()
        }]),
    );
    assert!(err.contains("when_file_missing"), "got: {err}");
}

#[test]
fn load_errors_on_invalid_content_pattern_regex() {
    let cfg = default_cfg();
    let err = load_error(
        &cfg,
        pre(vec![RawHook {
            pattern: s("lib/.*"),
            content_pattern: s("*"),
            blueprint: one("x"),
            ..entry()
        }]),
    );
    assert!(err.contains("content_pattern"), "got: {err}");
}

// ---------- hook_base ----------

#[test]
fn hook_base_scopes_hook_to_subdirectory() {
    let cfg = cfg_with_hook_base("backend");
    let set = load_source(
        &cfg,
        pre(vec![RawHook {
            pattern: s("lib/.*\\.ex$"),
            blueprint: one("phoenix-rules"),
            ..entry()
        }]),
    );

    // File under the base → fires.
    let hit = advise(&set, Event::PreWrite, "backend/lib/foo.ex", &[]);
    assert!(hit.is_some());
    assert_eq!(hit.unwrap().blueprints, vec!["phoenix-rules"]);

    // File outside the base → no match.
    assert!(advise(&set, Event::PreWrite, "mobile/lib/foo.ex", &[]).is_none());

    // File at project root (no base prefix) → no match.
    assert!(advise(&set, Event::PreWrite, "lib/foo.ex", &[]).is_none());
}

#[test]
fn hook_base_strips_prefix_for_pattern_captures() {
    let cfg = cfg_with_hook_base("backend");
    let set = load_source(
        &cfg,
        post(vec![RawHook {
            pattern: s("^lib/(.+)\\.ex$"),
            text: s("write test/${1}_test.exs"),
            ..entry()
        }]),
    );

    let advice = advise(&set, Event::PostWrite, "backend/lib/accounts.ex", &[]).unwrap();
    // ${1} should be the base-relative capture, not include "backend/".
    assert_eq!(advice.text.as_deref(), Some("write test/accounts_test.exs"));
}

#[test]
fn hook_base_when_file_missing_resolved_under_base() {
    let cfg = cfg_with_hook_base("backend");
    let set = load_source(
        &cfg,
        post(vec![RawHook {
            pattern: s("^lib/(.+)\\.ex$"),
            text: s("create test/${1}_test.exs"),
            when_file_missing: s("test/${1}_test.exs"),
            ..entry()
        }]),
    );

    // Test file absent under backend/ → fires.
    let fired = advise(&set, Event::PostWrite, "backend/lib/orders.ex", &[]);
    assert!(fired.is_some());

    // Create the test file under backend/ → hook should no longer fire.
    let target = project_dir()
        .join("backend/test/orders_test.exs")
        .to_string_lossy()
        .into_owned();
    assert_eq!(
        set.condition_paths(Event::PostWrite, "backend/lib/orders.ex", &root()),
        vec![target.clone()]
    );
    let silent = advise(&set, Event::PostWrite, "backend/lib/orders.ex", &[target]);
    assert!(silent.is_none());
}

#[test]
fn hook_base_without_hook_base_still_matches_from_root() {
    // Behaviour is unchanged when hook_base is not set.
    let cfg = default_cfg();
    let set = load_project(
        &cfg,
        pre(vec![RawHook {
            pattern: s("lib/.*\\.ex$"),
            blueprint: one("elixir-rules"),
            ..entry()
        }]),
    );

    let hit = advise(&set, Event::PreWrite, "lib/foo.ex", &[]);
    assert!(hit.is_some());
    assert_eq!(hit.unwrap().blueprints, vec!["elixir-rules"]);
}

#[test]
fn hook_base_parsed_from_memex_toml() {
    let cfg = config_of(vec![(
        "phoenix-docs".to_string(),
        RawSource {
            mount: Some("docs".to_string()),
            hook_base: Some("backend".to_string()),
            ..raw_source()
        },
    )]);
    let src = cfg.source_by_name("phoenix-docs").unwrap();
    assert_eq!(src.hook_base.as_deref(), Some("backend"));
}

#[test]
fn hook_base_absent_when_not_configured() {
    let cfg = config_of(vec![(
        "docs".to_string(),
        RawSource {
            mount: Some("docs".to_string()),
            ..raw_source()
        },
    )]);
    assert!(cfg.source_by_name("docs").unwrap().hook_base.is_none());
}

// ---------- further cases ----------

#[test]
fn event_parse_reads_both_names_and_refuses_others() {
    assert_eq!(Event::parse("pre-write").unwrap(), Event::PreWrite);
    assert_eq!(Event::parse("post-write").unwrap(), Event::PostWrite);
    let err = Event::parse("during-write").unwrap_err().message();
    assert_eq!(
        err,
        "unknown event 'during-write' (expected 'pre-write' or 'post-write')"
    );
}

#[test]
fn claude_hook_names() {
    assert_eq!(Event::PreWrite.claude_hook_name(), "PreToolUse");
    assert_eq!(Event::PostWrite.claude_hook_name(), "PostToolUse");
}

#[test]
fn substitute_keeps_text_without_placeholders() {
    let caps = captures_of("(a)", "a");
    assert_eq!(hooks::substitute("plain text", &caps), "plain text");
}

#[test]
fn substitute_replaces_missing_group_with_nothing_and_keeps_lone_dollar() {
    let caps = captures_of("(a)(b)?", "a");
    assert_eq!(hooks::substitute("[${2}] $5 ${9} ${+1}", &caps), "[] $5  a");
}

#[test]
fn first_error_in_load_order_is_reported_with_its_file() {
    let cfg = default_cfg();
    let project = RawHooksFile {
        pre_write: vec![RawHook { pattern: s("ok"), blueprint: one("x"), ..entry() }],
        post_write: vec![RawHook { pattern: s("p"), ..entry() }],
    };
    let source = pre(vec![RawHook { pattern: s("q"), text: s("t"), ..entry() }]);
    let err = hooks::load(&cfg, &Some(project), &vec![Some(source)]).unwrap_err();
    assert_eq!(err.origin, None);
    assert_eq!(err.error.message(), "[[post-write]] hook 'p' needs 'text'");

    let source = pre(vec![RawHook { pattern: s("q"), text: s("t"), ..entry() }]);
    let err = hooks::load(&cfg, &None, &vec![Some(source)]).unwrap_err();
    assert_eq!(err.origin, Some(0));
    assert_eq!(
        err.error.message(),
        "[[pre-write]] hook 'q' has 'text' (allowed only on post-write)"
    );
}

#[test]
fn unnamed_hook_error_names_the_event() {
    let cfg = default_cfg();
    let err = load_error(&cfg, post(vec![RawHook { text: s("t"), ..entry() }]));
    assert_eq!(
        err,
        "hook needs at least one of 'pattern' or 'content_pattern' (event: PostWrite)"
    );
}

#[test]
fn content_within_cap_is_readable() {
    assert!(content_readable(true, memex::hooks::MAX_CONTENT_BYTES));
    assert!(!content_readable(true, memex::hooks::MAX_CONTENT_BYTES + 1));
    assert!(!content_readable(false, 10));
}

#[test]
fn normalize_for_match_keeps_paths_outside_root_and_turns_backslashes() {
    assert_eq!(
        hooks::normalize_for_match("/elsewhere/lib/foo.ex", "/work/project"),
        "/elsewhere/lib/foo.ex"
    );
    assert_eq!(hooks::normalize_for_match("lib\\foo.ex", "/work/project"), "lib/foo.ex");
}

#[test]
fn hook_without_path_pattern_substitutes_empty_match() {
    let cfg = default_cfg();
    let set = load_project(
        &cfg,
        post(vec![RawHook {
            content_pattern: s("x"),
            text: s("[${0}]"),
            ..entry()
        }]),
    );
    let content = Some("x".to_string());
    let a = set.advise(Event::PostWrite, "lib/a.ex", &root(), &content, &vec![]).unwrap();
    assert_eq!(a.text.as_deref(), Some("[]"));
}

#[test]
fn placeholders_take_group_text_and_other_dollars_stay() {
    let caps = Captures { groups: vec![Some("all".to_string()), None, Some("two".to_string())] };
    assert_eq!(hooks::substitute("a ${0} b ${1} c ${2}", &caps), "a all b  c two");
    assert_eq!(hooks::substitute("x$y ${2}", &caps), "x$y two");
    assert_eq!(hooks::substitute("${12}${2", &caps), "${2");
}

#[test]
fn invalid_regex_reports_the_parser_message() {
    let cfg = default_cfg();
    let err = load_error(
        &cfg,
        pre(vec![RawHook { pattern: s("(unclosed"), blueprint: one("foo"), ..entry() }]),
    );
    let detail = fancy_regex::Regex::new("(unclosed").unwrap_err().to_string();
    assert!(err.contains("(unclosed") && err.contains(&detail), "got: {err}");
}

#[test]
fn loading_reads_files_in_order_and_names_the_failing_one() {
    let cfg = default_cfg();
    let project_path = format!("{}/hooks.toml", cfg.config_dir);
    let source_path = format!("{}/hooks.toml", cfg.sources[0].mount);
    let good = || pre(vec![RawHook { pattern: s("x"), blueprint: one("foo"), ..entry() }]);
    let bad = || pre(vec![RawHook { pattern: s("x"), blueprint: one("foo"), text: s("no"), ..entry() }]);

    let (set, project, per_source) =
        hooks::load_read(&cfg, Ok(Some(good())), vec![Ok(None)]).unwrap();
    assert_eq!(set.pre_write.len(), 1);
    assert!(project.is_some() && per_source.len() == 1 && per_source[0].is_none());

    let err = hooks::load_read(&cfg, Err("parsing it: bad".to_string()), vec![Ok(Some(good()))])
        .unwrap_err();
    assert_eq!(err, format!("loading {project_path}: parsing it: bad"));

    let err = hooks::load_read(&cfg, Ok(Some(good())), vec![Err("reading it: gone".to_string())])
        .unwrap_err();
    assert_eq!(err, format!("loading {source_path}: reading it: gone"));

    let err = hooks::load_read(&cfg, Ok(Some(bad())), vec![Err("reading it: gone".to_string())])
        .unwrap_err();
    assert!(err.starts_with(&format!("loading {project_path}: [[pre-write]] hook 'x' has 'text'")), "got: {err}");
}
