use std::path::{Path, PathBuf};

use memex::config::{
    self, default_root, discover, find_enclosing_repo, gitignore_line, updated_gitignore,
    BlueprintFile, MemexConfig, RawConfig, RawSource,
};

// ---------- fixtures ----------

fn raw_source() -> RawSource {
    RawSource {
        mount: None,
        prefix: None,
        remote: None,
        include_patterns: None,
        exclude: None,
        readonly: None,
        index_filename: None,
        hook_base: None,
    }
}

fn raw(project_name: &str, sources: Vec<(&str, RawSource)>) -> RawConfig {
    RawConfig {
        project_name: project_name.to_string(),
        root: default_root(),
        sources: sources.into_iter().map(|(n, s)| (n.to_string(), s)).collect(),
        also_scan: vec![],
    }
}

fn dir() -> PathBuf {
    PathBuf::from("/work/dir")
}

fn load_in_dir(r: &RawConfig) -> Result<MemexConfig, config::ConfigError> {
    config::load(r, "/work/dir/memex.toml", &vec![])
}

fn mount(m: &str) -> RawSource {
    RawSource {
        mount: Some(m.to_string()),
        ..raw_source()
    }
}

/// The project of the command tests: one source, `testsource`, mounted at
/// `<project>/blueprints`.
fn create_env() -> (MemexConfig, PathBuf) {
    let cfg = config::load(
        &raw("testproject", vec![("testsource", mount("blueprints"))]),
        "/work/project/memex.toml",
        &vec![],
    )
    .unwrap();
    (cfg, PathBuf::from("/work/project/blueprints"))
}

fn join(base: &str, rest: &str) -> String {
    Path::new(base).join(rest).to_string_lossy().into_owned()
}

// ---------- discover ----------

#[test]
fn discover_finds_memex_toml_in_given_directory() {
    let p = discover("/work/dir", true).unwrap();
    assert_eq!(PathBuf::from(p), dir().join("memex.toml"));
}

#[test]
fn discover_does_not_look_in_config_subdir() {
    // Only `<dir>/memex.toml` is looked at; a file under `config/` is not.
    assert_eq!(config::config_candidate("/work/dir"), "/work/dir/memex.toml");
    assert!(discover("/work/dir", false).is_err());
}

#[test]
fn discover_does_not_look_in_dot_memex() {
    // Only `<dir>/memex.toml` is looked at; a file under `.memex/` is not.
    assert_ne!(config::config_candidate("/work/dir"), "/work/dir/.memex/memex.toml");
    assert!(discover("/work/dir", false).is_err());
}

#[test]
fn discover_errors_when_no_config_found() {
    let err = discover("/work/dir", false).unwrap_err().message();
    assert!(err.contains("No memex.toml found"), "got: {err}");
}

// ---------- load ----------

#[test]
fn load_parses_project_name() {
    let cfg = load_in_dir(&raw("acme", vec![("s", raw_source())])).unwrap();
    assert_eq!(cfg.project_name, "acme");
}

#[test]
fn load_errors_on_empty_project_name() {
    assert!(load_in_dir(&raw("", vec![("s", raw_source())])).is_err());
}

#[test]
fn load_default_root_is_config_dir() {
    let cfg = load_in_dir(&raw("p", vec![("s", raw_source())])).unwrap();
    assert_eq!(PathBuf::from(&cfg.project_root), dir());
}

#[test]
fn load_parses_sources_with_mount_and_remote() {
    let cfg = load_in_dir(&raw(
        "acme",
        vec![
            ("local", mount("docs")),
            (
                "shared",
                RawSource {
                    mount: Some("vendor/shared".to_string()),
                    remote: Some("git@github.com:acme/shared.git".to_string()),
                    ..raw_source()
                },
            ),
        ],
    ))
    .unwrap();
    assert_eq!(cfg.sources.len(), 2);

    let local = cfg.sources.iter().find(|s| s.name == "local").unwrap();
    assert_eq!(PathBuf::from(&local.mount), dir().join("docs"));
    assert!(local.remote.is_none());
    assert_eq!(local.prefix, "local");

    let shared = cfg.sources.iter().find(|s| s.name == "shared").unwrap();
    assert_eq!(PathBuf::from(&shared.mount), dir().join("vendor").join("shared"));
    assert_eq!(shared.remote.as_deref(), Some("git@github.com:acme/shared.git"));
}

#[test]
fn load_default_mount_is_project_root() {
    let cfg = load_in_dir(&raw("p", vec![("s", raw_source())])).unwrap();
    assert_eq!(PathBuf::from(&cfg.sources[0].mount), dir());
}

#[test]
fn load_default_prefix_is_source_name() {
    let cfg = load_in_dir(&raw("p", vec![("hello", raw_source())])).unwrap();
    assert_eq!(cfg.sources[0].prefix, "hello");
}

#[test]
fn load_allows_explicit_empty_prefix() {
    let cfg = load_in_dir(&raw(
        "p",
        vec![("s", RawSource { prefix: Some(String::new()), ..raw_source() })],
    ))
    .unwrap();
    assert_eq!(cfg.sources[0].prefix, "");
}

#[test]
fn load_rejects_multiple_empty_prefixes() {
    let r = raw(
        "p",
        vec![
            ("a", RawSource { prefix: Some(String::new()), ..raw_source() }),
            ("b", RawSource { prefix: Some(String::new()), ..raw_source() }),
        ],
    );
    assert!(load_in_dir(&r).is_err());
}

#[test]
fn load_default_include_is_all_md() {
    let cfg = load_in_dir(&raw("p", vec![("s", raw_source())])).unwrap();
    assert_eq!(cfg.sources[0].include_patterns, vec!["**/*.md"]);
}

#[test]
fn load_expands_tilde_in_mount() {
    let cfg = load_in_dir(&raw("p", vec![("s", mount("~/memex-test-xyz"))])).unwrap();
    let home = dirs::home_dir().unwrap();
    assert_eq!(PathBuf::from(&cfg.sources[0].mount), home.join("memex-test-xyz"));
}

#[test]
fn load_expands_env_var_in_mount() {
    let vars = vec![("MEMEX_TEST_VAR".to_string(), "/tmp/envtest".to_string())];
    let cfg = config::load(
        &raw("p", vec![("s", mount("${MEMEX_TEST_VAR}/sub"))]),
        "/work/dir/memex.toml",
        &vars,
    )
    .unwrap();
    assert_eq!(PathBuf::from(&cfg.sources[0].mount), PathBuf::from("/tmp/envtest/sub"));
}

// ---------- slug ----------

#[test]
fn blueprint_id_uses_source_prefix_plus_relpath() {
    let (cfg, _) = create_env();
    let source = &cfg.sources[0];
    let fp = join(&source.mount, "vision.md");
    assert_eq!(cfg.blueprint_id(source, &fp), "testsource/vision");
}

#[test]
fn blueprint_id_includes_subdirectories() {
    let (cfg, _) = create_env();
    let source = &cfg.sources[0];
    let fp = join(&join(&source.mount, "tech"), "migrations.md");
    assert_eq!(cfg.blueprint_id(source, &fp), "testsource/tech/migrations");
}

#[test]
fn blueprint_id_omits_prefix_when_empty() {
    let cfg = load_in_dir(&raw(
        "p",
        vec![(
            "s",
            RawSource {
                mount: Some("bp".to_string()),
                prefix: Some(String::new()),
                ..raw_source()
            },
        )],
    ))
    .unwrap();
    let source = &cfg.sources[0];
    let fp = join(&source.mount, "vision.md");
    assert_eq!(cfg.blueprint_id(source, &fp), "vision");
}

#[test]
fn resolve_blueprint_matches_by_prefix() {
    let (cfg, source_mount) = create_env();
    let resolved = cfg.resolve_blueprint("testsource/vision").unwrap();
    assert_eq!(resolved.source.name, "testsource");
    assert_eq!(PathBuf::from(&resolved.file_path), source_mount.join("vision.md"));
}

#[test]
fn resolve_blueprint_errors_for_unknown_prefix() {
    let (cfg, _) = create_env();
    let err = cfg.resolve_blueprint("nope/foo").unwrap_err().message();
    assert!(err.contains("No source"), "got: {err}");
}

#[test]
fn resolve_blueprint_uses_empty_prefix_fallback() {
    let cfg = load_in_dir(&raw(
        "p",
        vec![
            ("notes", mount("notes")),
            ("bare", RawSource { prefix: Some(String::new()), ..raw_source() }),
        ],
    ))
    .unwrap();
    // "notes/foo" → source with prefix "notes"
    let r1 = cfg.resolve_blueprint("notes/foo").unwrap();
    assert_eq!(r1.source.name, "notes");
    // "TODOS" → fallback to empty-prefix source
    let r2 = cfg.resolve_blueprint("TODOS").unwrap();
    assert_eq!(r2.source.name, "bare");
    assert_eq!(PathBuf::from(&r2.file_path), dir().join("TODOS.md"));
}

#[test]
fn resolve_blueprint_picks_longest_prefix() {
    let cfg = load_in_dir(&raw("p", vec![("a", mount("a")), ("a-b", mount("a-b"))])).unwrap();
    // "a-b/x" must resolve to `a-b`, not `a`.
    let r = cfg.resolve_blueprint("a-b/x").unwrap();
    assert_eq!(r.source.name, "a-b");
}

// ---------- globs ----------

#[test]
fn include_globs_filter_files() {
    let cfg = load_in_dir(&raw(
        "p",
        vec![(
            "s",
            RawSource {
                mount: Some("bp".to_string()),
                include_patterns: Some(vec!["sub/**/*.md".to_string()]),
                ..raw_source()
            },
        )],
    ))
    .unwrap();
    let s = &cfg.sources[0];
    let take = s.include_set().unwrap();
    let leave = s.exclude_set().unwrap();
    assert!(s.file_selected(&take, &leave, "sub/nested.md"));
    assert!(!s.file_selected(&take, &leave, "top.md"));
}

#[test]
fn exclude_globs_remove_files() {
    let cfg = load_in_dir(&raw(
        "p",
        vec![(
            "s",
            RawSource {
                mount: Some("bp".to_string()),
                exclude: Some(vec!["drafts/**".to_string()]),
                ..raw_source()
            },
        )],
    ))
    .unwrap();
    let s = &cfg.sources[0];
    let take = s.include_set().unwrap();
    let leave = s.exclude_set().unwrap();
    assert!(s.file_selected(&take, &leave, "keep.md"));
    assert!(!s.file_selected(&take, &leave, "drafts/skip.md"));
}

// ---------- db_path, title ----------

#[test]
fn db_path_is_in_cache_dir() {
    let (cfg, _) = create_env();
    let base = dirs::cache_dir().unwrap();
    let expected = base
        .join("memex")
        .join("indexes")
        .join("testproject")
        .join("vector_index.sqlite");
    assert_eq!(PathBuf::from(cfg.db_path()), expected);
}

#[test]
fn extract_title_returns_first_h1() {
    let (cfg, _) = create_env();
    assert_eq!(cfg.extract_title("# My Title\n\nBody text."), "My Title");
}

#[test]
fn extract_title_returns_untitled_when_no_heading() {
    let (cfg, _) = create_env();
    assert_eq!(cfg.extract_title("No heading here."), "Untitled");
}

// ---------- index_filename ----------

fn deps_cfg(mount_name: &str) -> MemexConfig {
    load_in_dir(&raw(
        "p",
        vec![(
            mount_name,
            RawSource {
                mount: Some(mount_name.to_string()),
                index_filename: Some("overview.md".to_string()),
                ..raw_source()
            },
        )],
    ))
    .unwrap()
}

#[test]
fn blueprint_id_uses_parent_dir_for_index_filename_match() {
    let cfg = deps_cfg("deps");
    let source = &cfg.sources[0];

    // Index file → slug drops filename, uses parent dir.
    let idx_path = join(&join(&source.mount, "ecto_context"), "overview.md");
    assert_eq!(cfg.blueprint_id(source, &idx_path), "deps/ecto_context");

    // Non-matching file → default slug derivation.
    let other = join(&join(&source.mount, "ecto_context"), "other.md");
    assert_eq!(cfg.blueprint_id(source, &other), "deps/ecto_context/other");
}

#[test]
fn blueprint_id_handles_index_file_at_mount_root() {
    let cfg = deps_cfg("bp");
    let source = &cfg.sources[0];
    let root_idx = join(&source.mount, "overview.md");
    // Slug collapses to just the prefix.
    assert_eq!(cfg.blueprint_id(source, &root_idx), "bp");
}

#[test]
fn resolve_blueprint_finds_index_file_when_default_absent() {
    let cfg = deps_cfg("deps");
    let r = cfg
        .resolve_blueprint("deps/ecto_context")
        .unwrap()
        .prefer_index_file(false, true);
    assert_eq!(
        PathBuf::from(&r.file_path),
        dir().join("deps").join("ecto_context").join("overview.md")
    );
}

// ---------- collisions ----------

#[test]
fn ensure_initialized_detects_index_filename_collision_within_source() {
    let cfg = deps_cfg("deps");
    let mount = &cfg.sources[0].mount;
    // Both files produce slug "deps/foo" → collision.
    let entries = vec![
        BlueprintFile { source: 0, path: join(mount, "foo.md") },
        BlueprintFile { source: 0, path: join(&join(mount, "foo"), "overview.md") },
    ];
    let err = cfg.check_collisions(&entries).unwrap_err().message();
    assert!(err.contains("slug collision"), "got: {err}");
}

#[test]
fn ensure_initialized_detects_slug_collisions() {
    let cfg = load_in_dir(&raw(
        "p",
        vec![
            ("s1", RawSource { mount: Some("a".to_string()), prefix: Some("shared".to_string()), ..raw_source() }),
            ("s2", RawSource { mount: Some("b".to_string()), prefix: Some("shared".to_string()), ..raw_source() }),
        ],
    ))
    .unwrap();
    let entries = vec![
        BlueprintFile { source: 0, path: join(&cfg.sources[0].mount, "x.md") },
        BlueprintFile { source: 1, path: join(&cfg.sources[1].mount, "x.md") },
    ];
    let err = cfg.check_collisions(&entries).unwrap_err().message();
    assert!(err.contains("slug collision"), "got: {err}");
}

// ---------- further cases ----------

#[test]
fn resolved_file_gives_its_slug_back() {
    let (cfg, _) = create_env();
    for id in ["testsource/vision", "testsource/tech/migrations"] {
        let r = cfg.resolve_blueprint(id).unwrap();
        assert_eq!(cfg.blueprint_id(r.source, &r.file_path), id);
    }
}

#[test]
fn unknown_prefix_error_lists_the_sources() {
    let cfg = load_in_dir(&raw(
        "p",
        vec![("a", raw_source()), ("b", RawSource { prefix: Some("x/y".to_string()), ..raw_source() })],
    ))
    .unwrap();
    let err = cfg.resolve_blueprint("nope/foo").unwrap_err().message();
    assert_eq!(
        err,
        "No source matches slug 'nope/foo'. Configured sources: a (prefix=a), b (prefix=x/y)"
    );
}

#[test]
fn multiple_empty_prefixes_error_counts_them() {
    let r = raw(
        "p",
        vec![
            ("a", RawSource { prefix: Some(String::new()), ..raw_source() }),
            ("b", RawSource { prefix: Some(String::new()), ..raw_source() }),
            ("c", RawSource { prefix: Some(String::new()), ..raw_source() }),
        ],
    );
    let err = load_in_dir(&r).unwrap_err().message();
    assert_eq!(err, "At most one source may set prefix = \"\" (found 3)");
}

#[test]
fn empty_project_name_error_message() {
    let err = load_in_dir(&raw("  ", vec![])).unwrap_err().message();
    assert_eq!(err, "'project_name' in memex.toml must be non-empty");
}

#[test]
fn project_root_relative_to_config_dir() {
    let r = RawConfig { root: "..".to_string(), ..raw("p", vec![]) };
    let cfg = config::load(&r, "/work/dir/sub/memex.toml", &vec![]).unwrap();
    assert_eq!(cfg.project_root, "/work/dir/sub/..");
    assert_eq!(cfg.config_dir, "/work/dir/sub");
}

#[test]
fn enclosing_repo_is_the_nearest_with_git() {
    let repos = vec!["/a/b".to_string(), "/a".to_string()];
    assert_eq!(find_enclosing_repo("/a/b/c/file.md", true, &repos), Some("/a/b".to_string()));
    assert_eq!(find_enclosing_repo("/x/y", false, &repos), None);
}

#[test]
fn gitignore_line_for_mount_inside_root() {
    assert_eq!(gitignore_line("/p", "/p/vendor/shared"), Some("/vendor/shared/".to_string()));
    assert_eq!(gitignore_line("/p", "/elsewhere"), None);
}

#[test]
fn gitignore_update_adds_once() {
    let first = updated_gitignore("target\n/old/", "/vendor/").unwrap();
    assert_eq!(first, "target\n/old/\n/vendor/\n");
    assert_eq!(updated_gitignore(&first, "/vendor/"), None);
    assert_eq!(updated_gitignore("  /vendor/  \r\n", "/vendor/"), None);
}

#[test]
fn noise_and_markdown_names() {
    assert!(config::is_noise_dir("node_modules"));
    assert!(!config::is_noise_dir("docs"));
    assert!(config::has_md_extension("a.md"));
    assert!(!config::has_md_extension(".md"));
    assert!(!config::has_md_extension("a.mdx"));
    assert!(!config::enter_entry(false, true, Some(".git"), false));
    assert!(!config::enter_entry(false, true, Some("sub"), true));
    assert!(config::enter_entry(true, true, Some("sub"), true));
}

#[test]
fn all_source_names_in_order() {
    let cfg = load_in_dir(&raw("p", vec![("a", raw_source()), ("b", raw_source())])).unwrap();
    assert_eq!(cfg.all_source_names(), vec!["a", "b"]);
}

#[test]
fn expand_and_resolve_paths() {
    let vars = vec![("HOME_X".to_string(), "/h".to_string())];
    assert_eq!(config::expand_home_and_env("~/a", &vars, Some("/home/u".to_string())), "/home/u/a");
    assert_eq!(config::expand_home_and_env("${HOME_X}/a", &vars, None), "/h/a");
    assert_eq!(config::expand_home_and_env("${NOPE}/a", &vars, None), "/a");
    assert_eq!(config::resolve_path("/base", "rel", &vars, None), "/base/rel");
    assert_eq!(config::resolve_path("/base", "/abs", &vars, None), "/abs");
}

#[test]
fn file_comes_back_from_its_slug() {
    let (cfg, _) = create_env();
    let source = &cfg.sources[0];
    let fp = join(&source.mount, "tech/migrations.md");
    let id = cfg.blueprint_id(source, &fp);
    assert_eq!(cfg.resolve_blueprint(&id).unwrap().file_path, fp);
}

#[test]
fn longest_prefix_wins_whatever_the_order() {
    let cfg = load_in_dir(&raw(
        "p",
        vec![
            ("long", RawSource { prefix: Some("a/b".to_string()), ..raw_source() }),
            ("short", RawSource { prefix: Some("a".to_string()), ..raw_source() }),
            ("bare", RawSource { prefix: Some(String::new()), ..raw_source() }),
        ],
    ))
    .unwrap();
    assert_eq!(cfg.resolve_blueprint("a/b/c").unwrap().source.name, "long");
    assert_eq!(cfg.resolve_blueprint("a/c").unwrap().source.name, "short");
    assert_eq!(cfg.resolve_blueprint("ab/c").unwrap().source.name, "bare");
}

#[test]
fn config_path_without_parent_is_refused() {
    let err = config::load(&raw("p", vec![]), "/", &vec![]).unwrap_err().message();
    assert_eq!(err, "config path has no parent");
}

#[test]
fn invalid_glob_is_reported() {
    let cfg = load_in_dir(&raw(
        "p",
        vec![("s", RawSource { exclude: Some(vec!["a[".to_string()]), ..raw_source() })],
    ))
    .unwrap();
    let err = cfg.sources[0].exclude_set().unwrap_err().message();
    assert_eq!(err, "invalid glob in: a[");
}

#[test]
fn sources_keep_the_order_of_the_file() {
    let cfg = load_in_dir(&raw("p", vec![("zeta", raw_source()), ("alpha", raw_source())])).unwrap();
    let names: Vec<&str> = cfg.sources.iter().map(|s| s.name.as_str()).collect();
    assert_eq!(names, vec!["zeta", "alpha"]);
}

#[test]
fn expansion_keeps_non_ascii_text() {
    assert_eq!(config::expand_home_and_env("/tmp/café/docs", &vec![], None), "/tmp/café/docs");
    let vars = vec![("DIR".to_string(), "/tmp/ü".to_string())];
    assert_eq!(config::expand_home_and_env("${DIR}/é${DIR}", &vars, None), "/tmp/ü/é/tmp/ü");
    let cfg = load_in_dir(&raw("p", vec![("s", mount("café"))])).unwrap();
    assert_eq!(PathBuf::from(&cfg.sources[0].mount), PathBuf::from("/work/dir/café"));
    assert!(cfg.sources[0].mount.ends_with("/café"));
}

#[test]
fn blueprint_id_keeps_the_text_below_the_mount() {
    let (cfg, _) = create_env();
    let source = &cfg.sources[0];
    let fp = format!("{}/a//b.md", source.mount);
    assert_eq!(cfg.blueprint_id(source, &fp), "testsource/a//b");
}

#[test]
fn title_is_the_first_line_marked_as_heading() {
    let (cfg, _) = create_env();
    assert_eq!(cfg.extract_title("## Sub\n# Main\n# Later"), "Main");
    assert_eq!(cfg.extract_title("  # X"), "Untitled");
    assert_eq!(cfg.extract_title("intro\r\n#  Spaced  \r\nrest"), "Spaced");
}

#[test]
fn slug_is_prefix_and_path_without_md() {
    let (cfg, _) = create_env();
    let source = &cfg.sources[0];
    let fp = join(&source.mount, "tech/db/schema.md");
    assert_eq!(cfg.blueprint_id(source, &fp), "testsource/tech/db/schema");
    let fp = join(&source.mount, "notes.txt");
    assert_eq!(cfg.blueprint_id(source, &fp), "testsource/notes.txt");
}

#[test]
fn repo_candidates_climb_from_the_start_as_written() {
    assert_eq!(
        config::enclosing_repo_candidates("/a//b/", false),
        vec!["/a//b/".to_string(), "/a".to_string(), "/".to_string()]
    );
    assert_eq!(
        config::enclosing_repo_candidates("w/x/f.md", true),
        vec!["w/x".to_string(), "w".to_string(), String::new()]
    );
    assert_eq!(config::enclosing_repo_candidates("/", true), Vec::<String>::new());
}
