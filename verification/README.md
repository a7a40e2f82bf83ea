# memex

A command-line knowledge base of markdown "blueprints" kept in git-backed
sources, with slug ids, `[[slug]]` cross-references, file-pattern hooks for
coding agents, and local semantic search.

## Layout

- `src/` — the library, verified with Verus. Every function carries its
  contract; the laws of the library are public proof functions.
  - `text.rs`, `paths.rs` — character-sequence helpers and Unix path text
    (join, components, prefix stripping, parents).
  - `path_order.rs` — the component-by-component order of paths and a
    stable sort by it.
  - `file_order.rs` — the order in which `memex.toml` writes its sources.
  - `links.rs` — extraction of `[[slug]]` references outside code.
  - `config.rs` — sources, slug derivation and resolution, loading checks,
    `.gitignore` maintenance, walk decisions, glob selection.
  - `hooks.rs` — `hooks.toml` validation and loading, matching a file
    against pre-/post-write hooks, `${N}` substitution.
  - `refresh.rs` — content hashes and the plan that keeps the index current.
  - `db.rs` — index rows and computed query parts.
  - `commands/` — what each command decides and prints.
- `app/` — the program: argument parsing, reading and parsing TOML, walking
  directories, git, SQLite, the embedding model, printing.
- `tests/` — tests of the library.

The library never touches the disk: the program reads files and hands the
library plain values (parsed configuration, file contents, which paths
exist), and acts on what comes back.
