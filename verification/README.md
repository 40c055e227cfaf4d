# rustjvm

A Java-source route compiler and dependency-injection container, with the
tools around them (Spring Boot migration, Kubernetes manifests, hot reload),
written in Verus: the library's functions carry `requires`/`ensures`
contracts that Verus proves.

Layout:

- `src/` — the verified library.
  - `text.rs` — character and string helpers (trimming, searching, decimal
    rendering) with their specifications.
  - `compiler/` — lexer, parser, route compilation, bean extraction.
  - `runtime/` — the DI registry (wiring, topological construction order,
    assembly across files), the dispatch table, telemetry, and the HTTP
    answers.
  - `hotreload.rs` — the reload decision: what a changed file swaps in, or
    that the previous version keeps serving.
  - `migrate/` — Spring Boot analysis, source and properties conversion, the
    migration report.
  - `k8s.rs` — the manifest bundle.
  - `cli.rs` — the command-line front's rules (package names, scaffold,
    `--main` scan base, port setting, route listing).
- `app/` — the `rustjvm` command: argument parsing, file and network I/O,
  the axum server, the file watcher, per-request arenas.
- `tests/` — tests of the library.
