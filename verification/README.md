# covgate

A diff coverage gate: it reads a native coverage report (LLVM JSON export,
Istanbul JSON or Coverlet JSON), finds the lines a change adds, and fails when
the coverage of those lines misses the configured rules.

## Layout

- `src/` is the verified library; its functions carry contracts proved by
  Verus: unified-diff parsing, the three report readers, metric computation over
  changed lines, gate configuration and evaluation, the placement of changed
  files in path-scoped gates, and the decisions around Git (base-ref discovery,
  recorded-base refresh).
- `app/` is the `covgate` command: argument parsing, running `git`, reading files
  and JSON/TOML, and printing the console and Markdown summaries, whose
  percentages are floating point.
- `tests/` runs the library on concrete inputs.

Outside crates: `ignore` (gitignore-style path patterns) and `rustc-demangle`
(Rust symbol names) are called from the library through small trusted wrappers
whose contracts are stated in `src/config.rs` and
`src/coverage/llvm_functions.rs`; `clap`, `serde`, `serde_json` and `toml` are
used by the command only.
