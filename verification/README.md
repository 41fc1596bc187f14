# redline

The headless core of a read-focused terminal code browser, written in
Verus. The logic in `src/` is proved by Verus against its
`requires`/`ensures` contracts; a few small helpers carry no contract of
their own. The calls into `ropey`, `unicode-width` and a handful of std
functions go through trusted wrappers (`#[verifier::external_body]`) and
two `assume_specification` items, whose contracts state what those
libraries document and are not proved.

## Layout

- `src/text.rs` — character and string helpers shared by the modules
  (char sequences, code-point order, UTF-8 lengths, decimal rendering).
- `src/cli.rs` — command-line parsing.
- `src/git/` — git data as plain values: status classification, patch
  extraction into per-file diffs, hunk byte math (revert and
  reverse-apply of one hunk), blame assembly, log entries and relative
  ages, commit-identity parsing and diagnostics, tree-path steps.
- `src/model/` — projects (root detection, registry, recents), file
  lists and ignore decisions, text buffers over `ropey` ropes with undo
  history and the buffer table, display-column math over
  `unicode-width`, path helpers, and the magit-style status section tree.
- `src/nav/` — the symbol index (outlines, name lookup, struct fields,
  trait impls) with its incremental refresh, and the string-keyed map it
  is built on.
- `src/search/` — the search configuration, the matcher build and the
  per-line hit decisions of the streaming search, the in-buffer occur
  search and its events, and the symbol-under-point rule of the
  references search.
- `src/profile.rs` — the index profiler's path pseudonyms and CSV rules.
- `tests/` — tests of the library.
- `app/` — the program around the library: argument handling, the
  libgit2 repository handle, the directory walk, the search threads, the
  JSON store, the index bus, and the profiler's timing report.
