# deadcode

Finds dead Python code in a project: files that no entry point reaches, and symbols that nothing
uses. The library in `src/` is verified with Verus: every function states what it computes, and the
proofs are part of the source.

- `src/` works on plain data: syntax trees, normalized paths, settings, and answers about where
  modules lie.
  - `check` and `settings`: the check of a project, its reports, and how settings apply to them.
  - `symbols`, `liveness`, `fastapi`: which symbols are in use.
  - `collector`, `references`, `scope`, `imports`: what one module defines, imports and refers to.
  - `graph`, `reach`: which files import which, and what is reachable.
  - `rules`, `text`, `path`, `lines`: names, paths and line numbers.
  - `order`, `collections`: ordered sets and maps.
  - `check_laws`, `symbol_laws`, `rule_laws`: what holds of the analysis as a whole.
- `app/` reads a project from disk, parses its files, and hands the result to the library.
- `tests/` runs the library on small projects.

The library separates the components of a path by slashes on every platform. `app/` turns the
platform's own separator into slashes, so reports show slashes too.

One function is trusted rather than proved: `lines::line_number`, which looks up a line number in
an index that `ruff_source_file` builds.

Of the crates in `Cargo.toml`, `ruff_python_parser` serves `app/`. `get-size2` is named only to hold
it to a version that the ruff crates build with.
