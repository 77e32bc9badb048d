# texpand

Expands the local `#include` dependencies of a C/C++ source file into one
file, with an optional token-level compression that keeps the program's
meaning. Written in Verus: the library in `src/` is verified against its
contracts.

- `src/parser.rs`: tree-sitter parsing into a syntax tree of plain values,
  and reading `#include` directives.
- `src/compressor.rs`: the compressor's state machine and the compression
  walk, with the laws that it keeps every token and separates identifiers.
- `src/expander.rs`: the expansion: preprocessor contexts, the walk over a
  file, and the recursive inlining of includes, each file at most once per
  context.
- `src/graph.rs`: the include graph over petgraph: cycles and an order in
  which dependencies come first.
- `src/config.rs`, `src/cli.rs`, `src/vscode.rs`: the decisions of the two
  front ends; `src/sexp.rs`: indented S-expressions.
- `app/`: the command line program and the editor extension's process,
  which do the file, environment and clipboard work.
