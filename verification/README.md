# omni

A file-based route compiler. Handlers found in a directory tree become routes;
passes partition the routes into a decision tree of cheap conditions (path length,
segment count); the tree is lowered to per-method handler stacks, and the router
that dispatches to them is emitted as Rust source.

The library under `src/` is verified with Verus:

- `http`, `router`: methods, route segments, handler nodes, routes, and how they
  print.
- `ast`: Go sources parsed with tree-sitter, and the handler functions and
  parameter types found in their syntax trees.
- `walk`: the routes of a listed directory tree (the directory path is the route
  path; middleware applies to its directory and below).
- `condition`, `passes`: the condition tree and the length and segment-count
  passes.
- `format`: the condition tree printed as a router skeleton.
- `gentree`, `stack`, `languages`: the generation tree, handler stacks (with
  their headers and content-addressed ids), and the Go and Rust adapters.
- `hashes`, `collections`, `text`: the `sha3`, `im` and `const-hex` calls the
  logic relies on, and text helpers.

`app/` holds the program around it: reading the routes directory and its
sources, the clock, writing the generated files, running `go mod`, and the HTTP
runtime (`omni serve`).
