# kuzo

The verified core of the Kuzo compiler: the dataflow graph and its passes, the
static analyses of the syntax tree, the module loader and the project rules.

- `src/ir` holds the graph, its derived tables, compaction, frames and values.
- `src/pass` holds the graph passes and the driver that runs them in rounds.
- `src/ast` holds the syntax tree, what type checking says of it, and the walks
  over it; `src/analysis` holds the analyses that rest on them.
- `src/module` holds module paths, the loader, the import graph and the order in
  which modules are checked.
- `src/project.rs` holds the manifest, the paths and the choices of the command
  line.
- `src/fx.rs` holds the hash collections; it and a few functions elsewhere state
  what is taken from outside crates and from std.
- `app` is the command line program. It reads and writes files, evaluates
  floating-point constants, and links in the parser, the type checker, the graph
  builder, the artifact format and the engine.

A round of graph passes that meets something it cannot work on, such as a
reference that leads out of the graph, leaves the graph as it was.
