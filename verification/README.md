# ocelot

The configuration core of a process supervisor and init system, written in
Verus: its data types, the checks that decide whether a configuration is
valid, kernel-module dependency resolution and the graph algorithms behind
them, each with a contract that Verus proves.

## Layout

- `src/graph/`: a directed graph keyed by node names, with Kosaraju's
  strongly connected components, cycle search and a dependency-first order.
  `paths.rs` holds the model (walks, reachability, cycles), `search.rs` the
  model of the cycle search, `scc.rs` the model of both
  passes of Kosaraju's algorithm beside the algorithm, `laws.rs` the
  properties that span several operations.
- `src/modules/`: `modules.dep` parsing (`depfile.rs`), the closure and load
  order of the modules that a configuration asks for, sorted on a `petgraph`
  graph (`resolve.rs`), the link between the dependency map and the graph
  (`graph_link.rs`) and the laws of resolution (`laws.rs`).
- `src/config/supervise/`: processes, probes, restart policies and log
  rotation, with the validation of a supervisor configuration; `cycles.rs`
  searches dependency cycles on a `petgraph` graph, and `links.rs` reads the
  dependency lists of the supervisors back from a `petgraph` stable graph.
- `src/config/bootstrap/`: mounts and mount flags, system settings, boot
  scripts, the hand-off and the bootstrap phases.
- `src/config/error.rs`, `format.rs`, `time.rs`, `log_level.rs`: errors and
  their messages, decimal formatting, time spans, log levels.
- `src/cli.rs`: the command-line choices and the zombie report.
- `app/`: the command-line program: argument parsing, reading YAML and
  dependency files, `/proc`, and the serde forms of the library's types.
- `tests/`: scenarios run against the compiled library.
