# svxprobe

Cross-probing for elaborated hardware designs, as a library that is verified with Verus.

A design comes as a document of nodes and edges. The library indexes it by path and by source
position, matches the signals of a waveform trace to it, and draws it: the schematic of a scope,
the cone of a net, and traces that follow several signals at once. It also holds what the
programs around it decide: arguments, cache freshness, the benchmark matrix and the tables of
its metrics file.

- `src/model.rs`, `src/ingest.rs`, `src/cache.rs`: the document, its checks, its indices and its
  cache files
- `src/matcher/`: signals of a trace to nodes of a design
- `src/schematic/`: schematics, cones and traces, with the laws that hold of all of them in
  `scope_laws.rs`, `tie_laws.rs`, `walk_laws.rs`, `trace_laws.rs`, `budget_laws.rs`,
  `wire_laws.rs` and `level_laws.rs`
- `src/session.rs`, `src/sessions.rs`, `src/cli.rs`, `src/startup.rs`: what views and commands ask
- `src/bench/`: generated designs, the benchmark matrix and its reports
- `src/spans.rs`, `src/cache.rs`, `src/bench/records.rs`: the calls into `rust-lapper`, `rkyv` and
  `serde_json`, each behind a function whose contract is believed
- `app/`: the command line, files, processes, JSON and floating point
- `tests/`: the library as its callers see it

Contracts are stated over the document itself: a spec function says what a schematic or a match
is, and the executable function is proved to give exactly that.
