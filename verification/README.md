# mirlens

Analyses over the MIR of a crate's functions, verified with Verus.

- `src/mir.rs` — the plain-value model of a MIR body that the analyses read.
- `src/cfg.rs` — control-flow and call-graph queries: a topological order of
  the blocks (or the fact that a cycle is reachable), the direct callees of a
  function, and a callee-first order of the crate's functions.
- `src/walk.rs` — a visitor over the blocks of a body, and the plain MIR
  listing built on it.
- `src/sym.rs`, `src/summary.rs` — symbolic summaries: what each function
  returns and writes through its reference parameters, as an expression over
  its inputs; branches are merged back into conditionals.
- `src/heap.rs`, `src/report.rs` — the heap/borrow model: for each function,
  its Rust source and its MIR listing, then per control-flow path the
  variables, the heap cells with their borrow states, what the
  function returns and the undefined behaviour found; as text or Graphviz.
- `src/samples/` — small programs to run the analyses on.
- `app/main.rs` — the `rustc` driver: it reads the compiler's MIR, converts it
  into the model and prints what the library gives back.

Run the driver on a file with the usual `rustc` flags; `--heap` selects the
heap model and `--dot` its Graphviz form:

    mirlens --heap --edition 2021 --crate-type lib samples/ref_write.rs
