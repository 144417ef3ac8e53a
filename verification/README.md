# qsc_fir_transforms

Transformation passes over the flattened intermediate representation (FIR) of quantum programs,
written and proved in Verus.

- `src/fir.rs`, `src/index_map.rs`: packages of blocks, statements, expressions and patterns that
  refer to each other by identifier, and the mathematical view of a package.
- `src/walk.rs`, `src/validity.rs`: walking nodes in source order, and testing that they are whole.
- `src/reachability.rs`: the items that the entry expression of a package reaches, with optional
  further seeds.
- `src/tuple_destructuring.rs`, `src/assigner.rs`: `let (a, b) = src;` becomes `let a = src::0;`
  and `let b = src::1;`.
- `src/preservation.rs`, `src/idempotence.rs`, `src/semantics.rs`, `src/equivalence.rs`: what that
  rewrite keeps, that it leaves nothing to rewrite, and that programs compute the same afterwards.
- `src/pipeline.rs`, `src/pipeline_laws.rs`: the order of the passes as a state machine, and what
  holds of every run.
- `src/shapes.rs`, `src/probes.rs`, `src/text.rs`: rendering callables and looking into them.
- `app/`: drives the state machine over a set of passes, and shows diagnostics.
