# deq_runtime

The runtime of a dynamic quantum error correction system, verified with Verus.

A program of gadgets, check models and error models grows instruction by instruction.
Coordinators follow it, turn measurement outcomes into syndromes, ask a decoder for
parity factors and commit the corrections, either for a connected part as a whole or
window by window.

- `src/` is the verified library. Every step is a function from state and request to
  state and answer; its contract says exactly when it succeeds and what it changes.
  - networks and references: `network`, `remote`, `referrals`, `program`, `organisation`
  - coordinators: `monolithic*`, `expansion`, `subgraph`, `window*`, `syndromes`,
    `prepare`, `timing`, `naive_coordinator`, `mock_coordinator`
  - decoding: `relative`, `hypergraph`, `merge`, `cache_key`, `reuse`, `decode_plan`,
    `prediction`, `frames`
  - detector error models: `dem`, `dem_log`, `dem_access`
  - compilation and controllers: `jit*`, `type_cache`, `sequencer`, `static_controller`
  - decoders: `thread_pooling`, `naive_decoder`, `mock_decoder`, `dyn_lib_decoder`,
    `relay_bp_decoder`, `python_decoder`
- `app/` waits, locks, reads configuration and calls decoders; it decides nothing that
  the library can decide.
- `tests/` runs the library on concrete programs.

Hash tables, bit vectors and random numbers come from outside crates, the clock from std.
What is taken for granted of them stands in `collections`, `frames`, `generator`,
`naive_coordinator` and `clock`.
Proof functions named `law_*` state what holds across several operations.
