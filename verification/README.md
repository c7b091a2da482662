# Reconciliation simulator

A simulator for multi-party set reconciliation under controlled workloads and topologies.
The library is written in Verus: what each function does is stated in its contract and
proved.

- `src/simulator/engine.rs` runs rounds until every replica holds the target union or the
  round cap is reached; `rounds.rs` proves what holds of every round and which protocols
  converge.
- `src/simulator/protocols/` holds the protocols, `network.rs` the messages and their bills.
- `src/simulator/algorithms/` holds Bloom filters, counting filters, rateless filters, the
  finite-field sketch and rateless coding.
- `src/simulator/workload.rs` makes the replica sets, `topology.rs` the graphs.
- `src/simulator/runner.rs`, `evaluation.rs` and `export.rs` plan batches and tabulate runs.
- `app/` is the command line: drawing from a Zipf distribution, files, TOML and JSON, and
  statistics in floating point.

The library trusts a few functions of `std`, `bitvec` and `rand`. They are wrapped in
`clock.rs`, `algorithms/hashing.rs`, `algorithms/bits.rs` and `algorithms/random.rs`, where
each wrapper says what it relies on.
