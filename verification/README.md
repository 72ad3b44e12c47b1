# oram

Tree-based oblivious RAMs, written in Verus and proved correct.

`src/` is the verified library:

- `heap_tree`, `wide_heap_tree`: complete trees in arrays, binary and wider.
- `circuit`: one eviction pass of Circuit ORAM over a path; `tally`, `suffix`, `path_store`,
  `path_access`, `pooled` and `pooled_store` hold the theory of what a stash and a tree store and what
  an access does to them.
- `circuit_oram`, `optimized_circuit_oram`, `optimized_circuit_oram_big_values`,
  `big_kv_optimized_circuit_oram`: Circuit ORAM for plain values, for blocks of fixed size, and with
  pooled buckets.
- `bits`, `packing`, `packed_counters`, `fast_buckets`, `fast_buckets_alt`, `fast_buckets_15`: counters
  packed into cache lines; `fast_circuit_oram` is a Circuit ORAM of them, and `counter_history` proves
  that its counters count over any history of accesses.
- `lane_oram`, `lane_oram_fixed`, `test_lane_oram`: lane ORAM, where every slot of a bucket is a lane of
  its own. `test_lane_laws` proves what an insert into the last one keeps.
- `lane_oram_sim`, `minibucket_sim` and what they build on: simulators of the stash load, without
  payloads. `lane_equivalence` proves that the first one follows lane ORAM step by step, and
  `simulator_history` what it keeps over a history of calls.
- `lane_security_args`, `lane_security_run`, `minibucket_args`, `minibucket_run`, `path_schedules`,
  `stash_samples`: the stash experiments.
- `counter_oram`, `position_hash`, `fast_recursive_oram`: a recursive ORAM whose position maps are
  counters.
- `linear_oram`, `b_tree_components`, `path_static_b_tree`: a static B+ tree whose nodes live in
  oblivious RAMs.

`app/` runs the experiments from the command line and writes their tables. `tests/` runs the library.

What the library calls of outside crates stands behind small functions whose contracts are trusted: the
constant-time moves in `oblivious`, random numbers in `random` and `os_random`, number parsing in
`arguments`, the smallest key of a set in `stash_index`, the bitonic sort in `path_static_b_tree` and
SHA-256 in `position_hash`.
