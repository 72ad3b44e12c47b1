//! Oblivious RAM over binary and wide heap trees.
//!
//! The crate holds tree-based oblivious RAMs, the packed counter buckets that
//! some of them store, simulators of their stash load, and a static search tree
//! whose nodes live in an oblivious RAM.

pub mod access_laws;
pub mod argument_laws;
pub mod arguments;
pub mod b_tree_components;
pub mod big_kv_optimized_circuit_oram;
pub mod bits;
pub mod circuit;
pub mod circuit_laws;
pub mod circuit_oram;
pub mod counter_history;
pub mod counter_oram;
pub mod fast_buckets;
pub mod fast_buckets_15;
pub mod fast_buckets_alt;
pub mod fast_circuit_oram;
pub mod fast_recursive_oram;
pub mod frequency_laws;
pub mod heap_tree;
pub mod key_stash;
pub mod lane_equivalence;
pub mod lane_laws;
pub mod lane_oram;
pub mod lane_oram_fixed;
pub mod lane_oram_sim;
pub mod lane_path_laws;
pub mod lane_security_args;
pub mod lane_security_run;
pub mod lane_transition;
pub mod linear_oram;
pub mod minibucket_args;
pub mod minibucket_chain;
pub mod minibucket_laws;
pub mod minibucket_progress;
pub mod minibucket_run;
pub mod minibucket_sim;
pub mod minibucket_store;
pub mod oblivious;
pub mod optimized_circuit_oram;
pub mod optimized_circuit_oram_big_values;
pub mod os_random;
pub mod packed_counters;
pub mod packing;
pub mod path_access;
pub mod path_laws;
pub mod path_schedules;
pub mod path_static_b_tree;
pub mod path_store;
pub mod pooled;
pub mod pooled_laws;
pub mod pooled_store;
pub mod position_hash;
pub mod prelude;
pub mod random;
pub mod recursive_laws;
pub mod run_laws;
pub mod schedule_laws;
pub mod simulator_history;
pub mod simulator_progress;
pub mod stash_index;
pub mod stash_samples;
pub mod suffix;
pub mod tally;
pub mod test_lane_laws;
pub mod test_lane_oram;
pub mod test_lane_progress;
pub mod wide_heap_tree;
