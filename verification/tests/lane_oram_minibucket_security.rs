//! The simulator for lanes of minibuckets and its path schedules.

use oram::circuit_oram::{Block, CircuitORAM, S as CIRCUIT_STASH_SIZE, Z as CIRCUIT_Y};
use oram::minibucket_args::{Args, EvictionPolicy};
use oram::minibucket_run;
use oram::minibucket_sim::MinibucketLaneSimulator;
use oram::path_schedules::{
    deterministic_path_group, one_deterministic_path, paper_deterministic_paths,
    radix_deterministic_paths, rate_deterministic_paths, reverse_path_bits,
};
use oram::stash_index::EMPTY_KEY;
use oram::stash_samples::Measured;

fn position(operation: usize, key: usize, n: usize) -> u32 {
    operation.wrapping_mul(0x9e37_79b1).wrapping_add(key.wrapping_mul(0x85eb_ca77)).rotate_left(13)
        as u32
        & (n as u32 - 1)
}

#[test]
fn random_like_updates_conserve_every_block() {
    const N: usize = 64;
    let mut simulator = MinibucketLaneSimulator::new(N, 3, 2, 2, N + 1);
    let mut positions = [0u32; N];
    for key in 0..N {
        positions[key] = position(0, key, N);
        let new_pos = position(1, key, N);
        let result = simulator.update(positions[key], new_pos, key as u32);
        assert!(!result.found && !result.overflowed);
        positions[key] = new_pos;
        assert_eq!(simulator.block_count(), key + 1);
    }
    for operation in 0..50_000 {
        let key = operation & (N - 1);
        let new_pos = position(operation + 2, key, N);
        let result = simulator.update(positions[key], new_pos, key as u32);
        assert!(result.found && !result.overflowed);
        positions[key] = new_pos;
        assert_eq!(simulator.block_count(), N);
    }
}

#[test]
fn random_queue_updates_conserve_every_block() {
    let n = 256;
    let mut simulator = MinibucketLaneSimulator::new(n, 3, 1, 2, n + 1).with_random_queues();
    let mut positions = vec![0; n];
    for operation in 0..50_000 {
        let key = operation % n;
        let new_pos = position(operation, key, n);
        let queue = position(operation + 17, key + 3, n) as usize % 3;
        let result = simulator.update_in_queue(positions[key], new_pos, key as u32, queue);
        assert_eq!(result.found, operation >= n);
        assert!(!result.overflowed);
        positions[key] = new_pos;
        assert_eq!(simulator.block_count(), n.min(operation + 1));
    }
}

#[test]
fn pooled_chains_conserve_every_block() {
    let n = 256;
    let mut simulator = MinibucketLaneSimulator::new(n, 3, 2, 2, n + 1)
        .with_eviction_strategy(EvictionPolicy::Pooled, 3);
    let mut positions = vec![0; n];
    for operation in 0..20_000 {
        let key = operation % n;
        let new_pos = position(operation, key, n);
        let result = simulator.update(positions[key], new_pos, key as u32);
        assert_eq!(result.found, operation >= n);
        assert!(!result.overflowed);
        positions[key] = new_pos;
        assert_eq!(simulator.block_count(), n.min(operation + 1));
    }
}

#[test]
fn background_path_schedules_conserve_every_block() {
    let n = 256;
    for paper_random in [false, true] {
        let mut simulator = MinibucketLaneSimulator::new(n, 1, 3, 2, n + 1);
        let mut positions = vec![0; n];
        for operation in 0..20_000 {
            let key = operation % n;
            let new_pos = position(operation, key, n);
            let background = if paper_random {
                [
                    position(operation + 31, key + 11, n) & (n as u32 / 2 - 1),
                    (n as u32 / 2) | (position(operation + 37, key + 13, n) & (n as u32 / 2 - 1)),
                ]
            } else {
                [position(operation + 31, key + 11, n), 0]
            };
            let paths = if paper_random { &background[..] } else { &background[..1] };
            let result = simulator.update_with_schedule(
                positions[key],
                new_pos,
                key as u32,
                0,
                !paper_random,
                paths,
            );
            assert_eq!(result.found, operation >= n);
            assert!(!result.overflowed);
            positions[key] = new_pos;
            assert_eq!(simulator.block_count(), n.min(operation + 1));
        }
    }
}

#[test]
fn paper_deterministic_pairs_partition_the_leaves() {
    let n = 256;
    let mut seen = vec![false; n];
    for timestep in 0..n / 2 {
        let [left, right] = paper_deterministic_paths(timestep as u64, n);
        assert!((left as usize) < n / 2);
        assert!((right as usize) >= n / 2);
        assert!(!seen[left as usize]);
        assert!(!seen[right as usize]);
        seen[left as usize] = true;
        seen[right as usize] = true;
    }
    assert!(seen.into_iter().all(|visited| visited));
}

#[test]
fn one_deterministic_path_cycles_all_leaves() {
    let n: usize = 256;
    for b in [2, 4] {
        let mut seen = vec![false; n];
        for timestep in 0..n {
            let path = one_deterministic_path(timestep as u64, n, b) as usize;
            if b == 2 {
                assert_eq!(path as u32, reverse_path_bits(timestep, n.trailing_zeros()));
            }
            assert!(!seen[path]);
            seen[path] = true;
        }
        assert!(seen.into_iter().all(|visited| visited));
    }
}

#[test]
fn radix_deterministic_groups_partition_the_leaves() {
    let n = 256;
    for b in [2, 4] {
        let mut seen = vec![false; n];
        let mut paths = Vec::with_capacity(b);
        for timestep in 0..n / b {
            radix_deterministic_paths(timestep as u64, n, b, &mut paths);
            assert_eq!(paths.len(), b);
            if b == 2 {
                assert_eq!(paths.as_slice(), &paper_deterministic_paths(timestep as u64, n));
            }
            for (root_digit, &path) in paths.iter().enumerate() {
                assert_eq!(path as usize / (n / b), root_digit);
                assert!(!seen[path as usize]);
                seen[path as usize] = true;
            }
        }
        assert!(seen.into_iter().all(|visited| visited));
    }
}

#[test]
fn quaternary_two_path_groups_cycle_all_leaves() {
    let n = 256;
    let mut seen = vec![false; n];
    let mut paths = Vec::with_capacity(2);
    for timestep in 0..n / 2 {
        deterministic_path_group(timestep as u64, n, 4, 2, &mut paths);
        assert_eq!(paths.len(), 2);
        let first_root = timestep % 2 * 2;
        for (offset, &path) in paths.iter().enumerate() {
            assert_eq!(path as usize / (n / 4), first_root + offset);
            assert!(!seen[path as usize]);
            seen[path as usize] = true;
        }
    }
    assert!(seen.into_iter().all(|visited| visited));
}

#[test]
fn fractional_rates_emit_the_gap_free_leaf_sequence() {
    let n = 256;
    for (numerator, denominator, pattern) in
        [(1, 2, &[0usize, 1][..]), (2, 3, &[0usize, 1, 1][..]), (3, 2, &[1usize, 2][..])]
    {
        let mut sequence = 0usize;
        let mut timestep = 0u64;
        let mut seen = vec![false; n];
        let mut paths = Vec::new();
        while sequence < n {
            rate_deterministic_paths(timestep, n, 4, numerator, denominator, &mut paths);
            assert_eq!(paths.len(), pattern[timestep as usize % pattern.len()]);
            for &path in &paths {
                assert_eq!(path, one_deterministic_path(sequence as u64, n, 4));
                assert!(!seen[path as usize]);
                seen[path as usize] = true;
                sequence += 1;
            }
            timestep += 1;
        }
        assert!(seen.into_iter().all(|visited| visited));
    }
}

#[test]
fn accessed_plus_one_deterministic_path_conserves_every_block() {
    let n = 256;
    let mut simulator = MinibucketLaneSimulator::new(n, 2, 3, 2, n + 1);
    let mut positions = vec![0; n];
    for operation in 0..20_000 {
        let key = operation % n;
        let new_pos = position(operation, key, n);
        let path = one_deterministic_path(operation as u64, n, 2);
        let result =
            simulator.update_with_schedule(positions[key], new_pos, key as u32, 0, true, &[path]);
        assert_eq!(result.found, operation >= n);
        assert!(!result.overflowed);
        positions[key] = new_pos;
        assert_eq!(simulator.block_count(), n.min(operation + 1));
    }
}

#[test]
fn paper_deterministic_schedules_conserve_every_block() {
    let n = 256;
    for evict_accessed in [false, true] {
        let mut simulator = MinibucketLaneSimulator::new(n, 1, 2, 2, n + 1);
        let mut positions = vec![0; n];
        for operation in 0..20_000 {
            let key = operation % n;
            let new_pos = position(operation, key, n);
            let paths = paper_deterministic_paths(operation as u64, n);
            let result = simulator.update_with_schedule(
                positions[key],
                new_pos,
                key as u32,
                0,
                evict_accessed,
                &paths,
            );
            assert_eq!(result.found, operation >= n);
            assert!(!result.overflowed);
            positions[key] = new_pos;
            assert_eq!(simulator.block_count(), n.min(operation + 1));
        }
    }
}

#[test]
fn quaternary_grouped_deterministic_schedules_conserve_every_block() {
    let n = 256;
    for count in [2, 4] {
        let mut simulator = MinibucketLaneSimulator::new(n, 3, 1, 4, n + 1);
        let mut positions = vec![0; n];
        let mut paths = Vec::with_capacity(count);
        for operation in 0..20_000 {
            let key = operation % n;
            let new_pos = position(operation, key, n);
            deterministic_path_group(operation as u64, n, 4, count, &mut paths);
            let result =
                simulator.update_with_schedule(positions[key], new_pos, key as u32, 0, true, &paths);
            assert_eq!(result.found, operation >= n);
            assert!(!result.overflowed);
            positions[key] = new_pos;
            assert_eq!(simulator.block_count(), n.min(operation + 1));
        }
    }
}

#[test]
fn quaternary_fractional_schedules_conserve_every_block() {
    let n = 256;
    for (numerator, denominator) in [(1, 2), (2, 3), (3, 2)] {
        let mut simulator = MinibucketLaneSimulator::new(n, 3, 2, 4, n + 1);
        let mut positions = vec![0; n];
        let mut paths = Vec::new();
        for operation in 0..20_000 {
            let key = operation % n;
            let new_pos = position(operation, key, n);
            rate_deterministic_paths(operation as u64, n, 4, numerator, denominator, &mut paths);
            let result =
                simulator.update_with_schedule(positions[key], new_pos, key as u32, 0, true, &paths);
            assert_eq!(result.found, operation >= n);
            assert!(!result.overflowed);
            positions[key] = new_pos;
            assert_eq!(simulator.block_count(), n.min(operation + 1));
        }
    }
}

fn reverse_low_bits(mut value: u32, bits: usize) -> u32 {
    let mut result = 0;
    for _ in 0..bits {
        result = (result << 1) | (value & 1);
        value >>= 1;
    }
    result
}

#[test]
fn one_minibucket_lane_matches_circuit_evict_once() {
    const N: usize = 8;
    const L: usize = 3;
    assert_eq!(CIRCUIT_Y, 2);

    let mut simulator = MinibucketLaneSimulator::new(N, 1, CIRCUIT_Y, 2, CIRCUIT_STASH_SIZE);
    // On path 000 these labels have unique legal depths 3, 2, 1, and 0.
    let labels = [0u32, 1, 3, 7];
    for (key, &label) in labels.iter().enumerate() {
        simulator.labels[key] = label;
        simulator.initialized[key] = true;
    }
    simulator.stashes[0].insert(labels[3], 3);
    let root = simulator.path_index(0, 0, 0);
    let level1 = simulator.path_index(1, 0, 0);
    let level2 = simulator.path_index(2, 0, 0);
    simulator.path[root] = 2;
    simulator.path[level1] = 1;
    simulator.path[level2] = 0;

    let mut circuit = CircuitORAM::<u64>::new(N);
    circuit.stash[0] = Block { pos: reverse_low_bits(labels[3], L), key: 3, value: 0 };
    circuit.stash[CIRCUIT_STASH_SIZE] =
        Block { pos: reverse_low_bits(labels[2], L), key: 2, value: 0 };
    circuit.stash[CIRCUIT_STASH_SIZE + CIRCUIT_Y] =
        Block { pos: reverse_low_bits(labels[1], L), key: 1, value: 0 };
    circuit.stash[CIRCUIT_STASH_SIZE + 2 * CIRCUIT_Y] =
        Block { pos: reverse_low_bits(labels[0], L), key: 0, value: 0 };

    simulator.evict_lane(0, 0);
    circuit.evict_once_fast(0);

    let simulator_stash: Vec<_> = labels
        .iter()
        .enumerate()
        .filter_map(|(key, &label)| {
            simulator.stashes[0].contains(label, key as u32).then_some(key as u32)
        })
        .collect();
    let circuit_stash: Vec<_> = circuit.stash[..CIRCUIT_STASH_SIZE]
        .iter()
        .filter(|block| !block.is_empty())
        .map(|block| block.key as u32)
        .collect();
    assert_eq!(simulator_stash, circuit_stash);

    for level in 0..simulator.height {
        let mut simulated: Vec<_> = (0..CIRCUIT_Y)
            .map(|slot| simulator.path[simulator.path_index(level, 0, slot)])
            .filter(|&key| key != EMPTY_KEY)
            .collect();
        let mut actual: Vec<_> = circuit.stash[CIRCUIT_STASH_SIZE + level * CIRCUIT_Y
            ..CIRCUIT_STASH_SIZE + (level + 1) * CIRCUIT_Y]
            .iter()
            .filter(|block| !block.is_empty())
            .map(|block| block.key as u32)
            .collect();
        simulated.sort_unstable();
        actual.sort_unstable();
        assert_eq!(simulated, actual, "level {level}");
    }
}

#[test]
fn each_lane_carries_at_most_one_root_block() {
    let mut simulator = MinibucketLaneSimulator::new(4, 2, 2, 2, 8);
    simulator.labels[0] = 0;
    simulator.labels[1] = 0;
    simulator.labels[2] = 0;
    simulator.labels[3] = 0;
    for key in 0..4 {
        simulator.initialized[key] = true;
    }
    // Two compatible root blocks in lane zero and empty descendants.
    let root0 = simulator.path_index(0, 0, 0);
    let root1 = simulator.path_index(0, 0, 1);
    simulator.path[root0] = 0;
    simulator.path[root1] = 1;
    simulator.evict_lane(0, 0);

    let root_keys = (0..2)
        .map(|slot| simulator.path[simulator.path_index(0, 0, slot)])
        .filter(|&key| key != EMPTY_KEY)
        .count();
    assert_eq!(root_keys, 1, "one Circuit chain must clear exactly one root source");
}

#[test]
fn separate_lanes_can_carry_one_chain_each() {
    let mut simulator = MinibucketLaneSimulator::new(4, 2, 2, 2, 8);
    simulator.labels[0] = 0;
    simulator.labels[1] = 0;
    simulator.initialized[0] = true;
    simulator.initialized[1] = true;
    let lane0 = simulator.path_index(0, 0, 0);
    let lane1 = simulator.path_index(0, 1, 0);
    simulator.path[lane0] = 0;
    simulator.path[lane1] = 1;
    simulator.evict_lane(0, 0);
    simulator.evict_lane(0, 1);
    assert_eq!(simulator.path[lane0], EMPTY_KEY);
    assert_eq!(simulator.path[lane1], EMPTY_KEY);
}

#[test]
fn the_deepest_and_then_lowest_block_leaves_the_stash() {
    let mut simulator = MinibucketLaneSimulator::new(4, 1, 1, 2, 8);
    simulator.labels[1] = 2;
    simulator.labels[2] = 0;
    simulator.labels[3] = 0;
    simulator.stashes[0].insert(2, 1);
    simulator.stashes[0].insert(0, 2);
    simulator.stashes[0].insert(0, 3);
    simulator.evict_lane(0, 0);
    let leaf = simulator.path_index(2, 0, 0);
    assert_eq!(simulator.path[leaf], 2);
    assert_eq!(simulator.stash_len(), 2);
    assert!(simulator.stashes[0].contains(0, 3));
    assert_eq!(simulator.stashes[0].minimum_key(0, 4), Some(1));
    assert_eq!(simulator.stashes[0].minimum_key(0, 2), Some(3));
    assert_eq!(simulator.stashes[0].minimum_key(3, 4), None);
}

#[test]
fn a_full_stash_is_reported() {
    let mut simulator = MinibucketLaneSimulator::new(2, 1, 1, 2, 1);
    let first = simulator.update(0, 0, 0);
    assert!(!first.overflowed);
    assert_eq!(first.insertion_demand, 1);
    assert_eq!(first.stash_after, 0);
    let mut stuck = MinibucketLaneSimulator::new(2, 1, 1, 2, 1);
    let result = stuck.update_with_schedule(0, 1, 0, 0, false, &[]);
    assert!(!result.overflowed);
    assert_eq!(result.stash_after, 1);
    let result = stuck.update_with_schedule(0, 1, 1, 0, false, &[]);
    assert!(result.overflowed);
    assert_eq!(result.insertion_demand, 2);
}

#[test]
fn a_run_of_the_experiment_adds_up_its_epochs() {
    let texts: Vec<String> = [
        "--n", "64", "--z", "2", "--y", "2", "--operations", "300", "--workload", "uniform",
        "--queue-policy", "random", "--path-schedule", "access-plus-two-deterministic",
    ].iter().map(|text| text.to_string()).collect();
    let args = Args::parse(&texts).expect("arguments");
    let mut run = minibucket_run::start(&args).expect("random words").expect("a small tree");
    assert!(run.simulator.random_queues);
    run.fill().expect("random words");
    run.warm_up(args.workload, 40).expect("random words");
    let mut all = Measured::new();
    for epoch in 0..3 {
        let measured =
            run.measure(args.workload, 40 + epoch * 100, 100, &mut all).expect("random words");
        assert_eq!((measured.post.count, measured.demand.count), (100, 100));
    }
    assert_eq!((all.post.count, all.demand.count), (300, 300));
    assert!(all.demand.maximum <= 65);
    assert_eq!(run.eviction_counter, 404);
    assert_eq!(run.simulator.block_count(), 64);
}

#[test]
fn timesteps_of_a_rate_follow_the_leaves_and_every_round_visits_each_once() {
    for (numerator, denominator) in [(1, 3), (5, 2), (4, 1)] {
        let mut all = Vec::new();
        for timestep in 0..60u64 {
            let mut paths = vec![99];
            rate_deterministic_paths(timestep, 16, 4, numerator, denominator, &mut paths);
            all.extend(paths);
        }
        assert_eq!(all.len(), 60 * numerator / denominator);
        for (i, &path) in all.iter().enumerate() {
            assert_eq!(path, one_deterministic_path(i as u64, 16, 4));
        }
        for round in all.windows(16) {
            let mut seen = round.to_vec();
            seen.sort_unstable();
            assert_eq!(seen, (0..16).collect::<Vec<u32>>());
        }
    }
}
