//! The lane ORAM simulator against lane ORAM.

use oram::lane_oram::{Block32, LaneORAM};
use oram::lane_oram_sim::LaneOramSimulator;
use oram::{lane_security_args, lane_security_run};
use oram::os_random::OsRandomWords;
use oram::stash_index::EMPTY_KEY;

fn os_random_position(n: usize) -> u32 {
    (getrandom::u32().expect("the operating system random source failed") as usize & (n - 1))
        as u32
}

fn compare_configuration<const Z: usize, const B: usize>(n: usize) {
    const S: usize = 128;
    let mut real = LaneORAM::<Z, S, B>::new(n);
    let mut simulated = LaneOramSimulator::new(n, Z, B, S);
    let mut positions: Vec<u32> = (0..n).map(|_| os_random_position(n)).collect();

    for operation in 0..5_000usize {
        let key = if operation < n { operation } else { operation.wrapping_mul(17) & (n - 1) };
        let old_pos = positions[key];
        let new_pos = os_random_position(n);
        let (real_found, ()) = real.update(old_pos, new_pos, key as u32, |_| ());
        let simulated_result = simulated.update(old_pos, new_pos, key as u32);
        assert!(!simulated_result.overflowed);
        assert_eq!(real_found, simulated_result.found);
        positions[key] = new_pos;

        if operation % 97 == 0 {
            for (slot, block) in real.stash_and_path[..S].iter().enumerate() {
                let simulated_key = simulated.stash_keys()[slot];
                if block.is_empty() {
                    assert_eq!(simulated_key, EMPTY_KEY);
                } else {
                    assert_eq!(block.key, simulated_key);
                    assert_eq!(block.pos, simulated.label(simulated_key as usize));
                }
            }

            let mut real_path = vec![Block32::default(); real.h * Z];
            let mut simulated_path = vec![EMPTY_KEY; real.h * Z];
            for path in 0..n as u32 {
                real.tree.read_path(path, &mut real_path, 0, Z);
                simulated.read_path_keys(path, &mut simulated_path);
                for (block, &simulated_key) in real_path.iter().zip(&simulated_path) {
                    if block.is_empty() {
                        assert_eq!(simulated_key, EMPTY_KEY);
                    } else {
                        assert_eq!(block.key, simulated_key);
                        assert_eq!(block.pos, simulated.label(simulated_key as usize));
                    }
                }
            }
        }
    }
}

#[test]
fn simulator_matches_lane_oram_requested_configurations() {
    compare_configuration::<3, 2>(64);
    compare_configuration::<5, 4>(64);
    compare_configuration::<6, 4>(64);
    compare_configuration::<9, 8>(64);
    compare_configuration::<10, 8>(64);
}

fn keys_in_tree(simulated: &LaneOramSimulator) -> usize {
    simulated.tree.iter().filter(|&&key| key != EMPTY_KEY).count()
}

#[test]
fn background_paths_conserve_every_block() {
    const N: usize = 64;
    let mut simulated = LaneOramSimulator::new(N, 4, 2, N + 1);
    let mut positions = [0u32; N];

    for operation in 0..20_000usize {
        let key = operation & (N - 1);
        let old_pos = positions[key];
        let new_pos = os_random_position(N);
        let background = [(((operation / 2) & (N - 1)).reverse_bits()
            >> (usize::BITS - N.trailing_zeros())) as u32];
        let result = simulated.update_with_background_paths(
            old_pos,
            new_pos,
            key as u32,
            if operation & 1 == 0 { &[] } else { &background },
        );
        assert_eq!(result.found, operation >= N);
        assert!(!result.overflowed);
        positions[key] = new_pos;
        let blocks = simulated.stash_len() + keys_in_tree(&simulated);
        assert_eq!(blocks, N.min(operation + 1));
    }
}

#[test]
fn the_simulator_reports_what_the_stash_cannot_take() {
    const N: usize = 64;
    const S: usize = 1;
    let mut real = LaneORAM::<1, S, 2>::new(N);
    let mut simulated = LaneOramSimulator::new(N, 1, 2, S);

    for key in 0..N as u32 {
        let room = real.stash_and_path[..S].iter().any(|block| block.is_empty());
        let stash = simulated.stash_keys().to_vec();
        let result = simulated.update(63, 0, key);
        assert_eq!(result.overflowed, !room);
        assert_eq!(result.insertion_demand, if room { 1 } else { S + 1 });
        if result.overflowed {
            assert_eq!(result.stash_after, S);
            assert_eq!(simulated.stash_keys(), stash);
            return;
        }
        let (found, ()) = real.update(63, 0, key, |_| ());
        assert_eq!(found, result.found);
    }
    panic!("a stash of one slot never overflowed");
}

#[test]
fn an_update_moves_a_block_one_slot_down_its_path() {
    let mut simulated = LaneOramSimulator::new(4, 1, 2, 5);
    let first = simulated.update(0, 0, 3);
    assert!(!first.found && !first.overflowed);
    assert_eq!((first.insertion_demand, first.stash_after), (1, 0));
    let mut path = vec![EMPTY_KEY; 3];
    simulated.read_path_keys(0, &mut path);
    assert_eq!(path, [EMPTY_KEY, 3, EMPTY_KEY]);
    simulated.read_path_keys(3, &mut path);
    assert_eq!(path, [EMPTY_KEY; 3]);

    let second = simulated.update(0, 3, 3);
    assert!(second.found);
    simulated.read_path_keys(0, &mut path);
    assert_eq!(path, [3, EMPTY_KEY, EMPTY_KEY]);
    assert_eq!(simulated.label(3), 3);
    assert_eq!(simulated.stash_len(), 0);
}

#[test]
fn an_access_of_the_experiment_moves_the_block_and_evicts_what_is_due() {
    let mut simulated = LaneOramSimulator::new(8, 2, 2, 9);
    let mut positions = vec![5u32; 8];
    let mut counter = 0u64;
    let mut paths = Vec::new();
    let first = lane_security_run::access(
        &mut simulated, &mut positions, 2, 14, &mut counter, 2, 3, 2, &mut paths,
    );
    assert!(!first.found && !first.overflowed);
    assert_eq!(positions, [5, 5, 6, 5, 5, 5, 5, 5]);
    assert_eq!(counter, 1);
    assert_eq!(paths, [0]);
    let second = lane_security_run::access(
        &mut simulated, &mut positions, 2, 7, &mut counter, 2, 3, 2, &mut paths,
    );
    assert!(second.found);
    assert_eq!(counter, 2);
    assert_eq!(paths, [4, 2]);
    assert_eq!(simulated.label(2), 7);
}

#[test]
fn random_accesses_keep_every_block() {
    let mut simulated = LaneOramSimulator::new(16, 3, 2, 17);
    let mut positions = vec![0u32; 16];
    let mut words = OsRandomWords::new().expect("random words");
    let mut counter = u64::MAX;
    let mut paths = Vec::new();
    for operation in 0..200usize {
        let result = lane_security_run::perform_update(
            &mut simulated, &mut positions, operation & 15, &mut words, &mut counter, 2, 1, 2,
            &mut paths,
        ).expect("random words");
        assert_eq!(result.found, operation >= 16);
        assert!(!result.overflowed);
        assert_eq!(simulated.stash_len() + keys_in_tree(&simulated), 16.min(operation + 1));
        assert_eq!(simulated.label(operation & 15), positions[operation & 15]);
    }
    assert_eq!(counter, 199);
}

fn texts(arguments: &[&str]) -> Vec<String> {
    arguments.iter().map(|text| text.to_string()).collect()
}

#[test]
fn a_run_of_the_experiment_measures_every_access() {
    let args = lane_security_args::Args::parse(&texts(&[
        "--n", "64", "--b", "4", "--z", "5", "--operations", "500", "--workload", "hot16",
        "--deterministic-numerator", "1", "--deterministic-denominator", "3",
    ])).expect("arguments");
    let mut run = lane_security_run::start(&args).expect("random words").expect("a small tree");
    run.fill().expect("random words");
    assert_eq!(run.positions.len(), 64);
    run.warm_up(args.workload, 100).expect("random words");
    let measured = run.measure(args.workload, 100, args.operations).expect("random words");
    assert_eq!((measured.post.count, measured.demand.count), (500, 500));
    assert_eq!(measured.post.histogram.iter().sum::<u64>(), 500);
    assert!(measured.demand.minimum >= 1 && measured.demand.maximum <= 65);
    let above = measured.demand.exceed_counts();
    assert_eq!(above.len(), measured.demand.maximum + 1);
    assert_eq!((above[0], above[measured.demand.maximum]), (500, 0));
    assert_eq!(run.eviction_counter, 664);
    assert_eq!(run.simulator.stash_len() + keys_in_tree(&run.simulator), 64);
}

#[test]
fn a_run_that_the_machine_cannot_count_does_not_start() {
    let huge = usize::MAX.to_string();
    let args = lane_security_args::Args::parse(&texts(&["--n", "64", "--z", &huge])).expect("arguments");
    assert!(lane_security_run::start(&args).expect("random words").is_none());
}

#[test]
fn a_run_takes_its_leaves_from_the_waiting_words() {
    let mut label_random = OsRandomWords::new().expect("random words");
    let words: Vec<usize> =
        (0..40).map(|_| label_random.next_usize().expect("random words")).collect();
    label_random.settle(Ok(())).expect("a batch");
    let simulator = LaneOramSimulator::new(16, 3, 2, 17);
    let workload_random = OsRandomWords::new().expect("random words");
    let mut run =
        lane_security_run::Run::with_words(simulator, 1, 2, label_random, workload_random);
    run.fill().expect("random words");
    for key in 0..16 {
        assert_eq!(run.positions[key] as usize, words[2 * key + 1] % 16);
    }
    run.warm_up(lane_security_args::Workload::Reverse, 8).expect("random words");
    for operation in 0..8 {
        assert_eq!(run.positions[15 - operation] as usize, words[32 + operation] % 16);
    }
    assert_eq!(run.eviction_counter, 24);
}

#[test]
fn keys_on_a_path_share_their_first_digits_with_it() {
    const N: usize = 64;
    let mut simulated = LaneOramSimulator::new(N, 3, 4, N + 1);
    let mut positions = [0u32; N];
    for step in 0..500usize {
        let key = step * 7 % N;
        let new_pos = (step * 29 % N) as u32;
        simulated.update(positions[key], new_pos, key as u32);
        positions[key] = new_pos;
    }
    let levels = 4;
    let mut paths = vec![vec![EMPTY_KEY; levels * 3]; N];
    for leaf in 0..N {
        simulated.read_path_keys(leaf as u32, &mut paths[leaf]);
    }
    for leaf in 0..N {
        for (slot, &key) in paths[leaf].iter().enumerate() {
            let span = 4usize.pow((levels - 1 - slot / 3) as u32);
            if key != EMPTY_KEY {
                assert_eq!(simulated.label(key as usize) as usize / span, leaf / span);
                assert!(!simulated.stash_keys().contains(&key));
                assert_eq!(paths[leaf].iter().filter(|&&other| other == key).count(), 1);
            }
            for other in 0..N {
                if other / span == leaf / span {
                    assert_eq!(paths[other][slot], key);
                }
            }
        }
    }
}

#[test]
fn every_updated_key_is_in_one_slot_with_its_last_label() {
    const N: usize = 32;
    let mut simulated = LaneOramSimulator::new(N, 3, 2, N + 1);
    let mut last: [Option<u32>; N] = [None; N];
    for step in 0..400usize {
        let key = step * 5 % 23;
        let new_pos = (step * 19 % N) as u32;
        let stashed =
            simulated.stash_keys().iter().filter(|&&k| k != EMPTY_KEY && k != key as u32).count();
        let background = [(step * 3 % N) as u32, (step % N) as u32];
        let result = simulated.update_with_background_paths(
            last[key].unwrap_or(7),
            new_pos,
            key as u32,
            &background[..step % 3],
        );
        assert_eq!(result.found, last[key].is_some());
        assert_eq!(result.insertion_demand, 1 + stashed);
        assert!(!result.overflowed);
        assert_eq!(result.stash_after, simulated.stash_len());
        last[key] = Some(new_pos);
        for (k, label) in last.iter().enumerate() {
            let slots = simulated.tree.iter().chain(simulated.stash_keys());
            assert_eq!(slots.filter(|&&other| other == k as u32).count(), label.iter().count());
            assert_eq!(simulated.label(k), label.unwrap_or(0));
        }
    }
}
