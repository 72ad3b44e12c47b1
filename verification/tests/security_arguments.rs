//! Arguments, random words and samples of the stash experiments.

use oram::arguments::{ArgumentError, Refusal};
use oram::lane_security_args;
use oram::minibucket_args::{Args, EvictionPolicy, PathSchedule, QueuePolicy, Workload};
use oram::minibucket_run::{background_paths, perform_update};
use oram::minibucket_sim::MinibucketLaneSimulator;
use oram::os_random::{OsRandomWords, RandomSourceFailed, OS_RANDOM_BATCH_WORDS};
use oram::stash_samples::StashSamples;

fn words(text: &str) -> Vec<String> {
    text.split_whitespace().map(|word| word.to_owned()).collect()
}

fn refused(text: &str) -> Refusal {
    match Args::parse(&words(text)) {
        Err(ArgumentError::Refused(rule)) => rule,
        other => panic!("{other:?}"),
    }
}

#[test]
fn no_arguments_give_the_defaults() {
    let args = Args::parse(&Vec::new()).unwrap();
    assert_eq!((args.n, args.b, args.z, args.y), (1 << 12, 2, 2, 2));
    assert_eq!((args.warmup, args.operations), (1 << 22, 1 << 24));
    assert_eq!(args.workload, Workload::Cycle);
    assert_eq!(args.queue_policy, QueuePolicy::Shared);
    assert_eq!(args.eviction_policy, EvictionPolicy::Fixed);
    assert_eq!(args.path_schedule, PathSchedule::Same);
    assert_eq!(args.output, "lane_oram_minibucket_security.csv");
    assert_eq!(args.epoch_output, "");
}

#[test]
fn every_argument_is_taken() {
    let args = Args::parse(&words(
        "--n 64 --b 4 --z 3 --y +5 --warmup 7 --operations 8 --workload uniform \
         --queue-policy random --eviction-policy fixed --eviction-chains 2 \
         --path-schedule access-plus-rate-deterministic --deterministic-numerator 3 \
         --deterministic-denominator 2 --epoch-operations 4 --epoch-output e.csv --output o.csv",
    ))
    .unwrap();
    assert_eq!((args.n, args.b, args.z, args.y), (64, 4, 3, 5));
    assert_eq!((args.warmup, args.operations, args.epoch_operations), (7, 8, 4));
    assert_eq!(args.workload, Workload::Uniform);
    assert_eq!(args.queue_policy, QueuePolicy::Random);
    assert_eq!(args.eviction_chains, 2);
    assert_eq!(args.path_schedule, PathSchedule::AccessPlusRateDeterministic);
    assert_eq!((args.deterministic_numerator, args.deterministic_denominator), (3, 2));
    assert_eq!((args.epoch_output.as_str(), args.output.as_str()), ("e.csv", "o.csv"));
}

#[test]
fn bad_arguments_are_named() {
    assert!(matches!(Args::parse(&words("--n")),
        Err(ArgumentError::MissingValue(name)) if name == "--n"));
    assert!(matches!(Args::parse(&words("--m 3")),
        Err(ArgumentError::UnknownArgument(name)) if name == "--m"));
    for number in ["-1", "", " 1", "1_000", "+", "0x10", "99999999999999999999999"] {
        let arguments = vec!["--n".to_owned(), number.to_owned()];
        assert!(matches!(Args::parse(&arguments),
            Err(ArgumentError::InvalidNumber(value, _)) if value == number));
    }
    assert!(matches!(Args::parse(&words("--workload none")),
        Err(ArgumentError::UnknownWorkload(name)) if name == "none"));
    assert!(matches!(Args::parse(&words("--queue-policy none")),
        Err(ArgumentError::UnknownQueuePolicy(name)) if name == "none"));
    assert!(matches!(Args::parse(&words("--eviction-policy none")),
        Err(ArgumentError::UnknownEvictionPolicy(name)) if name == "none"));
    assert!(matches!(Args::parse(&words("--path-schedule none")),
        Err(ArgumentError::UnknownPathSchedule(name)) if name == "none"));
}

#[test]
fn values_that_do_not_go_together_are_refused() {
    assert_eq!(refused("--n 12"), Refusal::Sizes);
    assert_eq!(refused("--y 0"), Refusal::Sizes);
    assert_eq!(refused("--eviction-policy pooled --queue-policy random"), Refusal::PooledQueues);
    assert_eq!(refused("--b 3"), Refusal::BranchingFactor);
    assert_eq!(refused("--b 1"), Refusal::BranchingFactor);
    assert_eq!(refused("--b 4 --path-schedule paper-random"), Refusal::PaperSchedule);
    assert_eq!(
        refused("--n 1 --path-schedule access-plus-two-deterministic"),
        Refusal::DeterministicSchedule
    );
    assert_eq!(
        refused("--path-schedule access-plus-rate-deterministic --deterministic-numerator 0"),
        Refusal::ZeroRate
    );
    assert_eq!(refused("--epoch-output e.csv"), Refusal::EpochOutput);
    assert_eq!(refused("--epoch-operations 3 --epoch-output e.csv"), Refusal::EpochSize);
    assert_eq!(refused("--epoch-operations 4"), Refusal::EpochSize);
    assert_eq!(refused("--n 32 --b 4"), Refusal::ExactPower);
}

#[test]
fn schedule_names_round_trip() {
    for schedule in [
        PathSchedule::Same,
        PathSchedule::AccessPlusUniform,
        PathSchedule::PaperRandom,
        PathSchedule::PaperDeterministic,
        PathSchedule::AccessPlusOneDeterministic,
        PathSchedule::AccessPlusTwoDeterministic,
        PathSchedule::AccessPlusRateDeterministic,
        PathSchedule::AccessPlusPaperDeterministic,
        PathSchedule::AccessPlusRadixDeterministic,
    ] {
        assert_eq!(PathSchedule::from_str(&schedule.name().to_owned()).unwrap(), schedule);
    }
    assert_eq!(PathSchedule::PaperRandom.name(), "paper-random");
}

#[test]
fn lane_arguments_are_checked() {
    let args = lane_security_args::Args::parse(&Vec::new()).unwrap();
    assert_eq!((args.n, args.b, args.z), (1 << 12, 2, 3));
    assert_eq!((args.warmup, args.operations), (1 << 24, 1 << 28));
    assert_eq!(args.output, "lane_oram_security.csv");
    let rule = |text: &str| match lane_security_args::Args::parse(&words(text)) {
        Err(ArgumentError::Refused(rule)) => rule,
        other => panic!("{other:?}"),
    };
    assert_eq!(rule("--n 12"), Refusal::KeyCount);
    assert_eq!(rule("--b 6"), Refusal::BranchingFactor);
    assert_eq!(rule("--z 0"), Refusal::ZeroCount);
    assert_eq!(rule("--b 8 --n 4096 --deterministic-denominator 0"), Refusal::ZeroCount);
    assert_eq!(rule("--b 8 --n 2048"), Refusal::ExactPower);
}

#[test]
fn lane_workloads_pick_keys() {
    type W = lane_security_args::Workload;
    assert_eq!(W::Cycle.pick(19, 16, 0), 3);
    assert_eq!(W::Reverse.pick(19, 16, 0), 12);
    assert_eq!(W::Affine.pick(3, 1 << 20, 0), 3usize.wrapping_mul(0x9e37_79b1) & ((1 << 20) - 1));
    assert_eq!(W::BitReverse.pick(1, 16, 0), 8);
    assert_eq!(W::Uniform.pick(0, 16, 21), 5);
    assert_eq!(W::Hot16.pick(0, 256, 37), 5);
    assert_eq!(W::Hot16.pick(0, 4, 7), 3);
    assert_eq!(W::Same.pick(7, 16, 9), 0);
    for workload in [W::Cycle, W::Reverse, W::Affine, W::BitReverse, W::Uniform, W::Hot16, W::Same] {
        assert_eq!(W::from_str(&workload.name().to_owned()).unwrap(), workload);
    }
    let mut random = OsRandomWords::new().unwrap();
    for operation in 0..100 {
        assert!(W::Hot16.key(operation, 64, &mut random).unwrap() < 16);
        assert_eq!(W::Cycle.key(operation, 64, &mut random).unwrap(), operation as usize % 64);
    }
    assert!(Workload::Uniform.key(3, 8, &mut random).unwrap() < 8);
    assert_eq!(Workload::Cycle.key(11, 8, &mut random).unwrap(), 3);
}

#[test]
fn random_words_differ() {
    let mut random = OsRandomWords::new().unwrap();
    let first = random.next_usize().unwrap();
    let mut differs = false;
    for _ in 0..OS_RANDOM_BATCH_WORDS + 10 {
        differs |= random.next_usize().unwrap() != first;
    }
    assert!(differs);
}

#[test]
fn random_accesses_conserve_every_block() {
    let n = 64;
    let mut simulator = MinibucketLaneSimulator::new(n, 2, 2, 2, n + 1);
    let mut positions = vec![0u32; n];
    let mut random = OsRandomWords::new().unwrap();
    let mut queue_random = OsRandomWords::new().unwrap();
    let mut eviction_random = OsRandomWords::new().unwrap();
    let mut counter = 0;
    let mut paths = Vec::new();
    for operation in 0..2000 {
        let key = operation % n;
        let result = perform_update(
            &mut simulator,
            &mut positions,
            key,
            &mut random,
            &mut queue_random,
            &mut eviction_random,
            &mut counter,
            PathSchedule::PaperRandom,
            2,
            1,
            1,
            &mut paths,
        )
        .unwrap();
        assert_eq!(result.found, operation >= n);
        assert!(!result.overflowed);
        assert_eq!(paths.len(), 2);
        assert!((paths[0] as usize) < n / 2 && (paths[1] as usize) >= n / 2);
        assert_eq!(simulator.labels[key], positions[key]);
        assert_eq!(simulator.block_count(), n.min(operation + 1));
    }
    assert_eq!(counter, 0);
}

#[test]
fn schedules_name_their_paths() {
    let mut paths = Vec::new();
    let mut counter = 1;
    background_paths(PathSchedule::AccessPlusOneDeterministic, &mut counter, 8, 2, 1, 1, 0, 0, &mut paths);
    assert_eq!(paths, [4]);
    assert_eq!(counter, 2);
    background_paths(PathSchedule::AccessPlusUniform, &mut counter, 8, 2, 1, 1, 13, 0, &mut paths);
    assert_eq!(paths, [5]);
    assert_eq!(counter, 2);
    background_paths(PathSchedule::PaperRandom, &mut counter, 8, 2, 1, 1, 5, 6, &mut paths);
    assert_eq!(paths, [1, 6]);
    background_paths(PathSchedule::AccessPlusRateDeterministic, &mut counter, 8, 2, 3, 2, 0, 0, &mut paths);
    assert_eq!(paths, [6]);
    background_paths(PathSchedule::Same, &mut counter, 8, 2, 1, 1, 0, 0, &mut paths);
    assert!(paths.is_empty());
    counter = u64::MAX;
    background_paths(PathSchedule::PaperDeterministic, &mut counter, 8, 2, 1, 1, 0, 0, &mut paths);
    assert_eq!(paths, [3, 7]);
    assert_eq!(counter, 0);
}

#[test]
fn samples_count_what_exceeds_each_size() {
    let mut samples = StashSamples::new();
    for value in [3, 1, 4, 1, 5] {
        samples.record(value);
    }
    assert_eq!((samples.minimum, samples.maximum, samples.sum, samples.count), (1, 5, 14, 5));
    assert_eq!(samples.exceed_counts(), [5, 3, 3, 2, 1, 0]);
}

#[test]
fn an_outcome_decides_which_words_wait() {
    let mut random = OsRandomWords::new().unwrap();
    let words: Vec<usize> = (0..5).map(|_| random.next_usize().unwrap()).collect();
    assert_eq!(random.settle(Ok(())), Ok(()));
    for word in &words[..2] {
        assert_eq!(random.next_usize().unwrap(), *word);
    }
    assert_eq!(random.settle(Err(getrandom::Error::UNSUPPORTED)), Err(RandomSourceFailed));
    for word in &words[2..] {
        assert_eq!(random.next_usize().unwrap(), *word);
    }
}

#[test]
fn waiting_words_name_the_new_leaf_and_the_paths() {
    let mut sources: Vec<OsRandomWords> = (0..3).map(|_| OsRandomWords::new().unwrap()).collect();
    let word = sources[0].next_usize().unwrap();
    let (first, second) = (sources[2].next_usize().unwrap(), sources[2].next_usize().unwrap());
    for source in &mut sources {
        source.settle(Ok(())).unwrap();
    }
    let (mut eviction_random, mut queue_random) = (sources.pop().unwrap(), sources.pop().unwrap());
    let mut random = sources.pop().unwrap();
    let mut simulator = MinibucketLaneSimulator::new(64, 2, 2, 2, 65);
    let mut positions = vec![0u32; 64];
    let (mut counter, mut paths) = (7, Vec::new());
    let result = perform_update(
        &mut simulator,
        &mut positions,
        5,
        &mut random,
        &mut queue_random,
        &mut eviction_random,
        &mut counter,
        PathSchedule::PaperRandom,
        2,
        1,
        1,
        &mut paths,
    )
    .unwrap();
    assert!(!result.found);
    assert_eq!(positions[5] as usize, word % 64);
    assert_eq!(paths, [(first % 32) as u32, (32 + second % 32) as u32]);
    assert_eq!(counter, 7);
}
