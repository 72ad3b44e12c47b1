//! Circuit ORAM over packed counters.

use oram::fast_buckets::Counter_Block;
use oram::fast_circuit_oram::FastCircuitCounterORAM;
use oram::prelude::PositionType;
use rand::rngs::ThreadRng;
use rand::{rng, RngCore};

fn random_position(rng: &mut ThreadRng, max_blocks: usize) -> PositionType {
    rng.next_u32() & (max_blocks as u32 - 1)
}

fn positions(oram: &FastCircuitCounterORAM) -> Vec<PositionType> {
    let mut rng = rng();
    (0..oram.max_blocks).map(|_| random_position(&mut rng, oram.max_blocks)).collect()
}

fn next_pos(_pos: PositionType, max_blocks: usize) -> PositionType {
    random_position(&mut rng(), max_blocks)
}

fn read(
    oram: &mut FastCircuitCounterORAM,
    positions: &mut [PositionType],
    prefix: usize,
    suffix: usize,
) -> u64 {
    let map_key = oram.position_map_key(prefix, suffix);
    let pos = positions[map_key];
    let new_pos = next_pos(pos, oram.max_blocks);
    let value = oram.read(pos, new_pos, prefix, suffix);
    positions[map_key] = new_pos;
    value
}

fn read_and_incr(
    oram: &mut FastCircuitCounterORAM,
    positions: &mut [PositionType],
    prefix: usize,
    suffix: usize,
) -> u64 {
    let map_key = oram.position_map_key(prefix, suffix);
    let pos = positions[map_key];
    let new_pos = next_pos(pos, oram.max_blocks);
    let value = oram.read_and_incr(pos, new_pos, prefix, suffix);
    positions[map_key] = new_pos;
    value
}

fn read_key(
    oram: &mut FastCircuitCounterORAM,
    positions: &mut [PositionType],
    key: usize,
) -> u64 {
    let map_key = oram.position_map_key_for_key(key);
    let pos = positions[map_key];
    let new_pos = next_pos(pos, oram.max_blocks);
    let value = oram.read_key(pos, new_pos, key);
    positions[map_key] = new_pos;
    value
}

fn read_key_and_incr(
    oram: &mut FastCircuitCounterORAM,
    positions: &mut [PositionType],
    key: usize,
) -> u64 {
    let map_key = oram.position_map_key_for_key(key);
    let pos = positions[map_key];
    let new_pos = next_pos(pos, oram.max_blocks);
    let value = oram.read_key_and_incr(pos, new_pos, key);
    positions[map_key] = new_pos;
    value
}

#[test]
fn reads_start_at_zero() {
    let mut oram = FastCircuitCounterORAM::new(1024);
    let mut positions = positions(&oram);

    assert_eq!(read(&mut oram, &mut positions, 0, 0), 0);
    assert_eq!(read(&mut oram, &mut positions, 0, 31), 0);
    assert_eq!(read(&mut oram, &mut positions, 1, 0), 0);
}

#[test]
fn supports_less_than_one_counter_block() {
    let mut oram = FastCircuitCounterORAM::new(8);
    let mut positions = positions(&oram);

    assert_eq!(read_and_incr(&mut oram, &mut positions, 0, 7), 0);
    assert_eq!(read(&mut oram, &mut positions, 0, 7), 1);
}

#[test]
fn read_and_incr_returns_old_value() {
    let mut oram = FastCircuitCounterORAM::new(1024);
    let mut positions = positions(&oram);

    assert_eq!(read_and_incr(&mut oram, &mut positions, 0, 5), 0);
    assert_eq!(read(&mut oram, &mut positions, 0, 5), 1);
    assert_eq!(read_and_incr(&mut oram, &mut positions, 0, 5), 1);
    assert_eq!(read(&mut oram, &mut positions, 0, 5), 2);
}

#[test]
fn suffixes_share_prefix_but_not_counter_slot() {
    let mut oram = FastCircuitCounterORAM::new(1024);
    let mut positions = positions(&oram);

    assert_eq!(read_and_incr(&mut oram, &mut positions, 2, 0), 0);
    assert_eq!(read_and_incr(&mut oram, &mut positions, 2, 1), 0);
    assert_eq!(read_and_incr(&mut oram, &mut positions, 2, 0), 1);
    assert_eq!(read(&mut oram, &mut positions, 2, 1), 1);
    assert_eq!(read(&mut oram, &mut positions, 2, 2), 0);
}

#[test]
fn counters_match_reference_after_mixed_ops() {
    const N: usize = 2048;
    let mut oram = FastCircuitCounterORAM::new(N);
    let mut positions = positions(&oram);
    let mut reference = [0u64; N];

    for step in 0..256 {
        let key = (step * 37 + 11) % N;
        let old = read_key_and_incr(&mut oram, &mut positions, key);
        assert_eq!(old, reference[key]);
        reference[key] += 1;

        let key_to_read = (step * 19 + 7) % N;
        assert_eq!(read_key(&mut oram, &mut positions, key_to_read), reference[key_to_read]);
    }
}

#[test]
fn masks_shuffle_the_blocks() {
    let mut masks = [0u32; 32];
    for (index, mask) in masks.iter_mut().enumerate() {
        *mask = index as u32 * 3 + 64;
    }
    let oram = FastCircuitCounterORAM::with_masks(1024, masks);
    assert_eq!(oram.max_blocks, 32);
    assert_eq!(oram.h, 6);
    assert_eq!(oram.position_map_key(5, 0), 5);
    assert_eq!(oram.position_map_key(5, 7), 5 ^ 21);
    assert_eq!(oram.position_map_key_for_key(5 * 32 + 7), 5 ^ 21);
    for suffix in 0..32 {
        let mut seen = [false; 32];
        for prefix in 0..32 {
            let key = oram.position_map_key(prefix, suffix);
            assert!(!seen[key]);
            seen[key] = true;
        }
    }
}

#[test]
fn random_masks_stay_in_range() {
    let oram = FastCircuitCounterORAM::new(64);
    assert_eq!(oram.max_blocks, 2);
    for value in oram.values {
        assert!(value < 2);
    }
}

#[test]
fn a_full_block_stops_counting() {
    let mut oram = FastCircuitCounterORAM::with_masks(64, [0; 32]);
    let mut pos = 0;
    for suffix in 0..32 {
        for _ in 0..5 {
            oram.read_and_incr(pos, 1 - pos, 0, suffix);
            pos = 1 - pos;
        }
    }
    let mut total = 0;
    for suffix in 0..32 {
        total += oram.read(pos, pos, 0, suffix);
    }
    assert_eq!(total, 26 * 5 + 4);
    assert_eq!(oram.read(pos, pos, 0, 26), 4);
    assert_eq!(oram.read_and_incr(pos, pos, 0, 31), 0);
    assert_eq!(oram.read(pos, pos, 0, 31), 0);
    assert_eq!(oram.evict_counter, 0);
}

#[test]
fn a_counter_is_the_number_of_its_increments() {
    let mut oram = FastCircuitCounterORAM::new(96);
    assert!(oram.stash.iter().all(|block| *block == Counter_Block::new()));
    let mut positions = positions(&oram);
    let mut counts = vec![[0u64; 32]; 3];
    for step in 0..600usize {
        let (prefix, suffix) = (step * 7 % 3, step * 11 % 32);
        let block = oram.position_map_key(prefix, suffix);
        let new_pos = (step * 13 % oram.max_blocks) as PositionType;
        let pos = positions[block];
        positions[block] = new_pos;
        if step % 3 == 0 {
            assert_eq!(oram.read(pos, new_pos, prefix, suffix), counts[prefix][suffix]);
        } else {
            assert_eq!(oram.read_and_incr(pos, new_pos, prefix, suffix), counts[prefix][suffix]);
            counts[prefix][suffix] += 1;
            assert_eq!(oram.read(new_pos, new_pos, prefix, suffix), counts[prefix][suffix]);
        }
    }
}
