//! The recursive ORAM over counters, and the positions that it derives.

use oram::counter_oram::{CounterORAM, CounterOp};
use oram::fast_recursive_oram::{
    counter_blocks_for_counter_space, counter_level_sizes, counter_level_sizes_below,
    FastRecursiveORAM, LevelResetState,
};
use oram::position_hash::{hash_input, hash_position, position_from_digest, select_secret};
use oram::prelude::K;
use rand::rngs::StdRng;
use rand::{Rng, SeedableRng};
use sha2::{Digest, Sha256};

#[test]
fn counter_level_sizes_are_top_to_bottom() {
    let sizes = counter_level_sizes(1 << 16);
    assert!(!sizes.is_empty());
    for window in sizes.windows(2) {
        assert!(window[0] <= counter_blocks_for_counter_space(window[1]));
    }
}

#[test]
fn write_or_insert_then_read_round_trips() {
    let mut oram = FastRecursiveORAM::<u64>::new(1024);
    assert!(!oram.write_or_insert(7, 11));

    let mut value = 0;
    assert!(oram.read(7, &mut value));
    assert_eq!(value, 11);

    assert!(oram.write(7, 19));
    assert!(oram.read(7, &mut value));
    assert_eq!(value, 19);
}

#[test]
fn update_returns_old_value() {
    let mut oram = FastRecursiveORAM::<u64>::new(2048);
    assert!(!oram.write_or_insert(13, 5));

    let (found, old) = oram.update(13, |value| {
        let old = *value;
        *value = 8;
        old
    });
    assert!(found);
    assert_eq!(old, 5);

    let mut value = 0;
    assert!(oram.read(13, &mut value));
    assert_eq!(value, 8);
}

#[test]
fn reads_survive_reset_passes() {
    let mut oram = FastRecursiveORAM::<u64>::new(1024);
    for key in 0..96 {
        assert!(!oram.write_or_insert(key, (key as u64) * 3 + 1));
    }

    for round in 0..64 {
        let key = (round * 17 + 9) % 96;
        let mut value = 0;
        assert!(oram.read(key as K, &mut value));
        assert_eq!(value, (key as u64) * 3 + 1);
    }
}

#[test]
fn several_counter_levels_keep_what_was_written() {
    let mut oram = FastRecursiveORAM::<u64>::with_root_limit(1 << 14, 2);
    assert_eq!(oram.counter_orams.len(), 3);
    let mut rng = StdRng::seed_from_u64(4);
    let mut expected = vec![None; 40];
    for step in 0..4000u64 {
        let key = rng.random_range(0..40usize);
        assert!(oram.intact);
        if rng.random_range(0..2) == 0 {
            assert_eq!(oram.write_or_insert(key, step), expected[key].is_some());
            expected[key] = Some(step);
        } else {
            let mut value = 99_999;
            assert_eq!(oram.read(key, &mut value), expected[key].is_some());
            assert_eq!(value, expected[key].unwrap_or(99_999));
        }
    }
    assert_eq!(oram.op_counter, 4000);
}

#[test]
fn reset_passes_go_all_the_way_round() {
    let mut oram = FastRecursiveORAM::<u64>::with_root_limit(4, 2);
    for key in 0..4 {
        assert!(!oram.write_or_insert(key, key as u64));
    }
    for round in 0..300usize {
        let mut value = 9;
        assert!(oram.read(round % 4, &mut value));
        assert_eq!(value, (round % 4) as u64);
    }
    assert!(oram.intact);
}

#[test]
fn absent_keys_stay_absent() {
    let mut oram = FastRecursiveORAM::<u64>::new(64);
    let mut value = 3;
    assert!(!oram.read(5, &mut value));
    assert_eq!(value, 3);
    assert!(!oram.write(5, 7));
    assert!(!oram.read(5, &mut value));
    let (found, old) = oram.update(5, |value| std::mem::replace(value, 6));
    assert_eq!((found, old), (false, 0));
    assert!(oram.read(5, &mut value));
    assert_eq!(value, 6);
}

#[test]
fn levels_shrink_to_the_root() {
    assert_eq!(counter_level_sizes_below(1 << 20, 16), [256, 16384, 1 << 20]);
    assert_eq!(counter_level_sizes_below(1 << 20, 1024), [16384, 1 << 20]);
    assert_eq!(counter_level_sizes(1 << 20), [16384, 1 << 20]);
    assert_eq!(counter_level_sizes_below(3, 0), [3]);
    assert_eq!(counter_blocks_for_counter_space(1), 2);
    assert_eq!(counter_blocks_for_counter_space(64), 2);
    assert_eq!(counter_blocks_for_counter_space(129), 4);
    assert_eq!(counter_blocks_for_counter_space(1 << 16), 1024);
}

#[test]
fn a_position_is_the_low_bits_of_the_hash() {
    let secret: [u8; 20] = std::array::from_fn(|i| i as u8 + 1);
    let input = hash_input(&secret, 0x0102_0304_0506_0708, 0x0a0b_0c0d);
    assert_eq!(input[..20], secret);
    assert_eq!(input[20..], [8, 7, 6, 5, 4, 3, 2, 1, 0x0d, 0x0c, 0x0b, 0x0a]);
    let digest: [u8; 32] = Sha256::digest(input).into();
    let mut low = [0u8; 8];
    low.copy_from_slice(&digest[..8]);
    let expected = (u64::from_le_bytes(low) & 1023) as u32;
    assert_eq!(hash_position(&secret, 0x0102_0304_0506_0708, 0x0a0b_0c0d, 1024), expected);
    let mut counting = [0u8; 32];
    counting[0] = 0xff;
    counting[1] = 0x01;
    counting[8] = 0x77;
    assert_eq!(position_from_digest(&counting, 256), 0xff);
    assert_eq!(position_from_digest(&counting, 1 << 16), 0x01ff);
}

#[test]
fn a_block_before_the_cursor_has_the_new_secret() {
    let (old_secret, new_secret) = ([1u8; 20], [2u8; 20]);
    assert_eq!(select_secret(&old_secret, &new_secret, false), old_secret);
    assert_eq!(select_secret(&old_secret, &new_secret, true), new_secret);
    let mut state = LevelResetState { old_secret, new_secret, cursor: 1, size: 3 };
    assert_eq!(state.selected_secret(0), new_secret);
    assert_eq!(state.selected_secret(1), old_secret);
    state.advance([3u8; 20]);
    assert_eq!((state.cursor, state.new_secret), (2, new_secret));
    state.advance([4u8; 20]);
    assert_eq!((state.cursor, state.old_secret, state.new_secret), (0, new_secret, [4u8; 20]));
}

#[test]
fn counters_count_and_go_back_to_zero() {
    let mut oram = CounterORAM::new(300);
    assert_eq!((oram.max_n, oram.max_blocks), (300, 8));
    let mut rng = StdRng::seed_from_u64(2);
    let mut positions = vec![0u32; oram.max_blocks];
    let mut expected = vec![0u64; 300];
    for _ in 0..2000 {
        let key = rng.random_range(0..300usize);
        let block = oram.position_map_key_for_key(key);
        let new_pos = rng.random_range(0..oram.max_blocks as u32);
        let reset = rng.random_range(0..5) == 0;
        let op = if reset { CounterOp::Reset } else { CounterOp::Increment };
        let (old, written) = oram.access(positions[block], new_pos, key, op);
        assert!(written);
        positions[block] = new_pos;
        assert_eq!(old, expected[key]);
        expected[key] = if reset { 0 } else { old + 1 };
        let moved = rng.random_range(0..oram.max_blocks);
        let new_pos = rng.random_range(0..oram.max_blocks as u32);
        assert!(oram.remap_position_map_key(positions[moved], new_pos, moved));
        positions[moved] = new_pos;
    }
    assert_eq!(CounterOp::Increment.apply(u64::MAX), 0);
    assert_eq!(CounterOp::Reset.apply(7), 0);
}
