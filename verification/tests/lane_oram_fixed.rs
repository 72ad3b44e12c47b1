//! Lane ORAM with fixed lanes of pooled slots.

use oram::lane_oram_fixed::LaneORAMFixed;
use rand::rngs::StdRng;
use rand::{Rng, SeedableRng};

#[test]
fn minibucket_layout_has_z_times_y_path_slots() {
    let oram = LaneORAMFixed::<3, 2, 20, 4, 1>::new(16);
    assert_eq!(oram.h, 3);
    assert_eq!(oram.stash_and_path.len(), 20 + 3 * 3 * 2);
}

#[test]
fn randomized_updates_preserve_payloads() {
    const N: usize = 256;
    let mut oram = LaneORAMFixed::<3, 2, 64, 2, 1>::new(N);
    let mut positions = [0u32; N];
    let mut values = [0u8; N];
    let mut initialized = [false; N];
    let mut rng = StdRng::seed_from_u64(7);
    for position in &mut positions {
        *position = rng.random_range(0..N) as u32;
    }
    for operation in 0..20_000 {
        let key = operation % N;
        let new_pos = rng.random_range(0..N) as u32;
        let new_value = operation as u8;
        let (found, old) = oram.update(positions[key], new_pos, key as u32, |block| {
            let old = block.data[0];
            block.data[0] = new_value;
            old
        });
        assert_eq!(found, initialized[key]);
        if found {
            assert_eq!(old, values[key]);
        }
        initialized[key] = true;
        values[key] = new_value;
        positions[key] = new_pos;
    }
    assert!(oram.stash_len() < 64, "unexpected final stash: {}", oram.stash_len());
}

#[test]
fn two_pass_updates_preserve_payloads() {
    const N: usize = 64;
    let mut oram = LaneORAMFixed::<2, 3, 80, 2, 2>::new(N);
    let mut positions = [0u32; N];
    let mut values = [0u8; N];
    let mut initialized = [false; N];
    let mut rng = StdRng::seed_from_u64(11);
    for position in &mut positions {
        *position = rng.random_range(0..N) as u32;
    }
    for operation in 0..10_000 {
        let key = operation % N;
        let new_pos = rng.random_range(0..N) as u32;
        let new_value = operation as u8;
        let (found, old) = oram.update(positions[key], new_pos, key as u32, |block| {
            let old = block.data[0];
            block.data[0] = new_value;
            old
        });
        assert_eq!(found, initialized[key]);
        if found {
            assert_eq!(old, values[key]);
        }
        initialized[key] = true;
        values[key] = new_value;
        positions[key] = new_pos;
    }
}

#[test]
fn a_missing_key_starts_with_a_zeroed_payload() {
    let mut oram = LaneORAMFixed::<1, 2, 8, 2, 1>::new(4);
    let (found, data) = oram.update(0, 3, 1, |block| block.data);
    assert!(!found);
    assert_eq!(data, [0u8; 56]);
    assert_eq!(oram.stash_len() <= 1, true);
}
