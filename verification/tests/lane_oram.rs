//! Lane ORAM over cache-line blocks.

use oram::lane_oram::{
    read_and_remove_path32, read_and_remove_path64, Block32, Block64, LaneORAM, DUMMY_KEY32,
    DUMMY_KEY64, DUMMY_POS64,
};
use rand::rngs::StdRng;
use rand::{Rng, SeedableRng};
use std::mem::size_of;

#[test]
fn blocks_have_the_size_of_a_cache_line() {
    assert_eq!(size_of::<Block32>(), 64);
    assert_eq!(size_of::<Block64>(), 64);
}

#[test]
fn default_blocks_set_every_simd_lane_to_dummy() {
    let block32 = Block32::default();
    let block64 = Block64::default();
    assert_eq!(block32.pos, u32::MAX);
    assert_eq!(block32.key, u32::MAX);
    assert_eq!(block32.data, [u8::MAX; 56]);
    assert_eq!(block64.pos, u64::MAX);
    assert_eq!(block64.key, u64::MAX);
    assert_eq!(block64.data, [u8::MAX; 48]);
}

#[test]
fn reads_and_writes_a_wide_tree_path() {
    const Z: usize = 3;
    let mut oram = LaneORAM::<Z, 5, 4>::new(16);
    let mut input = vec![Block32::default(); 3 * Z];

    for index in 0..input.len() {
        input[index].pos = 7;
        input[index].key = index as u32;
        input[index].data[0] = index as u8 + 10;
    }

    oram.tree.write_path(7, &input, 0, Z);

    let mut output = vec![Block32::default(); 3 * Z];
    oram.tree.read_path(7, &mut output, 0, Z);

    for index in 0..output.len() {
        assert_eq!(output[index].pos, input[index].pos);
        assert_eq!(output[index].key, input[index].key);
        assert_eq!(output[index].data, input[index].data);
    }
}

#[test]
fn reads_and_removes_matching_block_from_combined_array() {
    let mut requested = Block32::default();
    requested.key = 9;

    let mut stash_and_path = vec![Block32::default(); 4];
    stash_and_path[2].pos = 17;
    stash_and_path[2].key = 9;
    stash_and_path[2].data[0] = 42;

    let result = read_and_remove_path32(&requested, &mut stash_and_path);

    assert_eq!(result.pos, 17);
    assert_eq!(result.key, 9);
    assert_eq!(result.data[0], 42);
    assert_eq!(requested.pos, u32::MAX);
    assert!(stash_and_path[2].is_empty());
    assert_eq!(stash_and_path[2].key, DUMMY_KEY32);
}

#[test]
fn reads_and_removes_matching_block64_from_combined_array() {
    let mut requested = Block64::default();
    requested.key = 9;

    let mut stash_and_path = vec![Block64::default(); 4];
    stash_and_path[2].pos = 17;
    stash_and_path[2].key = 9;
    stash_and_path[2].data[0] = 42;

    let result = read_and_remove_path64(&requested, &mut stash_and_path);

    assert_eq!(result.pos, 17);
    assert_eq!(result.key, 9);
    assert_eq!(result.data[0], 42);
    assert_eq!(requested.pos, DUMMY_POS64);
    assert!(stash_and_path[2].is_empty());
    assert_eq!(stash_and_path[2].key, DUMMY_KEY64);
}

#[test]
fn lane_oram_allocates_stash_and_path() {
    let oram = LaneORAM::<3, 5, 4>::new(10);
    assert_eq!(oram.max_n, 16);
    assert_eq!(oram.h, 3);
    assert_eq!(oram.tree.height, 3);
    assert_eq!(oram.tree.branching_factor, 4);
    assert_eq!(oram.stash_and_path.len(), 5 + 3 * 3);
    assert_eq!(oram.lane_masks.len(), 3 * 3);
}

#[test]
fn update_inserts_then_updates_block32() {
    let mut oram = LaneORAM::<2, 4, 4>::new(16);

    let (found, old) = oram.update(0, 3, 7, |block| {
        let old = block.data[0];
        block.data[0] = 41;
        old
    });
    assert!(!found);
    assert_eq!(old, 0);

    let (found, old) = oram.update(3, 5, 7, |block| {
        let old = block.data[0];
        block.data[0] = 42;
        old
    });
    assert!(found);
    assert_eq!(old, 41);

    let (found, old) = oram.update(5, 6, 7, |block| block.data[0]);
    assert!(found);
    assert_eq!(old, 42);
}

#[test]
fn moves_first_stash_block_only_into_free_root_lane() {
    const Z: usize = 2;
    const S: usize = 4;
    let mut oram = LaneORAM::<Z, S, 4>::new(16);

    oram.stash_and_path[0].pos = 3;
    oram.stash_and_path[0].key = 10;
    oram.stash_and_path[1].pos = 7;
    oram.stash_and_path[1].key = 11;

    let root_lane_1 = S + 1;
    oram.stash_and_path[root_lane_1].pos = 12;
    oram.stash_and_path[root_lane_1].key = 20;

    oram.move_from_stash_to_free_lanes();

    let root_lane_0 = S;
    assert_eq!(oram.stash_and_path[root_lane_0].pos, 3);
    assert_eq!(oram.stash_and_path[root_lane_0].key, 10);
    assert!(oram.stash_and_path[0].is_empty());

    assert_eq!(oram.stash_and_path[root_lane_1].pos, 12);
    assert_eq!(oram.stash_and_path[root_lane_1].key, 20);
    assert_eq!(oram.stash_and_path[1].pos, 7);
    assert_eq!(oram.stash_and_path[1].key, 11);
}

#[test]
fn moves_down_all_lanes_in_level_major_order() {
    const Z: usize = 2;
    const S: usize = 2;
    let mut oram = LaneORAM::<Z, S, 4>::new(16);

    oram.stash_and_path[S].pos = 1;
    oram.stash_and_path[S].key = 10;
    oram.stash_and_path[S + Z].pos = 2;
    oram.stash_and_path[S + Z].key = 11;

    oram.stash_and_path[S + 1].pos = 3;
    oram.stash_and_path[S + 1].key = 20;

    let masks = [u16::MAX, 0, u16::MAX, 0, u16::MAX, 0];
    oram.lane_masks.copy_from_slice(&masks);
    oram.move_down_lane();

    assert!(oram.stash_and_path[S].is_empty());
    assert_eq!(oram.stash_and_path[S + Z].key, 10);
    assert_eq!(oram.stash_and_path[S + 2 * Z].key, 11);

    assert_eq!(oram.stash_and_path[S + 1].key, 20);
    assert!(oram.stash_and_path[S + Z + 1].is_empty());
    assert!(oram.stash_and_path[S + 2 * Z + 1].is_empty());
}

#[test]
fn calculates_lane_masks_from_leaf_to_root() {
    const Z: usize = 2;
    const S: usize = 2;
    let mut oram = LaneORAM::<Z, S, 4>::new(16);

    oram.stash_and_path[S].pos = 5;
    oram.stash_and_path[S + Z].pos = 5;

    oram.stash_and_path[S + 1].pos = 0;
    oram.stash_and_path[S + Z + 1].pos = 0;
    oram.stash_and_path[S + 2 * Z + 1].pos = 0;

    oram.calculate_masks(5);

    assert_eq!(oram.lane_masks, [u16::MAX, 0, u16::MAX, 0, u16::MAX, 0]);
}

#[test]
fn randomized_updates_round_trip_cacheline_payloads() {
    const N: usize = 16;
    let mut oram = LaneORAM::<4, 20, 4>::new(N);
    let mut positions = [0u32; N];
    let mut values = [[u8::MAX; 56]; N];
    let mut rng = StdRng::seed_from_u64(1);

    for key in 1..N {
        let new_pos = rng.random_range(0..oram.max_n) as u32;
        let mut new_value = [0u8; 56];
        rng.fill(&mut new_value[..]);

        oram.update(positions[key], new_pos, key as u32, |block| {
            let old = block.data;
            block.data = new_value;
            old
        });

        positions[key] = new_pos;
        values[key] = new_value;
    }

    for round in 0..50 {
        for key in 1..N {
            let new_pos = rng.random_range(0..oram.max_n) as u32;
            let mut new_value = [0u8; 56];
            rng.fill(&mut new_value[..]);

            let (found, old) = oram.update(positions[key], new_pos, key as u32, |block| {
                let old = block.data;
                block.data = new_value;
                old
            });

            assert!(found, "missing key {key} in round {round} at position {}", positions[key]);
            assert_eq!(old, values[key]);
            positions[key] = new_pos;
            values[key] = new_value;
        }
    }
}

#[test]
fn a_new_oram_has_clear_masks_and_dummy_blocks() {
    let mut oram = LaneORAM::<3, 5, 2>::new(8);
    assert_eq!(oram.lane_masks, vec![0; 4 * 3]);
    assert!(oram.stash_and_path.iter().all(|block| *block == Block32::default()));
    oram.move_down_lane();
    assert!(oram.stash_and_path.iter().all(|block| *block == Block32::default()));
}
