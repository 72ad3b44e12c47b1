use oram::optimized_circuit_oram_big_values::{
    find_root_source, gather_level_positions, pooled_lane_for_key, prepare_level_metadata,
    read_and_remove_element, write_block_to_empty_slot, AlignedStash, Block, Bucket, Key,
    OptimizedCircuitORAMBigValues, OptimizedCircuitORAMBigValuesWithStash, DATA_SIZE,
    EVICTIONS_PER_OP_NUMERATOR, EVICTION_CREDITS_PER_BATCH, POOLED_LANES, S,
    SLOTS_PER_POOLED_LANE,
};
use oram::prelude::{PositionType, DUMMY_POS};

fn real_block(pos: PositionType, key: Key, byte: u8) -> Block {
    Block { pos, key, data: [byte; DATA_SIZE] }
}

#[test]
fn read_and_remove_finds_either_lane_in_a_later_bucket() {
    for lane in 0..SLOTS_PER_POOLED_LANE {
        let mut blocks = AlignedStash::new(6);
        blocks.0[0] = real_block(1, 10, 0x10);
        blocks.0[2 + lane] = real_block(7, 42, 0x42);
        blocks.0[5] = real_block(3, 11, 0x11);

        let result = read_and_remove_element(&mut blocks, 42);
        assert!(!result.is_empty());
        assert_eq!(result.data, [0x42; DATA_SIZE]);
        assert_eq!(blocks.0[2 + lane].pos, DUMMY_POS);
        assert_eq!(blocks.0[2 + lane].key, Key::MAX);
        assert_eq!(blocks.0[2 + lane].data, [u8::MAX; DATA_SIZE]);
        assert_eq!(blocks.0[0].data, [0x10; DATA_SIZE]);
        assert_eq!(blocks.0[5].data, [0x11; DATA_SIZE]);
    }
}

#[test]
fn read_and_remove_leaves_input_and_result_unchanged_when_absent() {
    let mut blocks = AlignedStash::new(4);
    blocks.0[0] = real_block(1, 10, 0x10);
    blocks.0[3] = real_block(3, 11, 0x11);
    let before = blocks.0.to_vec();

    let result = read_and_remove_element(&mut blocks, 42);
    assert!(result.is_empty());
    assert_eq!(result.key, Key::MAX);
    assert_eq!(result.data, [u8::MAX; DATA_SIZE]);
    for (actual, expected) in blocks.0.iter().zip(before.iter()) {
        assert_eq!(actual.pos, expected.pos);
        assert_eq!(actual.key, expected.key);
        assert_eq!(actual.data, expected.data);
    }
}

#[test]
fn level_position_gather_groups_slots_by_pooled_lane() {
    let mut bucket = Bucket::default();
    for pooled_lane in 0..POOLED_LANES {
        bucket.0[pooled_lane * SLOTS_PER_POOLED_LANE].pos = 100 + pooled_lane as PositionType;
        bucket.0[pooled_lane * SLOTS_PER_POOLED_LANE + 1].pos = 200 + pooled_lane as PositionType;
    }

    let (slot_0, slot_1) = gather_level_positions(&bucket);
    assert_eq!(slot_0, [100, 101, 102, 103, 104, 105, 106, 107]);
    assert_eq!(slot_1, [200, 201, 202, 203, 204, 205, 206, 207]);
}

#[test]
fn level_metadata_selects_deeper_source_and_tracks_both_empty_slots() {
    let path: PositionType = 0x5a5a_5a5a;
    let slot_0_depths = [0, 1, -1, 4, 6, 2, 5, -1];
    let slot_1_depths = [7, 3, 2, 4, 1, -1, 6, -1];
    let mut bucket = Bucket::default();

    for pooled_lane in 0..POOLED_LANES {
        for (slot, depths) in [slot_0_depths, slot_1_depths].iter().enumerate() {
            let depth = depths[pooled_lane];
            if depth >= 0 {
                let block_index = pooled_lane * SLOTS_PER_POOLED_LANE + slot;
                bucket.0[block_index] =
                    real_block(path ^ (1 << depth), block_index as Key, block_index as u8);
            }
        }
    }

    let metadata = prepare_level_metadata(&bucket, path);
    assert_eq!(metadata.deepest, [7, 3, 2, 4, 6, 2, 6, -1]);
    // Slot 1 wins only strictly; pooled lane 3 is a tie and stays on slot 0.
    assert_eq!(metadata.source_slot_1, 0b0100_0111);
    assert_eq!(metadata.empty_slot_0, 0b1000_0100);
    assert_eq!(metadata.empty_slot_1, 0b1010_0000);
}

#[test]
fn vector_root_source_matches_scalar_scan() {
    let mut stash = AlignedStash::new(S + SLOTS_PER_POOLED_LANE);
    let mut state = 0x9e37_79b9u32;

    for round in 0..64u32 {
        for index in 0..S + SLOTS_PER_POOLED_LANE {
            state = state.wrapping_mul(1_664_525).wrapping_add(1_013_904_223);
            stash.0[index] = if state % 5 == 0 {
                Block::default()
            } else {
                real_block(state.rotate_left(7), state.rotate_right(11), index as u8)
            };
        }

        for pooled_lane in 0..POOLED_LANES {
            let path = state.wrapping_add(round * 0x1021).rotate_left(pooled_lane as u32);
            let mut scalar_depth = -1i32;
            let mut scalar_index = 0i32;
            for index in 0..S + SLOTS_PER_POOLED_LANE {
                let block = &stash.0[index];
                let depth = (block.pos ^ path).trailing_zeros() as i32;
                let belongs_to_lane =
                    (index >= S) | (pooled_lane_for_key(block.key) == pooled_lane);
                let replaces_best = !block.is_empty() & belongs_to_lane & (depth > scalar_depth);
                if replaces_best {
                    scalar_depth = depth;
                    scalar_index = index as i32;
                }
            }

            assert_eq!(
                find_root_source::<S>(&stash, path, pooled_lane),
                (scalar_depth, scalar_index)
            );
        }
    }
}

#[test]
fn pooled_lanes_follow_the_low_key_bits() {
    for key in 0..32 {
        assert_eq!(pooled_lane_for_key(key), key as usize & 7);
    }
}

#[test]
fn each_pooled_lane_has_n_over_eight_leaves_at_half_bottom_load() {
    let oram = OptimizedCircuitORAMBigValues::new(1024);
    assert_eq!(oram.max_n, 1024 / POOLED_LANES);
    assert_eq!(oram.h, 8);
    let bottom_slots_per_pooled_lane = oram.max_n * SLOTS_PER_POOLED_LANE;
    let target_blocks_per_pooled_lane = oram.capacity / POOLED_LANES;
    assert_eq!(target_blocks_per_pooled_lane * 2, bottom_slots_per_pooled_lane);
    assert_eq!(oram.stash.0.len(), S + oram.h * SLOTS_PER_POOLED_LANE);
}

#[test]
fn ordinary_update_touches_only_the_selected_pooled_lane_in_the_tree() {
    let mut oram = OptimizedCircuitORAMBigValues::new(64);
    oram.update(0, 1, 0, |data| data.fill(0x2a));

    for bucket in &oram.tree.tree {
        for block in &bucket.0[SLOTS_PER_POOLED_LANE..] {
            assert!(block.is_empty());
        }
    }
    assert_eq!(oram.eviction_credit, EVICTIONS_PER_OP_NUMERATOR);
    assert_eq!(oram.evict_counter, 0);
}

#[test]
fn breadth_first_batch_matches_eight_scalar_evictions() {
    let mut batched = OptimizedCircuitORAMBigValues::new(256);
    let mut scalar = OptimizedCircuitORAMBigValues::new(256);

    for key in 0..32usize {
        let new_pos = ((key * 13 + 7) % batched.max_n) as PositionType;
        for oram in [&mut batched, &mut scalar] {
            oram.update(0, new_pos, key as Key, |data| data.fill(key as u8));
            // Keep setup updates from triggering the deterministic batch under test.
            oram.eviction_credit = 0;
        }
    }

    for path in [0, 1, 3, 7, 11, 31] {
        let plan = batched.prepare_batch_eviction_plan(path);
        batched.move_batch_breadth_first(path, &plan);
        for pooled_lane in 0..POOLED_LANES {
            scalar.perform_eviction(path, pooled_lane);
        }

        for (actual, expected) in batched.stash.0[..S].iter().zip(&scalar.stash.0[..S]) {
            assert_eq!(actual, expected);
        }
        for (actual_bucket, expected_bucket) in batched.tree.tree.iter().zip(&scalar.tree.tree) {
            assert_eq!(actual_bucket, expected_bucket);
        }
    }
}

#[test]
fn deterministic_evictions_run_as_one_all_lane_path_per_batch() {
    let mut oram = OptimizedCircuitORAMBigValues::new(512);
    assert_eq!(oram.max_n, 64);

    let mut expected_credit = 0;
    let mut expected_batches = 0;
    for key in 0..32 {
        oram.update(0, key, key, |data| data.fill(key as u8));

        expected_credit += EVICTIONS_PER_OP_NUMERATOR;
        if expected_credit >= EVICTION_CREDITS_PER_BATCH {
            expected_credit -= EVICTION_CREDITS_PER_BATCH;
            expected_batches += 1;
        }

        assert_eq!(oram.eviction_credit, expected_credit);
        assert_eq!(oram.evict_counter, (expected_batches % oram.max_n) as PositionType);
    }
}

#[test]
fn updates_round_trip_across_all_pooled_lanes_and_batches() {
    const N: usize = 128;
    let mut oram = OptimizedCircuitORAMBigValues::new(N);
    let mut positions = [0; 64];

    for key in 0..positions.len() {
        let new_pos = ((key * 7 + 3) % oram.max_n) as PositionType;
        let (found, ()) = oram.update(positions[key], new_pos, key as Key, |data| {
            data.fill(0);
            data[..8].copy_from_slice(&(key as u64).to_le_bytes());
        });
        assert!(!found);
        positions[key] = new_pos;
    }

    for key in 0..positions.len() {
        let new_pos = ((key * 11 + 5) % oram.max_n) as PositionType;
        let (found, stored) = oram.update(positions[key], new_pos, key as Key, |data| {
            u64::from_le_bytes(data[..8].try_into().unwrap())
        });
        assert!(found, "missing key {key}");
        assert_eq!(stored, key as u64);
        positions[key] = new_pos;
    }
}

fn assert_stash_size_updates_round_trip<const STASH_SIZE: usize>() {
    const N: usize = 128;
    let mut oram = OptimizedCircuitORAMBigValuesWithStash::<STASH_SIZE>::new(N);
    let mut positions = [0; 64];
    assert_eq!(oram.stash.0.len(), STASH_SIZE + oram.h * SLOTS_PER_POOLED_LANE);

    for key in 0..positions.len() {
        let new_pos = ((key * 7 + 3) % oram.max_n) as PositionType;
        let (found, ()) = oram.update(positions[key], new_pos, key as Key, |data| {
            data.fill(0);
            data[..8].copy_from_slice(&(key as u64).to_le_bytes());
        });
        assert!(!found);
        positions[key] = new_pos;
    }

    for key in 0..positions.len() {
        let new_pos = ((key * 11 + 5) % oram.max_n) as PositionType;
        let (found, stored) = oram.update(positions[key], new_pos, key as Key, |data| {
            u64::from_le_bytes(data[..8].try_into().unwrap())
        });
        assert!(found, "missing key {key}");
        assert_eq!(stored, key as u64);
        positions[key] = new_pos;
    }
}

#[test]
fn stash_40_updates_round_trip_across_all_pooled_lanes() {
    assert_stash_size_updates_round_trip::<40>();
}

#[test]
fn stash_56_updates_round_trip_across_all_pooled_lanes() {
    assert_stash_size_updates_round_trip::<56>();
}

#[test]
fn stash_80_updates_round_trip_across_all_pooled_lanes() {
    assert_stash_size_updates_round_trip::<80>();
}

#[test]
fn absent_payloads_start_as_ones() {
    let mut oram = OptimizedCircuitORAMBigValues::new(16);
    let (found, first) = oram.update(0, 1, 5, |data| *data);
    assert!(!found);
    assert_eq!(first, [u8::MAX; DATA_SIZE]);
}

#[test]
fn a_full_stash_takes_no_block() {
    let mut stash = AlignedStash::new(2);
    assert!(write_block_to_empty_slot(&mut stash, 2, &real_block(1, 1, 1)));
    assert!(write_block_to_empty_slot(&mut stash, 2, &real_block(2, 2, 2)));
    assert!(!write_block_to_empty_slot(&mut stash, 2, &real_block(3, 3, 3)));
    assert_eq!(stash.0[0].key, 1);
    assert_eq!(stash.0[1].key, 2);
}

#[test]
fn of_several_blocks_with_a_key_the_last_comes_back() {
    let mut blocks = AlignedStash::new(6);
    blocks.0[1] = real_block(1, 42, 0x01);
    blocks.0[2] = real_block(2, 10, 0x02);
    blocks.0[3] = real_block(3, 42, 0x03);
    blocks.0[5] = real_block(5, 42, 0x05);
    assert_eq!(read_and_remove_element(&mut blocks, 42), real_block(5, 42, 0x05));
    assert!(blocks.0[1].is_empty());
    assert_eq!(blocks.0[2], real_block(2, 10, 0x02));
    assert_eq!(blocks.0[3], real_block(1, 42, 0x01));
    assert_eq!(blocks.0[5], real_block(3, 42, 0x03));
}

#[test]
fn an_extra_batch_changes_no_size() {
    let mut oram = OptimizedCircuitORAMBigValues::new(64);
    oram.update(0, 3, 9, |data| data.fill(7));
    let (capacity, max_n, h) = (oram.capacity, oram.max_n, oram.h);
    let (counter, credit) = (oram.evict_counter, oram.eviction_credit);
    oram.benchmark_deterministic_eviction_batch();
    assert_eq!((oram.capacity, oram.max_n, oram.h), (capacity, max_n, h));
    assert_eq!(oram.evict_counter as usize, (counter as usize + 1) % max_n);
    assert_eq!(oram.eviction_credit, credit);
    let (found, data) = oram.update(3, 1, 9, |data| *data);
    assert!(found);
    assert_eq!(data, [7; DATA_SIZE]);
}

#[test]
fn a_pass_over_a_new_oram_moves_the_one_block_of_its_lane() {
    let mut oram = OptimizedCircuitORAMBigValues::new(32);
    assert_eq!(oram.h, 3);
    assert_eq!(oram.stash.0.len(), S + 6);
    assert!(oram.stash.0.iter().all(|block| *block == Block::default()));
    assert!(oram.tree.tree.iter().all(|bucket| *bucket == Bucket::default()));
    oram.stash.0[0] = real_block(0, 1, 1);
    oram.stash.0[1] = real_block(2, 8, 8);
    oram.evict_once_fast(0, 0);
    assert_eq!(oram.stash.0[52], real_block(2, 8, 8));
    assert_eq!(oram.stash.0[0], real_block(0, 1, 1));
    for (i, block) in oram.stash.0.iter().enumerate() {
        assert_eq!(block.is_empty(), i != 0 && i != 52);
    }
}

#[test]
fn a_pass_moves_blocks_past_slots_with_leftovers() {
    let mut oram = OptimizedCircuitORAMBigValues::new(32);
    for slot in oram.stash.0.iter_mut() {
        *slot = real_block(DUMMY_POS, 3, 9);
    }
    oram.stash.0[4] = real_block(3, 16, 1);
    oram.evict_once_fast(3, 0);
    let live: Vec<usize> =
        (0..oram.stash.0.len()).filter(|&i| !oram.stash.0[i].is_empty()).collect();
    assert_eq!(live, [S + 4]);
    assert_eq!(oram.stash.0[S + 4], real_block(3, 16, 1));
}
