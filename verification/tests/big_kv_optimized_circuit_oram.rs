use oram::big_kv_optimized_circuit_oram::{
    prepare_level_metadata, read_and_remove_element, write_block_to_empty_slot,
    BigKvOptimizedCircuitOram, BigKvOptimizedCircuitOramS56, Block, Bucket, KeyValue, SplitStash,
    DATA_SIZE, DUMMY_POS, POOLED_LANES, S, SLOTS_PER_POOLED_LANE,
};

#[test]
fn split_layout_interleaves_lanes_and_slots() {
    assert_eq!(Bucket::position_index(3, 0), 3);
    assert_eq!(Bucket::position_index(3, 1), 11);
    assert_eq!(Bucket::key_value_index(3, 0), 6);
    assert_eq!(Bucket::key_value_index(3, 1), 7);
}

#[test]
fn updates_round_trip_across_all_pooled_lanes() {
    let mut oram = BigKvOptimizedCircuitOram::new(128);
    let mut positions = [0u64; 64];
    for key in 0..64u64 {
        let new_pos = (key * 7 + 3) % oram.max_n as u64;
        let (found, ()) = oram.update(0, new_pos, key, |data| {
            data.fill(0);
            data[..8].copy_from_slice(&key.to_le_bytes());
        });
        assert!(!found);
        positions[key as usize] = new_pos;
    }
    for key in 0..64u64 {
        let new_pos = (key * 11 + 5) % oram.max_n as u64;
        let (found, stored) = oram.update(positions[key as usize], new_pos, key, |data| {
            u64::from_le_bytes(data[..8].try_into().unwrap())
        });
        assert!(found, "missing key {key}");
        assert_eq!(stored, key);
    }
}

#[test]
fn direct_position_metadata_matches_scalar() {
    let mut bucket = Bucket::default();
    for lane in 0..POOLED_LANES {
        for slot in 0..SLOTS_PER_POOLED_LANE {
            if (lane + slot) % 3 != 0 {
                bucket.positions[Bucket::position_index(lane, slot)] =
                    (lane * 17 + slot * 5) as u64;
            }
        }
    }
    let path = 37u64;
    let metadata = prepare_level_metadata(&bucket, path);
    for lane in 0..POOLED_LANES {
        let depths = [0, 1].map(|slot| {
            let pos = bucket.positions[Bucket::position_index(lane, slot)];
            if pos == DUMMY_POS {
                -1
            } else {
                (pos ^ path).trailing_zeros() as i64
            }
        });
        assert_eq!(metadata.deepest[lane], depths[0].max(depths[1]));
        assert_eq!(((metadata.source_slot_1 >> lane) & 1) != 0, depths[1] > depths[0]);
    }
}

#[test]
fn breadth_first_batch_matches_scalar_lane_evictions() {
    let mut batched = BigKvOptimizedCircuitOram::new(256);
    let mut scalar = BigKvOptimizedCircuitOram::new(256);
    for key in 0..16u64 {
        let new_pos = (key * 13 + 7) % batched.max_n as u64;
        for oram in [&mut batched, &mut scalar] {
            oram.update(0, new_pos, key, |data| data.fill(key as u8));
            oram.eviction_credit = 0;
        }
    }

    for path in [0, 1, 7, 19] {
        let plan = batched.prepare_batch_eviction_plan(path);
        batched.move_batch_breadth_first(path, &plan);
        for lane in 0..POOLED_LANES {
            scalar.perform_eviction(path, lane);
        }
        for index in 0..S {
            assert_eq!(batched.stash.block(index), scalar.stash.block(index));
        }
        assert_eq!(batched.tree.tree, scalar.tree.tree);
    }
}

fn block(pos: u64, key: u64) -> Block {
    Block { pos, key_value: KeyValue { key, data: [key as u8; DATA_SIZE] } }
}

#[test]
fn split_stash_keeps_blocks_apart() {
    let mut stash = SplitStash::new(11);
    assert_eq!(stash.len(), 11);
    assert!(!stash.is_empty());
    stash.set_block(9, block(4, 40));
    stash.set_block(10, block(5, 50));
    stash.set_position(9, 6);
    assert_eq!(stash.block(9), block(6, 40));
    assert_eq!(stash.block(10), block(5, 50));
    assert_eq!(read_and_remove_element(&mut stash, 40), block(6, 40));
    assert!(stash.block(9).is_empty());
    assert!(read_and_remove_element(&mut stash, 40).is_empty());
    assert!(write_block_to_empty_slot(&mut stash, 11, &block(1, 1)));
    assert_eq!(stash.block(0), block(1, 1));
}

#[test]
fn deterministic_batches_follow_the_credit() {
    let mut oram = BigKvOptimizedCircuitOramS56::new(1);
    assert_eq!(oram.max_n, 2);
    assert_eq!(oram.h, 2);
    for round in 1..=11usize {
        oram.update(0, 0, 3, |data| data.fill(1));
        assert_eq!(oram.eviction_credit, (3 * round) % 16);
        assert_eq!(oram.evict_counter, ((3 * round) / 16) as u64 % 2);
    }
    let (capacity, max_n, h) = (oram.capacity, oram.max_n, oram.h);
    oram.benchmark_deterministic_eviction_batch();
    assert_eq!(oram.evict_counter, 1);
    assert_eq!((oram.capacity, oram.max_n, oram.h), (capacity, max_n, h));
}

#[test]
fn of_several_split_blocks_with_a_key_the_last_comes_back() {
    let mut stash = SplitStash::new(8);
    stash.set_block(1, block(1, 40));
    stash.set_block(4, block(4, 50));
    stash.set_block(6, block(6, 40));
    assert_eq!(read_and_remove_element(&mut stash, 40), block(6, 40));
    assert!(stash.block(1).is_empty());
    assert_eq!(stash.block(4), block(4, 50));
    assert_eq!(stash.block(6), block(1, 40));
}

#[test]
fn a_pass_over_a_new_split_oram_moves_the_one_block_of_its_lane() {
    let mut oram = BigKvOptimizedCircuitOramS56::new(32);
    assert_eq!(oram.h, 3);
    assert_eq!(oram.stash.len(), 62);
    for i in 0..62 {
        assert_eq!(oram.stash.block(i), Block::default());
    }
    oram.stash.set_block(0, block(0, 1));
    oram.stash.set_block(1, block(2, 8));
    oram.evict_once_fast(0, 0);
    assert_eq!(oram.stash.block(58), block(2, 8));
    assert_eq!(oram.stash.block(0), block(0, 1));
    for i in 1..62 {
        assert_eq!(oram.stash.block(i).is_empty(), i != 58);
    }
}
