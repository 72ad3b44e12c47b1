use oram::optimized_circuit_oram::{
    Key, OptimizedCircuitORAM, DATA_SIZE, DUMMY_POS, STASH_BUCKETS,
};

#[test]
fn insert_read_update_and_missing_write() {
    let mut oram = OptimizedCircuitORAM::new(8);
    let mut initial = [0u8; DATA_SIZE];
    initial[0] = 17;
    assert!(!oram.write_or_insert(0, 3, 7, initial));
    let mut out = [0u8; DATA_SIZE];
    assert!(oram.read(3, 5, 7, &mut out));
    assert_eq!(out[0], 17);
    let (found, old) = oram.update(5, 2, 7, |data| {
        let old = data[0];
        data[0] = 29;
        old
    });
    assert!(found);
    assert_eq!(old, 17);
    assert!(!oram.write(0, 1, 99, [4; DATA_SIZE]));
    out.fill(0);
    assert!(oram.read(2, 6, 7, &mut out));
    assert_eq!(out[0], 29);
}

#[test]
fn repetitive_accesses_preserve_values() {
    const N: usize = 16;
    let mut oram = OptimizedCircuitORAM::new(N);
    let mut positions = [0u32; N];
    for key in 0..N {
        let pos = ((key * 7) % N) as u32;
        let mut data = [0u8; DATA_SIZE];
        data[..4].copy_from_slice(&(key as u32).to_le_bytes());
        assert!(!oram.write_or_insert(positions[key], pos, key as Key, data));
        positions[key] = pos;
    }
    for round in 0..128 {
        let key = (round * 11) % N;
        let new_pos = ((round * 5 + 3) % N) as u32;
        let mut out = [0u8; DATA_SIZE];
        assert!(oram.read(positions[key], new_pos, key as Key, &mut out));
        assert_eq!(u32::from_le_bytes(out[..4].try_into().unwrap()), key as u32);
        positions[key] = new_pos;
    }
}

#[test]
fn capacity_rounds_up_and_counters_advance() {
    let mut oram = OptimizedCircuitORAM::new(5);
    assert_eq!(oram.max_n, 8);
    assert_eq!(oram.h, 4);
    assert_eq!(oram.stash_and_path.len(), 10 + 4);
    oram.write_or_insert(0, 1, 3, [1; DATA_SIZE]);
    assert_eq!(oram.evict_counter, 2);
    assert_eq!(oram.insert_lane, 1);
    for _ in 0..3 {
        oram.write(1, 1, 3, [2; DATA_SIZE]);
    }
    assert_eq!(oram.evict_counter, 0);
    assert_eq!(oram.insert_lane, 0);
}

#[test]
fn reading_to_the_dummy_position_removes_the_block() {
    let mut oram = OptimizedCircuitORAM::new(8);
    oram.write_or_insert(0, 6, 1, [9; DATA_SIZE]);
    let mut out = [0u8; DATA_SIZE];
    assert!(oram.read(6, DUMMY_POS, 1, &mut out));
    assert_eq!(out, [9; DATA_SIZE]);
    assert!(!oram.read(6, 2, 1, &mut out));
    assert_eq!(out, [9; DATA_SIZE]);
}

#[test]
fn bulk_load_stores_every_key() {
    let keys: Vec<Key> = (0..20).map(|k| k * 3).collect();
    let values: Vec<[u8; DATA_SIZE]> = (0..20).map(|k| [k as u8; DATA_SIZE]).collect();
    let positions: Vec<u32> = (0..20).map(|k| (k * 5) % 32).collect();
    let mut oram =
        OptimizedCircuitORAM::new_with_positions_and_values(32, &keys, &values, &positions);
    for i in 0..20 {
        let mut out = [0u8; DATA_SIZE];
        assert!(oram.read(positions[i], positions[i], keys[i], &mut out));
        assert_eq!(out, values[i]);
    }
}

#[test]
fn bulk_load_of_many_keys_stores_those_with_room() {
    let keys: Vec<Key> = (0..64).collect();
    let values: Vec<[u8; DATA_SIZE]> = (0..64).map(|k| [k as u8; DATA_SIZE]).collect();
    let spread: Vec<u32> = (0..64).map(|k| (k * 37) % 64).collect();
    let mut oram = OptimizedCircuitORAM::new_with_positions_and_values(64, &keys, &values, &spread);
    for i in 0..64 {
        let mut out = [0u8; DATA_SIZE];
        assert!(oram.read(spread[i], spread[i], keys[i], &mut out));
        assert_eq!(out, values[i]);
    }

    let gathered = vec![0; 64];
    let mut oram =
        OptimizedCircuitORAM::new_with_positions_and_values(64, &keys, &values, &gathered);
    let mut found = 0;
    for i in 0..64 {
        let mut out = [0u8; DATA_SIZE];
        if oram.read(0, 0, keys[i], &mut out) {
            assert_eq!(out, values[i]);
            found += 1;
        }
    }
    assert!((20..64).contains(&found));
}

#[test]
fn a_new_oram_holds_dummy_blocks_alone() {
    let oram = OptimizedCircuitORAM::new(8);
    assert_eq!(oram.stash_and_path.len(), STASH_BUCKETS + 4);
    for bucket in oram.stash_and_path.iter().chain(&oram.tree.tree) {
        for block in bucket.0.iter() {
            assert!(block.is_empty());
            assert_eq!((block.key, block.data), (Key::MAX, [u8::MAX; DATA_SIZE]));
        }
    }
}
