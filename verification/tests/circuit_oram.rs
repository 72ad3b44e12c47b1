//! Circuit ORAM for plain values.

use oram::circuit_oram::{Block, CircuitORAM, S, Z};
use oram::prelude::DUMMY_POS;
use rand::rngs::StdRng;
use rand::{Rng, SeedableRng};

#[test]
fn a_read_gives_back_the_last_write() {
    const N: usize = 64;
    let mut rng = StdRng::seed_from_u64(9);
    let mut oram = CircuitORAM::<u64>::new(N);
    let mut positions = vec![0u32; N];
    let mut expected = vec![None; N];
    for step in 0..3000u64 {
        let key = rng.random_range(0..N);
        let pos = positions[key];
        let new_pos = rng.random_range(0..N as u32);
        match step % 4 {
            0 => {
                let found = oram.write_or_insert(pos, new_pos, key, step);
                assert_eq!(found, expected[key].is_some());
                expected[key] = Some(step);
            }
            1 => {
                let mut value = 7777;
                let found = oram.read(pos, new_pos, key, &mut value);
                assert_eq!(found, expected[key].is_some());
                assert_eq!(value, expected[key].unwrap_or(7777));
            }
            2 => {
                let found = oram.write(pos, new_pos, key, step);
                assert_eq!(found, expected[key].is_some());
                if found {
                    expected[key] = Some(step);
                }
            }
            _ => {
                let (found, old) = oram.update(pos, new_pos, key, |value: &mut u64| {
                    let old = *value;
                    *value += 1;
                    old
                });
                assert_eq!(found, expected[key].is_some());
                assert_eq!(old, expected[key].unwrap_or(0));
                expected[key] = Some(old + 1);
            }
        }
        positions[key] = new_pos;
    }
}

#[test]
fn a_new_oram_is_empty_and_rounded_up() {
    let oram = CircuitORAM::<u64>::new(5);
    assert_eq!((oram.max_n, oram.h), (8, 4));
    assert_eq!(oram.stash.len(), S + 4 * Z);
    assert!(oram.stash.iter().all(|block| block.is_empty()));
    assert_eq!(CircuitORAM::<bool>::new(1).max_n, 2);
}

#[test]
fn an_eviction_pass_moves_the_deepest_block_down() {
    let mut oram = CircuitORAM::<u64>::new(4);
    oram.stash[3] = Block { pos: 2, key: 1, value: 5 };
    oram.stash[4] = Block { pos: 0, key: 2, value: 6 };
    oram.evict_once_fast(0);
    assert_eq!(oram.stash[3].key, 1);
    assert_eq!(oram.stash[4].pos, DUMMY_POS);
    assert_eq!(oram.stash[S + 2 * Z].key, 2);
    assert_eq!(oram.stash[S + 2 * Z].value, 6);
}
