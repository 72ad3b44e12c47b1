//! Counter blocks of one cache line.

use oram::fast_buckets_alt::{
    Cacheline_Counter_Bucket_Alt, Counter_Block_Alt, ALT_COUNTER_BLOCK_COUNTERS,
};

#[test]
fn alt_block_reads_zero_by_default() {
    let block = Counter_Block_Alt::default();

    for index in 0..ALT_COUNTER_BLOCK_COUNTERS {
        assert_eq!(block.get_counter(index), 0);
    }
}

#[test]
fn alt_block_increments_match_reference() {
    let mut block = Counter_Block_Alt::default();
    let mut reference = [0u64; ALT_COUNTER_BLOCK_COUNTERS];

    for step in 0..512 {
        let index = (step * 37 + 11) & (ALT_COUNTER_BLOCK_COUNTERS - 1);
        let (old, incremented) = block.get_and_increment_counter(index);
        assert!(incremented);
        assert_eq!(old, reference[index]);
        reference[index] += 1;

        let read_index = (step * 19 + 7) & (ALT_COUNTER_BLOCK_COUNTERS - 1);
        assert_eq!(block.get_counter(read_index), reference[read_index]);
    }
}

#[test]
fn alt_block_key_pos_and_empty_round_trip() {
    let mut block = Counter_Block_Alt::default();

    assert!(block.is_empty());
    block.set_key_pos(17, 23);
    assert!(!block.is_empty());
    assert_eq!(block.key(), 17);
    assert_eq!(block.pos(), 23);

    block.cmov_empty(true);
    assert!(block.is_empty());
    assert_eq!(block.key(), 17);
}

#[test]
fn alt_sizes_are_whole_cache_lines() {
    assert_eq!(core::mem::size_of::<Counter_Block_Alt>(), 64);
    assert_eq!(core::mem::size_of::<Cacheline_Counter_Bucket_Alt>(), 128);
}

#[test]
fn alt_block_refuses_one_bit_too_many() {
    let mut block = Counter_Block_Alt::default();
    for i in 0..ALT_COUNTER_BLOCK_COUNTERS {
        for _ in 0..5 {
            assert!(block.increment_counter(i));
        }
    }
    assert_eq!(block.get_counter_endpoints(0, 64), (0, 192));
    for _ in 0..3 {
        assert!(block.increment_counter(9));
    }
    let before = block;
    assert_eq!(block.get_and_increment_counter(9), (8, false));
    assert_eq!(block, before);
    assert_eq!(block.access_counter_oblivious(9, false), 8);
    assert_eq!(block.access_counter_oblivious(10, true), 5);
    assert_eq!(block.get_counter(10), 6);
}

#[test]
fn alt_blocks_select_and_exchange() {
    let bucket = Cacheline_Counter_Bucket_Alt::default();
    let mut a = bucket.blocks[0];
    let mut b = bucket.blocks[1];
    a.set_key_pos(1, 2);
    b.set_key_pos(3, 4);
    a.cxchg(&mut b, true);
    assert_eq!((a.key(), b.key()), (3, 1));
    a.cmov(&b, true);
    assert_eq!(a, b);
}
