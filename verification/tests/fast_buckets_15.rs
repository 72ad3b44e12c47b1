//! Counter blocks of one and a half cache lines.

use oram::bits::low_bits_mask;
use oram::fast_buckets_15::{
    Cacheline_Counter_Bucket_15, Counter_Block_15, COUNTER_15_BLOCK_COUNTERS,
    COUNTER_15_COUNTER_BITS, COUNTER_15_METADATA_BITS,
};

#[test]
fn counters_start_at_zero_and_use_five_base_bits() {
    let mut block = Counter_Block_15::default();

    for index in 0..COUNTER_15_BLOCK_COUNTERS {
        assert_eq!(block.get_counter(index), 0);
    }
    for value in 0..32 {
        assert_eq!(block.get_and_increment_counter(7), (value, true));
    }
    assert_eq!(block.get_counter(7), 32);
}

#[test]
fn fast_buckets_15_counters_match_reference_after_mixed_increment_patterns() {
    let mut block = Counter_Block_15::default();
    let mut reference = [0u64; COUNTER_15_BLOCK_COUNTERS];

    for step in 0..512 {
        let index = (step * 37 + 11) & (COUNTER_15_BLOCK_COUNTERS - 1);
        let (old, incremented) = block.get_and_increment_counter(index);
        assert!(incremented);
        assert_eq!(old, reference[index]);
        reference[index] += 1;

        let read_index = (step * 19 + 7) & (COUNTER_15_BLOCK_COUNTERS - 1);
        assert_eq!(block.get_counter(read_index), reference[read_index]);
    }
}

#[test]
fn counter_width_caps_at_sixty_three_bits() {
    let mut block = Counter_Block_15::default();
    let mut metadata = [0u64; 3];
    // Counter 0 gets 29 extra chunks: width = 5 + 29 * 2 = 63.
    metadata[0] = 1u64 << 29;
    for bit in 30..COUNTER_15_BLOCK_COUNTERS + 29 {
        metadata[bit / 64] |= 1u64 << (bit & 63);
    }
    block.set_metadata_words(metadata);
    let mut counters = [0u64; 9];
    counters[0] = low_bits_mask(63);
    block.set_counter_words(counters);

    assert_eq!(block.get_and_increment_counter(0), (low_bits_mask(63), false));
    assert_eq!(block.get_counter(0), low_bits_mask(63));
}

#[test]
fn key_pos_and_empty_round_trip() {
    let mut block = Counter_Block_15::default();

    assert!(block.is_empty());
    block.set_key_pos(17, 23);
    assert!(!block.is_empty());
    assert_eq!(block.key(), 17);
    assert_eq!(block.pos(), 23);

    block.cmov_empty(true);
    assert!(block.is_empty());
    assert_eq!(block.key(), 17);
}

#[test]
fn block_sizes_add_up() {
    assert_eq!(core::mem::size_of::<Counter_Block_15>(), 96);
    assert_eq!(core::mem::align_of::<Counter_Block_15>(), 8);
    assert_eq!(core::mem::size_of::<Cacheline_Counter_Bucket_15>(), 192);
    assert_eq!(64 + COUNTER_15_METADATA_BITS + COUNTER_15_COUNTER_BITS, 766);
}

#[test]
fn block_15_refuses_a_chunk_too_many() {
    let mut block = Counter_Block_15::default();
    for i in 0..COUNTER_15_BLOCK_COUNTERS {
        for _ in 0..32 {
            assert!(block.increment_counter(i));
        }
    }
    for i in 0..42 {
        for _ in 0..96 {
            assert!(block.increment_counter(i));
        }
    }
    for _ in 0..95 {
        assert!(block.increment_counter(63));
    }
    let before = block;
    assert_eq!(block.get_and_increment_counter(63), (127, false));
    assert_eq!(block, before);
    assert_eq!(block.get_counter(0), 128);
    assert_eq!(block.access_counter_oblivious(62, true), 32);
    assert_eq!(block.access_counter_oblivious(62, false), 33);
}

#[test]
fn blocks_15_select_and_exchange() {
    let bucket = Cacheline_Counter_Bucket_15::default();
    let mut a = bucket.blocks[0];
    let mut b = bucket.blocks[1];
    a.set_key_pos(1, 2);
    b.set_key_pos(3, 4);
    a.cxchg(&mut b, true);
    assert_eq!((a.key(), b.key()), (3, 1));
    a.cmov(&b, true);
    assert_eq!(a, b);
}

#[test]
fn a_counter_is_refused_only_where_its_bits_are_all_ones() {
    let least = |count: u64| (0..).find(|h| count < 1 << (5 + 2 * h)).unwrap();
    let mut block = Counter_Block_15::default();
    block.set_key_pos(4, 9);
    let mut counts = [0u64; COUNTER_15_BLOCK_COUNTERS];
    let mut refused = 0;
    for step in 0..40_000usize {
        let i = step * 5 % COUNTER_15_BLOCK_COUNTERS;
        let chunks: u32 = counts.iter().map(|&count| least(count)).sum();
        let stuck = counts[i] == (1 << (5 + 2 * least(counts[i]))) - 1 && chunks == 106;
        let before = block;
        assert_eq!(block.increment_counter(i), !stuck);
        if stuck {
            assert_eq!(block, before);
            refused += 1;
        } else {
            counts[i] += 1;
        }
        assert_eq!(block.get_counter(i), counts[i]);
        assert_eq!((block.key(), block.pos()), (4, 9));
    }
    assert!(refused > 0);
    for (i, &count) in counts.iter().enumerate() {
        assert_eq!(block.get_counter(i), count);
    }
}
