//! The cache-line counter bucket and block.

use oram::bits::low_bits_mask;
use oram::fast_buckets::{
    Cacheline_Counter_Bucket, Counter_Block, CACHELINE_COUNTER_BLOCK_COUNTERS,
    CACHELINE_COUNTER_BUCKET_COUNTERS,
};

#[test]
fn default_bucket_has_zero_width_zero_counters() {
    let bucket = Cacheline_Counter_Bucket::default();

    assert_eq!(bucket.raw[2], u64::MAX);
    for i in 0..CACHELINE_COUNTER_BUCKET_COUNTERS {
        assert_eq!(bucket.get_counter(i), 0);
    }
}

#[test]
fn block_words_round_trip() {
    let mut bucket = Cacheline_Counter_Bucket::default();

    bucket.set_block_words([7, 11, 13, 17]);
    assert_eq!(bucket.block_words(), [7, 11, 13, 17]);

    bucket.set_key_pos(1, 19, 23);
    assert_eq!(bucket.key(0), 7);
    assert_eq!(bucket.pos(0), 11);
    assert_eq!(bucket.key(1), 19);
    assert_eq!(bucket.pos(1), 23);
}

#[test]
fn counter_block_header_round_trips() {
    let mut block = Counter_Block::default();

    assert_eq!(block.metadata_bits_len(), CACHELINE_COUNTER_BLOCK_COUNTERS);
    assert_eq!(block.counter_bits_len(), 0);
    assert_eq!(block.metadata_words()[0], low_bits_mask(CACHELINE_COUNTER_BLOCK_COUNTERS));

    block.set_key_pos(29, 31);
    assert_eq!(block.key(), 29);
    assert_eq!(block.pos(), 31);
}

#[test]
fn default_blocks_merge_to_default_bucket() {
    let bucket =
        Cacheline_Counter_Bucket::merge_blocks([Counter_Block::default(), Counter_Block::default()]);

    assert_eq!(bucket.raw, Cacheline_Counter_Bucket::default().raw);
}

#[test]
fn split_blocks_record_half_lengths_and_keys() {
    let mut bucket = Cacheline_Counter_Bucket::default();
    bucket.set_key_pos(0, 7, 11);
    bucket.set_key_pos(1, 13, 17);

    for _ in 0..5 {
        assert!(bucket.increment_counter(0));
    }
    assert!(bucket.increment_counter(31));
    assert!(bucket.increment_counter(32));
    for _ in 0..3 {
        assert!(bucket.increment_counter(63));
    }

    let blocks = bucket.split_into_blocks();

    assert_eq!(blocks[0].key(), 7);
    assert_eq!(blocks[0].pos(), 11);
    assert_eq!(blocks[1].key(), 13);
    assert_eq!(blocks[1].pos(), 17);
    assert_eq!(blocks[0].counter_bits_len(), 4);
    assert_eq!(blocks[0].metadata_bits_len(), CACHELINE_COUNTER_BLOCK_COUNTERS + 4);
    assert_eq!(blocks[1].counter_bits_len(), 3);
    assert_eq!(blocks[1].metadata_bits_len(), CACHELINE_COUNTER_BLOCK_COUNTERS + 3);
}

#[test]
fn split_then_merge_preserves_bucket() {
    let mut bucket = Cacheline_Counter_Bucket::default();
    bucket.set_block_words([101, 103, 107, 109]);

    for i in 0..CACHELINE_COUNTER_BUCKET_COUNTERS {
        let increments = (i * 13 + 7) & 7;
        for _ in 0..increments {
            assert!(bucket.increment_counter(i));
        }
    }

    let merged = Cacheline_Counter_Bucket::merge_blocks(bucket.split_into_blocks());

    assert_eq!(merged.raw, bucket.raw);
    for i in 0..CACHELINE_COUNTER_BUCKET_COUNTERS {
        assert_eq!(merged.get_counter(i), bucket.get_counter(i));
    }
}

#[test]
fn increments_grow_and_preserve_neighbor_counters() {
    let mut bucket = Cacheline_Counter_Bucket::default();

    assert!(bucket.increment_counter(7));
    assert_eq!(bucket.get_counter(7), 1);
    assert!(bucket.increment_counter(3));
    assert!(bucket.increment_counter(7));
    assert_eq!(bucket.get_counter(7), 2);
    assert!(bucket.increment_counter(7));
    assert!(bucket.increment_counter(63));

    assert_eq!(bucket.get_counter(3), 1);
    assert_eq!(bucket.get_counter(7), 3);
    assert_eq!(bucket.get_counter(63), 1);
    assert_eq!(bucket.get_counter(6), 0);
    assert_eq!(bucket.counter_location(3).width, 1);
    assert_eq!(bucket.counter_location(7).width, 2);
    assert_eq!(bucket.counter_location(63).width, 1);
}

#[test]
fn get_counter_endpoints_returns_payload_range_for_counter_range() {
    let mut bucket = Cacheline_Counter_Bucket::default();

    for _ in 0..5 {
        assert!(bucket.increment_counter(10));
    }
    assert!(bucket.increment_counter(11));
    assert!(bucket.increment_counter(12));

    assert_eq!(bucket.get_counter(10), 5);
    assert_eq!(bucket.get_counter(11), 1);
    assert_eq!(bucket.get_counter(12), 1);
    assert_eq!(bucket.get_counter_endpoints(10, 11), (0, 3));
    assert_eq!(bucket.get_counter_endpoints(11, 12), (3, 4));
    assert_eq!(bucket.get_counter_endpoints(12, 13), (4, 5));
    assert_eq!(bucket.get_counter_endpoints(10, 13), (0, 5));
    assert_eq!(bucket.get_counter_endpoints(0, 64), (0, 5));
}

#[test]
fn increment_reports_when_counter_would_exceed_64_bits() {
    let mut bucket = Cacheline_Counter_Bucket::default();

    bucket.set_metadata_words([0, u64::MAX, 0, 0]);
    bucket.set_counter_words([u64::MAX - 1, 0, 0]);

    assert_eq!(bucket.counter_location(0).width, 64);
    assert_eq!(bucket.get_counter(0), u64::MAX);
    assert!(!bucket.increment_counter(0));
    assert_eq!(bucket.get_counter(0), u64::MAX);
}

#[test]
fn fast_buckets_counters_match_reference_after_mixed_increment_patterns() {
    let mut bucket = Cacheline_Counter_Bucket::default();
    let mut reference = [0u64; CACHELINE_COUNTER_BUCKET_COUNTERS];

    for round in 0..4 {
        for step in 0..CACHELINE_COUNTER_BUCKET_COUNTERS {
            let index = (step * 17 + round * 11) & 63;
            assert!(bucket.increment_counter(index));
            reference[index] += 1;

            for (counter_index, expected) in reference.iter().enumerate() {
                assert_eq!(bucket.get_counter(counter_index), *expected);
            }
        }
    }

    let mut expected_start = 0usize;
    for (counter_index, expected) in reference.iter().enumerate() {
        let width = if *expected == 0 {
            0
        } else {
            let stored = *expected - 1;
            usize::max(1, u64::BITS as usize - stored.leading_zeros() as usize)
        };
        assert_eq!(
            bucket.get_counter_endpoints(counter_index, counter_index + 1),
            (expected_start, expected_start + width)
        );
        expected_start += width;
    }
    assert_eq!(
        bucket.get_counter_endpoints(0, CACHELINE_COUNTER_BUCKET_COUNTERS),
        (0, expected_start)
    );
}

#[test]
fn lines_take_sixty_four_bytes() {
    assert_eq!(core::mem::size_of::<Cacheline_Counter_Bucket>(), 64);
    assert_eq!(core::mem::size_of::<Counter_Block>(), 64);
}

#[test]
fn a_full_block_keeps_its_counters() {
    let mut block = Counter_Block::default();
    for i in 0..CACHELINE_COUNTER_BLOCK_COUNTERS {
        for _ in 0..3 {
            assert!(block.increment_counter(i));
        }
    }
    for i in 0..16 {
        assert!(block.increment_counter(i));
        assert!(block.increment_counter(i));
    }
    assert_eq!(block.counter_bits_len(), 80);
    let before = block;
    assert!(block.increment_counter(20));
    let after = block;
    assert!(!block.increment_counter(20));
    assert_eq!(block, after);
    assert_eq!(before.get_counter(20), 3);
    assert_eq!(block.get_counter(20), 4);
    assert_eq!(block.get_counter(0), 5);
    assert_eq!(block.access_counter_oblivious(0, false), 5);
    assert_eq!(block.access_counter_oblivious(0, true), 5);
    assert_eq!(block.get_counter(0), 6);
    assert_eq!(block.get_counter_endpoints(0, 2), (0, 6));
}

#[test]
fn a_full_bucket_refuses_one_more_bit() {
    let mut bucket = Cacheline_Counter_Bucket::default();
    for i in 0..CACHELINE_COUNTER_BUCKET_COUNTERS {
        for _ in 0..3 {
            assert!(bucket.increment_counter(i));
        }
    }
    for i in 0..32 {
        assert!(bucket.increment_counter(i));
        assert!(bucket.increment_counter(i));
    }
    assert_eq!(bucket.counter_location(63).used_bits, 160);
    assert!(bucket.increment_counter(63));
    let before = bucket;
    assert!(!bucket.increment_counter(63));
    assert_eq!(bucket, before);
}

#[test]
fn blocks_select_and_exchange() {
    let mut a = Counter_Block::new();
    let mut b = Counter_Block::new();
    a.set_key_pos(1, 2);
    b.set_key_pos(3, 4);
    a.cmov(&b, false);
    assert_eq!(a.key(), 1);
    a.cxchg(&mut b, true);
    assert_eq!((a.key(), b.key()), (3, 1));
    a.cmov(&b, true);
    assert_eq!(a, b);
    assert!(!a.is_empty());
    a.cmov_empty(false);
    assert_eq!(a, b);
    a.cmov_empty(true);
    assert!(a.is_empty());
    assert_eq!(a.key(), 1);
    let mut x = Cacheline_Counter_Bucket::new();
    let mut y = Cacheline_Counter_Bucket::new();
    x.set_block_words([1, 2, 3, 4]);
    x.cxchg(&mut y, true);
    assert_eq!(y.block_words(), [1, 2, 3, 4]);
    x.cmov(&y, true);
    assert_eq!(x, y);
}
