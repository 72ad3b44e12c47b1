//! Counter blocks that take a whole cache line each.
//!
//! A [`Counter_Block_Alt`] is eight words and owns one `(key, pos)` pair and 64
//! counters: one word for the pair, four words of metadata and three words of
//! payload. A bucket is two such blocks, so reading and writing a path copies blocks
//! and packs nothing.
//!
//! The counters are packed as [`crate::packed_counters`] says.
use vstd::prelude::*;
use crate::bits::{
    exchange_words, high_half, join, low_half, lower, padded, select_u64, select_words, upper,
    word_bits,
};
use crate::fast_buckets::lemma_all_zero;
use crate::packed_counters::{
    can_count, count_up, counted, lemma_packed_canonical, lemma_packed_unique, packed,
    payload_end_for_index, read_counter, used, Counted,
};
use crate::prelude::{PositionType, DUMMY_POS};

verus! {

/// Blocks per bucket.
pub const ALT_COUNTER_BUCKET_BLOCKS: usize = 2;

/// Counters per block.
pub const ALT_COUNTER_BLOCK_COUNTERS: usize = 64;

/// Metadata bits per block.
pub const ALT_COUNTER_BLOCK_METADATA_BITS: usize = 256;

/// Payload bits per block.
pub const ALT_COUNTER_BLOCK_COUNTER_BITS: usize = 192;

/// A cache line that holds one `(key, pos)` pair and 64 counters.
#[allow(non_camel_case_types)]
#[derive(Clone, Copy, Debug, PartialEq, Eq)]
pub struct Counter_Block_Alt {
    /// The eight words.
    pub raw: [u64; 8],
}

impl Counter_Block_Alt {
    /// Whether the block holds the counters `c`.
    pub open spec fn holds(self, c: Seq<u64>) -> bool {
        &&& c.len() == ALT_COUNTER_BLOCK_COUNTERS
        &&& packed(self.raw@.subrange(1, 5), self.raw@.subrange(5, 8), c)
    }

    /// Whether the block holds counters at all.
    pub open spec fn wf(self) -> bool {
        exists|c: Seq<u64>| self.holds(c)
    }

    /// The counters of the block.
    pub open spec fn counters(self) -> Seq<u64> {
        choose|c: Seq<u64>| self.holds(c)
    }

    /// The key of the block.
    pub open spec fn block_key(self) -> u32 {
        low_half(self.raw@[0])
    }

    /// The position of the block.
    pub open spec fn block_pos(self) -> PositionType {
        high_half(self.raw@[0])
    }

    /// The counters that a block holds are the only ones it holds.
    pub proof fn lemma_counters(self, c: Seq<u64>)
        requires
            self.holds(c),
        ensures
            self.wf(),
            self.counters() == c,
    {
        lemma_packed_unique(
            self.raw@.subrange(1, 5),
            self.raw@.subrange(5, 8),
            c,
            self.counters(),
        );
    }

    /// Two blocks with the same key, position and counters are the same.
    pub proof fn lemma_determined(self, other: Self)
        requires
            self.wf(),
            other.wf(),
            self.block_key() == other.block_key(),
            self.block_pos() == other.block_pos(),
            self.counters() == other.counters(),
        ensures
            self == other,
    {
        broadcast use vstd::array::group_array_axioms;

        let c = self.counters();
        assert(self.holds(c) && other.holds(c));
        lemma_packed_canonical(
            self.raw@.subrange(1, 5),
            self.raw@.subrange(5, 8),
            other.raw@.subrange(1, 5),
            other.raw@.subrange(5, 8),
            c,
        );
        assert(self.raw@ =~= seq![self.raw@[0]] + self.raw@.subrange(1, 5) + self.raw@.subrange(
            5,
            8,
        ));
        assert(other.raw@ =~= seq![other.raw@[0]] + other.raw@.subrange(1, 5)
            + other.raw@.subrange(5, 8));
        assert(self.raw =~= other.raw);
    }

    /// A vacant block with all its counters zero.
    pub fn new() -> (r: Self)
        ensures
            r.wf(),
            r.block_key() == 0,
            r.block_pos() == DUMMY_POS,
            r.counters() == Seq::new(64, |i: int| 0u64),
    {
        let r = Counter_Block_Alt { raw: [join(0, DUMMY_POS), u64::MAX, 0, 0, 0, 0, 0, 0] };
        proof {
            broadcast use crate::bits::group_bits;

            lemma_all_zero(64);
            let meta = r.raw@.subrange(1, 5);
            let pay = r.raw@.subrange(5, 8);
            assert(word_bits(meta) =~= padded(Seq::new(64, |i: int| true), 256)) by {
                assert forall|k: int| 0 <= k < 256 implies word_bits(meta)[k] == (k < 64) by {
                    assert(meta[k / 64] == (if k < 64 { u64::MAX } else { 0 }));
                }
            }
            assert(word_bits(pay) =~= padded(Seq::<bool>::empty(), 192)) by {
                assert forall|k: int| 0 <= k < 192 implies !word_bits(pay)[k] by {
                    assert(pay[k / 64] == 0);
                }
            }
            r.lemma_counters(Seq::new(64, |i: int| 0u64));
        }
        r
    }

    /// Becomes `other` exactly when `choice` holds.
    pub fn cmov(&mut self, other: &Self, choice: bool)
        ensures
            *final(self) == (if choice { *other } else { *old(self) }),
    {
        select_words(&mut self.raw, &other.raw, choice);
    }

    /// Exchanges the two exactly when `choice` holds.
    pub fn cxchg(&mut self, other: &mut Self, choice: bool)
        ensures
            *final(self) == (if choice { *old(other) } else { *old(self) }),
            *final(other) == (if choice { *old(self) } else { *old(other) }),
    {
        exchange_words(&mut self.raw, &mut other.raw, choice);
    }

    /// The block's key.
    pub fn key(&self) -> (r: u32)
        ensures
            r == self.block_key(),
    {
        lower(self.raw[0])
    }

    /// The block's position.
    pub fn pos(&self) -> (r: PositionType)
        ensures
            r == self.block_pos(),
    {
        upper(self.raw[0])
    }

    /// Sets the block's key and position.
    pub fn set_key_pos(&mut self, key: u32, pos: PositionType)
        ensures
            final(self).block_key() == key,
            final(self).block_pos() == pos,
            forall|c: Seq<u64>| #[trigger] final(self).holds(c) == old(self).holds(c),
            old(self).wf() ==> final(self).wf() && final(self).counters() == old(self).counters(),
    {
        let ghost before = *self;
        self.raw[0] = join(key, pos);
        proof {
            assert(self.raw@.subrange(1, 5) =~= before.raw@.subrange(1, 5));
            assert(self.raw@.subrange(5, 8) =~= before.raw@.subrange(5, 8));
            if before.wf() {
                self.lemma_counters(before.counters());
            }
        }
    }

    /// Makes the block vacant exactly when `choice` holds, by its position alone.
    pub fn cmov_empty(&mut self, choice: bool)
        ensures
            final(self).block_key() == old(self).block_key(),
            final(self).block_pos() == (if choice { DUMMY_POS } else { old(self).block_pos() }),
            forall|c: Seq<u64>| #[trigger] final(self).holds(c) == old(self).holds(c),
            old(self).wf() ==> final(self).wf() && final(self).counters() == old(self).counters(),
    {
        let ghost before = *self;
        let emptied: u64 = join(lower(self.raw[0]), DUMMY_POS);
        self.raw[0] = select_u64(self.raw[0], emptied, choice);
        proof {
            assert(self.raw@.subrange(1, 5) =~= before.raw@.subrange(1, 5));
            assert(self.raw@.subrange(5, 8) =~= before.raw@.subrange(5, 8));
            if before.wf() {
                self.lemma_counters(before.counters());
            }
        }
    }

    /// Whether the block is vacant.
    pub fn is_empty(&self) -> (r: bool)
        ensures
            r == (self.block_pos() == DUMMY_POS),
    {
        self.pos() == DUMMY_POS
    }

    /// The value of counter `index`.
    pub fn get_counter(&self, index: usize) -> (r: u64)
        requires
            self.wf(),
            index < ALT_COUNTER_BLOCK_COUNTERS,
        ensures
            r == self.counters()[index as int],
    {
        read_counter(
            &self.metadata_words(),
            &self.counter_words(),
            index,
            Ghost(self.counters()),
        )
    }

    /// The payload bits of the counters in `start_index..end_index`.
    pub fn get_counter_endpoints(&self, start_index: usize, end_index: usize) -> (r: (usize, usize))
        requires
            self.wf(),
            start_index <= end_index <= ALT_COUNTER_BLOCK_COUNTERS,
        ensures
            r.0 == used(self.counters().take(start_index as int)),
            r.1 == used(self.counters().take(end_index as int)),
    {
        let words: [u64; 4] = self.metadata_words();
        (
            payload_end_for_index(&words, start_index, Ghost(self.counters())),
            payload_end_for_index(&words, end_index, Ghost(self.counters())),
        )
    }

    /// Counts counter `index` up, and tells whether there was room for it.
    pub fn increment_counter(&mut self, index: usize) -> (r: bool)
        requires
            old(self).wf(),
            index < ALT_COUNTER_BLOCK_COUNTERS,
        ensures
            r == can_count(
                old(self).counters(),
                index as int,
                ALT_COUNTER_BLOCK_COUNTER_BITS as nat,
            ),
            final(self).wf(),
            final(self).block_key() == old(self).block_key(),
            final(self).block_pos() == old(self).block_pos(),
            r ==> final(self).counters() == counted(old(self).counters(), index as int),
            !r ==> *final(self) == *old(self),
    {
        self.get_and_increment_counter(index).1
    }

    /// Gives the value of counter `index` and counts it up; the second part of the
    /// result tells whether there was room for it.
    pub fn get_and_increment_counter(&mut self, index: usize) -> (r: (u64, bool))
        requires
            old(self).wf(),
            index < ALT_COUNTER_BLOCK_COUNTERS,
        ensures
            r.0 == old(self).counters()[index as int],
            r.1 == can_count(
                old(self).counters(),
                index as int,
                ALT_COUNTER_BLOCK_COUNTER_BITS as nat,
            ),
            final(self).wf(),
            final(self).block_key() == old(self).block_key(),
            final(self).block_pos() == old(self).block_pos(),
            r.1 ==> final(self).counters() == counted(old(self).counters(), index as int),
            !r.1 ==> *final(self) == *old(self),
    {
        self.get_and_increment_counter_if(index, true)
    }

    /// Gives the value of counter `selected_index`, and counts it up when `increment`
    /// holds and there is room for it.
    pub fn access_counter_oblivious(&mut self, selected_index: usize, increment: bool) -> (r: u64)
        requires
            old(self).wf(),
            selected_index < ALT_COUNTER_BLOCK_COUNTERS,
        ensures
            r == old(self).counters()[selected_index as int],
            final(self).wf(),
            final(self).block_key() == old(self).block_key(),
            final(self).block_pos() == old(self).block_pos(),
            final(self).counters() == (if increment && can_count(
                old(self).counters(),
                selected_index as int,
                ALT_COUNTER_BLOCK_COUNTER_BITS as nat,
            ) {
                counted(old(self).counters(), selected_index as int)
            } else {
                old(self).counters()
            }),
    {
        if increment {
            self.get_and_increment_counter(selected_index).0
        } else {
            self.get_counter(selected_index)
        }
    }

    fn get_and_increment_counter_if(&mut self, index: usize, enable: bool) -> (r: (u64, bool))
        requires
            old(self).wf(),
            index < ALT_COUNTER_BLOCK_COUNTERS,
        ensures
            r.0 == old(self).counters()[index as int],
            r.1 == can_count(
                old(self).counters(),
                index as int,
                ALT_COUNTER_BLOCK_COUNTER_BITS as nat,
            ),
            final(self).wf(),
            final(self).block_key() == old(self).block_key(),
            final(self).block_pos() == old(self).block_pos(),
            enable && r.1 ==> final(self).counters() == counted(
                old(self).counters(),
                index as int,
            ),
            !enable || !r.1 ==> *final(self) == *old(self),
    {
        let ghost c = self.counters();
        let ghost before = *self;
        let result: Counted<4, 3> = count_up(
            &self.metadata_words(),
            &self.counter_words(),
            index,
            ALT_COUNTER_BLOCK_COUNTERS,
            ALT_COUNTER_BLOCK_COUNTER_BITS,
            enable,
            Ghost(c),
        );
        let ghost next = if enable && result.counted {
            counted(c, index as int)
        } else {
            c
        };
        self.set_metadata_words(result.meta);
        self.set_counter_words(result.pay);
        proof {
            assert(self.holds(next));
            self.lemma_counters(next);
            if !(enable && result.counted) {
                self.lemma_determined(before);
            }
        }
        (result.old_value, result.counted)
    }

    fn metadata_words(&self) -> (r: [u64; 4])
        ensures
            r@ == self.raw@.subrange(1, 5),
    {
        [self.raw[1], self.raw[2], self.raw[3], self.raw[4]]
    }

    fn set_metadata_words(&mut self, words: [u64; 4])
        ensures
            final(self).raw@.subrange(1, 5) == words@,
            final(self).raw@.subrange(5, 8) == old(self).raw@.subrange(5, 8),
            final(self).raw@[0] == old(self).raw@[0],
    {
        self.raw[1] = words[0];
        self.raw[2] = words[1];
        self.raw[3] = words[2];
        self.raw[4] = words[3];
    }

    fn counter_words(&self) -> (r: [u64; 3])
        ensures
            r@ == self.raw@.subrange(5, 8),
    {
        [self.raw[5], self.raw[6], self.raw[7]]
    }

    fn set_counter_words(&mut self, words: [u64; 3])
        ensures
            final(self).raw@.subrange(5, 8) == words@,
            final(self).raw@.subrange(1, 5) == old(self).raw@.subrange(1, 5),
            final(self).raw@[0] == old(self).raw@[0],
    {
        self.raw[5] = words[0];
        self.raw[6] = words[1];
        self.raw[7] = words[2];
    }
}

impl Default for Counter_Block_Alt {
    fn default() -> (r: Self)
        ensures
            r.wf(),
            r.block_key() == 0,
            r.block_pos() == DUMMY_POS,
            r.counters() == Seq::new(64, |i: int| 0u64),
    {
        Counter_Block_Alt::new()
    }
}

/// An oblivious RAM bucket of two blocks.
#[allow(non_camel_case_types)]
#[derive(Clone, Copy, Debug, PartialEq, Eq)]
pub struct Cacheline_Counter_Bucket_Alt {
    /// The two blocks.
    pub blocks: [Counter_Block_Alt; 2],
}

impl Default for Cacheline_Counter_Bucket_Alt {
    fn default() -> (r: Self)
        ensures
            forall|i: int|
                0 <= i < 2 ==> (#[trigger] r.blocks@[i]).wf() && r.blocks@[i].block_key() == 0
                    && r.blocks@[i].block_pos() == DUMMY_POS && r.blocks@[i].counters() == Seq::new(
                    64,
                    |j: int| 0u64,
                ),
    {
        Cacheline_Counter_Bucket_Alt { blocks: [Counter_Block_Alt::new(), Counter_Block_Alt::new()] }
    }
}

} // verus!
