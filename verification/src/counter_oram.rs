//! An oblivious array of counters that can be counted up and taken back to zero.
//!
//! Counter address `key` is taken apart into `(prefix, suffix)`: `suffix = key % 64` names
//! a counter inside a block and `prefix = key / 64` names a block. Counter
//! `(prefix, suffix)` lives in block `prefix ^ values[suffix]`, so that counters that are
//! counted often do not gather in one block. The position map belongs to the caller.
use vstd::prelude::*;
use crate::b_tree_components::ObliviousArray;
use crate::circuit_oram::{Block, CircuitORAM};
use crate::fast_buckets_15::COUNTER_15_BLOCK_COUNTERS;
use crate::heap_tree::lemma_full_width;
use crate::oblivious::{cmov_u32, cmov_u64, ObliviousValue};
use crate::prelude::{ceil_pow2, PositionType};
use crate::random::random_u32;

verus! {

/// What an access does to its counter.
#[derive(Debug, Clone, Copy, PartialEq, Eq, Structural)]
pub enum CounterOp {
    /// It counts up, around again after the last number.
    Increment,
    /// It goes back to zero.
    Reset,
}

impl CounterOp {
    /// The counter after the access.
    pub open spec fn applied(self, c: u64) -> u64 {
        match self {
            CounterOp::Increment => if c == u64::MAX {
                0
            } else {
                (c + 1) as u64
            },
            CounterOp::Reset => 0,
        }
    }

    /// The counter after the access, with the choice made without a branch on it.
    pub fn apply(self, c: u64) -> (r: u64)
        ensures
            r == self.applied(c),
    {
        let mut r: u64 = c.wrapping_add(1);
        let reset: bool = match self {
            CounterOp::Increment => false,
            CounterOp::Reset => true,
        };
        cmov_u64(&mut r, 0, reset);
        r
    }
}

/// The number of counters of a block.
pub const BLOCK: usize = COUNTER_15_BLOCK_COUNTERS;

/// Circuit ORAM for an array of counters.
#[derive(Debug)]
pub struct CounterORAM {
    /// Number of counters.
    pub max_n: usize,
    /// Number of blocks, a power of two.
    pub max_blocks: usize,
    /// For every suffix, what turns a prefix into the number of a block.
    pub values: [PositionType; 64],
    /// The blocks.
    pub oram: CircuitORAM<ObliviousArray<u64, 64>>,
}

impl CounterORAM {
    /// The sizes fit together.
    pub open spec fn wf(&self) -> bool {
        &&& self.oram.wf()
        &&& self.max_blocks == self.oram.max_n
        &&& 0 < self.max_n <= 64 * self.max_blocks
        &&& forall|i: int| 0 <= i < 64 ==> #[trigger] self.values@[i] < self.max_blocks
    }

    /// What no access changes.
    pub open spec fn same_frame(&self, other: &Self) -> bool {
        &&& self.max_n == other.max_n
        &&& self.max_blocks == other.max_blocks
        &&& self.values == other.values
    }

    /// The block of counter `key`.
    pub open spec fn target(&self, key: int) -> usize {
        ((key / 64) as usize) ^ (self.values@[key % 64] as usize)
    }

    /// Counter `key`: zero while its block is not stored.
    pub open spec fn counter(&self, key: int) -> u64 {
        self.oram.value_at(self.target(key)).data@[key % 64]
    }

    /// Whether block `b` is stored.
    pub open spec fn stores(&self, b: u32) -> bool {
        self.oram@.contains_key(b)
    }

    /// The position of block `b`.
    pub open spec fn pos_of(&self, b: u32) -> PositionType {
        self.oram@[b].pos
    }

    /// Creates `max_n` counters, all zero.
    pub fn new(max_n: usize) -> (r: Self)
        requires
            0 < max_n <= 0x8000_0000,
        ensures
            r.wf(),
            r.max_n == max_n,
            r.max_blocks == ceil_pow2(if max_n <= 64 { 2 } else { ((max_n - 1) / 64 + 1) as int }),
            r.oram@ == Map::<u32, Block<ObliviousArray<u64, 64>>>::empty(),
            forall|k: int| 0 <= k < max_n ==> #[trigger] r.counter(k) == 0,
            r.oram.vacant_from(0),
    {
        let blocks: usize = (max_n - 1) / BLOCK + 1;
        let oram: CircuitORAM<ObliviousArray<u64, 64>> = CircuitORAM::new(blocks);
        let max_blocks: usize = oram.max_n;
        proof {
            lemma_full_width(oram.h - 1, 2);
        }
        let mut values: [u32; 64] = [0; 64];
        let mut i: usize = 0;
        while i < 64
            invariant
                i <= 64,
                0 < max_blocks <= 0x8000_0000,
                forall|j: int| 0 <= j < 64 ==> #[trigger] values@[j] < max_blocks,
            decreases 64 - i,
        {
            values[i] = random_u32() % max_blocks as u32;
            i += 1;
        }
        let r = CounterORAM { max_n, max_blocks, values, oram };
        proof {
            assert forall|k: int| 0 <= k < max_n implies #[trigger] r.counter(k) == 0 by {
                assert(ObliviousArray::<u64, 64>::zero().data@[k % 64] == 0);
            }
        }
        r
    }

    /// The block of a counter is one of the blocks.
    pub proof fn lemma_target_in_range(&self, key: int)
        requires
            self.wf(),
            0 <= key < self.max_n,
        ensures
            self.target(key) < self.max_blocks,
    {
        let e = (self.oram.h - 1) as usize;
        let m = self.max_blocks;
        let v = self.values@[key % 64] as usize;
        let prefix = (key / 64) as usize;
        vstd::arithmetic::power2::lemma_pow2((self.oram.h - 1) as nat);
        vstd::bits::lemma_usize_shl_is_mul(1, e);
        lemma_full_width(self.oram.h - 1, 2);
        assert(m == 1usize << e);
        assert(prefix ^ v < m) by (bit_vector)
            requires
                prefix < m,
                v < m,
                m == 1usize << e,
                e < 32,
        ;
    }

    /// Two counters at one place are one counter.
    pub proof fn lemma_places_distinct(&self, a: int, b: int)
        requires
            self.wf(),
            0 <= a < self.max_n,
            0 <= b < self.max_n,
            a % 64 == b % 64,
            self.target(a) == self.target(b),
        ensures
            a == b,
    {
        let v = self.values@[a % 64] as usize;
        let x = (a / 64) as usize;
        let y = (b / 64) as usize;
        assert(x == y) by (bit_vector)
            requires
                x ^ v == y ^ v,
        ;
    }

    /// The index in the caller's position map for a flat counter address.
    pub fn position_map_key_for_key(&self, key: usize) -> (r: usize)
        requires
            self.wf(),
            key < self.max_n,
        ensures
            r == self.target(key as int),
            r < self.max_blocks,
    {
        let suffix: usize = key % BLOCK;
        let mut mask: u32 = 0;
        let mut i: usize = 0;
        while i < 64
            invariant
                i <= 64,
                suffix < 64,
                suffix < i ==> mask == self.values@[suffix as int],
            decreases 64 - i,
        {
            cmov_u32(&mut mask, self.values[i], i == suffix);
            i += 1;
        }
        proof {
            self.lemma_target_in_range(key as int);
        }
        (key / BLOCK) ^ mask as usize
    }

    /// What an access to counter `key` does when the stash has room for its block.
    pub open spec fn accessed(
        &self,
        before: &Self,
        key: int,
        new_pos: PositionType,
        op: CounterOp,
    ) -> bool {
        let b = before.target(key) as u32;
        &&& forall|k: int|
            0 <= k < before.max_n ==> #[trigger] self.counter(k) == (if k == key {
                op.applied(before.counter(k))
            } else {
                before.counter(k)
            })
        &&& forall|c: u32| #[trigger] self.stores(c) <==> before.stores(c) || c == b
        &&& forall|c: u32|
            self.stores(c) ==> #[trigger] self.pos_of(c) == (if c == b {
                new_pos
            } else {
                before.pos_of(c)
            })
    }

    /// Which slots the blocks are in after an access with `op` to counter `key` along the
    /// path to `pos` that moves its block to `new_pos`.
    pub open spec fn moved(
        &self,
        before: &Self,
        pos: PositionType,
        new_pos: PositionType,
        key: int,
        op: CounterOp,
    ) -> bool {
        let b = before.target(key);
        exists|line: ObliviousArray<u64, 64>| #[trigger]
            self.oram.left(&before.oram, pos, Block { pos: new_pos, key: b, value: line })
                && line.data@ == before.oram.value_at(b).data@.update(
                key % 64,
                op.applied(before.counter(key)),
            )
    }

    /// Gives counter `key`, applies `op` to it and moves its block to `new_pos`. Tells
    /// whether the stash had room for the block.
    pub fn access(&mut self, pos: PositionType, new_pos: PositionType, key: usize, op: CounterOp) -> (r: (
        u64,
        bool,
    ))
        requires
            old(self).wf(),
            key < old(self).max_n,
            new_pos < old(self).max_blocks,
            old(self).oram.may_access(pos, old(self).target(key as int)),
        ensures
            final(self).wf(),
            final(self).same_frame(old(self)),
            r.0 == old(self).counter(key as int),
            r.1 == old(self).oram.state().has_room(old(self).target(key as int) as u32),
            r.1 ==> final(self).accessed(old(self), key as int, new_pos, op),
            final(self).moved(old(self), pos, new_pos, key as int, op),
            forall|m: int| #[trigger]
                old(self).oram.vacant_from(m) && 0 <= m ==> final(self).oram.vacant_from(m + 1),
    {
        let ghost before = *self;
        let target: usize = self.position_map_key_for_key(key);
        let suffix: usize = key % BLOCK;
        let mut block: Block<ObliviousArray<u64, 64>> = Block::default();
        let _found: bool = self.oram.open_and_remove(pos, target, &mut block);
        let ghost opened = self.oram;
        let ghost line = before.oram.value_at(target);
        let mut counters: ObliviousArray<u64, 64> = block.value;
        assert(counters == line);
        let mut value: u64 = 0;
        counters.read(suffix, &mut value);
        counters.write(suffix, op.apply(value));
        let moved: Block<ObliviousArray<u64, 64>> = Block {
            pos: new_pos,
            key: target,
            value: counters,
        };
        let written: bool = self.oram.place_and_finish(pos, &moved);
        proof {
            self.oram.lemma_accessed(&before.oram, &opened, target, moved);
            assert(self.oram.left(&before.oram, pos, moved));
            assert(counters.data@ =~= line.data@.update(
                key as int % 64,
                op.applied(before.counter(key as int)),
            ));
            before.lemma_target_in_range(key as int);
            if written {
                assert forall|k: int| 0 <= k < before.max_n implies #[trigger] self.counter(k) == (
                if k == key {
                    op.applied(before.counter(k))
                } else {
                    before.counter(k)
                }) by {
                    before.lemma_target_in_range(k);
                    assert(self.target(k) == before.target(k));
                    if before.target(k) == target {
                        if k % 64 == suffix {
                            before.lemma_places_distinct(k, key as int);
                        }
                    }
                }
            }
        }
        (value, written)
    }

    /// Moves block `b` to `new_pos`, if it is stored. Tells whether the stash had room for
    /// it.
    pub fn remap_position_map_key(&mut self, pos: PositionType, new_pos: PositionType, b: usize) -> (written:
        bool)
        requires
            old(self).wf(),
            new_pos < old(self).max_blocks,
            old(self).oram.may_access(pos, b),
        ensures
            final(self).wf(),
            final(self).same_frame(old(self)),
            written == (!old(self).stores(b as u32) || old(self).oram.state().has_room(b as u32)),
            final(self).oram.remapped(&old(self).oram, pos, new_pos, b),
            written ==> forall|k: int|
                0 <= k < old(self).max_n ==> #[trigger] final(self).counter(k) == old(
                    self,
                ).counter(k),
            written ==> forall|c: u32| #[trigger] final(self).stores(c) <==> old(self).stores(c),
            written ==> forall|c: u32|
                old(self).stores(c) ==> #[trigger] final(self).pos_of(c) == (if c == b {
                    new_pos
                } else {
                    old(self).pos_of(c)
                }),
            forall|m: int| #[trigger]
                old(self).oram.vacant_from(m) && 0 <= m ==> final(self).oram.vacant_from(m + 1),
    {
        let ghost before = *self;
        let mut block: Block<ObliviousArray<u64, 64>> = Block::default();
        let found: bool = self.oram.open_and_remove(pos, b, &mut block);
        let ghost opened = self.oram;
        cmov_u32(&mut block.pos, new_pos, found);
        block.key = b;
        let placed: bool = self.oram.place_and_finish(pos, &block);
        proof {
            self.oram.lemma_accessed(&before.oram, &opened, b, block);
            assert(self.oram.left(&before.oram, pos, block));
            if !found || placed {
                assert forall|k: int| 0 <= k < before.max_n implies #[trigger] self.counter(k)
                    == before.counter(k) by {
                    before.lemma_target_in_range(k);
                    assert(self.target(k) == before.target(k));
                }
            }
        }
        crate::oblivious::either(!found, placed)
    }
}

} // verus!
