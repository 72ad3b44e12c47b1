//! Circuit ORAM specialized for packed counters.
//!
//! The address space has `max_n` counters. Counter address `key` is taken apart into
//! `(prefix, suffix)`: `suffix = key % 32` names a counter inside a [`Counter_Block`]
//! and `prefix = key / 32` names a block. So that large counters do not gather in one
//! block, counter `(prefix, suffix)` lives in block `prefix ^ values[suffix]`, where
//! `values` holds 32 block numbers drawn at random when the ORAM is made.
//!
//! The position map belongs to the caller: every access takes the current and the next
//! position of the block, and `position_map_key` tells which block that is.
use vstd::prelude::*;
use crate::circuit::{column_fits, column_settled, column_size, evict_column, lasting};
use crate::circuit_oram::{S, Z};
use crate::fast_buckets::{Cacheline_Counter_Bucket, Counter_Block};
use crate::fast_buckets::{CACHELINE_COUNTER_BLOCK_COUNTERS, CACHELINE_COUNTER_BLOCK_COUNTER_BITS};
use crate::heap_tree::{full_width, lemma_full_width, lemma_full_width_grows, HeapTree};
use crate::oblivious::{cmov_i64, cmov_u32, ObliviousBlock};
use crate::packed_counters::{can_count, counted, used};
use crate::path_access::{
    access, evictions, finishes, lemma_no_eviction, lemma_one_more_eviction, lemma_put_is_first,
    lemma_rows_put_back, lemma_taken, path_depths, put_back, settles, without_key,
};
use crate::path_store::{holds_key, keys, put_first, take_key, PathBlock, PathState};
use crate::prelude::{binary_shape, ceil_pow2, filled, PositionType, DUMMY_POS};
use crate::random::random_u32;
use crate::suffix::{common_suffix_length, lemma_shared_bits, meets, shared_bits};
use crate::tally::{one_per_key, tally};

verus! {

/// Evictions along public paths after every access.
pub const EVICTIONS_PER_OP: usize = 2;

impl PathBlock for Counter_Block {
    open spec fn key_of(self) -> u32 {
        self.block_key()
    }

    open spec fn leaf_of(self) -> int {
        self.block_pos() as int
    }

    fn own_key(&self) -> (r: u32) {
        self.key()
    }
}

/// Whether a slot holds counters that fit in half a bucket.
#[verifier::opaque]
pub open spec fn sound(b: Counter_Block) -> bool {
    b.wf() && used(b.counters()) <= CACHELINE_COUNTER_BLOCK_COUNTER_BITS
}

/// Whether a bucket holds counters of which each half fits in half a bucket.
#[verifier::opaque]
pub open spec fn bucket_sound(b: Cacheline_Counter_Bucket) -> bool {
    b.wf() && sound(b.block(0)) && sound(b.block(1))
}

/// The blocks of every bucket.
pub open spec fn bucket_rows(t: Seq<Cacheline_Counter_Bucket>) -> Seq<Seq<Counter_Block>> {
    Seq::new(t.len(), |k: int| seq![t[k].block(0), t[k].block(1)])
}

/// How deep a block may go on the path to `path`; vacant slots have depth -1.
pub open spec fn depth_of(b: Counter_Block, path: PositionType) -> i64 {
    if b.vacant() {
        (-1) as i64
    } else {
        shared_bits(b.block_pos() as int, path as int, 32) as i64
    }
}

/// [`depth_of`] every slot.
pub open spec fn depths(s: Seq<Counter_Block>, path: PositionType) -> Seq<i64> {
    Seq::new(s.len(), |i: int| depth_of(s[i], path))
}

/// A pass over an open path that is then put back settles it.
proof fn lemma_settled(
    st: PathState<Counter_Block>,
    moved: PathState<Counter_Block>,
    after: PathState<Counter_Block>,
    pos: PositionType,
)
    requires
        st.s == S,
        st.w == 2,
        column_settled(st.work, depths(st.work, pos), moved.work, S + 2, 2, st.geo.h),
        moved == st.with_work(moved.work),
        after == (PathState { nodes: put_back(moved, pos as int), ..moved }),
    ensures
        settles(st, after, pos as int),
{
    assert(depths(st.work, pos) =~= path_depths(st.work, pos as int));
}

/// A fresh slot is sound, and taking a block out of a slot keeps it sound.
proof fn lemma_sound_lasts()
    ensures
        lasting(|c: Counter_Block| sound(c)),
{
    reveal(sound);
    let p = |c: Counter_Block| sound(c);
    let b = Counter_Block::blank();
    Counter_Block::lemma_blank();
    assert(p(b));
    assert forall|c: Counter_Block| p(c) implies p(#[trigger] c.vacated()) by {
        c.lemma_vacated();
    }
}

/// Both blocks of the bucket are vacant, with key zero, and all counters are zero.
pub open spec fn new_bucket(b: Cacheline_Counter_Bucket) -> bool {
    &&& b.wf()
    &&& b.slot_key(0) == 0
    &&& b.slot_key(1) == 0
    &&& b.slot_pos(0) == DUMMY_POS
    &&& b.slot_pos(1) == DUMMY_POS
    &&& b.counters() == Seq::new(64, |i: int| 0u64)
}

/// What a sound bucket has.
proof fn lemma_bucket_sound(b: Cacheline_Counter_Bucket)
    requires
        bucket_sound(b),
    ensures
        b.wf(),
        sound(b.block(0)),
        sound(b.block(1)),
{
    reveal(bucket_sound);
}

/// Copies the blocks of `buckets` to `out`, from slot `start` on.
fn split_buckets(buckets: &Vec<Cacheline_Counter_Bucket>, out: &mut Vec<Counter_Block>, start: usize)
    requires
        start + 2 * buckets.len() <= old(out).len(),
        forall|i: int| 0 <= i < buckets.len() ==> (#[trigger] buckets@[i]).wf(),
    ensures
        final(out).len() == old(out).len(),
        forall|i: int|
            0 <= i < buckets.len() ==> final(out)@[start + 2 * i] == (
            #[trigger] buckets@[i]).block(0) && final(out)@[start + 2 * i + 1]
                == buckets@[i].block(1),
        forall|k: int|
            0 <= k < old(out).len() && !(start <= k < start + 2 * buckets.len())
                ==> #[trigger] final(out)@[k] == old(out)@[k],
{
    let mut i: usize = 0;
    let ghost before = out@;
    while i < buckets.len()
        invariant
            i <= buckets.len(),
            out.len() == before.len(),
            start + 2 * buckets.len() <= out.len(),
            forall|k: int| 0 <= k < buckets.len() ==> (#[trigger] buckets@[k]).wf(),
            forall|k: int|
                0 <= k < i ==> out@[start + 2 * k] == (#[trigger] buckets@[k]).block(0)
                    && out@[start + 2 * k + 1] == buckets@[k].block(1),
            forall|k: int|
                0 <= k < before.len() && !(start <= k < start + 2 * i) ==> #[trigger] out@[k]
                    == before[k],
        decreases buckets.len() - i,
    {
        let blocks: [Counter_Block; 2] = buckets[i].split_into_blocks();
        proof {
            assert(buckets@[i as int].wf());
            buckets@[i as int].lemma_block(0, blocks@[0]);
            buckets@[i as int].lemma_block(1, blocks@[1]);
        }
        out.set(start + 2 * i, blocks[0]);
        out.set(start + 2 * i + 1, blocks[1]);
        i += 1;
    }
}

/// Packs the slots of `blocks` from slot `start` on into `buckets`, two by two.
fn merge_pairs(blocks: &Vec<Counter_Block>, start: usize, buckets: &mut Vec<Cacheline_Counter_Bucket>)
    requires
        start + 2 * old(buckets).len() <= blocks.len(),
        forall|k: int|
            start <= k < start + 2 * old(buckets).len() ==> sound(#[trigger] blocks@[k]),
    ensures
        final(buckets).len() == old(buckets).len(),
        forall|i: int|
            0 <= i < final(buckets).len() ==> bucket_sound(#[trigger] final(buckets)@[i])
                && final(buckets)@[i].block(0) == blocks@[start + 2 * i] && final(buckets)@[i].block(
                1,
            ) == blocks@[start + 2 * i + 1],
{
    let mut i: usize = 0;
    let n: usize = buckets.len();
    while i < n
        invariant
            i <= n == buckets.len(),
            start + 2 * n <= blocks.len(),
            forall|k: int| start <= k < start + 2 * n ==> sound(#[trigger] blocks@[k]),
            forall|k: int|
                0 <= k < i ==> bucket_sound(#[trigger] buckets@[k]) && buckets@[k].block(0)
                    == blocks@[start + 2 * k] && buckets@[k].block(1) == blocks@[start + 2 * k + 1],
        decreases n - i,
    {
        let first: Counter_Block = blocks[start + 2 * i];
        let second: Counter_Block = blocks[start + 2 * i + 1];
        proof {
            reveal(sound);
        }
        let bucket = Cacheline_Counter_Bucket::merge_blocks([first, second]);
        proof {
            bucket.lemma_block(0, first);
            bucket.lemma_block(1, second);
            reveal(bucket_sound);
        }
        buckets.set(i, bucket);
        i += 1;
    }
}

impl HeapTree<Cacheline_Counter_Bucket> {
    /// Copies the buckets on the path to `path`.
    fn load_buckets(&self, path: PositionType, out: &mut Vec<Cacheline_Counter_Bucket>)
        requires
            self.wf(),
            path < self.leaf_count,
            old(out).len() == self.height,
        ensures
            final(out).len() == self.height,
            forall|d: int|
                0 <= d < self.height ==> #[trigger] final(out)@[d] == self.node(d, path as int),
    {
        let mut d: usize = 0;
        while d < self.height
            invariant
                d <= self.height == out.len(),
                self.wf(),
                path < self.leaf_count,
                forall|e: int| 0 <= e < d ==> #[trigger] out@[e] == self.node(e, path as int),
            decreases self.height - d,
        {
            let index: usize = self.get_index(d, path);
            out.set(d, self.tree[index]);
            d += 1;
        }
    }

    /// Replaces the buckets on the path to `path`.
    fn store_buckets(&mut self, path: PositionType, input: &Vec<Cacheline_Counter_Bucket>)
        requires
            old(self).wf(),
            path < old(self).leaf_count,
            input.len() == old(self).height,
        ensures
            final(self).wf(),
            final(self).same_shape(old(self)),
            forall|d: int|
                0 <= d < old(self).height ==> #[trigger] final(self).node(d, path as int)
                    == input@[d],
            forall|k: int|
                0 <= k < old(self).tree.len() && !old(self).path_indices(path as int).contains(k)
                    ==> #[trigger] final(self).tree@[k] == old(self).tree@[k],
    {
        let mut d: usize = 0;
        let ghost before = *self;
        let ghost at = self.path_indices(path as int);
        proof {
            self.lemma_path_indices(path as int);
        }
        while d < self.height
            invariant
                d <= self.height == input.len(),
                before.wf(),
                self.wf(),
                self.same_shape(&before),
                path < self.leaf_count,
                at == before.path_indices(path as int),
                forall|e: int| 0 <= e < self.height ==> 0 <= #[trigger] at[e] < self.tree.len(),
                forall|e: int, f: int|
                    0 <= e < f < self.height ==> #[trigger] at[e] != #[trigger] at[f],
                forall|e: int| 0 <= e < d ==> #[trigger] self.tree@[at[e]] == input@[e],
                forall|k: int|
                    0 <= k < before.tree.len() && !at.contains(k) ==> #[trigger] self.tree@[k]
                        == before.tree@[k],
            decreases self.height - d,
        {
            let index: usize = self.get_index(d, path);
            assert(at[d as int] == index);
            assert(at.contains(index as int));
            self.tree.set(index, input[d]);
            d += 1;
        }
        proof {
            assert forall|e: int| 0 <= e < before.height implies #[trigger] self.node(
                e,
                path as int,
            ) == input@[e] by {
                assert(self.tree@[at[e]] == input@[e]);
            }
        }
    }

    /// Reads all counter blocks on a path into `out`, from slot `start` on.
    pub fn read_counter_path(&self, path: PositionType, out: &mut Vec<Counter_Block>, start: usize)
        requires
            self.wf(),
            path < self.leaf_count,
            start + 2 * self.height <= old(out).len(),
            forall|d: int| 0 <= d < self.height ==> (#[trigger] self.node(d, path as int)).wf(),
        ensures
            final(out).len() == old(out).len(),
            forall|d: int|
                0 <= d < self.height ==> final(out)@[start + 2 * d] == (
                #[trigger] self.node(d, path as int)).block(0) && final(out)@[start + 2 * d + 1]
                    == self.node(d, path as int).block(1),
            forall|k: int|
                0 <= k < old(out).len() && !(start <= k < start + 2 * self.height)
                    ==> #[trigger] final(out)@[k] == old(out)@[k],
    {
        let mut buckets: Vec<Cacheline_Counter_Bucket> = filled(
            Cacheline_Counter_Bucket::new(),
            self.height,
        );
        self.load_buckets(path, &mut buckets);
        proof {
            assert forall|i: int| 0 <= i < buckets.len() implies (#[trigger] buckets@[i]).wf() by {
                assert(self.node(i, path as int).wf());
            }
        }
        split_buckets(&buckets, out, start);
        proof {
            assert forall|d: int| 0 <= d < self.height implies out@[start + 2 * d] == (
            #[trigger] self.node(d, path as int)).block(0) && out@[start + 2 * d + 1] == self.node(
                d,
                path as int,
            ).block(1) by {
                assert(buckets@[d] == self.node(d, path as int));
            }
        }
    }

    /// Writes all counter blocks on a path from `input`, from slot `start` on.
    pub fn write_counter_path(&mut self, path: PositionType, input: &Vec<Counter_Block>, start: usize)
        requires
            old(self).wf(),
            path < old(self).leaf_count,
            start + 2 * old(self).height <= input.len(),
            forall|k: int|
                start <= k < start + 2 * old(self).height ==> sound(#[trigger] input@[k]),
        ensures
            final(self).wf(),
            final(self).same_shape(old(self)),
            forall|d: int|
                0 <= d < old(self).height ==> bucket_sound(
                    #[trigger] final(self).node(d, path as int),
                ) && final(self).node(d, path as int).block(0) == input@[start + 2 * d]
                    && final(self).node(d, path as int).block(1) == input@[start + 2 * d + 1],
            forall|k: int|
                0 <= k < old(self).tree.len() && !old(self).path_indices(path as int).contains(k)
                    ==> #[trigger] final(self).tree@[k] == old(self).tree@[k],
    {
        let mut buckets: Vec<Cacheline_Counter_Bucket> = filled(
            Cacheline_Counter_Bucket::new(),
            self.height,
        );
        merge_pairs(input, start, &mut buckets);
        self.store_buckets(path, &buckets);
        proof {
            assert forall|d: int| 0 <= d < old(self).height implies bucket_sound(
                #[trigger] self.node(d, path as int),
            ) && self.node(d, path as int).block(0) == input@[start + 2 * d] && self.node(
                d,
                path as int,
            ).block(1) == input@[start + 2 * d + 1] by {
                assert(bucket_sound(buckets@[d]));
            }
        }
    }
}

/// Circuit ORAM for an array of packed counters.
#[derive(Debug)]
pub struct FastCircuitCounterORAM {
    /// Number of counters that the caller asked for.
    pub max_n: usize,
    /// Number of blocks, a power of two.
    pub max_blocks: usize,
    /// Height of the tree.
    pub h: usize,
    /// The stash, followed by room for the blocks of one path.
    pub stash: Vec<Counter_Block>,
    /// The tree, with two blocks packed into every bucket.
    pub tree: HeapTree<Cacheline_Counter_Bucket>,
    /// Room for the buckets of one path.
    pub path_buckets: Vec<Cacheline_Counter_Bucket>,
    /// For every suffix, what turns a prefix into the number of a block.
    pub values: [PositionType; 32],
    /// The next path of the deterministic evictions.
    pub evict_counter: PositionType,
}

impl View for FastCircuitCounterORAM {
    type V = Map<u32, Counter_Block>;

    /// The stored block of every stored key.
    open spec fn view(&self) -> Map<u32, Counter_Block> {
        self.state().stored()
    }
}

impl FastCircuitCounterORAM {
    /// The blocks and where they are.
    pub open spec fn state(&self) -> PathState<Counter_Block> {
        PathState {
            geo: self.tree.geometry(),
            s: S as int,
            w: Z as int,
            nodes: bucket_rows(self.tree.tree@),
            work: self.stash@,
        }
    }

    /// The sizes fit together, and every slot is sound.
    pub open spec fn shape(&self) -> bool {
        &&& 2 <= self.h <= 32
        &&& self.max_blocks == full_width(self.h - 1, 2)
        &&& self.max_blocks <= 0x8000_0000
        &&& 0 < self.max_n <= 32 * self.max_blocks
        &&& self.tree.wf()
        &&& self.tree.height == self.h
        &&& self.tree.branching_factor == 2
        &&& self.tree.leaf_count == self.max_blocks
        &&& self.stash.len() == S + 2 * self.h
        &&& self.path_buckets.len() == self.h
        &&& self.evict_counter < self.max_blocks
        &&& forall|i: int| 0 <= i < 32 ==> #[trigger] self.values@[i] < self.max_blocks
        &&& forall|i: int| 0 <= i < self.stash.len() ==> sound(#[trigger] self.stash@[i])
        &&& forall|k: int|
            0 <= k < self.tree.tree.len() ==> bucket_sound(#[trigger] self.tree.tree@[k])
    }

    /// The ORAM is at rest.
    pub open spec fn wf(&self) -> bool {
        &&& self.shape()
        &&& self.state().at_rest()
    }

    /// The path to `pos` is in the stash buffer.
    pub open spec fn open_at(&self, pos: PositionType) -> bool {
        &&& self.shape()
        &&& self.state().open_at(pos as int)
        &&& one_per_key(self.state().open_count(pos as int), keys())
    }

    /// What no access changes.
    pub open spec fn same_frame(&self, other: &Self) -> bool {
        &&& self.max_n == other.max_n
        &&& self.max_blocks == other.max_blocks
        &&& self.h == other.h
        &&& self.values == other.values
    }

    /// The block that holds counter `(prefix, suffix)`.
    pub open spec fn target(&self, prefix: usize, suffix: int) -> usize {
        prefix ^ (self.values@[suffix] as usize)
    }

    /// The value of counter `(prefix, suffix)`: zero while its block is not stored.
    pub open spec fn counter_at(&self, prefix: usize, suffix: int) -> u64 {
        let key = self.target(prefix, suffix) as u32;
        if self@.contains_key(key) {
            self@[key].counters()[suffix]
        } else {
            0
        }
    }

    /// The counters of the block of `key`.
    pub open spec fn block_counters(&self, key: u32) -> Seq<u64> {
        if self@.contains_key(key) {
            self@[key].counters()
        } else {
            Seq::new(32, |i: int| 0u64)
        }
    }

    /// The counters of the block of `key` after an access to counter `suffix`.
    pub open spec fn next_counters(&self, key: u32, suffix: int, increment: bool) -> Seq<u64> {
        let c = self.block_counters(key);
        if increment && can_count(c, suffix, CACHELINE_COUNTER_BLOCK_COUNTER_BITS as nat) {
            counted(c, suffix)
        } else {
            c
        }
    }

    /// The sizes of the state are those of the ORAM.
    pub(crate) proof fn lemma_state(&self)
        requires
            self.shape(),
        ensures
            self.state().shape(),
            self.state().geo.h == self.h,
            self.state().geo.leaves == self.max_blocks,
    {
        self.tree.lemma_geometry();
        let st = self.state();
        assert(st.geo.h * st.w == 2 * self.h) by (nonlinear_arith)
            requires
                st.w == 2,
                st.geo.h == self.h,
        ;
        assert forall|k: int| 0 <= k < st.nodes.len() implies (#[trigger] st.nodes[k]).len()
            == st.w by {}
    }

    /// Creates an ORAM for `max_n` counters, all zero.
    pub fn new(max_n: usize) -> (r: Self)
        requires
            0 < max_n <= 0x10_0000_0000,
        ensures
            r.wf(),
            r@ == Map::<u32, Counter_Block>::empty(),
            r.max_n == max_n,
            r.max_blocks == ceil_pow2(if max_n <= 32 { 2 } else { (max_n + 31) / 32 }),
            r.stash@ == Seq::new((S + r.h * Z) as nat, |i: int| Counter_Block::blank()),
            forall|k: int|
                0 <= k < r.tree.tree@.len() ==> new_bucket(#[trigger] r.tree.tree@[k]),
            forall|k: int|
                0 <= k < r.path_buckets@.len() ==> new_bucket(#[trigger] r.path_buckets@[k]),
            r.evict_counter == 0,
    {
        let mut masks: [u32; 32] = [0; 32];
        let mut i: usize = 0;
        while i < 32
            invariant
                i <= 32,
            decreases 32 - i,
        {
            masks[i] = random_u32();
            i += 1;
        }
        Self::with_masks(max_n, masks)
    }

    /// Creates an ORAM for `max_n` counters, all zero, with block numbers taken from
    /// `masks`.
    pub fn with_masks(max_n: usize, masks: [u32; 32]) -> (r: Self)
        requires
            0 < max_n <= 0x10_0000_0000,
        ensures
            r.wf(),
            r@ == Map::<u32, Counter_Block>::empty(),
            r.max_n == max_n,
            r.max_blocks == ceil_pow2(if max_n <= 32 { 2 } else { (max_n + 31) / 32 }),
            r.stash@ == Seq::new((S + r.h * Z) as nat, |i: int| Counter_Block::blank()),
            forall|k: int|
                0 <= k < r.tree.tree@.len() ==> new_bucket(#[trigger] r.tree.tree@[k]),
            forall|k: int|
                0 <= k < r.path_buckets@.len() ==> new_bucket(#[trigger] r.path_buckets@[k]),
            forall|i: int| 0 <= i < 32 ==> #[trigger] r.values@[i] == masks@[i] % r.max_blocks as u32,
            r.evict_counter == 0,
    {
        let requested: usize = (max_n - 1) / CACHELINE_COUNTER_BLOCK_COUNTERS + 1;
        let wanted: usize = if requested < 2 {
            2
        } else {
            requested
        };
        let (max_blocks, h): (usize, usize) = binary_shape(wanted);
        let mut values: [u32; 32] = masks;
        let mut i: usize = 0;
        while i < 32
            invariant
                i <= 32,
                0 < max_blocks <= 0x8000_0000,
                forall|j: int|
                    0 <= j < i ==> #[trigger] values@[j] == masks@[j] % max_blocks as u32,
                forall|j: int| i <= j < 32 ==> #[trigger] values@[j] == masks@[j],
            decreases 32 - i,
        {
            values[i] = values[i] % max_blocks as u32;
            i += 1;
        }
        let bucket = Cacheline_Counter_Bucket::new();
        let block = Counter_Block::new();
        let r = FastCircuitCounterORAM {
            max_n,
            max_blocks,
            h,
            stash: filled(block, S + h * Z),
            tree: HeapTree::new_with(h, bucket),
            path_buckets: filled(bucket, h),
            values,
            evict_counter: 0,
        };
        proof {
            reveal(sound);
            Counter_Block::lemma_blank();
            lemma_fresh_bucket(bucket);
            assert forall|k: int| 0 <= k < r.tree.tree.len() implies #[trigger] r.tree.tree@[k]
                == bucket by {
                assert(cloned(bucket, r.tree.tree[k]));
            }
            r.lemma_state();
            let st = r.state();
            assert forall|k: int, j: int|
                #![trigger st.nodes[k][j]]
                0 <= k < st.nodes.len() && 0 <= j < st.w implies st.nodes[k][j].vacant() by {
                assert(r.tree.tree@[k] == bucket);
                assert(j == 0 || j == 1);
            }
            st.lemma_empty();
        }
        r
    }
    /// Copies the path to `pos` behind the stash.
    pub fn read_path_and_get_nodes(&mut self, pos: PositionType)
        requires
            old(self).wf(),
            pos < old(self).max_blocks,
        ensures
            final(self).stash@ == old(self).state().opened(pos as int),
            final(self).tree == old(self).tree,
            final(self).same_frame(old(self)),
            final(self).evict_counter == old(self).evict_counter,
            final(self).open_at(pos),
            final(self).state().open_stored(pos as int) == old(self)@,
            final(self).state().stash_not_filled(old(self).state()),
    {
        let ghost before = *self;
        self.tree.load_buckets(pos, &mut self.path_buckets);
        proof {
            assert forall|i: int| 0 <= i < self.path_buckets.len() implies bucket_sound(
                #[trigger] self.path_buckets@[i],
            ) && self.path_buckets@[i].wf() by {
                self.tree.lemma_index_in_tree(i, pos as int);
                assert(self.path_buckets@[i] == self.tree.node(i, pos as int));
                assert(bucket_sound(self.tree.tree@[self.tree.index_of(i, pos as int)]));
                lemma_bucket_sound(self.path_buckets@[i]);
            }
        }
        split_buckets(&self.path_buckets, &mut self.stash, S);
        proof {
            before.lemma_loaded(self, pos);
        }
    }

    /// With the blocks of the path behind the stash, the ORAM is open at the path.
    proof fn lemma_loaded(&self, after: &Self, pos: PositionType)
        requires
            self.wf(),
            pos < self.max_blocks,
            after.tree == self.tree,
            after.same_frame(self),
            after.evict_counter == self.evict_counter,
            after.path_buckets.len() == self.h,
            after.stash.len() == self.stash.len(),
            forall|d: int|
                0 <= d < self.h ==> bucket_sound(#[trigger] after.path_buckets@[d])
                    && after.path_buckets@[d] == self.tree.node(d, pos as int),
            forall|d: int|
                0 <= d < self.h ==> after.stash@[S + 2 * d] == (
                #[trigger] after.path_buckets@[d]).block(0) && after.stash@[S + 2 * d + 1]
                    == after.path_buckets@[d].block(1),
            forall|k: int| 0 <= k < S ==> #[trigger] after.stash@[k] == self.stash@[k],
        ensures
            after.stash@ == self.state().opened(pos as int),
            after.open_at(pos),
            after.state().open_stored(pos as int) == self@,
            after.state().stash_not_filled(self.state()),
    {
        let st = self.state();
        self.lemma_state();
        st.lemma_opened(pos as int);
        st.lemma_open(pos as int);
        let o = st.opened(pos as int);
        let w = st.with_work(o);
        assert forall|k: int| 0 <= k < o.len() implies after.stash@[k] == o[k] && sound(
            #[trigger] after.stash@[k],
        ) by {
            if k >= S {
                let d = (k - S) / 2;
                let j = (k - S) % 2;
                assert(after.path_buckets@[d] == self.tree.node(d, pos as int));
                lemma_bucket_sound(after.path_buckets@[d]);
                self.tree.lemma_index_in_tree(d, pos as int);
                assert(w.slot(d, j) == st.nodes[(st.geo.index)(d, pos as int)][j]);
                assert(S + d * 2 + j == k);
                assert(w.slot(d, j) == o[k]);
                assert(k == S + 2 * d || k == S + 2 * d + 1);
            } else {
                assert(o[k] == self.stash@[k]);
                assert(after.stash@[k] == self.stash@[k]);
                assert(sound(self.stash@[k]));
            }
        }
        assert(after.stash@ =~= o);
        assert(after.state() == w);
    }

    /// Writes the path behind the stash back to the tree.
    pub fn write_back_path(&mut self, pos: PositionType)
        requires
            old(self).open_at(pos),
        ensures
            final(self).wf(),
            final(self)@ == old(self).state().open_stored(pos as int),
            final(self).stash == old(self).stash,
            final(self).same_frame(old(self)),
            final(self).evict_counter == old(self).evict_counter,
            final(self).state().opened(pos as int) == old(self).stash@,
            final(self).tree.same_shape(&old(self).tree),
            forall|k: int|
                0 <= k < old(self).tree.tree.len() && !old(self).tree.path_indices(
                    pos as int,
                ).contains(k) ==> #[trigger] final(self).tree.tree@[k] == old(self).tree.tree@[k],
            final(self).state().nodes == put_back(old(self).state(), pos as int),
    {
        let ghost before = *self;
        merge_pairs(&self.stash, S, &mut self.path_buckets);
        self.tree.store_buckets(pos, &self.path_buckets);
        proof {
            before.lemma_stored(self, pos);
        }
    }

    /// With the path written back to the tree, the ORAM is at rest.
    proof fn lemma_stored(&self, after: &Self, pos: PositionType)
        requires
            self.open_at(pos),
            after.stash == self.stash,
            after.same_frame(self),
            after.evict_counter == self.evict_counter,
            after.path_buckets.len() == self.h,
            after.tree.wf(),
            after.tree.same_shape(&self.tree),
            forall|d: int|
                0 <= d < self.h ==> bucket_sound(#[trigger] after.path_buckets@[d])
                    && after.path_buckets@[d].block(0) == self.stash@[S + 2 * d]
                    && after.path_buckets@[d].block(1) == self.stash@[S + 2 * d + 1],
            forall|d: int|
                0 <= d < self.h ==> #[trigger] after.tree.node(d, pos as int)
                    == after.path_buckets@[d],
            forall|k: int|
                0 <= k < self.tree.tree.len() && !self.tree.path_indices(pos as int).contains(k)
                    ==> #[trigger] after.tree.tree@[k] == self.tree.tree@[k],
        ensures
            after.wf(),
            after@ == self.state().open_stored(pos as int),
            after.state().opened(pos as int) == self.stash@,
            after.state().nodes == put_back(self.state(), pos as int),
    {
        let st = self.state();
        self.lemma_state();
        self.tree.lemma_geometry();
        let at = self.tree.path_indices(pos as int);
        let nodes = bucket_rows(after.tree.tree@);
        assert(st.geo.path(pos as int) == at);
        assert forall|d: int| 0 <= d < st.geo.h implies nodes[#[trigger] (st.geo.index)(
            d,
            pos as int,
        )] == st.row(d) by {
            self.tree.lemma_index_in_tree(d, pos as int);
            assert(after.tree.node(d, pos as int) == after.path_buckets@[d]);
            assert(bucket_sound(after.path_buckets@[d]));
            assert(st.slot(d, 0) == self.stash@[S + 2 * d]);
            assert(st.slot(d, 1) == self.stash@[S + 2 * d + 1]);
            assert(nodes[(st.geo.index)(d, pos as int)] =~= st.row(d));
        }
        assert forall|k: int|
            0 <= k < nodes.len() && !st.geo.path(pos as int).contains(
                k,
            ) implies #[trigger] nodes[k] == st.nodes[k] by {
            assert(after.tree.tree@[k] == self.tree.tree@[k]);
        }
        st.lemma_close(pos as int, nodes);
        lemma_rows_put_back(st, nodes, pos as int);
        assert forall|k: int| 0 <= k < after.tree.tree.len() implies bucket_sound(
            #[trigger] after.tree.tree@[k],
        ) by {
            if at.contains(k) {
                let d = choose|d: int| 0 <= d < at.len() && at[d] == k;
                assert(after.tree.node(d, pos as int) == after.path_buckets@[d]);
                assert(bucket_sound(after.path_buckets@[d]));
            } else {
                assert(after.tree.tree@[k] == self.tree.tree@[k]);
                assert(bucket_sound(self.tree.tree@[k]));
            }
        }
        assert(after.state() == (PathState { nodes, ..st }));
    }

    /// Circuit ORAM's `EvictOnceFast` on the stash and the path behind it: blocks move
    /// down the path to `pos` as [`crate::circuit::column_settled`] says.
    pub fn evict_once_fast(&mut self, pos: PositionType)
        requires
            2 <= old(self).h <= 32,
            old(self).stash.len() == S + 2 * old(self).h,
            forall|i: int| 0 <= i < old(self).stash.len() ==> sound(#[trigger] old(self).stash@[i]),
        ensures
            column_settled(
                old(self).stash@,
                depths(old(self).stash@, pos),
                final(self).stash@,
                S + 2,
                2,
                old(self).h as int,
            ),
            forall|b: Counter_Block| #[trigger]
                tally(final(self).stash@, b) == tally(old(self).stash@, b),
            forall|i: int|
                0 <= i < final(self).stash.len() ==> sound(#[trigger] final(self).stash@[i]),
            final(self).stash.len() == old(self).stash.len(),
            final(self).tree == old(self).tree,
            final(self).path_buckets == old(self).path_buckets,
            final(self).same_frame(old(self)),
            final(self).evict_counter == old(self).evict_counter,
            old(self).open_at(pos) ==> final(self).open_at(pos) && final(self).state().open_stored(
                pos as int,
            ) == old(self).state().open_stored(pos as int) && final(self).state().stash_not_filled(
                old(self).state(),
            ),
    {
        let ghost before = *self;
        let ghost s0 = self.stash@;
        let n: usize = self.stash.len();
        let mut found: Vec<i64> = Vec::new();
        let mut i: usize = 0;
        while i < n
            invariant
                i <= n == s0.len(),
                s0 == self.stash@,
                found@ == depths(s0, pos).take(i as int),
            decreases n - i,
        {
            let block: Counter_Block = self.stash[i];
            let shared: i64 = common_suffix_length(block.pos(), pos) as i64;
            let mut depth: i64 = -1;
            cmov_i64(&mut depth, shared, !block.is_empty());
            found.push(depth);
            proof {
                assert(depths(s0, pos).take(i + 1) =~= depths(s0, pos).take(i as int).push(depth));
            }
            i += 1;
        }
        let ghost kept = |c: Counter_Block| sound(c);
        proof {
            assert(depths(s0, pos).take(n as int) =~= depths(s0, pos));
            lemma_sound_lasts();
            assert forall|k: int| 0 <= k < s0.len() implies -1 <= #[trigger] depths(s0, pos)[k] by {
                lemma_shared_bits(s0[k].block_pos() as int, pos as int, 32);
            }
            assert(column_fits(s0, found@, S + 2)) by {
                assert forall|k: int| 0 <= k < s0.len() implies {
                    &&& -1 <= #[trigger] found@[k]
                    &&& s0[k].vacant() ==> found@[k] == -1
                    &&& k >= S + 2 && !s0[k].vacant() ==> found@[k] != -1
                } by {
                    lemma_shared_bits(s0[k].block_pos() as int, pos as int, 32);
                    assert(found@[k] == depths(s0, pos)[k]);
                }
            }
            assert(column_size(s0, S + 2, 2, self.h as int));
        }
        evict_column(&mut self.stash, &found, S + Z, Z, self.h, Ghost(kept));
        proof {
            assert forall|k: int| 0 <= k < self.stash.len() implies sound(
                #[trigger] self.stash@[k],
            ) by {
                assert(kept(self.stash@[k]));
            }
            if before.open_at(pos) {
                let st = before.state();
                before.lemma_state();
                assert forall|k: int, l: int|
                    0 <= k < st.work.len() && !st.work[k].vacant() && 0 <= l < st.geo.h && l
                        <= found@[k] implies #[trigger] st.geo.allows(
                    l,
                    pos as int,
                    st.work[k].leaf_of(),
                ) by {
                    let b = st.work[k];
                    before.lemma_slot_leaf(pos, k);
                    lemma_shared_bits(b.block_pos() as int, pos as int, 32);
                    assert(found@[k] == depths(s0, pos)[k]);
                    assert(meets(b.block_pos() as int, pos as int, l));
                }
                st.lemma_evicted(pos as int, found@, self.stash@);
                assert(self.state() == st.with_work(self.stash@));
            }
        }
    }

    /// A block in the open stash buffer belongs to a leaf.
    proof fn lemma_slot_leaf(&self, pos: PositionType, k: int)
        requires
            self.open_at(pos),
            0 <= k < self.stash.len(),
            !self.stash@[k].vacant(),
        ensures
            self.stash@[k].block_pos() < self.max_blocks,
    {
        let st = self.state();
        if k >= S {
            let d = (k - S) / 2;
            let j = (k - S) % 2;
            assert(S + d * 2 + j == k);
            assert(st.slot(d, j) == self.stash@[k]);
        } else {
            assert(st.work[k] == self.stash@[k]);
        }
    }

    /// Evicts along the path to `pos`.
    fn perform_eviction(&mut self, pos: PositionType)
        requires
            old(self).wf(),
            pos < old(self).max_blocks,
        ensures
            final(self).wf(),
            final(self)@ == old(self)@,
            final(self).same_frame(old(self)),
            final(self).evict_counter == old(self).evict_counter,
            final(self).state().stash_not_filled(old(self).state()),
            settles(
                old(self).state().with_work(old(self).state().opened(pos as int)),
                final(self).state(),
                pos as int,
            ),
    {
        self.read_path_and_get_nodes(pos);
        let ghost open = self.state();
        self.evict_once_fast(pos);
        let ghost moved = self.state();
        self.write_back_path(pos);
        proof {
            lemma_settled(open, moved, self.state(), pos);
        }
    }

    /// Evicts along the next public paths.
    fn perform_deterministic_evictions(&mut self)
        requires
            old(self).wf(),
        ensures
            final(self).wf(),
            final(self)@ == old(self)@,
            final(self).same_frame(old(self)),
            final(self).evict_counter == (old(self).evict_counter + EVICTIONS_PER_OP)
                % old(self).max_blocks as int,
            final(self).state().stash_not_filled(old(self).state()),
            evictions(
                old(self).state(),
                final(self).state(),
                old(self).evict_counter as int,
                EVICTIONS_PER_OP as int,
            ),
    {
        let mut i: usize = 0;
        let ghost m = self.max_blocks as int;
        proof {
            lemma_no_eviction(self.state(), self.evict_counter as int);
            self.lemma_state();
            lemma_full_width_grows(1, self.h - 1, 2);
            lemma_full_width(0, 2);
            vstd::arithmetic::div_mod::lemma_small_mod(self.evict_counter as nat, m as nat);
        }
        while i < EVICTIONS_PER_OP
            invariant
                i <= EVICTIONS_PER_OP,
                self.wf(),
                self@ == old(self)@,
                self.same_frame(old(self)),
                m == self.max_blocks,
                m >= 2,
                self.evict_counter == (old(self).evict_counter + i) % m,
                self.state().stash_not_filled(old(self).state()),
                old(self).state().geo.leaves == m,
                evictions(
                    old(self).state(),
                    self.state(),
                    old(self).evict_counter as int,
                    i as int,
                ),
            decreases EVICTIONS_PER_OP - i,
        {
            let pos: PositionType = self.evict_counter;
            let ghost mid = self.state();
            self.perform_eviction(pos);
            let ghost before = *self;
            self.evict_counter = (self.evict_counter + 1) % self.max_blocks as PositionType;
            proof {
                assert(self.state() == before.state());
                lemma_one_more_eviction(
                    old(self).state(),
                    mid,
                    self.state(),
                    old(self).evict_counter as int,
                    i as int,
                );
                vstd::arithmetic::div_mod::lemma_add_mod_noop(old(self).evict_counter + i, 1, m);
                vstd::arithmetic::div_mod::lemma_small_mod(1, m as nat);
                vstd::arithmetic::div_mod::lemma_mod_bound(before.evict_counter + 1, m);
            }
            i += 1;
        }
    }

    /// The number of the block of counter `(prefix, suffix)`.
    fn shuffled_key(&self, prefix: usize, suffix: usize) -> (r: usize)
        requires
            suffix < 32,
        ensures
            r == self.target(prefix, suffix as int),
    {
        let mut mask: u32 = 0;
        let mut i: usize = 0;
        while i < 32
            invariant
                i <= 32,
                suffix < 32,
                suffix < i ==> mask == self.values@[suffix as int],
            decreases 32 - i,
        {
            cmov_u32(&mut mask, self.values[i], i == suffix);
            i += 1;
        }
        prefix ^ mask as usize
    }

    /// The index in the caller's position map for counter `(prefix, suffix)`.
    pub fn position_map_key(&self, prefix: usize, suffix: usize) -> (r: usize)
        requires
            suffix < CACHELINE_COUNTER_BLOCK_COUNTERS,
        ensures
            r == self.target(prefix, suffix as int),
    {
        self.shuffled_key(prefix, suffix)
    }

    /// The index in the caller's position map for a flat counter address.
    pub fn position_map_key_for_key(&self, key: usize) -> (r: usize)
        requires
            key < self.max_n,
        ensures
            r == self.target(key / 32, key as int % 32),
    {
        let (prefix, suffix): (usize, usize) = self.address_parts(key);
        self.position_map_key(prefix, suffix)
    }

    fn address_parts(&self, key: usize) -> (r: (usize, usize))
        requires
            key < self.max_n,
        ensures
            r.0 == key / 32,
            r.1 == key % 32,
            r.0 * 32 + r.1 == key,
    {
        (key / CACHELINE_COUNTER_BLOCK_COUNTERS, key % CACHELINE_COUNTER_BLOCK_COUNTERS)
    }

    /// The block of a counter is one of the blocks.
    pub proof fn lemma_target_in_range(&self, prefix: usize, suffix: int)
        requires
            self.shape(),
            0 <= suffix < 32,
            prefix < self.max_blocks,
        ensures
            self.target(prefix, suffix) < self.max_blocks,
    {
        let e = (self.h - 1) as usize;
        let m = self.max_blocks;
        let v = self.values@[suffix] as usize;
        vstd::arithmetic::power2::lemma_pow2((self.h - 1) as nat);
        vstd::bits::lemma_usize_shl_is_mul(1, e);
        assert(m == 1usize << e);
        assert(prefix ^ v < m) by (bit_vector)
            requires
                prefix < m,
                v < m,
                m == 1usize << e,
                e < 32,
        ;
    }

    /// Two counters with one suffix and different prefixes are in different blocks.
    pub proof fn lemma_targets_distinct(&self, a: usize, b: usize, suffix: int)
        requires
            self.target(a, suffix) == self.target(b, suffix),
        ensures
            a == b,
    {
        let v = self.values@[suffix] as usize;
        assert(a == b) by (bit_vector)
            requires
                a ^ v == b ^ v,
        ;
    }

    /// Gives the value of counter `(prefix, suffix)`, counts it up when `increment` holds
    /// and its block has room, and moves its block to `new_pos`.
    fn access(
        &mut self,
        pos: PositionType,
        new_pos: PositionType,
        prefix: usize,
        suffix: usize,
        increment: bool,
    ) -> (r: u64)
        requires
            old(self).may_access(pos, new_pos, prefix, suffix as int),
        ensures
            final(self).accessed(old(self), pos, new_pos, prefix, suffix as int, increment),
            r == old(self).counter_at(prefix, suffix as int),
    {
        let ghost before = *self;
        let target: usize = self.shuffled_key(prefix, suffix);
        proof {
            assert(prefix < self.max_blocks);
            self.lemma_target_in_range(prefix, suffix as int);
        }
        let key: u32 = target as u32;
        let mut block: Counter_Block = self.open_and_remove(pos, key);
        let ghost taken = *self;
        block.set_key_pos(key, new_pos);
        let value: u64 = block.access_counter_oblivious(suffix, increment);
        proof {
            block.lemma_with();
            assert(block.counters() =~= before.next_counters(key, suffix as int, increment));
            assert(sound(block)) by {
                reveal(sound);
                if block.counters() != before.block_counters(key) {
                    lemma_counts_stay_sound(before.block_counters(key), suffix as int);
                }
            }
        }
        self.place_and_finish(pos, &block);
        proof {
            assert(before@.remove(key).insert(key, block) =~= before@.insert(key, block));
        }
        value
    }

    /// Loads the path to `pos` and takes the block of `key` out of the stash buffer: a
    /// fresh one when there is none.
    fn open_and_remove(&mut self, pos: PositionType, key: u32) -> (r: Counter_Block)
        requires
            old(self).wf(),
            pos < old(self).max_blocks,
            old(self)@.contains_key(key) ==> old(self).state().visible(pos as int, key),
        ensures
            final(self).open_at(pos),
            final(self).same_frame(old(self)),
            final(self).evict_counter == old(self).evict_counter,
            final(self).state().open_stored(pos as int) == old(self)@.remove(key),
            final(self).state().has_vacancy() == old(self).state().has_room(key),
            r.wf(),
            sound(r),
            r.counters() == old(self).block_counters(key),
            final(self).state() == old(self).state().with_work(
                without_key(old(self).state().opened(pos as int), key),
            ),
    {
        let ghost before = *self;
        self.read_path_and_get_nodes(pos);
        let ghost loaded = *self;
        let mut block = Counter_Block::new();
        proof {
            Counter_Block::lemma_blank();
            before.lemma_state();
            before.state().lemma_one_slot_per_key(pos as int);
            let o = before.state().opened(pos as int);
            assert forall|i: int, j: int|
                0 <= i < self.stash.len() && 0 <= j < self.stash.len() && holds_key(
                    #[trigger] self.stash@[i],
                    key,
                ) && holds_key(#[trigger] self.stash@[j], key) implies i == j by {
                assert(o[i] == self.stash@[i] && o[j] == self.stash@[j]);
            }
        }
        let found: bool = take_key(&mut self.stash, key, &mut block);
        proof {
            let st = loaded.state();
            let o = before.state().opened(pos as int);
            lemma_taken(o, key, self.stash@, found);
            if found {
                let i = choose|i: int|
                    0 <= i < st.work.len() && holds_key(#[trigger] st.work[i], key) && block
                        == st.work[i] && self.stash@ == st.work.update(i, st.work[i].vacated());
                st.work[i].lemma_vacancy();
                st.lemma_take(pos as int, i, st.work[i].vacated());
                assert(sound(loaded.stash@[i]));
                assert(sound(loaded.stash@[i].vacated()) && loaded.stash@[i].wf()) by {
                    reveal(sound);
                    loaded.stash@[i].lemma_vacated();
                }
                assert forall|k: int| 0 <= k < self.stash.len() implies sound(
                    #[trigger] self.stash@[k],
                ) by {
                    assert(sound(loaded.stash@[k]));
                }
            } else {
                if before@.contains_key(key) {
                    let i = choose|i: int| 0 <= i < o.len() && holds_key(#[trigger] o[i], key);
                    assert(holds_key(loaded.stash@[i], key));
                }
                assert(before@.remove(key) =~= before@);
                assert(sound(block)) by {
                    reveal(sound);
                }
            }
            assert(self.state() == st.with_work(self.stash@));
            before.state().lemma_room(pos as int, key, self.stash@, found);
        }
        block
    }

    /// Puts a block into the stash, evicts and writes the path back.
    fn place_and_finish(&mut self, pos: PositionType, block: &Counter_Block)
        requires
            old(self).open_at(pos),
            sound(*block),
            !block.vacant(),
            block.block_pos() < old(self).max_blocks,
            !old(self).state().open_stored(pos as int).contains_key(block.block_key()),
        ensures
            final(self).wf(),
            final(self).same_frame(old(self)),
            final(self).evict_counter == (old(self).evict_counter + EVICTIONS_PER_OP)
                % old(self).max_blocks as int,
            final(self)@ == (if old(self).state().has_vacancy() {
                old(self).state().open_stored(pos as int).insert(block.block_key(), *block)
            } else {
                old(self).state().open_stored(pos as int)
            }),
            finishes(
                old(self).state(),
                final(self).state(),
                pos as int,
                *block,
                old(self).evict_counter as int,
                EVICTIONS_PER_OP as int,
            ),
    {
        let ghost st = self.state();
        let ghost taken = *self;
        let written: bool = put_first(&mut self.stash, S, block);
        let ghost placed = *self;
        proof {
            if written {
                let i = choose|i: int|
                    0 <= i < S && (#[trigger] st.work[i]).vacant() && (forall|k: int|
                        0 <= k < i ==> !(#[trigger] st.work[k]).vacant()) && self.stash@
                        == st.work.update(i, *block);
                st.lemma_put(pos as int, i, *block);
                assert forall|k: int| 0 <= k < self.stash.len() implies sound(
                    #[trigger] self.stash@[k],
                ) by {
                    assert(sound(taken.stash@[k]));
                }
            }
            assert(self.state() == st.with_work(self.stash@));
            lemma_put_is_first(st.work, S as int, *block, self.stash@, written);
        }
        self.evict_once_fast(pos);
        let ghost moved = self.state();
        self.write_back_path(pos);
        let ghost mid = self.state();
        self.perform_deterministic_evictions();
        proof {
            lemma_settled(placed.state(), moved, mid, pos);
        }
    }

    /// An access must name the path of the counter's block while that is stored.
    pub open spec fn may_access(&self, pos: PositionType, new_pos: PositionType, prefix: usize, suffix: int) -> bool {
        let key = self.target(prefix, suffix) as u32;
        &&& self.wf()
        &&& 0 <= suffix < 32
        &&& prefix * 32 + suffix < self.max_n
        &&& pos < self.max_blocks
        &&& new_pos < self.max_blocks
        &&& self@.contains_key(key) ==> self.state().visible(pos as int, key)
    }

    /// The value of counter `(prefix, suffix)`.
    pub fn read(
        &mut self,
        pos: PositionType,
        new_pos: PositionType,
        prefix: usize,
        suffix: usize,
    ) -> (r: u64)
        requires
            old(self).may_access(pos, new_pos, prefix, suffix as int),
        ensures
            final(self).accessed(old(self), pos, new_pos, prefix, suffix as int, false),
            r == old(self).counter_at(prefix, suffix as int),
    {
        self.access(pos, new_pos, prefix, suffix, false)
    }

    /// The value of counter `(prefix, suffix)`, which is then counted up.
    pub fn read_and_incr(
        &mut self,
        pos: PositionType,
        new_pos: PositionType,
        prefix: usize,
        suffix: usize,
    ) -> (r: u64)
        requires
            old(self).may_access(pos, new_pos, prefix, suffix as int),
        ensures
            final(self).accessed(old(self), pos, new_pos, prefix, suffix as int, true),
            r == old(self).counter_at(prefix, suffix as int),
    {
        self.access(pos, new_pos, prefix, suffix, true)
    }

    /// The value of the counter at a flat address.
    pub fn read_key(&mut self, pos: PositionType, new_pos: PositionType, key: usize) -> (r: u64)
        requires
            key < old(self).max_n,
            old(self).may_access(pos, new_pos, key / 32, key as int % 32),
        ensures
            final(self).accessed(old(self), pos, new_pos, key / 32, key as int % 32, false),
            r == old(self).counter_at(key / 32, key as int % 32),
    {
        let (prefix, suffix): (usize, usize) = self.address_parts(key);
        self.read(pos, new_pos, prefix, suffix)
    }

    /// The value of the counter at a flat address, which is then counted up.
    pub fn read_key_and_incr(&mut self, pos: PositionType, new_pos: PositionType, key: usize) -> (r:
        u64)
        requires
            key < old(self).max_n,
            old(self).may_access(pos, new_pos, key / 32, key as int % 32),
        ensures
            final(self).accessed(old(self), pos, new_pos, key / 32, key as int % 32, true),
            r == old(self).counter_at(key / 32, key as int % 32),
    {
        let (prefix, suffix): (usize, usize) = self.address_parts(key);
        self.read_and_incr(pos, new_pos, prefix, suffix)
    }

    /// A stored block is visible from its own position.
    pub proof fn lemma_stored_is_visible(&self, key: u32)
        requires
            self.wf(),
            self@.contains_key(key),
        ensures
            self@[key].block_key() == key,
            self@[key].block_pos() < self.max_blocks,
            self.state().visible(self@[key].block_pos() as int, key),
    {
        self.lemma_state();
        self.state().lemma_stored_is_visible(key);
    }

    /// After an access that found room, its block is at the new position, its counter is
    /// one higher if it was counted up, and every other counter is as it was.
    pub proof fn lemma_counters_after(
        &self,
        before: &Self,
        pos: PositionType,
        new_pos: PositionType,
        prefix: usize,
        suffix: int,
        increment: bool,
        other_prefix: usize,
        other_suffix: int,
    )
        requires
            before.may_access(pos, new_pos, prefix, suffix),
            self.accessed(before, pos, new_pos, prefix, suffix, increment),
            before.state().has_room(before.target(prefix, suffix) as u32),
            0 <= other_suffix < 32,
            other_prefix * 32 + other_suffix < before.max_n,
        ensures
            self@[before.target(prefix, suffix) as u32].block_pos() == new_pos,
            self.counter_at(other_prefix, other_suffix) == (if other_prefix == prefix
                && other_suffix == suffix && increment && can_count(
                before.block_counters(before.target(prefix, suffix) as u32),
                suffix,
                CACHELINE_COUNTER_BLOCK_COUNTER_BITS as nat,
            ) {
                before.counter_at(prefix, suffix) + 1
            } else {
                before.counter_at(other_prefix, other_suffix) as int
            }),
    {
        let key = before.target(prefix, suffix) as u32;
        let c = before.block_counters(key);
        let n = before.next_counters(key, suffix, increment);
        before.lemma_target_in_range(prefix, suffix);
        before.lemma_target_in_range(other_prefix, other_suffix);
        before.lemma_block_sound(key);
        if n != c {
            lemma_counts_stay_sound(c, suffix);
        }
        Counter_Block::lemma_made_with(key, new_pos, n);
        assert(self.target(other_prefix, other_suffix) == before.target(
            other_prefix,
            other_suffix,
        ));
        if other_suffix == suffix && before.target(other_prefix, other_suffix) == before.target(
            prefix,
            suffix,
        ) {
            before.lemma_targets_distinct(prefix, other_prefix, suffix);
        }
    }

    /// The counters of a stored block fit in half a bucket.
    proof fn lemma_block_sound(&self, key: u32)
        requires
            self.wf(),
        ensures
            self.block_counters(key).len() == 32,
            used(self.block_counters(key)) <= CACHELINE_COUNTER_BLOCK_COUNTER_BITS,
    {
        if self@.contains_key(key) {
            let b = self@[key];
            let st = self.state();
            self.lemma_state();
            st.lemma_stored_is_visible(key);
            let p = b.leaf_of();
            let o = st.opened(p);
            let i = choose|i: int| 0 <= i < o.len() && holds_key(#[trigger] o[i], key);
            st.lemma_visible_is_stored(p, i);
            st.lemma_opened(p);
            assert(o[i] == b);
            if i < S {
                assert(o[i] == self.stash@[i]);
                assert(sound(self.stash@[i]));
            } else {
                let d = (i - S) / 2;
                let j = (i - S) % 2;
                let w = st.with_work(o);
                assert(S + d * 2 + j == i);
                assert(w.slot(d, j) == o[i]);
                self.tree.lemma_index_in_tree(d, p);
                let bucket = self.tree.tree@[self.tree.index_of(d, p)];
                assert(bucket_sound(bucket));
                lemma_bucket_sound(bucket);
                assert(w.slot(d, j) == st.nodes[(st.geo.index)(d, p)][j]);
            }
            assert(sound(b));
            assert(b.wf() && used(b.counters()) <= CACHELINE_COUNTER_BLOCK_COUNTER_BITS) by {
                reveal(sound);
            }
        } else {
            crate::fast_buckets::lemma_all_zero(32);
        }
    }

    /// What an access to counter `(prefix, suffix)` does: its block moves to `new_pos`,
    /// counted up or not, and every other block stays. Should the stash have no room for
    /// the block, the block is gone. Blocks change slots as [`access`] says.
    pub open spec fn accessed(
        &self,
        before: &Self,
        pos: PositionType,
        new_pos: PositionType,
        prefix: usize,
        suffix: int,
        increment: bool,
    ) -> bool {
        let key = before.target(prefix, suffix) as u32;
        let block = Counter_Block::with(
            key,
            new_pos,
            before.next_counters(key, suffix, increment),
        );
        &&& self.wf()
        &&& self.same_frame(before)
        &&& self.evict_counter == (before.evict_counter + EVICTIONS_PER_OP)
            % before.max_blocks as int
        &&& before.state().has_room(key) ==> self@ == before@.insert(key, block)
        &&& !before.state().has_room(key) ==> self@ == before@.remove(key)
        &&& access(
            before.state(),
            self.state(),
            pos as int,
            key,
            block,
            before.evict_counter as int,
            EVICTIONS_PER_OP as int,
        )
    }
}

/// A fresh bucket is sound, and both its slots are vacant.
proof fn lemma_fresh_bucket(bucket: Cacheline_Counter_Bucket)
    requires
        bucket.wf(),
        bucket.slot_pos(0) == DUMMY_POS,
        bucket.slot_pos(1) == DUMMY_POS,
        bucket.counters() == Seq::new(64, |i: int| 0u64),
    ensures
        bucket_sound(bucket),
        bucket.block(0).vacant(),
        bucket.block(1).vacant(),
{
    reveal(sound);
    reveal(bucket_sound);
    bucket.lemma_block(0, bucket.block(0));
    bucket.lemma_block(1, bucket.block(1));
    crate::fast_buckets::lemma_all_zero(32);
    let z = Seq::new(32, |i: int| 0u64);
    assert(bucket.counters().subrange(0, 32) =~= z);
    assert(bucket.counters().subrange(32, 64) =~= z);
}

/// Counters that fit in half a bucket still do after one of them is counted up.
proof fn lemma_counts_stay_sound(c: Seq<u64>, i: int)
    requires
        0 <= i < c.len(),
        used(c) <= CACHELINE_COUNTER_BLOCK_COUNTER_BITS,
        can_count(c, i, CACHELINE_COUNTER_BLOCK_COUNTER_BITS as nat),
    ensures
        used(counted(c, i)) <= CACHELINE_COUNTER_BLOCK_COUNTER_BITS,
{
    crate::packed_counters::lemma_used_counted(c, i);
}

} // verus!
