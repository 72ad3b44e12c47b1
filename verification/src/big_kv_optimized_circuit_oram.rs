//! Pooled Circuit ORAM for 24-byte values with split 64-bit positions and
//! 32-byte key/value chunks.
//!
//! A sixteen-slot bucket keeps its positions and its key/value pairs in two arrays:
//! positions slot by slot, and pairs lane by lane.
use vstd::prelude::*;
use crate::circuit::{column_settled, level_blank};
use crate::heap_tree::{full_width, lemma_binary_nodes, lemma_full_width, lemma_full_width_grows};
use crate::heap_tree::HeapTree;
use crate::oblivious::{cmov_bytes, cmov_u64, ObliviousBlock};
use crate::pooled::{last_with, passed_on};
use crate::pooled::{accessed, depth_column, evicted, evicted_lanes, opened};
use crate::pooled::{lemma_opened_is_stored, lemma_stored_is_opened, nodes_shape};
use crate::pooled::{pool_map, pool_ok, pooled_count, settled_column, write_lane, PooledBlock};
use crate::pooled::{at, lemma_batch_sequential, on_lanes};
use crate::pooled_laws::{access_progress, lane_progress, lemma_access_progress};
use crate::pooled_laws::{lemma_batch_progress, lemma_evicted_progress};
use crate::pooled_store::{evict_batch, evict_path, evict_working, filled_below};
use crate::pooled_store::{insert_block, level_metadata, metadata_fits, move_batch};
use crate::pooled_store::{open_and_remove, place_and_evict, plan_fits, plan_size, prepare_plan};
use crate::pooled_store::{read_lane_path, remove_key, room_for, visible};
use crate::pooled_store::{write_lane_path, BatchEvictionPlan, LevelMetadata, PooledStore};
use crate::prelude::{apply_update, ceil_pow2, ceil_pow2_from, filled};
use crate::suffix::common_suffix_length_u64;
use crate::tally::tally;

verus! {

broadcast use vstd::array::group_array_axioms;

/// Slots in one pooled lane of a bucket.
pub const SLOTS_PER_POOLED_LANE: usize = 2;

/// Pooled lanes in one bucket.
pub const POOLED_LANES: usize = 8;

/// Slots in one bucket.
pub const BLOCKS_PER_BUCKET: usize = 16;

/// Bytes stored in each block.
pub const DATA_SIZE: usize = 24;

/// Blocks in the shared stash.
pub const S: usize = 40;

/// Numerator of the amortized deterministic-eviction rate.
pub const EVICTIONS_PER_OP_NUMERATOR: usize = 3;

/// Denominator of the amortized deterministic-eviction rate.
pub const EVICTIONS_PER_OP_DENOMINATOR: usize = 1;

/// Credits that pay for one batch of deterministic evictions.
pub const EVICTION_CREDITS_PER_BATCH: usize = 16;

/// A leaf of the packed tree.
pub type PositionType = u64;

/// A logical key. The largest one is reserved for dummy blocks.
pub type Key = u64;

/// The position of a dummy block.
pub const DUMMY_POS: PositionType = 0xffff_ffff_ffff_ffff;

/// The key of a dummy block.
pub const DUMMY_KEY: Key = 0xffff_ffff_ffff_ffff;

/// One naturally vector-sized key/value chunk.
#[derive(Clone, Copy, Debug, PartialEq, Eq)]
pub struct KeyValue {
    /// The key.
    pub key: Key,
    /// The value.
    pub data: [u8; DATA_SIZE],
}

impl KeyValue {
    /// The pair of a dummy block.
    pub open spec fn blank() -> Self {
        KeyValue { key: DUMMY_KEY, data: [0xffu8; DATA_SIZE] }
    }
}

impl Default for KeyValue {
    fn default() -> (r: Self)
        ensures
            r == KeyValue::blank(),
    {
        KeyValue { key: DUMMY_KEY, data: [0xffu8; DATA_SIZE] }
    }
}

/// A logical block. Tree buckets store these fields in separate arrays.
#[derive(Clone, Copy, Debug, PartialEq, Eq)]
pub struct Block {
    /// The position of the block; [`DUMMY_POS`] marks an empty one.
    pub pos: PositionType,
    /// Key and value of the block.
    pub key_value: KeyValue,
}

impl Default for Block {
    fn default() -> (r: Self)
        ensures
            r == Block::blank(),
    {
        Block { pos: DUMMY_POS, key_value: KeyValue::default() }
    }
}

impl Block {
    /// Whether the block is empty.
    pub fn is_empty(&self) -> (r: bool)
        ensures
            r == (self.pos == DUMMY_POS),
    {
        self.pos == DUMMY_POS
    }

    /// The key of the block.
    pub fn key(&self) -> (r: Key)
        ensures
            r == self.key_value.key,
    {
        self.key_value.key
    }
}

impl ObliviousBlock for Block {
    open spec fn vacant(self) -> bool {
        self.pos == DUMMY_POS
    }

    open spec fn vacated(self) -> Self {
        Self::blank()
    }

    open spec fn blank() -> Self {
        Block { pos: DUMMY_POS, key_value: KeyValue::blank() }
    }

    proof fn lemma_vacancy(self) {
    }

    fn is_vacant(&self) -> (r: bool) {
        self.pos == DUMMY_POS
    }

    fn fresh() -> (r: Self) {
        Block::default()
    }

    fn select(&mut self, other: &Self, choice: bool) {
        cmov_u64(&mut self.pos, other.pos, choice);
        cmov_u64(&mut self.key_value.key, other.key_value.key, choice);
        cmov_bytes(&mut self.key_value.data, &other.key_value.data, choice);
    }

    fn vacate(&mut self, choice: bool) {
        self.select(&Block::default(), choice);
    }
}

impl PooledBlock for Block {
    type Key = Key;

    open spec fn block_key(self) -> Key {
        self.key_value.key
    }

    open spec fn key_int(self) -> int {
        self.key_value.key as int
    }

    open spec fn pos_int(self) -> int {
        self.pos as int
    }

    open spec fn pos_bits() -> int {
        64
    }

    proof fn lemma_pooled(self) {
    }

    fn lane_index(&self) -> (r: usize) {
        pooled_lane_for_key(self.key_value.key)
    }

    fn shared_with(&self, path: u64) -> (r: i64) {
        common_suffix_length_u64(self.pos, path) as i64
    }

    fn has_key(&self, key: Key) -> (r: bool) {
        self.key_value.key == key
    }
}

proof fn lemma_word()
    ensures
        full_width(64, 2) == 0x1_0000_0000_0000_0000,
{
    vstd::arithmetic::power2::lemma2_to64();
    vstd::arithmetic::power2::lemma_pow2(64);
}

/// Selects a two-slot pooled lane using the low three key bits.
pub fn pooled_lane_for_key(key: Key) -> (r: usize)
    ensures
        r == key as int % 8,
        r < POOLED_LANES,
{
    (key % 8) as usize
}

/// Sixteen blocks in split position/key-value layout.
///
/// Positions are slot-major: positions 0..8 are slot zero across all pooled
/// lanes and positions 8..16 are slot one. Key/value chunks are lane-major.
#[derive(Clone, Copy, Debug, PartialEq, Eq)]
pub struct Bucket {
    /// The positions, slot by slot.
    pub positions: [PositionType; BLOCKS_PER_BUCKET],
    /// The key/value pairs, lane by lane.
    pub key_values: [KeyValue; BLOCKS_PER_BUCKET],
}

impl Default for Bucket {
    fn default() -> (r: Self)
        ensures
            forall|k: int| 0 <= k < 16 ==> #[trigger] r.row()[k] == Block::blank(),
    {
        Bucket {
            positions: [DUMMY_POS; BLOCKS_PER_BUCKET],
            key_values: [KeyValue::default(); BLOCKS_PER_BUCKET],
        }
    }
}

impl Bucket {
    /// The blocks of the bucket, lane by lane.
    pub open spec fn row(self) -> Seq<Block> {
        Seq::new(
            16,
            |k: int|
                Block {
                    pos: self.positions[(k % 2) * 8 + k / 2],
                    key_value: self.key_values[k],
                },
        )
    }

    /// Where the position of a slot is kept.
    pub fn position_index(pooled_lane: usize, slot: usize) -> (r: usize)
        requires
            pooled_lane < POOLED_LANES,
            slot < SLOTS_PER_POOLED_LANE,
        ensures
            r == slot * 8 + pooled_lane,
            r < BLOCKS_PER_BUCKET,
    {
        slot * POOLED_LANES + pooled_lane
    }

    /// Where the key and value of a slot are kept.
    pub fn key_value_index(pooled_lane: usize, slot: usize) -> (r: usize)
        requires
            pooled_lane < POOLED_LANES,
            slot < SLOTS_PER_POOLED_LANE,
        ensures
            r == pooled_lane * 2 + slot,
            r < BLOCKS_PER_BUCKET,
    {
        pooled_lane * SLOTS_PER_POOLED_LANE + slot
    }

    /// Reads a slot.
    pub fn block(&self, pooled_lane: usize, slot: usize) -> (r: Block)
        requires
            pooled_lane < POOLED_LANES,
            slot < SLOTS_PER_POOLED_LANE,
        ensures
            r == self.row()[pooled_lane * 2 + slot],
    {
        Block {
            pos: self.positions[Self::position_index(pooled_lane, slot)],
            key_value: self.key_values[Self::key_value_index(pooled_lane, slot)],
        }
    }

    /// Writes a slot.
    pub fn set_block(&mut self, pooled_lane: usize, slot: usize, block: Block)
        requires
            pooled_lane < POOLED_LANES,
            slot < SLOTS_PER_POOLED_LANE,
        ensures
            final(self).row() == old(self).row().update(pooled_lane * 2 + slot, block),
    {
        let ghost before = *self;
        let p: usize = Self::position_index(pooled_lane, slot);
        let k: usize = Self::key_value_index(pooled_lane, slot);
        self.positions[p] = block.pos;
        self.key_values[k] = block.key_value;
        proof {
            let want = before.row().update(k as int, block);
            assert forall|i: int| 0 <= i < 16 implies self.row()[i] == want[i] by {
                if i != k {
                    assert((i % 2) * 8 + i / 2 != p);
                }
            }
            assert(self.row() =~= want);
        }
    }
}

/// The slots of every bucket.
pub open spec fn bucket_rows(s: Seq<Bucket>) -> Seq<Seq<Block>> {
    s.map_values(|c: Bucket| c.row())
}

/// What the planning of a pass along `path` needs of a bucket, for every lane.
pub fn prepare_level_metadata(bucket: &Bucket, path: PositionType) -> (r: LevelMetadata)
    ensures
        forall|lane: int|
            0 <= lane < 8 ==> #[trigger] metadata_fits(r, bucket.row(), lane, path as int),
{
    let mut row: Vec<Block> = Vec::new();
    let mut k: usize = 0;
    while k < BLOCKS_PER_BUCKET
        invariant
            k <= 16,
            row@ == bucket.row().take(k as int),
        decreases 16 - k,
    {
        let block: Block = bucket.block(k / 2, k % 2);
        row.push(block);
        assert((k / 2) * 2 + k % 2 == k);
        assert(bucket.row().take(k + 1) =~= bucket.row().take(k as int).push(block));
        k += 1;
    }
    assert(bucket.row().take(16) =~= bucket.row());
    proof {
        lemma_word();
    }
    level_metadata(&row, path)
}

/// Eight positions.
#[derive(Clone, Copy, Debug, PartialEq, Eq)]
pub struct PositionChunk(pub [PositionType; 8]);

/// Two key/value pairs.
#[derive(Clone, Copy, Debug, PartialEq, Eq)]
pub struct KeyValuePair(pub [KeyValue; 2]);

/// Split stash storage: all positions in chunks of eight, and all key/value pairs in
/// chunks of two.
#[derive(Clone, Debug, PartialEq, Eq)]
pub struct SplitStash {
    /// The number of blocks.
    pub len: usize,
    /// The positions of the blocks.
    pub positions: Vec<PositionChunk>,
    /// The keys and values of the blocks.
    pub key_values: Vec<KeyValuePair>,
}

impl View for SplitStash {
    type V = Seq<Block>;

    /// The blocks of the stash.
    open spec fn view(&self) -> Seq<Block> {
        Seq::new(
            self.len as nat,
            |i: int|
                Block {
                    pos: self.positions@[i / 8].0[i % 8],
                    key_value: self.key_values@[i / 2].0[i % 2],
                },
        )
    }
}

impl SplitStash {
    /// The chunks cover the blocks.
    pub open spec fn wf(&self) -> bool {
        &&& self.len <= self.positions.len() * 8
        &&& self.len <= self.key_values.len() * 2
    }

    /// A stash of empty blocks.
    pub fn new(blocks: usize) -> (r: Self)
        requires
            blocks <= usize::MAX - 8,
        ensures
            r.wf(),
            r@ == Seq::new(blocks as nat, |i: int| Block::blank()),
    {
        let position_chunks: usize = blocks / 8 + if blocks % 8 != 0 {
            1
        } else {
            0
        };
        let r = SplitStash {
            len: blocks,
            positions: filled(PositionChunk([DUMMY_POS; 8]), position_chunks),
            key_values: filled(KeyValuePair([KeyValue::default(); 2]), position_chunks * 4),
        };
        assert(r@ =~= Seq::new(blocks as nat, |i: int| Block::blank()));
        r
    }

    /// The number of blocks.
    pub fn len(&self) -> (r: usize)
        ensures
            r == self@.len(),
    {
        self.len
    }

    /// Whether there are no blocks.
    pub fn is_empty(&self) -> (r: bool)
        ensures
            r == (self@.len() == 0),
    {
        self.len == 0
    }

    /// The position of a block.
    pub fn position(&self, index: usize) -> (r: PositionType)
        requires
            self.wf(),
            index < self@.len(),
        ensures
            r == self@[index as int].pos,
    {
        self.positions[index / 8].0[index % 8]
    }

    /// Changes the position of a block.
    pub fn set_position(&mut self, index: usize, position: PositionType)
        requires
            old(self).wf(),
            index < old(self)@.len(),
        ensures
            final(self).wf(),
            final(self)@ == old(self)@.update(
                index as int,
                Block { pos: position, key_value: old(self)@[index as int].key_value },
            ),
    {
        let ghost before = *self;
        let mut chunk: PositionChunk = self.positions[index / 8];
        chunk.0[index % 8] = position;
        self.positions.set(index / 8, chunk);
        proof {
            let want = before@.update(
                index as int,
                Block { pos: position, key_value: before@[index as int].key_value },
            );
            assert forall|i: int| 0 <= i < self@.len() implies self@[i] == want[i] by {
                if i != index && i / 8 == index as int / 8 {
                    assert(i % 8 != index as int % 8);
                }
            }
            assert(self@ =~= want);
        }
    }

    /// The key and value of a block.
    pub fn key_value(&self, index: usize) -> (r: KeyValue)
        requires
            self.wf(),
            index < self@.len(),
        ensures
            r == self@[index as int].key_value,
    {
        self.key_values[index / 2].0[index % 2]
    }

    /// Changes the key and value of a block.
    pub fn set_key_value(&mut self, index: usize, key_value: KeyValue)
        requires
            old(self).wf(),
            index < old(self)@.len(),
        ensures
            final(self).wf(),
            final(self)@ == old(self)@.update(
                index as int,
                Block { pos: old(self)@[index as int].pos, key_value },
            ),
    {
        let ghost before = *self;
        let mut chunk: KeyValuePair = self.key_values[index / 2];
        chunk.0[index % 2] = key_value;
        self.key_values.set(index / 2, chunk);
        proof {
            let want = before@.update(
                index as int,
                Block { pos: before@[index as int].pos, key_value },
            );
            assert forall|i: int| 0 <= i < self@.len() implies self@[i] == want[i] by {
                if i != index && i / 2 == index as int / 2 {
                    assert(i % 2 != index as int % 2);
                }
            }
            assert(self@ =~= want);
        }
    }

    /// Reads a block.
    pub fn block(&self, index: usize) -> (r: Block)
        requires
            self.wf(),
            index < self@.len(),
        ensures
            r == self@[index as int],
    {
        Block { pos: self.position(index), key_value: self.key_value(index) }
    }

    /// Writes a block.
    pub fn set_block(&mut self, index: usize, block: Block)
        requires
            old(self).wf(),
            index < old(self)@.len(),
        ensures
            final(self).wf(),
            final(self)@ == old(self)@.update(index as int, block),
    {
        let ghost before = self@;
        self.set_position(index, block.pos);
        self.set_key_value(index, block.key_value);
        assert(self@ =~= before.update(index as int, block));
    }
}

/// A stash alone is a store without buckets.
impl PooledStore for SplitStash {
    type Block = Block;

    open spec fn slots(&self) -> Seq<Block> {
        self@
    }

    open spec fn rows(&self) -> Seq<Seq<Block>> {
        Seq::empty()
    }

    open spec fn frame(&self) -> (int, int, int, int, int) {
        (0, 0, 0, 0, 0)
    }

    open spec fn store_ok(&self) -> bool {
        self.wf()
    }

    fn slot(&self, i: usize) -> (r: Block) {
        self.block(i)
    }

    fn set_slot(&mut self, i: usize, b: Block) {
        self.set_block(i, b);
    }

    fn node_slot(&self, n: usize, k: usize) -> (r: Block) {
        Block::default()
    }

    fn set_node_slot(&mut self, n: usize, k: usize, b: Block) {
    }
}

/// Takes the block with key `key` out of the stash, which leaves an empty block there. An
/// empty block comes back when there is none. Of several such blocks the last comes back,
/// and every other moves to the slot of the next.
pub fn read_and_remove_element(stash: &mut SplitStash, key: Key) -> (r: Block)
    requires
        old(stash).wf(),
    ensures
        final(stash).wf(),
        r == last_with(old(stash)@, key),
        final(stash)@ == passed_on(old(stash)@, key),
{
    let n: usize = stash.len();
    remove_key(stash, n, key)
}

/// Writes a block to the first empty slot among the first `length`.
/// If there are no empty slots, nothing happens and returns false.
pub fn write_block_to_empty_slot(stash: &mut SplitStash, length: usize, value: &Block) -> (r: bool)
    requires
        old(stash).wf(),
        length <= old(stash)@.len(),
    ensures
        final(stash).wf(),
        r == exists|i: int| 0 <= i < length && (#[trigger] old(stash)@[i]).pos == DUMMY_POS,
        !r ==> final(stash)@ == old(stash)@,
        r ==> exists|i: int|
            0 <= i < length && (#[trigger] old(stash)@[i]).pos == DUMMY_POS && (forall|k: int|
                0 <= k < i ==> (#[trigger] old(stash)@[k]).pos != DUMMY_POS) && final(stash)@
                == old(stash)@.update(i, *value),
{
    let ghost s0 = stash.slots();
    let r = insert_block(stash, length, value);
    proof {
        if r {
            let i = choose|i: int|
                0 <= i < length && (#[trigger] s0[i]).vacant() && (forall|k: int|
                    0 <= k < i ==> !(#[trigger] s0[k]).vacant()) && stash.slots() == s0.update(
                    i,
                    *value,
                );
            assert(old(stash)@[i].pos == DUMMY_POS);
            assert forall|k: int| 0 <= k < i implies (#[trigger] old(stash)@[k]).pos
                != DUMMY_POS by {
                assert(!s0[k].vacant());
            }
        } else if exists|i: int| 0 <= i < length && (#[trigger] old(stash)@[i]).pos == DUMMY_POS {
            let i = choose|i: int|
                0 <= i < length && (#[trigger] old(stash)@[i]).pos == DUMMY_POS;
            assert(s0[i].vacant());
        }
    }
    r
}

/// Eight pooled two-slot ORAMs sharing one split stash and one split tree.
#[derive(Debug)]
pub struct BigKvOptimizedCircuitOramWithStash<const STASH_SIZE: usize> {
    /// Requested total logical capacity.
    pub capacity: usize,
    /// Leaf count and valid position range of the tree.
    pub max_n: usize,
    /// Height of the tree.
    pub h: usize,
    /// The shared stash followed by scratch space for one lane of a path.
    pub stash: SplitStash,
    /// The packed tree.
    pub tree: HeapTree<Bucket>,
    /// Next deterministic path.
    pub evict_counter: PositionType,
    /// Accumulated credits toward the next deterministic eviction batch.
    pub eviction_credit: usize,
}

/// The ORAM with the default stash.
pub type BigKvOptimizedCircuitOram = BigKvOptimizedCircuitOramWithStash<S>;

/// The ORAM with a 56-block stash.
pub type BigKvOptimizedCircuitOramS56 = BigKvOptimizedCircuitOramWithStash<56>;

impl<const STASH_SIZE: usize> PooledStore for BigKvOptimizedCircuitOramWithStash<STASH_SIZE> {
    type Block = Block;

    open spec fn slots(&self) -> Seq<Block> {
        self.stash@
    }

    open spec fn rows(&self) -> Seq<Seq<Block>> {
        bucket_rows(self.tree.tree@)
    }

    open spec fn frame(&self) -> (int, int, int, int, int) {
        (
            self.capacity as int,
            self.max_n as int,
            self.h as int,
            self.evict_counter as int,
            self.eviction_credit as int,
        )
    }

    open spec fn store_ok(&self) -> bool {
        &&& self.stash.wf()
        &&& self.tree.wf()
        &&& self.tree.height == self.h
        &&& self.tree.branching_factor == 2
        &&& self.tree.leaf_count == self.max_n
    }

    fn slot(&self, i: usize) -> (r: Block) {
        self.stash.block(i)
    }

    fn set_slot(&mut self, i: usize, b: Block) {
        self.stash.set_block(i, b);
    }

    fn node_slot(&self, n: usize, k: usize) -> (r: Block) {
        assert((k / 2) * 2 + k % 2 == k);
        self.tree.tree[n].block(k / 2, k % 2)
    }

    fn set_node_slot(&mut self, n: usize, k: usize, b: Block) {
        let ghost before = self.tree.tree@;
        assert((k / 2) * 2 + k % 2 == k);
        let mut bucket: Bucket = self.tree.tree[n];
        bucket.set_block(k / 2, k % 2, b);
        self.tree.tree.set(n, bucket);
        assert(bucket_rows(self.tree.tree@) =~= bucket_rows(before).update(
            n as int,
            bucket_rows(before)[n as int].update(k as int, b),
        ));
    }
}

impl<const STASH_SIZE: usize> View for BigKvOptimizedCircuitOramWithStash<STASH_SIZE> {
    type V = Map<Key, Block>;

    /// The stored block of every stored key.
    open spec fn view(&self) -> Map<Key, Block> {
        pool_map(self.stash_slots(), self.rows())
    }
}

impl<const STASH_SIZE: usize> BigKvOptimizedCircuitOramWithStash<STASH_SIZE> {
    /// The slots of the stash.
    pub open spec fn stash_slots(&self) -> Seq<Block> {
        self.slots().take(STASH_SIZE as int)
    }

    /// The sizes fit together.
    pub open spec fn shape(&self) -> bool {
        &&& self.store_ok()
        &&& 2 <= self.h < 64
        &&& self.max_n == full_width(self.h - 1, 2)
        &&& full_width(self.h as int, 2) <= usize::MAX
        &&& self.slots().len() == STASH_SIZE + 2 * self.h
        &&& STASH_SIZE + 2 * self.h <= usize::MAX
        &&& STASH_SIZE + 2 * self.h <= i64::MAX
        &&& self.evict_counter < self.max_n
        &&& self.eviction_credit < EVICTION_CREDITS_PER_BATCH
    }

    /// The ORAM is at rest: sizes fit, blocks are where their keys and positions allow,
    /// empty slots are fresh, and every key is stored once.
    pub open spec fn wf(&self) -> bool {
        &&& self.shape()
        &&& pool_ok(self.stash_slots(), self.rows(), self.h as int)
    }

    /// The block of `key` is in the stash or in its lane on the path to `pos`.
    pub open spec fn visible(&self, pos: PositionType, key: Key) -> bool {
        visible(
            self.stash_slots(),
            self.rows(),
            self.h as int,
            pos as int,
            key as int % 8,
            key,
        )
    }

    /// The stash has a vacant slot, or one that holds the block of `key`.
    pub open spec fn has_room(&self, key: Key) -> bool {
        room_for(self.stash_slots(), key)
    }

    /// A stored block is visible from its position.
    pub proof fn lemma_stored_is_visible(&self, key: Key)
        requires
            self.wf(),
            self@.contains_key(key),
        ensures
            self@[key].key_value.key == key,
            self@[key].pos < self.max_n,
            self.visible(self@[key].pos, key),
    {
        lemma_stored_is_opened(self.stash_slots(), self.rows(), self.h as int, key);
        let b = self@[key];
        let col = opened(
            self.stash_slots(),
            self.rows(),
            self.h as int,
            b.pos as int,
            key as int % 8,
        );
        let i = choose|i: int| 0 <= i < col.len() && col[i] == b;
        assert(!col[i].vacant() && col[i].block_key() == key);
    }

    /// An absent key is visible from nowhere.
    pub proof fn lemma_absent_is_not_visible(&self, pos: PositionType, key: Key)
        requires
            self.wf(),
            pos < self.max_n,
            !self@.contains_key(key),
        ensures
            !self.visible(pos, key),
    {
        let col = opened(
            self.stash_slots(),
            self.rows(),
            self.h as int,
            pos as int,
            key as int % 8,
        );
        if self.visible(pos, key) {
            let i = choose|i: int|
                0 <= i < col.len() && !(#[trigger] col[i]).vacant() && col[i].block_key() == key;
            lemma_opened_is_stored(
                self.stash_slots(),
                self.rows(),
                self.h as int,
                pos as int,
                key as int % 8,
                i,
            );
        }
    }

    /// What an update stored is what the next update at the new position finds, and other
    /// keys keep their blocks.
    pub proof fn lemma_found_after_update(
        before: &Self,
        after: &Self,
        key: Key,
        new_pos: PositionType,
        data: [u8; DATA_SIZE],
    )
        requires
            after.wf(),
            after@ == before@.insert(key, (Block { pos: new_pos, key_value: KeyValue { key, data } })),
        ensures
            after.visible(new_pos, key),
            after.payload(key) == data,
            forall|k: Key| #[trigger]
                after@.contains_key(k) == (k == key || before@.contains_key(k)),
            forall|k: Key|
                k != key && before@.contains_key(k) ==> #[trigger] after@[k] == before@[k],
    {
        after.lemma_stored_is_visible(key);
    }

    /// Creates an empty ORAM with the given capacity.
    pub fn new(capacity: usize) -> (r: Self)
        requires
            0 < capacity,
            0 < STASH_SIZE <= usize::MAX - 136,
            STASH_SIZE <= i64::MAX - 128,
        ensures
            r.wf(),
            r@ == Map::<Key, Block>::empty(),
            r.capacity == capacity,
            r.max_n == ceil_pow2(
                if capacity <= 16 {
                    2
                } else {
                    (capacity as int + 7) / 8
                },
            ),
            r.evict_counter == 0,
            r.eviction_credit == 0,
            filled_below(r.stash_slots(), 0),
            r.slots() == Seq::new((STASH_SIZE + 2 * r.h) as nat, |i: int| Block::blank()),
            forall|n: int, k: int|
                #![trigger r.rows()[n][k]]
                0 <= n < r.rows().len() && 0 <= k < BLOCKS_PER_BUCKET ==> r.rows()[n][k]
                    == Block::blank(),
    {
        let groups: usize = capacity / POOLED_LANES + if capacity % POOLED_LANES != 0 {
            1
        } else {
            0
        };
        let blocks_per_lane: usize = if groups < 2 {
            2
        } else {
            groups
        };
        let mut h: usize = 1;
        let mut max_n: usize = 1;
        proof {
            lemma_full_width(0, 2);
        }
        while max_n < blocks_per_lane
            invariant
                2 <= blocks_per_lane <= usize::MAX / 8 + 2,
                1 <= h <= 64,
                max_n == full_width(h - 1, 2),
                ceil_pow2(blocks_per_lane as int) == ceil_pow2_from(
                    blocks_per_lane as int,
                    h - 1,
                ),
                h > 1 ==> max_n < 2 * blocks_per_lane,
                h == 1 ==> max_n == 1,
            decreases 2 * blocks_per_lane - max_n,
        {
            proof {
                lemma_full_width(h - 1, 2);
                lemma_word();
                if h == 64 {
                    lemma_full_width(63, 2);
                }
            }
            max_n = max_n * 2;
            h += 1;
        }
        proof {
            lemma_binary_nodes(h as int);
            lemma_full_width(h - 1, 2);
            lemma_word();
            if h == 64 {
                assert(full_width(64, 2) == 2 * max_n);
            }
        }
        let blank: Bucket = Bucket::default();
        let r = Self {
            capacity,
            max_n,
            h,
            stash: SplitStash::new(STASH_SIZE + 2 * h),
            tree: HeapTree::new_with(h, blank),
            evict_counter: 0,
            eviction_credit: 0,
        };
        proof {
            r.lemma_new();
        }
        r
    }

    proof fn lemma_new(&self)
        requires
            self.shape(),
            forall|i: int| 0 <= i < self.slots().len() ==> #[trigger] self.slots()[i] == Block::blank(),
            forall|n: int, k: int|
                #![trigger self.tree.tree@[n].row()[k]]
                0 <= n < self.tree.tree.len() && 0 <= k < 16 ==> self.tree.tree@[n].row()[k]
                    == Block::blank(),
        ensures
            self.wf(),
            self@ == Map::<Key, Block>::empty(),
            filled_below(self.stash_slots(), 0),
    {
        let stash = self.stash_slots();
        let rows = self.rows();
        lemma_binary_nodes(self.h as int);
        assert forall|n: int| 0 <= n < rows.len() implies (#[trigger] rows[n]).len() == 16
            && level_blank(rows[n]) by {
            assert forall|k: int| 0 <= k < 16 implies #[trigger] rows[n][k] == Block::blank() by {
                assert(rows[n][k] == self.tree.tree@[n].row()[k]);
            }
        }
        assert forall|d: int, p: int, k: int|
            #![trigger rows[crate::pooled::at(self.h as int, d, p)][k]]
            0 <= d < self.h && 0 <= p < full_width(self.h - 1, 2) && 0 <= k
                < 16 implies rows[crate::pooled::at(self.h as int, d, p)][k].vacant() by {
            crate::pooled::lemma_at(self.h as int, p);
            let n = crate::pooled::at(self.h as int, d, p);
            assert(rows[n][k] == self.tree.tree@[n].row()[k]);
        }
        let count = pooled_count(stash, rows);
        assert forall|b: Block| #[trigger] count(b) == 0 by {
            assert forall|i: int| 0 <= i < stash.len() implies (#[trigger] stash[i]).vacant() by {
                assert(stash[i] == self.slots()[i]);
            }
            crate::tally::lemma_tally_vacant(stash, b);
            crate::tally::lemma_tally_groups_positive(rows, b);
            if crate::tally::tally_groups(rows, b) > 0 {
                let n = choose|n: int|
                    0 <= n < rows.len() && !b.vacant() && (#[trigger] rows[n]).contains(b);
                let k = choose|k: int| 0 <= k < rows[n].len() && rows[n][k] == b;
                assert(rows[n].len() == 16);
                assert(rows[n][k] == self.tree.tree@[n].row()[k]);
            }
        }
        assert(self@ =~= Map::<Key, Block>::empty());
    }

    /// Reads only one two-slot pooled lane along a path into the scratch tail.
    pub fn read_path_and_get_nodes(&mut self, pos: PositionType, pooled_lane: usize)
        requires
            old(self).shape(),
            nodes_shape(old(self).rows(), old(self).h as int),
            pos < old(self).max_n,
            pooled_lane < POOLED_LANES,
        ensures
            final(self).shape(),
            final(self).rows() == old(self).rows(),
            final(self).frame() == old(self).frame(),
            final(self).slots() == opened(
                old(self).stash_slots(),
                old(self).rows(),
                old(self).h as int,
                pos as int,
                pooled_lane as int,
            ),
    {
        let h: usize = self.h;
        read_lane_path(self, STASH_SIZE, h, pos, pooled_lane);
    }

    /// Writes one two-slot pooled lane from the scratch tail back to the tree.
    pub fn write_back_path(&mut self, pos: PositionType, pooled_lane: usize)
        requires
            old(self).shape(),
            nodes_shape(old(self).rows(), old(self).h as int),
            pos < old(self).max_n,
            pooled_lane < POOLED_LANES,
        ensures
            final(self).shape(),
            final(self).slots() == old(self).slots(),
            final(self).frame() == old(self).frame(),
            final(self).rows() == write_lane(
                old(self).rows(),
                old(self).h as int,
                pos as int,
                pooled_lane as int,
                old(self).slots().skip(STASH_SIZE as int),
                old(self).h as int,
            ),
    {
        let h: usize = self.h;
        write_lane_path(self, STASH_SIZE, h, pos, pooled_lane);
    }

    /// `EvictOnceFast` of the Circuit ORAM paper, on one lane in the working array.
    pub fn evict_once_fast(&mut self, pos: PositionType, pooled_lane: usize)
        requires
            old(self).shape(),
            pooled_lane < POOLED_LANES,
        ensures
            final(self).shape(),
            final(self).rows() == old(self).rows(),
            final(self).frame() == old(self).frame(),
            column_settled(
                old(self).slots(),
                depth_column(
                    old(self).slots(),
                    STASH_SIZE as int,
                    pooled_lane as int,
                    pos as int,
                ),
                final(self).slots(),
                STASH_SIZE + 2,
                2,
                old(self).h as int,
            ),
            forall|b: Block| #[trigger]
                tally(final(self).slots(), b) == tally(old(self).slots(), b),
            level_blank(old(self).slots()) ==> final(self).slots() == settled_column(
                old(self).slots(),
                depth_column(
                    old(self).slots(),
                    STASH_SIZE as int,
                    pooled_lane as int,
                    pos as int,
                ),
                STASH_SIZE + 2,
                old(self).h as int,
            ),
    {
        let h: usize = self.h;
        proof {
            lemma_word();
        }
        evict_working(self, STASH_SIZE, h, pos, pooled_lane);
    }

    /// Reads one pooled lane on a path, evicts it, and writes it back.
    pub fn perform_eviction(&mut self, pos: PositionType, pooled_lane: usize)
        requires
            old(self).wf(),
            pos < old(self).max_n,
            pooled_lane < POOLED_LANES,
        ensures
            final(self).wf(),
            final(self)@ == old(self)@,
            final(self).frame() == old(self).frame(),
            (final(self).stash_slots(), final(self).rows()) == evicted(
                old(self).stash_slots(),
                old(self).rows(),
                old(self).h as int,
                pos as int,
                pooled_lane as int,
            ),
            lane_progress(
                old(self).stash_slots(),
                old(self).rows(),
                final(self).rows(),
                old(self).h as int,
                pos as int,
                pooled_lane as int,
            ),
    {
        let h: usize = self.h;
        proof {
            crate::pooled::lemma_evicted(
                self.stash_slots(),
                self.rows(),
                h as int,
                pos as int,
                pooled_lane as int,
            );
        }
        proof {
            lemma_evicted_progress(
                self.stash_slots(),
                self.rows(),
                h as int,
                pos as int,
                pooled_lane as int,
            );
        }
        evict_path(self, STASH_SIZE, h, pos, pooled_lane);
    }

    /// Plans the passes over all eight pooled lanes of one path.
    pub fn prepare_batch_eviction_plan(&self, path: PositionType) -> (r: BatchEvictionPlan)
        requires
            self.wf(),
            path < self.max_n,
        ensures
            plan_size(r, self.h as int),
            forall|lane: int|
                0 <= lane < 8 ==> #[trigger] plan_fits(
                    r,
                    self.stash_slots(),
                    self.rows(),
                    self.h as int,
                    path as int,
                    lane,
                ),
    {
        prepare_plan(self, STASH_SIZE, self.h, path)
    }

    /// Moves the blocks of all eight pooled lanes of one path as planned, level by level.
    /// The outcome is that of evicting the lanes one after another.
    pub fn move_batch_breadth_first(&mut self, path: PositionType, plan: &BatchEvictionPlan)
        requires
            old(self).wf(),
            path < old(self).max_n,
            plan_size(*plan, old(self).h as int),
            forall|lane: int|
                0 <= lane < 8 ==> #[trigger] plan_fits(
                    *plan,
                    old(self).stash_slots(),
                    old(self).rows(),
                    old(self).h as int,
                    path as int,
                    lane,
                ),
        ensures
            final(self).wf(),
            final(self)@ == old(self)@,
            final(self).frame() == old(self).frame(),
            (final(self).stash_slots(), final(self).rows()) == evicted_lanes(
                old(self).stash_slots(),
                old(self).rows(),
                old(self).h as int,
                path as int,
                8,
            ),
    {
        let h: usize = self.h;
        proof {
            lemma_batch_sequential(
                self.stash_slots(),
                self.rows(),
                h as int,
                path as int,
                8,
            );
        }
        move_batch(self, STASH_SIZE, h, path, plan);
    }

    /// Evicts all eight pooled lanes on the next public path.
    fn perform_deterministic_eviction_batch(&mut self)
        requires
            old(self).pool_and_shape(),
        ensures
            final(self).pool_and_shape(),
            final(self)@ == old(self)@,
            (final(self).stash_slots(), final(self).rows()) == evicted_lanes(
                old(self).stash_slots(),
                old(self).rows(),
                old(self).h as int,
                old(self).evict_counter as int,
                8,
            ),
            final(self).evict_counter == (old(self).evict_counter + 1) % old(self).max_n as int,
            final(self).capacity == old(self).capacity,
            final(self).max_n == old(self).max_n,
            final(self).h == old(self).h,
            final(self).eviction_credit == old(self).eviction_credit,
            forall|m: int| #[trigger]
                filled_below(old(self).stash_slots(), m) ==> filled_below(
                    final(self).stash_slots(),
                    m,
                ),
            forall|lane: int|
                0 <= lane < 8 ==> #[trigger] lane_progress(
                    old(self).stash_slots(),
                    old(self).rows(),
                    final(self).rows(),
                    old(self).h as int,
                    old(self).evict_counter as int,
                    lane,
                ),
    {
        let h: usize = self.h;
        let path: PositionType = self.evict_counter;
        let ghost st = self.stash_slots();
        let ghost nd = self.rows();
        evict_batch(self, STASH_SIZE, h, path);
        proof {
            lemma_full_width_grows(0, h - 1, 2);
            lemma_full_width(h - 1, 2);
            vstd::arithmetic::div_mod::lemma_mod_bound(path + 1, self.max_n as int);
        }
        self.evict_counter = (self.evict_counter + 1) % self.max_n as u64;
        proof {
            assert forall|lane: int| 0 <= lane < 8 implies #[trigger] lane_progress(
                st,
                nd,
                self.rows(),
                h as int,
                path as int,
                lane,
            ) by {
                lemma_batch_progress(st, nd, h as int, path as int, lane);
            }
        }
    }

    /// At rest, whatever the credit.
    pub open spec fn pool_and_shape(&self) -> bool {
        &&& self.store_ok()
        &&& 2 <= self.h < 64
        &&& self.max_n == full_width(self.h - 1, 2)
        &&& full_width(self.h as int, 2) <= usize::MAX
        &&& self.slots().len() == STASH_SIZE + 2 * self.h
        &&& STASH_SIZE + 2 * self.h <= usize::MAX
        &&& STASH_SIZE + 2 * self.h <= i64::MAX
        &&& self.evict_counter < self.max_n
        &&& pool_ok(self.stash_slots(), self.rows(), self.h as int)
    }

    /// One batch of deterministic evictions on its own.
    pub fn benchmark_deterministic_eviction_batch(&mut self)
        requires
            old(self).wf(),
        ensures
            final(self).wf(),
            final(self)@ == old(self)@,
            (final(self).stash_slots(), final(self).rows()) == evicted_lanes(
                old(self).stash_slots(),
                old(self).rows(),
                old(self).h as int,
                old(self).evict_counter as int,
                8,
            ),
            final(self).evict_counter == (old(self).evict_counter + 1) % old(self).max_n as int,
            final(self).eviction_credit == old(self).eviction_credit,
            final(self).capacity == old(self).capacity,
            final(self).max_n == old(self).max_n,
            final(self).h == old(self).h,
            forall|lane: int|
                0 <= lane < 8 ==> #[trigger] lane_progress(
                    old(self).stash_slots(),
                    old(self).rows(),
                    final(self).rows(),
                    old(self).h as int,
                    old(self).evict_counter as int,
                    lane,
                ),
    {
        self.perform_deterministic_eviction_batch();
    }

    /// The payload that [`Self::update`] starts from: the stored one, or all ones.
    pub open spec fn payload(&self, key: Key) -> [u8; DATA_SIZE] {
        if self@.contains_key(key) {
            self@[key].key_value.data
        } else {
            [0xffu8; DATA_SIZE]
        }
    }

    /// What an update does to the public counters, and that it fills at most one more slot
    /// of the stash.
    pub open spec fn advanced(&self, before: &Self) -> bool {
        let credit = before.eviction_credit + EVICTIONS_PER_OP_NUMERATOR;
        &&& self.capacity == before.capacity
        &&& self.max_n == before.max_n
        &&& self.h == before.h
        &&& credit < EVICTION_CREDITS_PER_BATCH ==> self.eviction_credit == credit
            && self.evict_counter == before.evict_counter
        &&& credit >= EVICTION_CREDITS_PER_BATCH ==> self.eviction_credit == credit
            - EVICTION_CREDITS_PER_BATCH && self.evict_counter == (before.evict_counter + 1)
            % before.max_n as int
        &&& forall|m: int| #[trigger]
            filled_below(before.stash_slots(), m) && 0 <= m ==> filled_below(
                self.stash_slots(),
                m + 1,
            )
    }

    /// Which slots the blocks are in after an update of `key` along the path to `pos` that
    /// leaves `block` behind: the lane of the key was evicted along that path, and when a
    /// batch of deterministic evictions was due, every lane along the next public path.
    pub open spec fn moved(&self, before: &Self, pos: PositionType, key: Key, block: Block) -> bool {
        let (stash, rows) = accessed(
            before.stash_slots(),
            before.rows(),
            before.h as int,
            pos as int,
            key as int % 8,
            key,
            block,
        );
        (self.stash_slots(), self.rows()) == (if before.eviction_credit
            + EVICTIONS_PER_OP_NUMERATOR < EVICTION_CREDITS_PER_BATCH {
            (stash, rows)
        } else {
            evicted_lanes(stash, rows, before.h as int, before.evict_counter as int, 8)
        })
    }

    /// Updates a value in the ORAM using a provided update function.
    /// An absent element starts with the all-ones dummy payload.
    ///
    /// Returns whether the element was found and the result of the update function. While no
    /// batch of deterministic evictions is due, only the lane of the key changes in the tree.
    pub fn update<T, F: FnOnce(&mut [u8; DATA_SIZE]) -> T>(
        &mut self,
        pos: PositionType,
        new_pos: PositionType,
        key: Key,
        update_func: F,
    ) -> (r: (bool, T))
        requires
            old(self).wf(),
            pos < old(self).max_n,
            new_pos < old(self).max_n,
            key != DUMMY_KEY,
            old(self)@.contains_key(key) ==> old(self).visible(pos, key),
            forall|d: &mut [u8; DATA_SIZE]|
                *d == old(self).payload(key) ==> #[trigger] call_requires(update_func, (d,)),
        ensures
            final(self).wf(),
            r.0 == old(self)@.contains_key(key),
            exists|d: &mut [u8; DATA_SIZE]| #[trigger]
                call_ensures(update_func, (d,), r.1) && *d == old(self).payload(key)
                    && final(self)@ == (if old(self).has_room(key) {
                    old(self)@.insert(key, Block { pos: new_pos, key_value: KeyValue { key, data: *final(d) } })
                } else {
                    old(self)@.remove(key)
                }) && final(self).moved(
                    old(self),
                    pos,
                    key,
                    Block { pos: new_pos, key_value: KeyValue { key, data: *final(d) } },
                ),
            final(self).advanced(old(self)),
            final(self).evict_counter == old(self).evict_counter && old(self).eviction_credit
                + EVICTIONS_PER_OP_NUMERATOR < EVICTION_CREDITS_PER_BATCH ==> forall|
                n: int,
                k: int,
            |
                #![trigger final(self).rows()[n][k]]
                0 <= n < old(self).rows().len() && 0 <= k < 16 && k / 2 != key as int % 8
                    ==> final(self).rows()[n][k] == old(self).rows()[n][k],
    {
        let h: usize = self.h;
        let pooled_lane: usize = pooled_lane_for_key(key);
        proof {
            if !self@.contains_key(key) {
                self.lemma_absent_is_not_visible(pos, key);
            }
        }
        let mut block: Block = open_and_remove(
            self,
            STASH_SIZE,
            h,
            pos,
            pooled_lane,
            key,
        );
        let found: bool = !block.is_empty();
        let mut data: [u8; DATA_SIZE] = block.key_value.data;
        assert(data == old(self).payload(key));
        let result = apply_update(&mut data, update_func);
        block.key_value.data = data;
        block.pos = new_pos;
        block.key_value.key = key;
        let ghost opened_self = *self;
        proof {
            lemma_word();
            lemma_full_width(h - 1, 2);
            lemma_full_width_grows(h as int, 63, 2);
            lemma_full_width(63, 2);
        }
        let inserted: bool = place_and_evict(
            self,
            STASH_SIZE,
            h,
            pos,
            pooled_lane,
            &block,
        );
        let ghost placed = *self;
        proof {
            assert(inserted == old(self).has_room(key));
            assert(old(self)@.remove(key).insert(key, block) =~= old(self)@.insert(key, block));
            if !found {
                assert(old(self)@.remove(key) =~= old(self)@);
            }
            assert(self@ == (if inserted {
                old(self)@.insert(key, block)
            } else {
                old(self)@.remove(key)
            }));
            assert forall|m: int| #[trigger]
                filled_below(old(self).stash_slots(), m) && 0 <= m implies filled_below(
                self.stash_slots(),
                m + 1,
            ) by {
                let st = opened_self.stash_slots();
                assert forall|i: int| m <= i < st.len() && 0 <= i implies (
                #[trigger] st[i]).vacant() by {
                    assert(old(self).stash_slots()[i].vacant());
                    assert(opened_self.slots()[i].vacant());
                }
                assert(filled_below(st, m));
            }
        }
        self.eviction_credit = self.eviction_credit + EVICTIONS_PER_OP_NUMERATOR;
        let ghost credited = *self;
        assert(self.stash_slots() == placed.stash_slots() && self.rows() == placed.rows());
        if self.eviction_credit >= EVICTION_CREDITS_PER_BATCH {
            self.perform_deterministic_eviction_batch();
            self.eviction_credit = self.eviction_credit - EVICTION_CREDITS_PER_BATCH;
        }
        proof {
            let d = choose|d: &mut [u8; DATA_SIZE]| #[trigger]
                call_ensures(update_func, (d,), result) && *d == old(self).payload(key)
                    && *final(d) == data;
            assert(call_ensures(update_func, (d,), result));
            assert(*final(d) == block.key_value.data);
            assert(block == (Block { pos: new_pos, key_value: KeyValue { key, data: *final(d) } }));
            assert(credited@ == placed@);
            assert(self.moved(old(self), pos, key, block));
            assert(self@ == placed@);
        }
        let r = (found, result);
        assert(r.1 == result);
        r
    }

    /// A due batch makes progress in every lane. `mid` is what the same update leaves
    /// when no batch is due, and `after` what it leaves when one is. Along the path to the
    /// public counter, every lane with a vacant slot below the root and a block above it,
    /// or in the stash, that may go there has one more block from that level on. Slots off
    /// that path stay, and the stash only loses blocks.
    pub proof fn lemma_due_batch(
        before: Self,
        plain: Self,
        mid: Self,
        after: Self,
        pos: PositionType,
        key: Key,
        block: Block,
    )
        requires
            before.wf(),
            mid.wf(),
            plain.stash_slots() == before.stash_slots(),
            plain.rows() == before.rows(),
            plain.h == before.h,
            plain.eviction_credit + 3 < 16,
            mid.h == before.h,
            mid.moved(&plain, pos, key, block),
            before.eviction_credit + 3 >= 16,
            after.moved(&before, pos, key, block),
        ensures
            forall|lane: int|
                0 <= lane < 8 ==> #[trigger] lane_progress(
                    mid.stash_slots(),
                    mid.rows(),
                    after.rows(),
                    before.h as int,
                    before.evict_counter as int,
                    lane,
                ),
            forall|n: int, k: int|
                #![trigger after.rows()[n][k]]
                0 <= n < mid.rows().len() && 0 <= k < 16 && (forall|e: int|
                    0 <= e < before.h ==> n != #[trigger] at(
                        before.h as int,
                        e,
                        before.evict_counter as int,
                    )) ==> after.rows()[n][k] == mid.rows()[n][k],
            forall|i: int|
                0 <= i < mid.stash_slots().len() ==> #[trigger] after.stash_slots()[i]
                    == mid.stash_slots()[i] || after.stash_slots()[i].vacant(),
    {
        let h = before.h as int;
        let path = before.evict_counter as int;
        let st = mid.stash_slots();
        let nd = mid.rows();
        lemma_batch_sequential(st, nd, h, path, 8);
        assert forall|lane: int| 0 <= lane < 8 implies #[trigger] lane_progress(
            st,
            nd,
            after.rows(),
            h,
            path,
            lane,
        ) by {
            lemma_batch_progress(st, nd, h, path, lane);
        }
        assert forall|n: int, k: int|
            #![trigger after.rows()[n][k]]
            0 <= n < nd.len() && 0 <= k < 16 && (forall|e: int|
                0 <= e < h ==> n != #[trigger] at(h, e, path)) implies after.rows()[n][k]
            == nd[n][k] by {
            assert(!on_lanes(h, path, 8, n, k));
        }
    }

    /// While no batch is due, an update makes progress in the lane of its key along the
    /// accessed path.
    pub proof fn lemma_plain_update(
        before: Self,
        after: Self,
        pos: PositionType,
        key: Key,
        block: Block,
    )
        requires
            before.wf(),
            pos < before.max_n,
            !block.vacant(),
            block.block_key() == key,
            before.eviction_credit + 3 < 16,
            after.moved(&before, pos, key, block),
        ensures
            access_progress(
                before.stash_slots(),
                before.rows(),
                after.rows(),
                before.h as int,
                pos as int,
                key as int % 8,
                key,
                block,
            ),
    {
        lemma_access_progress(
            before.stash_slots(),
            before.rows(),
            before.h as int,
            pos as int,
            key as int % 8,
            key,
            block,
        );
    }

    /// Three credits come with every update and sixteen pay for a batch. So after `n`
    /// updates the counter has gone on by the batches that were paid for, each along the
    /// next path, and the rest of the credit is kept.
    pub proof fn lemma_batches(states: Seq<Self>, n: int)
        requires
            0 <= n < states.len(),
            states[0].wf(),
            forall|i: int|
                0 <= i < n ==> (#[trigger] states[i + 1]).advanced(&states[i]),
        ensures
            states[n].max_n == states[0].max_n,
            states[n].eviction_credit == (states[0].eviction_credit + 3 * n) % 16,
            states[n].evict_counter == (states[0].evict_counter + (states[0].eviction_credit + 3
                * n) / 16) % states[0].max_n as int,
        decreases n,
    {
        let m = states[0].max_n as int;
        let h = states[0].h as int;
        lemma_full_width(h - 1, 2);
        if n == 0 {
            vstd::arithmetic::div_mod::lemma_small_mod(states[0].evict_counter as nat, m as nat);
        } else {
            Self::lemma_batches(states, n - 1);
            assert(states[n - 1 + 1].advanced(&states[n - 1]));
            let c = states[0].eviction_credit + 3 * (n - 1);
            let a = states[0].evict_counter + c / 16;
            vstd::arithmetic::div_mod::lemma_add_mod_noop_right(1, a, m);
        }
    }
}

} // verus!
