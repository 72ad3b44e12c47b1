//! Circuit ORAM for 56-byte payloads: eight trees packed into sixteen-slot buckets, with
//! one shared stash.
use vstd::prelude::*;
use crate::circuit::{column_settled, level_blank, peak, peak_slot, scan_level};
use crate::heap_tree::{full_width, lemma_binary_nodes, lemma_full_width, lemma_full_width_grows};
use crate::heap_tree::HeapTree;
use crate::oblivious::{cmov_bytes, cmov_u32, ObliviousBlock};
use crate::pooled::{last_with, passed_on};
use crate::pooled::{accessed, depth_column, evicted, evicted_lanes, opened};
use crate::pooled::{lemma_opened_is_stored, lemma_stored_is_opened, nodes_shape};
use crate::pooled::{pool_map, pool_ok, pooled_count, settled_column, write_lane, PooledBlock};
use crate::pooled::{at, lemma_batch_sequential, on_lanes};
use crate::pooled_laws::{access_progress, lane_progress, lemma_access_progress};
use crate::pooled_laws::{lemma_batch_progress, lemma_evicted_progress};
use crate::pooled_store::{evict_batch, evict_path, evict_working, filled_below};
use crate::pooled_store::{insert_block, level_metadata, metadata_fits, move_batch};
use crate::pooled_store::{open_and_remove, place_and_evict, plan_fits, plan_size, prepare_plan};
use crate::pooled_store::{read_lane_path, remove_key, room_for, slot_depths, visible};
use crate::pooled_store::{write_lane_path, BatchEvictionPlan, LevelMetadata, PooledStore};
use crate::prelude::{apply_update, ceil_pow2, ceil_pow2_from, filled, PositionType, DUMMY_POS};
use crate::suffix::common_suffix_length;
use crate::tally::tally;

verus! {

broadcast use vstd::array::group_array_axioms;

/// Slots in one independently addressed pooled lane.
pub const SLOTS_PER_POOLED_LANE: usize = 2;

/// Number of independent pooled lanes packed into one tree bucket.
pub const POOLED_LANES: usize = 8;

/// Total blocks in one wide tree bucket.
pub const BLOCKS_PER_BUCKET: usize = 16;

/// Blocks in the one shared stash.
pub const S: usize = 50;

/// Numerator of the amortized deterministic-eviction rate.
pub const EVICTIONS_PER_OP_NUMERATOR: usize = 3;

/// Denominator of the amortized deterministic-eviction rate.
pub const EVICTIONS_PER_OP_DENOMINATOR: usize = 1;

/// Credits that pay for one batch of deterministic evictions.
pub const EVICTION_CREDITS_PER_BATCH: usize = 16;

/// Bytes stored in each block.
pub const DATA_SIZE: usize = 56;

/// Compact key stored alongside the position.
/// The largest key is reserved for dummy blocks.
pub type Key = u32;

/// The key of a dummy block.
pub const DUMMY_KEY: Key = 0xffff_ffff;

/// A block in the ORAM tree
/// # Invariants
/// If `pos == DUMMY_POS`, the block is empty, there are no guarantees about the key of value in that case.
/// If `pos != DUMMY_POS`, the block is full and the key and value are valid.
///
/// # Note
/// * It is wrong to assume anything about the block being empty or not based on the key, please use pos.
#[derive(Clone, Copy, Debug, PartialEq, Eq)]
pub struct Block {
    /// The position of the block.
    pub pos: PositionType,
    /// The key of the block.
    pub key: Key,
    /// The data stored in the block.
    pub data: [u8; DATA_SIZE],
}

impl Default for Block {
    fn default() -> (r: Self)
        ensures
            r == Block::blank(),
    {
        Block { pos: DUMMY_POS, key: DUMMY_KEY, data: [0xffu8; DATA_SIZE] }
    }
}

impl Block {
    /// Checks if the block is empty or not.
    pub fn is_empty(&self) -> (r: bool)
        ensures
            r == (self.pos == DUMMY_POS),
    {
        self.pos == DUMMY_POS
    }
}

impl ObliviousBlock for Block {
    open spec fn vacant(self) -> bool {
        self.pos == DUMMY_POS
    }

    open spec fn vacated(self) -> Self {
        Self::blank()
    }

    open spec fn blank() -> Self {
        Block { pos: DUMMY_POS, key: DUMMY_KEY, data: [0xffu8; DATA_SIZE] }
    }

    proof fn lemma_vacancy(self) {
    }

    fn is_vacant(&self) -> (r: bool) {
        self.pos == DUMMY_POS
    }

    fn fresh() -> (r: Self) {
        Block::default()
    }

    fn select(&mut self, other: &Self, choice: bool) {
        cmov_u32(&mut self.pos, other.pos, choice);
        cmov_u32(&mut self.key, other.key, choice);
        cmov_bytes(&mut self.data, &other.data, choice);
    }

    fn vacate(&mut self, choice: bool) {
        self.select(&Block::default(), choice);
    }
}

impl PooledBlock for Block {
    type Key = Key;

    open spec fn block_key(self) -> Key {
        self.key
    }

    open spec fn key_int(self) -> int {
        self.key as int
    }

    open spec fn pos_int(self) -> int {
        self.pos as int
    }

    open spec fn pos_bits() -> int {
        32
    }

    proof fn lemma_pooled(self) {
    }

    fn lane_index(&self) -> (r: usize) {
        pooled_lane_for_key(self.key)
    }

    fn shared_with(&self, path: u64) -> (r: i64) {
        proof {
            lemma_word();
        }
        common_suffix_length(self.pos, path as u32) as i64
    }

    fn has_key(&self, key: Key) -> (r: bool) {
        self.key == key
    }
}

proof fn lemma_word()
    ensures
        full_width(32, 2) == 0x1_0000_0000,
        full_width(30, 2) == 0x4000_0000,
        full_width(29, 2) == 0x2000_0000,
{
    vstd::arithmetic::power2::lemma2_to64();
    vstd::arithmetic::power2::lemma_pow2(32);
    vstd::arithmetic::power2::lemma_pow2(30);
    vstd::arithmetic::power2::lemma_pow2(29);
}

/// Selects a two-slot pooled lane using the low three key bits.
pub fn pooled_lane_for_key(key: Key) -> (r: usize)
    ensures
        r == key as int % 8,
        r < POOLED_LANES,
{
    (key % 8) as usize
}

/// A wide tree bucket containing sixteen independently addressed slots: two for each
/// pooled lane, lane after lane.
#[derive(Clone, Copy, Debug, PartialEq, Eq)]
pub struct Bucket(pub [Block; BLOCKS_PER_BUCKET]);

impl Default for Bucket {
    fn default() -> (r: Self)
        ensures
            forall|k: int| 0 <= k < 16 ==> #[trigger] r.0[k] == Block::blank(),
    {
        Bucket([Block::default(); BLOCKS_PER_BUCKET])
    }
}

/// The slots of every bucket.
pub open spec fn bucket_rows(s: Seq<Bucket>) -> Seq<Seq<Block>> {
    s.map_values(|c: Bucket| c.0@)
}

/// The positions in a bucket: slot zero of every lane, then slot one.
pub fn gather_level_positions(bucket: &Bucket) -> (r: (
    [PositionType; POOLED_LANES],
    [PositionType; POOLED_LANES],
))
    ensures
        forall|l: int| 0 <= l < 8 ==> #[trigger] r.0@[l] == bucket.0[2 * l].pos,
        forall|l: int| 0 <= l < 8 ==> #[trigger] r.1@[l] == bucket.0[2 * l + 1].pos,
{
    let mut first: [PositionType; POOLED_LANES] = [DUMMY_POS; POOLED_LANES];
    let mut second: [PositionType; POOLED_LANES] = [DUMMY_POS; POOLED_LANES];
    let mut lane: usize = 0;
    while lane < POOLED_LANES
        invariant
            lane <= 8,
            forall|l: int| 0 <= l < lane ==> #[trigger] first@[l] == bucket.0[2 * l].pos,
            forall|l: int| 0 <= l < lane ==> #[trigger] second@[l] == bucket.0[2 * l + 1].pos,
        decreases 8 - lane,
    {
        first[lane] = bucket.0[2 * lane].pos;
        second[lane] = bucket.0[2 * lane + 1].pos;
        lane += 1;
    }
    (first, second)
}

/// What the planning of a pass along `path` needs of a bucket, for every lane.
pub fn prepare_level_metadata(bucket: &Bucket, path: PositionType) -> (r: LevelMetadata)
    ensures
        forall|lane: int|
            0 <= lane < 8 ==> #[trigger] metadata_fits(r, bucket.0@, lane, path as int),
{
    let mut row: Vec<Block> = Vec::new();
    let mut k: usize = 0;
    while k < BLOCKS_PER_BUCKET
        invariant
            k <= 16,
            row@ == bucket.0@.take(k as int),
        decreases 16 - k,
    {
        row.push(bucket.0[k]);
        assert(bucket.0@.take(k + 1) =~= bucket.0@.take(k as int).push(bucket.0[k as int]));
        k += 1;
    }
    assert(bucket.0@.take(16) =~= bucket.0@);
    proof {
        lemma_word();
    }
    level_metadata(&row, path as u64)
}

/// A flat block stash.
#[derive(Clone, Debug)]
pub struct AlignedStash(pub Vec<Block>);

impl AlignedStash {
    /// A stash of empty blocks, in pairs.
    pub fn new(blocks: usize) -> (r: Self)
        requires
            blocks % SLOTS_PER_POOLED_LANE == 0,
        ensures
            r.0@ == Seq::new(blocks as nat, |i: int| Block::blank()),
    {
        AlignedStash(filled(Block::default(), blocks))
    }
}

/// A stash alone is a store without buckets.
impl PooledStore for AlignedStash {
    type Block = Block;

    open spec fn slots(&self) -> Seq<Block> {
        self.0@
    }

    open spec fn rows(&self) -> Seq<Seq<Block>> {
        Seq::empty()
    }

    open spec fn frame(&self) -> (int, int, int, int, int) {
        (0, 0, 0, 0, 0)
    }

    open spec fn store_ok(&self) -> bool {
        true
    }

    fn slot(&self, i: usize) -> (r: Block) {
        self.0[i]
    }

    fn set_slot(&mut self, i: usize, b: Block) {
        self.0.set(i, b);
    }

    fn node_slot(&self, n: usize, k: usize) -> (r: Block) {
        Block::default()
    }

    fn set_node_slot(&mut self, n: usize, k: usize, b: Block) {
    }
}

/// Takes the block with key `k` out of the stash, which leaves an empty block there. An
/// empty block comes back when there is none. Of several such blocks the last comes back,
/// and every other moves to the slot of the next.
pub fn read_and_remove_element(arr: &mut AlignedStash, k: Key) -> (r: Block)
    ensures
        r == last_with(old(arr).0@, k),
        final(arr).0@ == passed_on(old(arr).0@, k),
{
    let n: usize = arr.0.len();
    remove_key(arr, n, k)
}

/// Writes a block to the first empty slot among the first `n`.
/// If there are no empty slots, nothing happens and returns false.
pub fn write_block_to_empty_slot(arr: &mut AlignedStash, n: usize, val: &Block) -> (r: bool)
    requires
        n <= old(arr).0@.len(),
    ensures
        r == exists|i: int| 0 <= i < n && (#[trigger] old(arr).0@[i]).pos == DUMMY_POS,
        !r ==> final(arr).0@ == old(arr).0@,
        r ==> exists|i: int|
            0 <= i < n && (#[trigger] old(arr).0@[i]).pos == DUMMY_POS && (forall|k: int|
                0 <= k < i ==> (#[trigger] old(arr).0@[k]).pos != DUMMY_POS) && final(arr).0@
                == old(arr).0@.update(i, *val),
{
    let ghost s0 = arr.slots();
    let r = insert_block(arr, n, val);
    proof {
        if r {
            let i = choose|i: int|
                0 <= i < n && (#[trigger] s0[i]).vacant() && (forall|k: int|
                    0 <= k < i ==> !(#[trigger] s0[k]).vacant()) && arr.slots() == s0.update(
                    i,
                    *val,
                );
            assert(old(arr).0@[i].pos == DUMMY_POS);
            assert forall|k: int| 0 <= k < i implies (#[trigger] old(arr).0@[k]).pos
                != DUMMY_POS by {
                assert(!s0[k].vacant());
            }
        } else if exists|i: int| 0 <= i < n && (#[trigger] old(arr).0@[i]).pos == DUMMY_POS {
            let i = choose|i: int| 0 <= i < n && (#[trigger] old(arr).0@[i]).pos == DUMMY_POS;
            assert(s0[i].vacant());
        }
    }
    r
}

/// The depth and the index of the block of a lane, in the stash or in the root slots behind
/// it, that can go deepest along `path`; -1 and 0 when there is none. The first of several
/// is chosen.
pub fn find_root_source<const STASH_SIZE: usize>(
    stash: &AlignedStash,
    path: PositionType,
    pooled_lane: usize,
) -> (r: (i32, i32))
    requires
        STASH_SIZE + 2 <= stash.0@.len(),
        STASH_SIZE + 2 <= i32::MAX,
        pooled_lane < POOLED_LANES,
    ensures
        ({
            let d = depth_column(
                stash.0@,
                STASH_SIZE as int,
                pooled_lane as int,
                path as int,
            ).take(STASH_SIZE + 2);
            r.0 == peak(d) && r.1 == peak_slot(d)
        }),
{
    let ghost all = depth_column(
        stash.0@,
        STASH_SIZE as int,
        pooled_lane as int,
        path as int,
    );
    proof {
        lemma_word();
    }
    let depths: Vec<i64> = slot_depths(
        stash,
        STASH_SIZE + 2,
        STASH_SIZE,
        path as u64,
        pooled_lane,
    );
    proof {
        assert forall|j: int| 0 <= j < depths.len() implies -1 <= #[trigger] depths[j] <= 32 by {
            crate::suffix::lemma_shared_bits(stash.0@[j].pos as int, path as int, 32);
            assert(depths@[j] == all[j]);
        }
        crate::circuit::lemma_peak(depths@);
    }
    let (depth, index, _room) = scan_level(&depths);
    (depth as i32, index as i32)
}

/// Circuit ORAMs packed into sixteen-slot buckets with one shared stash.
#[derive(Debug)]
pub struct OptimizedCircuitORAMBigValuesWithStash<const STASH_SIZE: usize> {
    /// Requested total logical capacity across all pooled-lane ORAMs.
    pub capacity: usize,
    /// Leaf count and valid position range for each pooled-lane ORAM.
    pub max_n: usize,
    /// Height of each packed binary tree.
    pub h: usize,
    /// One shared stash followed by scratch space for one two-slot path.
    pub stash: AlignedStash,
    /// The packed sixteen-slot tree.
    pub tree: HeapTree<Bucket>,
    /// Next deterministic path.
    pub evict_counter: PositionType,
    /// Accumulated numerator credits toward the next deterministic eviction batch.
    pub eviction_credit: usize,
}

/// Big-value optimized Circuit ORAM with the default 50-block stash.
pub type OptimizedCircuitORAMBigValues = OptimizedCircuitORAMBigValuesWithStash<S>;

/// Big-value optimized Circuit ORAM with a 40-block stash.
pub type OptimizedCircuitORAMBigValuesS40 = OptimizedCircuitORAMBigValuesWithStash<40>;

/// Big-value optimized Circuit ORAM with a 56-block stash.
pub type OptimizedCircuitORAMBigValuesS56 = OptimizedCircuitORAMBigValuesWithStash<56>;

/// Big-value optimized Circuit ORAM with an 80-block stash.
pub type OptimizedCircuitORAMBigValuesS80 = OptimizedCircuitORAMBigValuesWithStash<80>;

impl<const STASH_SIZE: usize> PooledStore for OptimizedCircuitORAMBigValuesWithStash<STASH_SIZE> {
    type Block = Block;

    open spec fn slots(&self) -> Seq<Block> {
        self.stash.0@
    }

    open spec fn rows(&self) -> Seq<Seq<Block>> {
        bucket_rows(self.tree.tree@)
    }

    open spec fn frame(&self) -> (int, int, int, int, int) {
        (
            self.capacity as int,
            self.max_n as int,
            self.h as int,
            self.evict_counter as int,
            self.eviction_credit as int,
        )
    }

    open spec fn store_ok(&self) -> bool {
        &&& self.tree.wf()
        &&& self.tree.height == self.h
        &&& self.tree.branching_factor == 2
        &&& self.tree.leaf_count == self.max_n
    }

    fn slot(&self, i: usize) -> (r: Block) {
        self.stash.0[i]
    }

    fn set_slot(&mut self, i: usize, b: Block) {
        self.stash.0.set(i, b);
    }

    fn node_slot(&self, n: usize, k: usize) -> (r: Block) {
        self.tree.tree[n].0[k]
    }

    fn set_node_slot(&mut self, n: usize, k: usize, b: Block) {
        let ghost before = self.tree.tree@;
        let mut bucket: Bucket = self.tree.tree[n];
        bucket.0[k] = b;
        self.tree.tree.set(n, bucket);
        assert(bucket_rows(self.tree.tree@) =~= bucket_rows(before).update(
            n as int,
            bucket_rows(before)[n as int].update(k as int, b),
        ));
    }
}

impl<const STASH_SIZE: usize> View for OptimizedCircuitORAMBigValuesWithStash<STASH_SIZE> {
    type V = Map<Key, Block>;

    /// The stored block of every stored key.
    open spec fn view(&self) -> Map<Key, Block> {
        pool_map(self.stash_slots(), self.rows())
    }
}

impl<const STASH_SIZE: usize> OptimizedCircuitORAMBigValuesWithStash<STASH_SIZE> {
    /// The slots of the stash.
    pub open spec fn stash_slots(&self) -> Seq<Block> {
        self.slots().take(STASH_SIZE as int)
    }

    /// The sizes fit together.
    pub open spec fn shape(&self) -> bool {
        &&& self.store_ok()
        &&& 2 <= self.h <= 30
        &&& self.max_n == full_width(self.h - 1, 2)
        &&& full_width(self.h as int, 2) <= 0x4000_0000
        &&& self.slots().len() == STASH_SIZE + 2 * self.h
        &&& STASH_SIZE + 2 * self.h <= i32::MAX
        &&& self.evict_counter < self.max_n
        &&& self.eviction_credit < EVICTION_CREDITS_PER_BATCH
    }

    /// The ORAM is at rest: sizes fit, blocks are where their keys and positions allow,
    /// empty slots are fresh, and every key is stored once.
    pub open spec fn wf(&self) -> bool {
        &&& self.shape()
        &&& pool_ok(self.stash_slots(), self.rows(), self.h as int)
    }

    /// The block of `key` is in the stash or in its lane on the path to `pos`.
    pub open spec fn visible(&self, pos: PositionType, key: Key) -> bool {
        visible(
            self.stash_slots(),
            self.rows(),
            self.h as int,
            pos as int,
            key as int % 8,
            key,
        )
    }

    /// The stash has a vacant slot, or one that holds the block of `key`.
    pub open spec fn has_room(&self, key: Key) -> bool {
        room_for(self.stash_slots(), key)
    }

    /// A stored block is visible from its position.
    pub proof fn lemma_stored_is_visible(&self, key: Key)
        requires
            self.wf(),
            self@.contains_key(key),
        ensures
            self@[key].key == key,
            self@[key].pos < self.max_n,
            self.visible(self@[key].pos, key),
    {
        lemma_stored_is_opened(self.stash_slots(), self.rows(), self.h as int, key);
        let b = self@[key];
        let col = opened(
            self.stash_slots(),
            self.rows(),
            self.h as int,
            b.pos as int,
            key as int % 8,
        );
        let i = choose|i: int| 0 <= i < col.len() && col[i] == b;
        assert(!col[i].vacant() && col[i].block_key() == key);
    }

    /// An absent key is visible from nowhere.
    pub proof fn lemma_absent_is_not_visible(&self, pos: PositionType, key: Key)
        requires
            self.wf(),
            pos < self.max_n,
            !self@.contains_key(key),
        ensures
            !self.visible(pos, key),
    {
        let col = opened(
            self.stash_slots(),
            self.rows(),
            self.h as int,
            pos as int,
            key as int % 8,
        );
        if self.visible(pos, key) {
            let i = choose|i: int|
                0 <= i < col.len() && !(#[trigger] col[i]).vacant() && col[i].block_key() == key;
            lemma_opened_is_stored(
                self.stash_slots(),
                self.rows(),
                self.h as int,
                pos as int,
                key as int % 8,
                i,
            );
        }
    }

    /// What an update stored is what the next update at the new position finds, and other
    /// keys keep their blocks.
    pub proof fn lemma_found_after_update(
        before: &Self,
        after: &Self,
        key: Key,
        new_pos: PositionType,
        data: [u8; DATA_SIZE],
    )
        requires
            after.wf(),
            after@ == before@.insert(key, (Block { pos: new_pos, key, data })),
        ensures
            after.visible(new_pos, key),
            after.payload(key) == data,
            forall|k: Key| #[trigger]
                after@.contains_key(k) == (k == key || before@.contains_key(k)),
            forall|k: Key|
                k != key && before@.contains_key(k) ==> #[trigger] after@[k] == before@[k],
    {
        after.lemma_stored_is_visible(key);
    }

    /// Creates a new empty big-value optimized Circuit ORAM with the given capacity.
    pub fn new(capacity: usize) -> (r: Self)
        requires
            0 < capacity <= u32::MAX,
            0 < STASH_SIZE <= i32::MAX - 60,
            STASH_SIZE % SLOTS_PER_POOLED_LANE == 0,
        ensures
            r.wf(),
            r@ == Map::<Key, Block>::empty(),
            r.capacity == capacity,
            r.max_n == ceil_pow2(
                if capacity <= 16 {
                    2
                } else {
                    (capacity as int + 7) / 8
                },
            ),
            r.evict_counter == 0,
            r.eviction_credit == 0,
            filled_below(r.stash_slots(), 0),
            r.slots() == Seq::new((STASH_SIZE + 2 * r.h) as nat, |i: int| Block::blank()),
            forall|n: int, k: int|
                #![trigger r.rows()[n][k]]
                0 <= n < r.rows().len() && 0 <= k < BLOCKS_PER_BUCKET ==> r.rows()[n][k]
                    == Block::blank(),
    {
        let groups: usize = capacity / POOLED_LANES + if capacity % POOLED_LANES != 0 {
            1
        } else {
            0
        };
        let blocks_per_lane: usize = if groups < 2 {
            2
        } else {
            groups
        };
        let mut h: usize = 1;
        let mut max_n: usize = 1;
        proof {
            lemma_full_width(0, 2);
        }
        while max_n < blocks_per_lane
            invariant
                2 <= blocks_per_lane <= 0x2000_0000,
                1 <= h <= 30,
                max_n == full_width(h - 1, 2),
                ceil_pow2(blocks_per_lane as int) == ceil_pow2_from(
                    blocks_per_lane as int,
                    h - 1,
                ),
                max_n <= 0x2000_0000,
            decreases 0x4000_0000 - max_n,
        {
            proof {
                lemma_full_width(h - 1, 2);
                lemma_word();
                if h == 30 {
                    assert(max_n == 0x2000_0000);
                } else {
                    lemma_full_width_grows(h as int, 29, 2);
                }
            }
            max_n = max_n * 2;
            h += 1;
        }
        proof {
            lemma_binary_nodes(h as int);
            lemma_full_width(h - 1, 2);
            lemma_full_width_grows(h as int, 30, 2);
            lemma_word();
            if h == 1 {
                assert(max_n == 1);
            }
        }
        let blank: Bucket = Bucket::default();
        let r = Self {
            capacity,
            max_n,
            h,
            stash: AlignedStash::new(STASH_SIZE + 2 * h),
            tree: HeapTree::new_with(h, blank),
            evict_counter: 0,
            eviction_credit: 0,
        };
        proof {
            r.lemma_new();
        }
        r
    }

    proof fn lemma_new(&self)
        requires
            self.shape(),
            forall|i: int| 0 <= i < self.slots().len() ==> #[trigger] self.slots()[i] == Block::blank(),
            forall|n: int, k: int|
                #![trigger self.tree.tree@[n].0[k]]
                0 <= n < self.tree.tree.len() && 0 <= k < 16 ==> self.tree.tree@[n].0[k]
                    == Block::blank(),
        ensures
            self.wf(),
            self@ == Map::<Key, Block>::empty(),
            filled_below(self.stash_slots(), 0),
    {
        let stash = self.stash_slots();
        let rows = self.rows();
        lemma_binary_nodes(self.h as int);
        assert forall|n: int| 0 <= n < rows.len() implies (#[trigger] rows[n]).len() == 16
            && level_blank(rows[n]) by {
            assert forall|k: int| 0 <= k < 16 implies #[trigger] rows[n][k] == Block::blank() by {
                assert(rows[n][k] == self.tree.tree@[n].0[k]);
            }
        }
        assert forall|d: int, p: int, k: int|
            #![trigger rows[crate::pooled::at(self.h as int, d, p)][k]]
            0 <= d < self.h && 0 <= p < full_width(self.h - 1, 2) && 0 <= k
                < 16 implies rows[crate::pooled::at(self.h as int, d, p)][k].vacant() by {
            crate::pooled::lemma_at(self.h as int, p);
            let n = crate::pooled::at(self.h as int, d, p);
            assert(rows[n][k] == self.tree.tree@[n].0[k]);
        }
        let count = pooled_count(stash, rows);
        assert forall|b: Block| #[trigger] count(b) == 0 by {
            assert forall|i: int| 0 <= i < stash.len() implies (#[trigger] stash[i]).vacant() by {
                assert(stash[i] == self.slots()[i]);
            }
            crate::tally::lemma_tally_vacant(stash, b);
            crate::tally::lemma_tally_groups_positive(rows, b);
            if crate::tally::tally_groups(rows, b) > 0 {
                let n = choose|n: int|
                    0 <= n < rows.len() && !b.vacant() && (#[trigger] rows[n]).contains(b);
                let k = choose|k: int| 0 <= k < rows[n].len() && rows[n][k] == b;
                assert(rows[n].len() == 16);
                assert(rows[n][k] == self.tree.tree@[n].0[k]);
            }
        }
        assert(self@ =~= Map::<Key, Block>::empty());
    }

    /// Reads only one two-slot pooled lane along a path into the scratch tail.
    pub fn read_path_and_get_nodes(&mut self, pos: PositionType, pooled_lane: usize)
        requires
            old(self).shape(),
            nodes_shape(old(self).rows(), old(self).h as int),
            pos < old(self).max_n,
            pooled_lane < POOLED_LANES,
        ensures
            final(self).shape(),
            final(self).rows() == old(self).rows(),
            final(self).frame() == old(self).frame(),
            final(self).slots() == opened(
                old(self).stash_slots(),
                old(self).rows(),
                old(self).h as int,
                pos as int,
                pooled_lane as int,
            ),
    {
        let h: usize = self.h;
        read_lane_path(self, STASH_SIZE, h, pos as u64, pooled_lane);
    }

    /// Writes one two-slot pooled lane from the scratch tail back to the tree.
    pub fn write_back_path(&mut self, pos: PositionType, pooled_lane: usize)
        requires
            old(self).shape(),
            nodes_shape(old(self).rows(), old(self).h as int),
            pos < old(self).max_n,
            pooled_lane < POOLED_LANES,
        ensures
            final(self).shape(),
            final(self).slots() == old(self).slots(),
            final(self).frame() == old(self).frame(),
            final(self).rows() == write_lane(
                old(self).rows(),
                old(self).h as int,
                pos as int,
                pooled_lane as int,
                old(self).slots().skip(STASH_SIZE as int),
                old(self).h as int,
            ),
    {
        let h: usize = self.h;
        write_lane_path(self, STASH_SIZE, h, pos as u64, pooled_lane);
    }

    /// `EvictOnceFast` of the Circuit ORAM paper, on one lane in the working array.
    pub fn evict_once_fast(&mut self, pos: PositionType, pooled_lane: usize)
        requires
            old(self).shape(),
            pooled_lane < POOLED_LANES,
        ensures
            final(self).shape(),
            final(self).rows() == old(self).rows(),
            final(self).frame() == old(self).frame(),
            column_settled(
                old(self).slots(),
                depth_column(
                    old(self).slots(),
                    STASH_SIZE as int,
                    pooled_lane as int,
                    pos as int,
                ),
                final(self).slots(),
                STASH_SIZE + 2,
                2,
                old(self).h as int,
            ),
            forall|b: Block| #[trigger]
                tally(final(self).slots(), b) == tally(old(self).slots(), b),
            level_blank(old(self).slots()) ==> final(self).slots() == settled_column(
                old(self).slots(),
                depth_column(
                    old(self).slots(),
                    STASH_SIZE as int,
                    pooled_lane as int,
                    pos as int,
                ),
                STASH_SIZE + 2,
                old(self).h as int,
            ),
    {
        let h: usize = self.h;
        proof {
            lemma_word();
        }
        evict_working(self, STASH_SIZE, h, pos as u64, pooled_lane);
    }

    /// Reads one pooled lane on a path, evicts it, and writes it back.
    pub fn perform_eviction(&mut self, pos: PositionType, pooled_lane: usize)
        requires
            old(self).wf(),
            pos < old(self).max_n,
            pooled_lane < POOLED_LANES,
        ensures
            final(self).wf(),
            final(self)@ == old(self)@,
            final(self).frame() == old(self).frame(),
            (final(self).stash_slots(), final(self).rows()) == evicted(
                old(self).stash_slots(),
                old(self).rows(),
                old(self).h as int,
                pos as int,
                pooled_lane as int,
            ),
            lane_progress(
                old(self).stash_slots(),
                old(self).rows(),
                final(self).rows(),
                old(self).h as int,
                pos as int,
                pooled_lane as int,
            ),
    {
        let h: usize = self.h;
        proof {
            crate::pooled::lemma_evicted(
                self.stash_slots(),
                self.rows(),
                h as int,
                pos as int,
                pooled_lane as int,
            );
        }
        proof {
            lemma_evicted_progress(
                self.stash_slots(),
                self.rows(),
                h as int,
                pos as int,
                pooled_lane as int,
            );
        }
        evict_path(self, STASH_SIZE, h, pos as u64, pooled_lane);
    }

    /// Plans the passes over all eight pooled lanes of one path.
    pub fn prepare_batch_eviction_plan(&self, path: PositionType) -> (r: BatchEvictionPlan)
        requires
            self.wf(),
            path < self.max_n,
        ensures
            plan_size(r, self.h as int),
            forall|lane: int|
                0 <= lane < 8 ==> #[trigger] plan_fits(
                    r,
                    self.stash_slots(),
                    self.rows(),
                    self.h as int,
                    path as int,
                    lane,
                ),
    {
        prepare_plan(self, STASH_SIZE, self.h, path as u64)
    }

    /// Moves the blocks of all eight pooled lanes of one path as planned, level by level.
    /// The outcome is that of evicting the lanes one after another.
    pub fn move_batch_breadth_first(&mut self, path: PositionType, plan: &BatchEvictionPlan)
        requires
            old(self).wf(),
            path < old(self).max_n,
            plan_size(*plan, old(self).h as int),
            forall|lane: int|
                0 <= lane < 8 ==> #[trigger] plan_fits(
                    *plan,
                    old(self).stash_slots(),
                    old(self).rows(),
                    old(self).h as int,
                    path as int,
                    lane,
                ),
        ensures
            final(self).wf(),
            final(self)@ == old(self)@,
            final(self).frame() == old(self).frame(),
            (final(self).stash_slots(), final(self).rows()) == evicted_lanes(
                old(self).stash_slots(),
                old(self).rows(),
                old(self).h as int,
                path as int,
                8,
            ),
    {
        let h: usize = self.h;
        proof {
            lemma_batch_sequential(
                self.stash_slots(),
                self.rows(),
                h as int,
                path as int,
                8,
            );
        }
        move_batch(self, STASH_SIZE, h, path as u64, plan);
    }

    /// Evicts all eight pooled lanes on the next public path.
    fn perform_deterministic_eviction_batch(&mut self)
        requires
            old(self).pool_and_shape(),
        ensures
            final(self).pool_and_shape(),
            final(self)@ == old(self)@,
            (final(self).stash_slots(), final(self).rows()) == evicted_lanes(
                old(self).stash_slots(),
                old(self).rows(),
                old(self).h as int,
                old(self).evict_counter as int,
                8,
            ),
            final(self).evict_counter == (old(self).evict_counter + 1) % old(self).max_n as int,
            final(self).capacity == old(self).capacity,
            final(self).max_n == old(self).max_n,
            final(self).h == old(self).h,
            final(self).eviction_credit == old(self).eviction_credit,
            forall|m: int| #[trigger]
                filled_below(old(self).stash_slots(), m) ==> filled_below(
                    final(self).stash_slots(),
                    m,
                ),
            forall|lane: int|
                0 <= lane < 8 ==> #[trigger] lane_progress(
                    old(self).stash_slots(),
                    old(self).rows(),
                    final(self).rows(),
                    old(self).h as int,
                    old(self).evict_counter as int,
                    lane,
                ),
    {
        let h: usize = self.h;
        let path: PositionType = self.evict_counter;
        let ghost st = self.stash_slots();
        let ghost nd = self.rows();
        evict_batch(self, STASH_SIZE, h, path as u64);
        proof {
            lemma_full_width_grows(0, h - 1, 2);
            lemma_full_width(h - 1, 2);
            vstd::arithmetic::div_mod::lemma_mod_bound(path + 1, self.max_n as int);
        }
        self.evict_counter = (self.evict_counter + 1) % self.max_n as PositionType;
        proof {
            assert forall|lane: int| 0 <= lane < 8 implies #[trigger] lane_progress(
                st,
                nd,
                self.rows(),
                h as int,
                path as int,
                lane,
            ) by {
                lemma_batch_progress(st, nd, h as int, path as int, lane);
            }
        }
    }

    /// At rest, whatever the credit.
    pub open spec fn pool_and_shape(&self) -> bool {
        &&& self.store_ok()
        &&& 2 <= self.h <= 30
        &&& self.max_n == full_width(self.h - 1, 2)
        &&& full_width(self.h as int, 2) <= 0x4000_0000
        &&& self.slots().len() == STASH_SIZE + 2 * self.h
        &&& STASH_SIZE + 2 * self.h <= i32::MAX
        &&& self.evict_counter < self.max_n
        &&& pool_ok(self.stash_slots(), self.rows(), self.h as int)
    }

    /// One batch of deterministic evictions on its own.
    pub fn benchmark_deterministic_eviction_batch(&mut self)
        requires
            old(self).wf(),
        ensures
            final(self).wf(),
            final(self)@ == old(self)@,
            (final(self).stash_slots(), final(self).rows()) == evicted_lanes(
                old(self).stash_slots(),
                old(self).rows(),
                old(self).h as int,
                old(self).evict_counter as int,
                8,
            ),
            final(self).evict_counter == (old(self).evict_counter + 1) % old(self).max_n as int,
            final(self).eviction_credit == old(self).eviction_credit,
            final(self).capacity == old(self).capacity,
            final(self).max_n == old(self).max_n,
            final(self).h == old(self).h,
            forall|lane: int|
                0 <= lane < 8 ==> #[trigger] lane_progress(
                    old(self).stash_slots(),
                    old(self).rows(),
                    final(self).rows(),
                    old(self).h as int,
                    old(self).evict_counter as int,
                    lane,
                ),
    {
        self.perform_deterministic_eviction_batch();
    }

    /// The payload that [`Self::update`] starts from: the stored one, or all ones.
    pub open spec fn payload(&self, key: Key) -> [u8; DATA_SIZE] {
        if self@.contains_key(key) {
            self@[key].data
        } else {
            [0xffu8; DATA_SIZE]
        }
    }

    /// What an update does to the public counters, and that it fills at most one more slot
    /// of the stash.
    pub open spec fn advanced(&self, before: &Self) -> bool {
        let credit = before.eviction_credit + EVICTIONS_PER_OP_NUMERATOR;
        &&& self.capacity == before.capacity
        &&& self.max_n == before.max_n
        &&& self.h == before.h
        &&& credit < EVICTION_CREDITS_PER_BATCH ==> self.eviction_credit == credit
            && self.evict_counter == before.evict_counter
        &&& credit >= EVICTION_CREDITS_PER_BATCH ==> self.eviction_credit == credit
            - EVICTION_CREDITS_PER_BATCH && self.evict_counter == (before.evict_counter + 1)
            % before.max_n as int
        &&& forall|m: int| #[trigger]
            filled_below(before.stash_slots(), m) && 0 <= m ==> filled_below(
                self.stash_slots(),
                m + 1,
            )
    }

    /// Which slots the blocks are in after an update of `key` along the path to `pos` that
    /// leaves `block` behind: the lane of the key was evicted along that path, and when a
    /// batch of deterministic evictions was due, every lane along the next public path.
    pub open spec fn moved(&self, before: &Self, pos: PositionType, key: Key, block: Block) -> bool {
        let (stash, rows) = accessed(
            before.stash_slots(),
            before.rows(),
            before.h as int,
            pos as int,
            key as int % 8,
            key,
            block,
        );
        (self.stash_slots(), self.rows()) == (if before.eviction_credit
            + EVICTIONS_PER_OP_NUMERATOR < EVICTION_CREDITS_PER_BATCH {
            (stash, rows)
        } else {
            evicted_lanes(stash, rows, before.h as int, before.evict_counter as int, 8)
        })
    }

    /// Updates a value in the ORAM using a provided update function.
    /// If the element is not in the ORAM, the update function receives the all-ones dummy payload before insertion.
    ///
    /// Returns whether the element was found and the result of the update function. While no
    /// batch of deterministic evictions is due, only the lane of the key changes in the tree.
    pub fn update<T, F: FnOnce(&mut [u8; DATA_SIZE]) -> T>(
        &mut self,
        pos: PositionType,
        new_pos: PositionType,
        key: Key,
        update_func: F,
    ) -> (r: (bool, T))
        requires
            old(self).wf(),
            pos < old(self).max_n,
            new_pos < old(self).max_n,
            key != DUMMY_KEY,
            old(self)@.contains_key(key) ==> old(self).visible(pos, key),
            forall|d: &mut [u8; DATA_SIZE]|
                *d == old(self).payload(key) ==> #[trigger] call_requires(update_func, (d,)),
        ensures
            final(self).wf(),
            r.0 == old(self)@.contains_key(key),
            exists|d: &mut [u8; DATA_SIZE]| #[trigger]
                call_ensures(update_func, (d,), r.1) && *d == old(self).payload(key)
                    && final(self)@ == (if old(self).has_room(key) {
                    old(self)@.insert(key, Block { pos: new_pos, key, data: *final(d) })
                } else {
                    old(self)@.remove(key)
                }) && final(self).moved(
                    old(self),
                    pos,
                    key,
                    Block { pos: new_pos, key, data: *final(d) },
                ),
            final(self).advanced(old(self)),
            final(self).evict_counter == old(self).evict_counter && old(self).eviction_credit
                + EVICTIONS_PER_OP_NUMERATOR < EVICTION_CREDITS_PER_BATCH ==> forall|
                n: int,
                k: int,
            |
                #![trigger final(self).rows()[n][k]]
                0 <= n < old(self).rows().len() && 0 <= k < 16 && k / 2 != key as int % 8
                    ==> final(self).rows()[n][k] == old(self).rows()[n][k],
    {
        let h: usize = self.h;
        let pooled_lane: usize = pooled_lane_for_key(key);
        proof {
            if !self@.contains_key(key) {
                self.lemma_absent_is_not_visible(pos, key);
            }
        }
        let mut block: Block = open_and_remove(
            self,
            STASH_SIZE,
            h,
            pos as u64,
            pooled_lane,
            key,
        );
        let found: bool = !block.is_empty();
        let mut data: [u8; DATA_SIZE] = block.data;
        assert(data == old(self).payload(key));
        let result = apply_update(&mut data, update_func);
        block.data = data;
        block.pos = new_pos;
        block.key = key;
        let ghost opened_self = *self;
        proof {
            lemma_word();
            lemma_full_width_grows(h - 1, 29, 2);
        }
        let inserted: bool = place_and_evict(
            self,
            STASH_SIZE,
            h,
            pos as u64,
            pooled_lane,
            &block,
        );
        let ghost placed = *self;
        proof {
            assert(inserted == old(self).has_room(key));
            assert(old(self)@.remove(key).insert(key, block) =~= old(self)@.insert(key, block));
            if !found {
                assert(old(self)@.remove(key) =~= old(self)@);
            }
            assert(self@ == (if inserted {
                old(self)@.insert(key, block)
            } else {
                old(self)@.remove(key)
            }));
            assert forall|m: int| #[trigger]
                filled_below(old(self).stash_slots(), m) && 0 <= m implies filled_below(
                self.stash_slots(),
                m + 1,
            ) by {
                let st = opened_self.stash_slots();
                assert forall|i: int| m <= i < st.len() && 0 <= i implies (
                #[trigger] st[i]).vacant() by {
                    assert(old(self).stash_slots()[i].vacant());
                    assert(opened_self.slots()[i].vacant());
                }
                assert(filled_below(st, m));
            }
        }
        self.eviction_credit = self.eviction_credit + EVICTIONS_PER_OP_NUMERATOR;
        let ghost credited = *self;
        assert(self.stash_slots() == placed.stash_slots() && self.rows() == placed.rows());
        if self.eviction_credit >= EVICTION_CREDITS_PER_BATCH {
            self.perform_deterministic_eviction_batch();
            self.eviction_credit = self.eviction_credit - EVICTION_CREDITS_PER_BATCH;
        }
        proof {
            let d = choose|d: &mut [u8; DATA_SIZE]| #[trigger]
                call_ensures(update_func, (d,), result) && *d == old(self).payload(key)
                    && *final(d) == data;
            assert(call_ensures(update_func, (d,), result));
            assert(*final(d) == block.data);
            assert(block == (Block { pos: new_pos, key, data: *final(d) }));
            assert(credited@ == placed@);
            assert(self.moved(old(self), pos, key, block));
            assert(self@ == placed@);
        }
        let r = (found, result);
        assert(r.1 == result);
        r
    }

    /// A due batch makes progress in every lane. `mid` is what the same update leaves
    /// when no batch is due, and `after` what it leaves when one is. Along the path to the
    /// public counter, every lane with a vacant slot below the root and a block above it,
    /// or in the stash, that may go there has one more block from that level on. Slots off
    /// that path stay, and the stash only loses blocks.
    pub proof fn lemma_due_batch(
        before: Self,
        plain: Self,
        mid: Self,
        after: Self,
        pos: PositionType,
        key: Key,
        block: Block,
    )
        requires
            before.wf(),
            mid.wf(),
            plain.stash_slots() == before.stash_slots(),
            plain.rows() == before.rows(),
            plain.h == before.h,
            plain.eviction_credit + 3 < 16,
            mid.h == before.h,
            mid.moved(&plain, pos, key, block),
            before.eviction_credit + 3 >= 16,
            after.moved(&before, pos, key, block),
        ensures
            forall|lane: int|
                0 <= lane < 8 ==> #[trigger] lane_progress(
                    mid.stash_slots(),
                    mid.rows(),
                    after.rows(),
                    before.h as int,
                    before.evict_counter as int,
                    lane,
                ),
            forall|n: int, k: int|
                #![trigger after.rows()[n][k]]
                0 <= n < mid.rows().len() && 0 <= k < 16 && (forall|e: int|
                    0 <= e < before.h ==> n != #[trigger] at(
                        before.h as int,
                        e,
                        before.evict_counter as int,
                    )) ==> after.rows()[n][k] == mid.rows()[n][k],
            forall|i: int|
                0 <= i < mid.stash_slots().len() ==> #[trigger] after.stash_slots()[i]
                    == mid.stash_slots()[i] || after.stash_slots()[i].vacant(),
    {
        let h = before.h as int;
        let path = before.evict_counter as int;
        let st = mid.stash_slots();
        let nd = mid.rows();
        lemma_batch_sequential(st, nd, h, path, 8);
        assert forall|lane: int| 0 <= lane < 8 implies #[trigger] lane_progress(
            st,
            nd,
            after.rows(),
            h,
            path,
            lane,
        ) by {
            lemma_batch_progress(st, nd, h, path, lane);
        }
        assert forall|n: int, k: int|
            #![trigger after.rows()[n][k]]
            0 <= n < nd.len() && 0 <= k < 16 && (forall|e: int|
                0 <= e < h ==> n != #[trigger] at(h, e, path)) implies after.rows()[n][k]
            == nd[n][k] by {
            assert(!on_lanes(h, path, 8, n, k));
        }
    }

    /// While no batch is due, an update makes progress in the lane of its key along the
    /// accessed path.
    pub proof fn lemma_plain_update(
        before: Self,
        after: Self,
        pos: PositionType,
        key: Key,
        block: Block,
    )
        requires
            before.wf(),
            pos < before.max_n,
            !block.vacant(),
            block.block_key() == key,
            before.eviction_credit + 3 < 16,
            after.moved(&before, pos, key, block),
        ensures
            access_progress(
                before.stash_slots(),
                before.rows(),
                after.rows(),
                before.h as int,
                pos as int,
                key as int % 8,
                key,
                block,
            ),
    {
        lemma_access_progress(
            before.stash_slots(),
            before.rows(),
            before.h as int,
            pos as int,
            key as int % 8,
            key,
            block,
        );
    }

    /// Three credits come with every update and sixteen pay for a batch. So after `n`
    /// updates the counter has gone on by the batches that were paid for, each along the
    /// next path, and the rest of the credit is kept.
    pub proof fn lemma_batches(states: Seq<Self>, n: int)
        requires
            0 <= n < states.len(),
            states[0].wf(),
            forall|i: int|
                0 <= i < n ==> (#[trigger] states[i + 1]).advanced(&states[i]),
        ensures
            states[n].max_n == states[0].max_n,
            states[n].eviction_credit == (states[0].eviction_credit + 3 * n) % 16,
            states[n].evict_counter == (states[0].evict_counter + (states[0].eviction_credit + 3
                * n) / 16) % states[0].max_n as int,
        decreases n,
    {
        let m = states[0].max_n as int;
        let h = states[0].h as int;
        lemma_full_width(h - 1, 2);
        if n == 0 {
            vstd::arithmetic::div_mod::lemma_small_mod(states[0].evict_counter as nat, m as nat);
        } else {
            Self::lemma_batches(states, n - 1);
            assert(states[n - 1 + 1].advanced(&states[n - 1]));
            let c = states[0].eviction_credit + 3 * (n - 1);
            let a = states[0].evict_counter + c / 16;
            vstd::arithmetic::div_mod::lemma_add_mod_noop_right(1, a, m);
        }
    }
}

} // verus!
