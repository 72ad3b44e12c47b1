//! Lane ORAM over cache-line blocks.
//!
//! Slot `i` of every bucket of a wide tree belongs to lane `i`. Path buffers are
//! bucket-major: all slots of one bucket stand before those of the next. An update puts
//! its block into the stash, moves blocks from the stash to free root slots, one per
//! lane, and then moves a chain of blocks down every lane.
use vstd::arithmetic::power2::is_pow2;
use vstd::prelude::*;
use crate::oblivious::{
    both, cmov_bool, cmov_bytes, cmov_i64, cmov_u32, cmov_u64, either, exchange, ObliviousBlock,
};
use crate::circuit::{lane_all, level_all};
use crate::heap_tree::{full_width, lemma_full_width, lemma_full_width_grows};
use crate::path_access::{lemma_put_is_first, put_back};
use crate::path_store::{
    holds_key, keys, lemma_row_of, lemma_row_place, put_first, PathBlock, PathState,
};
use crate::lane_transition::{evicted_work, finished, lane_store, lane_updated, parts, settled};
use crate::prelude::{apply_update, filled, PositionType};
use crate::tally::{lemma_tally_update, lemma_tally_vacant, one_per_key, tally};
use crate::wide_heap_tree::{
    count_shared_digits, full_nodes, lemma_full_nodes_grows, lemma_prefix_geometry,
    lemma_shared_digits, prefix_geometry, prefix_index, same_prefix, shared_digits, WideHeapTree,
};

verus! {

/// Default number of lanes (blocks per bucket).
pub const DEFAULT_Z: usize = 3;

/// Default number of blocks reserved for the stash.
pub const DEFAULT_S: usize = 20;

/// Default branching factor of the wide tree.
pub const DEFAULT_B: usize = 2;

/// Invalid position for a [`Block64`].
pub const DUMMY_POS64: u64 = 0xffff_ffff_ffff_ffff;

/// Key reserved for dummy [`Block32`] values.
pub const DUMMY_KEY32: u32 = 0xffff_ffff;

/// Key reserved for dummy [`Block64`] values.
pub const DUMMY_KEY64: u64 = 0xffff_ffff_ffff_ffff;

/// Payload bytes of a [`Block32`].
pub const BLOCK32_DATA: usize = 56;

/// Payload bytes of a [`Block64`].
pub const BLOCK64_DATA: usize = 48;

/// Position type of the lane ORAM.
pub type PosType = PositionType;

/// Key type of the lane ORAM.
pub type KeyType = u32;

/// Cache-line block of the lane ORAM.
pub type BlockType = Block32;

/// All-zero or all-one mask of a lane movement.
pub type LaneMask = u16;

/// Dummy position of the lane ORAM.
pub const DUMMY_POS: PosType = 0xffff_ffff;

/// Dummy key of the lane ORAM.
pub const DUMMY_KEY: KeyType = 0xffff_ffff;

/// Payload that an update of an absent key starts from.
pub const EMPTY_BLOCK_DATA: [u8; 56] = [
    0, 0, 0, 0, 0, 0, 0, 0, 0, 0, 0, 0, 0, 0, 0, 0, 0, 0, 0, 0,
    0, 0, 0, 0, 0, 0, 0, 0, 0, 0, 0, 0, 0, 0, 0, 0, 0, 0, 0, 0,
    0, 0, 0, 0, 0, 0, 0, 0, 0, 0, 0, 0, 0, 0, 0, 0,
];

/// A one-cache-line block with a 32-bit position and key.
#[derive(Clone, Copy, Debug, PartialEq, Eq)]
pub struct Block32 {
    /// Position of the block. The largest value denotes an empty block.
    pub pos: u32,
    /// Logical block key.
    pub key: u32,
    /// Payload filling the remainder of the cache line.
    pub data: [u8; BLOCK32_DATA],
}

impl Default for Block32 {
    fn default() -> (r: Self)
        ensures
            r == Block32::blank(),
    {
        Block32 { pos: u32::MAX, key: u32::MAX, data: [0xffu8; BLOCK32_DATA] }
    }
}

impl ObliviousBlock for Block32 {
    open spec fn vacant(self) -> bool {
        self.pos == u32::MAX
    }

    open spec fn vacated(self) -> Self {
        Self::blank()
    }

    open spec fn blank() -> Self {
        Block32 { pos: u32::MAX, key: u32::MAX, data: [0xffu8; BLOCK32_DATA] }
    }

    proof fn lemma_vacancy(self) {
    }

    fn is_vacant(&self) -> (r: bool) {
        self.is_empty()
    }

    fn fresh() -> (r: Self) {
        Block32::default()
    }

    fn select(&mut self, other: &Self, choice: bool) {
        cmov_u32(&mut self.pos, other.pos, choice);
        cmov_u32(&mut self.key, other.key, choice);
        cmov_bytes(&mut self.data, &other.data, choice);
    }

    fn vacate(&mut self, choice: bool) {
        let blank = Block32::default();
        self.select(&blank, choice);
    }
}

impl Block32 {
    /// Returns whether this block is empty.
    pub fn is_empty(&self) -> (r: bool)
        ensures
            r == self.vacant(),
    {
        self.pos == u32::MAX
    }

    /// Copies this block into `ret` and replaces it by the dummy block when its key
    /// matches.
    pub fn read_if_key_matches_and_set_dummy_pos(&mut self, desired_key: u32, ret: &mut Self)
        ensures
            *final(ret) == (if old(self).key == desired_key {
                *old(self)
            } else {
                *old(ret)
            }),
            *final(self) == (if old(self).key == desired_key {
                Block32::blank()
            } else {
                *old(self)
            }),
    {
        let matches: bool = self.key == desired_key;
        ret.select(self, matches);
        self.vacate(matches);
    }
}

/// The last block of `s` with key `key`, or `otherwise` when there is none.
pub open spec fn last_match32(s: Seq<Block32>, key: u32, otherwise: Block32) -> Block32
    decreases s.len(),
{
    if s.len() == 0 {
        otherwise
    } else if s.last().key == key {
        s.last()
    } else {
        last_match32(s.drop_last(), key, otherwise)
    }
}

/// The blocks of `s` with the dummy block in place of those with key `key`.
pub open spec fn without_key32(s: Seq<Block32>, key: u32) -> Seq<Block32> {
    Seq::new(
        s.len(),
        |i: int|
            if s[i].key == key {
                Block32::blank()
            } else {
                s[i]
            },
    )
}

/// Reads and removes the block matching `block.key` from a combined stash and path.
///
/// `stash_and_path` is one array laid out as `[stash | loaded path]`; every block of it
/// is scanned. `block` may hold only the lookup key or a complete block that will be
/// inserted again later. The returned block equals `block` when no key matches and the
/// matching block when one does.
pub fn read_and_remove_path32(block: &Block32, stash_and_path: &mut Vec<Block32>) -> (r: Block32)
    ensures
        r == last_match32(old(stash_and_path)@, block.key, *block),
        final(stash_and_path)@ == without_key32(old(stash_and_path)@, block.key),
{
    let ghost s0 = stash_and_path@;
    let mut result: Block32 = *block;
    let mut i: usize = 0;
    while i < stash_and_path.len()
        invariant
            i <= stash_and_path.len() == s0.len(),
            result == last_match32(s0.take(i as int), block.key, *block),
            forall|k: int|
                0 <= k < i ==> #[trigger] stash_and_path@[k] == without_key32(s0, block.key)[k],
            forall|k: int| i <= k < s0.len() ==> #[trigger] stash_and_path@[k] == s0[k],
        decreases stash_and_path.len() - i,
    {
        let mut candidate: Block32 = stash_and_path[i];
        candidate.read_if_key_matches_and_set_dummy_pos(block.key, &mut result);
        stash_and_path.set(i, candidate);
        proof {
            assert(s0.take(i + 1).drop_last() =~= s0.take(i as int));
        }
        i += 1;
    }
    proof {
        assert(s0.take(s0.len() as int) =~= s0);
        assert(stash_and_path@ =~= without_key32(s0, block.key));
    }
    result
}

/// A one-cache-line block with a 64-bit position and key.
#[derive(Clone, Copy, Debug, PartialEq, Eq)]
pub struct Block64 {
    /// Position of the block. The largest value denotes an empty block.
    pub pos: u64,
    /// Logical block key.
    pub key: u64,
    /// Payload filling the remainder of the cache line.
    pub data: [u8; BLOCK64_DATA],
}

impl Default for Block64 {
    fn default() -> (r: Self)
        ensures
            r == Block64::blank(),
    {
        Block64 { pos: u64::MAX, key: u64::MAX, data: [0xffu8; BLOCK64_DATA] }
    }
}

impl ObliviousBlock for Block64 {
    open spec fn vacant(self) -> bool {
        self.pos == u64::MAX
    }

    open spec fn vacated(self) -> Self {
        Self::blank()
    }

    open spec fn blank() -> Self {
        Block64 { pos: u64::MAX, key: u64::MAX, data: [0xffu8; BLOCK64_DATA] }
    }

    proof fn lemma_vacancy(self) {
    }

    fn is_vacant(&self) -> (r: bool) {
        self.is_empty()
    }

    fn fresh() -> (r: Self) {
        Block64::default()
    }

    fn select(&mut self, other: &Self, choice: bool) {
        cmov_u64(&mut self.pos, other.pos, choice);
        cmov_u64(&mut self.key, other.key, choice);
        cmov_bytes(&mut self.data, &other.data, choice);
    }

    fn vacate(&mut self, choice: bool) {
        let blank = Block64::default();
        self.select(&blank, choice);
    }
}

impl Block64 {
    /// Returns whether this block is empty.
    pub fn is_empty(&self) -> (r: bool)
        ensures
            r == self.vacant(),
    {
        self.pos == u64::MAX
    }

    /// Copies this block into `ret` and replaces it by the dummy block when its key
    /// matches.
    pub fn read_if_key_matches_and_set_dummy_pos(&mut self, desired_key: u64, ret: &mut Self)
        ensures
            *final(ret) == (if old(self).key == desired_key {
                *old(self)
            } else {
                *old(ret)
            }),
            *final(self) == (if old(self).key == desired_key {
                Block64::blank()
            } else {
                *old(self)
            }),
    {
        let matches: bool = self.key == desired_key;
        ret.select(self, matches);
        self.vacate(matches);
    }
}

/// The last block of `s` with key `key`, or `otherwise` when there is none.
pub open spec fn last_match64(s: Seq<Block64>, key: u64, otherwise: Block64) -> Block64
    decreases s.len(),
{
    if s.len() == 0 {
        otherwise
    } else if s.last().key == key {
        s.last()
    } else {
        last_match64(s.drop_last(), key, otherwise)
    }
}

/// The blocks of `s` with the dummy block in place of those with key `key`.
pub open spec fn without_key64(s: Seq<Block64>, key: u64) -> Seq<Block64> {
    Seq::new(
        s.len(),
        |i: int|
            if s[i].key == key {
                Block64::blank()
            } else {
                s[i]
            },
    )
}

/// Reads and removes the block matching `block.key` from a combined stash and path.
///
/// `stash_and_path` is one array laid out as `[stash | loaded path]`; every block of it
/// is scanned. `block` may hold only the lookup key or a complete block that will be
/// inserted again later. The returned block equals `block` when no key matches and the
/// matching block when one does.
pub fn read_and_remove_path64(block: &Block64, stash_and_path: &mut Vec<Block64>) -> (r: Block64)
    ensures
        r == last_match64(old(stash_and_path)@, block.key, *block),
        final(stash_and_path)@ == without_key64(old(stash_and_path)@, block.key),
{
    let ghost s0 = stash_and_path@;
    let mut result: Block64 = *block;
    let mut i: usize = 0;
    while i < stash_and_path.len()
        invariant
            i <= stash_and_path.len() == s0.len(),
            result == last_match64(s0.take(i as int), block.key, *block),
            forall|k: int|
                0 <= k < i ==> #[trigger] stash_and_path@[k] == without_key64(s0, block.key)[k],
            forall|k: int| i <= k < s0.len() ==> #[trigger] stash_and_path@[k] == s0[k],
        decreases stash_and_path.len() - i,
    {
        let mut candidate: Block64 = stash_and_path[i];
        candidate.read_if_key_matches_and_set_dummy_pos(block.key, &mut result);
        stash_and_path.set(i, candidate);
        proof {
            assert(s0.take(i + 1).drop_last() =~= s0.take(i as int));
        }
        i += 1;
    }
    proof {
        assert(s0.take(s0.len() as int) =~= s0);
        assert(stash_and_path@ =~= without_key64(s0, block.key));
    }
    result
}

impl PathBlock for Block32 {
    open spec fn key_of(self) -> u32 {
        self.key
    }

    open spec fn leaf_of(self) -> int {
        self.pos as int
    }

    fn own_key(&self) -> (r: u32) {
        self.key
    }
}

/// A bucket whose slots can be numbered.
pub trait SlotBucket: Copy {
    /// The slots in order.
    spec fn slots(self) -> Seq<Block32>;

    /// The number of slots.
    spec fn width() -> int;

    /// There are as many slots as the type says.
    proof fn lemma_width(self)
        ensures
            self.slots().len() == Self::width(),
    ;

    /// The block in slot `j`.
    fn get_slot(&self, j: usize) -> (r: Block32)
        requires
            j < Self::width(),
        ensures
            r == self.slots()[j as int],
    ;

    /// Replaces the block in slot `j`.
    fn set_slot(&mut self, j: usize, block: Block32)
        requires
            j < Self::width(),
        ensures
            final(self).slots() == old(self).slots().update(j as int, block),
    ;
}

/// A bucket in the lane ORAM tree.
#[derive(Debug, Clone, Copy)]
pub struct Bucket<const Z: usize>(pub [BlockType; Z]);

impl<const Z: usize> Default for Bucket<Z> {
    fn default() -> (r: Self)
        ensures
            forall|j: int| 0 <= j < Z ==> #[trigger] r.0@[j] == Block32::blank(),
    {
        Bucket([Block32::default(); Z])
    }
}

impl<const Z: usize> SlotBucket for Bucket<Z> {
    open spec fn slots(self) -> Seq<Block32> {
        self.0@
    }

    open spec fn width() -> int {
        Z as int
    }

    proof fn lemma_width(self) {
    }

    fn get_slot(&self, j: usize) -> (r: Block32) {
        self.0[j]
    }

    fn set_slot(&mut self, j: usize, block: Block32) {
        self.0[j] = block;
    }
}

/// The slots of every bucket.
pub open spec fn bucket_slots<T: SlotBucket>(t: Seq<T>) -> Seq<Seq<Block32>> {
    Seq::new(t.len(), |k: int| t[k].slots())
}

impl<T: SlotBucket> WideHeapTree<T> {
    /// The nodes on the path to `path`, by its highest digits.
    pub open spec fn prefix_path(&self, path: int) -> Seq<int> {
        Seq::new(
            self.height as nat,
            |d: int| prefix_index(self.branching_factor as int, self.height as int, d, path),
        )
    }

    /// Slot `i` of the path to `path`, counted from the root on.
    pub open spec fn path_slot(&self, path: int, i: int) -> Block32 {
        self.tree@[self.prefix_path(path)[i / T::width()]].slots()[i % T::width()]
    }

    /// Reads every bucket on `path` into `out`, from slot `start` on, ordered from root
    /// to leaf. Every bucket has `w` slots. The bucket at depth `d` is the one that the
    /// highest `d` digits of `path` name, not the one of [`WideHeapTree::get_index`].
    pub fn read_path(&self, path: PosType, out: &mut Vec<BlockType>, start: usize, w: usize)
        requires
            self.wf(),
            w == T::width(),
            0 < w,
            path < full_width(self.height - 1, self.branching_factor as int),
            start + self.height * w <= old(out).len(),
        ensures
            final(out).len() == old(out).len(),
            forall|i: int|
                0 <= i < self.height * w ==> final(out)@[start + i] == #[trigger] self.path_slot(
                    path as int,
                    i,
                ),
            forall|k: int|
                0 <= k < old(out).len() && !(start <= k < start + self.height * w)
                    ==> #[trigger] final(out)@[k] == old(out)@[k],
    {
        let ghost before = out@;
        let mut d: usize = 0;
        let mut at: usize = start;
        while d < self.height
            invariant
                self.wf(),
                w == T::width(),
                0 < w,
                path < full_width(self.height - 1, self.branching_factor as int),
                d <= self.height,
                out.len() == before.len(),
                start + self.height * w <= out.len(),
                at == start + d * w,
                forall|i: int|
                    0 <= i < d * w ==> out@[start + i] == #[trigger] self.path_slot(
                        path as int,
                        i,
                    ),
                forall|k: int|
                    0 <= k < before.len() && !(start <= k < start + d * w) ==> #[trigger] out@[k]
                        == before[k],
            decreases self.height - d,
        {
            let index: usize = self.get_prefix_index(d, path);
            let bucket: T = self.tree[index];
            proof {
                lemma_row_place(d as int, 0, w as int, self.height as int);
                bucket.lemma_width();
            }
            let mut j: usize = 0;
            while j < w
                invariant
                    w == T::width(),
                    j <= w,
                    d < self.height,
                    out.len() == before.len(),
                    start + d * w + w <= out.len(),
                    0 <= d * w,
                    at == start + d * w + j,
                    bucket == self.tree@[self.prefix_path(path as int)[d as int]],
                    bucket.slots().len() == w,
                    forall|i: int|
                        0 <= i < d * w + j ==> out@[start + i] == #[trigger] self.path_slot(
                            path as int,
                            i,
                        ),
                    forall|k: int|
                        0 <= k < before.len() && !(start <= k < start + d * w + j)
                            ==> #[trigger] out@[k] == before[k],
                decreases w - j,
            {
                let block: Block32 = bucket.get_slot(j);
                let ghost held = out@;
                out.set(at, block);
                proof {
                    let n = d * w + j;
                    vstd::arithmetic::div_mod::lemma_fundamental_div_mod_converse(
                        n,
                        w as int,
                        d as int,
                        j as int,
                    );
                    assert(self.path_slot(path as int, n) == block);
                    assert forall|i: int| 0 <= i < n + 1 implies out@[start + i]
                        == #[trigger] self.path_slot(path as int, i) by {
                        if i < n {
                            assert(held[start + i] == self.path_slot(path as int, i));
                        }
                    }
                }
                at += 1;
                j += 1;
            }
            proof {
                assert((d + 1) * w == d * w + w) by (nonlinear_arith);
            }
            d += 1;
        }
    }

    /// Writes root-to-leaf block data from `input`, from slot `start` on, to every bucket
    /// on `path`. Every bucket has `w` slots. The bucket at depth `d` is the one that the
    /// highest `d` digits of `path` name, not the one of [`WideHeapTree::get_index`].
    pub fn write_path(&mut self, path: PosType, input: &Vec<BlockType>, start: usize, w: usize)
        requires
            old(self).wf(),
            w == T::width(),
            0 < w,
            path < full_width(old(self).height - 1, old(self).branching_factor as int),
            start + old(self).height * w <= input.len(),
        ensures
            final(self).wf(),
            final(self).height == old(self).height,
            final(self).branching_factor == old(self).branching_factor,
            final(self).tree.len() == old(self).tree.len(),
            forall|d: int|
                0 <= d < old(self).height ==> final(self).tree@[#[trigger] old(self).prefix_path(
                    path as int,
                )[d]].slots() == input@.subrange(start + d * w, start + d * w + w),
            forall|k: int|
                0 <= k < old(self).tree.len() && !old(self).prefix_path(path as int).contains(k)
                    ==> #[trigger] final(self).tree@[k] == old(self).tree@[k],
    {
        let ghost before = *self;
        let ghost nodes = self.prefix_path(path as int);
        proof {
            lemma_prefix_path(&before, path as int);
        }
        let mut d: usize = 0;
        let mut at: usize = start;
        while d < self.height
            invariant
                before.wf(),
                self.wf(),
                self.height == before.height,
                self.branching_factor == before.branching_factor,
                self.tree.len() == before.tree.len(),
                nodes == before.prefix_path(path as int),
                nodes.len() == self.height,
                forall|e: int| 0 <= e < nodes.len() ==> 0 <= #[trigger] nodes[e] < self.tree.len(),
                forall|e: int, f: int|
                    0 <= e < f < nodes.len() ==> #[trigger] nodes[e] != #[trigger] nodes[f],
                w == T::width(),
                0 < w,
                path < full_width(self.height - 1, self.branching_factor as int),
                d <= self.height,
                start + self.height * w <= input.len(),
                at == start + d * w,
                forall|e: int|
                    0 <= e < d ==> self.tree@[#[trigger] nodes[e]].slots() == input@.subrange(
                        start + e * w,
                        start + e * w + w,
                    ),
                forall|k: int|
                    0 <= k < before.tree.len() && !nodes.contains(k) ==> #[trigger] self.tree@[k]
                        == before.tree@[k],
            decreases self.height - d,
        {
            let index: usize = self.get_prefix_index(d, path);
            let mut bucket: T = self.tree[index];
            proof {
                lemma_row_place(d as int, 0, w as int, self.height as int);
                bucket.lemma_width();
                assert(nodes[d as int] == index);
                assert(nodes.contains(index as int));
            }
            let ghost row = input@.subrange(start + d * w, start + d * w + w);
            let mut j: usize = 0;
            while j < w
                invariant
                    w == T::width(),
                    j <= w,
                    0 <= d * w,
                    start + d * w + w <= input.len(),
                    at == start + d * w + j,
                    row == input@.subrange(start + d * w, start + d * w + w),
                    bucket.slots().len() == w,
                    forall|i: int| 0 <= i < j ==> #[trigger] bucket.slots()[i] == row[i],
                decreases w - j,
            {
                bucket.set_slot(j, input[at]);
                at += 1;
                j += 1;
            }
            proof {
                assert(bucket.slots() =~= row);
                assert((d + 1) * w == d * w + w) by (nonlinear_arith);
            }
            self.tree.set(index, bucket);
            d += 1;
        }
    }
}

/// The nodes on a path are in the tree and lie apart.
proof fn lemma_prefix_path<T: SlotBucket>(tree: &WideHeapTree<T>, path: int)
    requires
        tree.wf(),
        0 <= path < full_width(tree.height - 1, tree.branching_factor as int),
    ensures
        forall|e: int|
            0 <= e < tree.height ==> 0 <= #[trigger] tree.prefix_path(path)[e] < tree.tree.len(),
        forall|e: int, f: int|
            0 <= e < f < tree.height ==> #[trigger] tree.prefix_path(path)[e]
                != #[trigger] tree.prefix_path(path)[f],
        tree.prefix_path(path) == prefix_geometry(
            tree.branching_factor as int,
            tree.height as int,
        ).path(path),
{
    let g = prefix_geometry(tree.branching_factor as int, tree.height as int);
    lemma_prefix_geometry(tree.branching_factor as int, tree.height as int);
    assert(tree.prefix_path(path) =~= g.path(path));
    assert forall|e: int| 0 <= e < tree.height implies 0 <= #[trigger] tree.prefix_path(path)[e]
        < tree.tree.len() by {
        assert(0 <= (g.index)(e, path) < g.size);
    }
    assert forall|e: int, f: int|
        0 <= e < f < tree.height implies #[trigger] tree.prefix_path(path)[e]
        != #[trigger] tree.prefix_path(path)[f] by {
        assert((g.index)(e, path) != (g.index)(f, path));
    }
}

/// How deep a block may go on the path to `path`; vacant slots have depth -1.
pub open spec fn depth_of(b: Block32, path: PosType, branching_factor: int, height: int) -> i64 {
    if b.vacant() {
        (-1) as i64
    } else {
        shared_digits(
            branching_factor,
            height,
            height - 1,
            b.pos as int,
            path as int,
        ) as i64
    }
}

/// How deep a block may go on the path to `path`.
pub(crate) fn legal_depth(
    block: &Block32,
    path: PosType,
    branching_factor: usize,
    height: usize,
) -> (r: i64)
    requires
        2 <= branching_factor,
        1 <= height <= i64::MAX,
        path < full_width(height - 1, branching_factor as int) <= usize::MAX,
        block.vacant() || block.pos < full_width(height - 1, branching_factor as int),
    ensures
        r == depth_of(*block, path, branching_factor as int, height as int),
        -1 <= r < height,
        block.vacant() <==> r == -1,
{
    let empty: bool = block.is_empty();
    let mut pos: PosType = block.pos;
    cmov_u32(&mut pos, path, empty);
    let mut depth: i64 = count_shared_digits(branching_factor, height, pos, path);
    cmov_i64(&mut depth, -1, empty);
    depth
}

/// A vacant slot is the dummy block, and a block has a key of its own.
pub open spec fn canonical(b: Block32) -> bool {
    &&& b.vacant() ==> b == Block32::blank()
    &&& !b.vacant() ==> b.key != DUMMY_KEY
}

/// The first of the slots from `i` to `n` that holds a block, or `n`.
pub open spec fn first_live(s: Seq<Block32>, i: int, n: int) -> int
    decreases n - i,
{
    if i >= n || !s[i].vacant() {
        i
    } else {
        first_live(s, i + 1, n)
    }
}

pub(crate) proof fn lemma_first_live(s: Seq<Block32>, i: int, n: int)
    requires
        i <= n,
    ensures
        i <= first_live(s, i, n) <= n,
        first_live(s, i, n) < n ==> !s[first_live(s, i, n)].vacant(),
        forall|k: int| i <= k < first_live(s, i, n) ==> (#[trigger] s[k]).vacant(),
    decreases n - i,
{
    if i < n && s[i].vacant() {
        lemma_first_live(s, i + 1, n);
    }
}

/// The working array with the first block of the stash moved to a vacant root slot of
/// `lane`.
pub open spec fn lane_filled(work: Seq<Block32>, s: int, lane: int) -> Seq<Block32> {
    let i = first_live(work, 0, s);
    if work[s + lane].vacant() && i < s {
        work.update(s + lane, work[i]).update(i, Block32::blank())
    } else {
        work
    }
}

/// [`lane_filled`] for the first `n` lanes, one after another.
pub open spec fn lanes_filled(work: Seq<Block32>, s: int, n: int) -> Seq<Block32>
    decreases n,
{
    if n <= 0 {
        work
    } else {
        lane_filled(lanes_filled(work, s, n - 1), s, n - 1)
    }
}

/// The first level from `l` on that takes part in a chain down a lane: a vacant slot
/// does, and a block does that may go to the next level that takes part. Without one it
/// is the number of levels.
pub open spec fn next_part(d: Seq<i64>, l: int) -> int
    decreases d.len() - l,
{
    if l >= d.len() {
        d.len() as int
    } else {
        let n = next_part(d, l + 1);
        if d[l] == -1 || (n < d.len() && d[l] >= n) {
            l
        } else {
            n
        }
    }
}

/// Whether level `l` takes part in the chain.
pub open spec fn takes_part(d: Seq<i64>, l: int) -> bool {
    next_part(d, l) == l
}

/// What a pass down a lane carries into level `l`: the block of the last level before
/// it that takes part.
pub open spec fn carried(col: Seq<Block32>, m: Seq<bool>, l: int) -> Block32
    decreases l,
{
    if l <= 0 {
        Block32::blank()
    } else if m[l - 1] {
        col[l - 1]
    } else {
        carried(col, m, l - 1)
    }
}

/// What a pass down a lane leaves at level `l`.
pub open spec fn moved(col: Seq<Block32>, m: Seq<bool>, l: int) -> Block32 {
    if m[l] {
        carried(col, m, l)
    } else {
        col[l]
    }
}

/// A level is reached only by levels that take part.
pub(crate) proof fn lemma_next_part(d: Seq<i64>, l: int)
    requires
        0 <= l <= d.len(),
    ensures
        l <= next_part(d, l) <= d.len(),
        forall|k: int| l <= k < next_part(d, l) ==> !#[trigger] takes_part(d, k),
        next_part(d, l) < d.len() ==> takes_part(d, next_part(d, l)),
    decreases d.len() - l,
{
    if l < d.len() {
        lemma_next_part(d, l + 1);
    }
}

/// A block that a pass carries into a level that takes part may go there, and past the
/// last level it carries none.
pub(crate) proof fn lemma_carried(col: Seq<Block32>, d: Seq<i64>, m: Seq<bool>, l: int)
    requires
        col.len() == d.len(),
        m.len() == d.len(),
        forall|k: int| 0 <= k < d.len() ==> (#[trigger] d[k] == -1 <==> col[k].vacant()),
        forall|k: int| 0 <= k < d.len() ==> #[trigger] m[k] == takes_part(d, k),
        0 <= l <= d.len(),
        l == d.len() || m[l],
    ensures
        !carried(col, m, l).vacant() ==> l < d.len() && exists|k: int|
            0 <= k < l && carried(col, m, l) == #[trigger] col[k] && d[k] >= l,
{
    lemma_carried_from(col, d, m, l, l);
}

proof fn lemma_carried_from(col: Seq<Block32>, d: Seq<i64>, m: Seq<bool>, l: int, k: int)
    requires
        col.len() == d.len(),
        m.len() == d.len(),
        forall|e: int| 0 <= e < d.len() ==> (#[trigger] d[e] == -1 <==> col[e].vacant()),
        forall|e: int| 0 <= e < d.len() ==> #[trigger] m[e] == takes_part(d, e),
        0 <= k <= l <= d.len(),
        next_part(d, k) == l,
    ensures
        !carried(col, m, k).vacant() ==> l < d.len() && exists|e: int|
            0 <= e < k && carried(col, m, k) == #[trigger] col[e] && d[e] >= l,
    decreases k,
{
    if k > 0 {
        if m[k - 1] {
            assert(takes_part(d, k - 1));
            assert(d[k - 1] == -1 <==> col[k - 1].vacant());
        } else {
            assert(!takes_part(d, k - 1));
            assert(next_part(d, k - 1) == l);
            lemma_carried_from(col, d, m, l, k - 1);
            if !carried(col, m, k).vacant() {
                let e = choose|e: int|
                    0 <= e < k - 1 && carried(col, m, k - 1) == #[trigger] col[e] && d[e] >= l;
                assert(0 <= e < k && carried(col, m, k) == col[e] && d[e] >= l);
            }
        }
    }
}

/// The smallest number of levels, from `h` on, of a tree with at least `n` leaves.
pub open spec fn levels_from(n: int, branching_factor: int, h: int) -> int
    decreases n - h + 1,
{
    if h > n || full_width(h - 1, branching_factor) >= n {
        h
    } else {
        levels_from(n, branching_factor, h + 1)
    }
}

/// The number of levels of the smallest tree with at least `n` leaves.
pub open spec fn levels_for(n: int, branching_factor: int) -> int {
    levels_from(n, branching_factor, 1)
}

/// A level is wider than its depth.
pub(crate) proof fn lemma_wide_level(depth: int, branching_factor: int)
    requires
        0 <= depth,
        2 <= branching_factor,
    ensures
        full_width(depth, branching_factor) > depth,
    decreases depth,
{
    lemma_full_width(0, branching_factor);
    if depth > 0 {
        lemma_wide_level(depth - 1, branching_factor);
        lemma_full_width(depth - 1, branching_factor);
        let w = full_width(depth - 1, branching_factor);
        assert(w * branching_factor >= 2 * w) by (nonlinear_arith)
            requires
                w >= 0,
                branching_factor >= 2,
        ;
    }
}

/// The smallest tree is not smaller from a later start.
pub(crate) proof fn lemma_levels_from(n: int, branching_factor: int, h: int)
    requires
        1 <= h,
        1 <= n,
        2 <= branching_factor,
    ensures
        levels_from(n, branching_factor, h) >= h,
        full_width(levels_from(n, branching_factor, h) - 1, branching_factor) >= n,
    decreases n - h + 1,
{
    if h > n {
        lemma_wide_level(h - 1, branching_factor);
    } else if full_width(h - 1, branching_factor) < n {
        lemma_levels_from(n, branching_factor, h + 1);
    }
}

/// The number of leaves and the number of levels of the smallest tree with at least `n`
/// leaves.
pub(crate) fn wide_shape(n: usize, branching_factor: usize) -> (r: (usize, usize))
    requires
        1 <= n,
        2 <= branching_factor,
        full_width(levels_for(n as int, branching_factor as int) - 1, branching_factor as int)
            <= usize::MAX,
    ensures
        r.1 == levels_for(n as int, branching_factor as int),
        r.0 == full_width(r.1 - 1, branching_factor as int),
        r.0 >= n,
        r.1 >= 1,
        n > 1 ==> r.1 > 1,
        r.1 <= r.0,
{
    let ghost b = branching_factor as int;
    let ghost last = levels_for(n as int, b);
    let mut rounded: usize = 1;
    let mut height: usize = 1;
    proof {
        lemma_full_width(0, b);
        lemma_levels_from(n as int, b, 1);
    }
    while rounded < n
        invariant
            1 <= n,
            2 <= branching_factor == b,
            1 <= height <= last,
            last == levels_from(n as int, b, height as int),
            full_width(last - 1, b) <= usize::MAX,
            rounded == full_width(height - 1, b),
            height <= rounded,
        decreases last - height,
    {
        proof {
            lemma_wide_level(height - 1, b);
            lemma_wide_level(height as int, b);
            lemma_levels_from(n as int, b, height + 1);
            lemma_full_width(height - 1, b);
            lemma_full_width_grows(height as int, last - 1, b);
        }
        rounded = rounded * branching_factor;
        height += 1;
    }
    proof {
        lemma_wide_level(height - 1, b);
    }
    (rounded, height)
}

/// The slots of lane `lane` on the path in a working array.
pub open spec fn lane_column(work: Seq<Block32>, s: int, z: int, h: int, lane: int) -> Seq<Block32> {
    Seq::new(h as nat, |l: int| work[s + l * z + lane])
}

/// How deep the slots of lane `lane` may go.
pub open spec fn lane_depths(
    work: Seq<Block32>,
    s: int,
    z: int,
    h: int,
    lane: int,
    path: PosType,
    branching_factor: int,
) -> Seq<i64> {
    Seq::new(h as nat, |l: int| depth_of(work[s + l * z + lane], path, branching_factor, h))
}

/// The masks of lane `lane`.
pub open spec fn lane_parts(masks: Seq<LaneMask>, z: int, h: int, lane: int) -> Seq<bool> {
    Seq::new(h as nat, |l: int| masks[l * z + lane] != 0)
}

/// Lane ORAM with `Z` lanes, `S` stash slots and a tree with branching factor `B`.
#[derive(Debug)]
pub struct LaneORAM<const Z: usize, const S: usize, const B: usize> {
    /// Logical capacity, rounded up to a power of `B`.
    pub max_n: usize,
    /// Height of the wide tree; a root-only tree has height 1.
    pub h: usize,
    /// Wide tree holding lane ORAM buckets.
    pub tree: WideHeapTree<Bucket<Z>>,
    /// Combined `[stash | loaded path]` buffer.
    ///
    /// The first `S` blocks are the stash. The remaining `tree.height * Z` blocks are
    /// room for one loaded path.
    pub stash_and_path: Vec<BlockType>,
    /// Bucket-major masks used by lane eviction.
    pub lane_masks: Vec<LaneMask>,
}

impl<const Z: usize, const S: usize, const B: usize> LaneORAM<Z, S, B> {
    /// The sizes of the buffers fit together.
    pub open spec fn buffers(&self) -> bool {
        &&& 1 <= self.h <= i64::MAX
        &&& 1 <= Z
        &&& 2 <= B
        &&& self.max_n == full_width(self.h - 1, B as int)
        &&& self.stash_and_path.len() == S + self.h * Z
        &&& self.lane_masks.len() == self.h * Z
    }

    /// Every mask is all zeros or all ones.
    pub open spec fn masks_whole(&self) -> bool {
        forall|i: int|
            0 <= i < self.lane_masks.len() ==> #[trigger] self.lane_masks@[i] == 0
                || self.lane_masks@[i] == 0xffff
    }

    /// Moves the first non-dummy stash block into each free root lane.
    ///
    /// The path must already be loaded behind the stash. Every lane scans the entire
    /// stash, even after a block has been moved.
    pub fn move_from_stash_to_free_lanes(&mut self)
        requires
            S + Z <= old(self).stash_and_path.len(),
        ensures
            final(self).stash_and_path@ == lanes_filled(
                old(self).stash_and_path@,
                S as int,
                Z as int,
            ),
            final(self).stash_and_path.len() == old(self).stash_and_path.len(),
            final(self).tree == old(self).tree,
            final(self).max_n == old(self).max_n,
            final(self).h == old(self).h,
            final(self).lane_masks == old(self).lane_masks,
    {
        let ghost work0 = self.stash_and_path@;
        let mut lane: usize = 0;
        while lane < Z
            invariant
                lane <= Z,
                S + Z <= self.stash_and_path.len() == work0.len(),
                self.stash_and_path@ == lanes_filled(work0, S as int, lane as int),
                self.tree == old(self).tree,
                self.max_n == old(self).max_n,
                self.h == old(self).h,
                self.lane_masks == old(self).lane_masks,
            decreases Z - lane,
        {
            let ghost before = self.stash_and_path@;
            let mut root: Block32 = self.stash_and_path[S + lane];
            let ghost free = root.vacant();
            let mut done: bool = !root.is_empty();
            let ghost first = first_live(before, 0, S as int);
            proof {
                lemma_first_live(before, 0, S as int);
            }
            let mut i: usize = 0;
            while i < S
                invariant
                    i <= S,
                    S + Z <= self.stash_and_path.len() == before.len(),
                    lane < Z,
                    self.tree == old(self).tree,
                    self.max_n == old(self).max_n,
                    self.h == old(self).h,
                    self.lane_masks == old(self).lane_masks,
                    first == first_live(before, 0, S as int),
                    0 <= first <= S,
                    free == before[S + lane].vacant(),
                    !free ==> done,
                    !done ==> first == first_live(before, i as int, S as int),
                    free && done ==> first < i && self.stash_and_path@ == before.update(
                        first,
                        Block32::blank(),
                    ) && root == before[first],
                    !(free && done) ==> self.stash_and_path@ == before && root == before[S + lane],
                decreases S - i,
            {
                let mut slot: Block32 = self.stash_and_path[i];
                let live: bool = !slot.is_empty();
                let take: bool = both(live, !done);
                root.select(&slot, take);
                slot.vacate(take);
                self.stash_and_path.set(i, slot);
                proof {
                    if take {
                        assert(self.stash_and_path@ =~= before.update(first, Block32::blank()));
                    } else if free && done {
                        assert(self.stash_and_path@ =~= before.update(first, Block32::blank()));
                    } else {
                        assert(self.stash_and_path@ =~= before);
                    }
                }
                cmov_bool(&mut done, true, live);
                i += 1;
            }
            self.stash_and_path.set(S + lane, root);
            proof {
                assert(self.stash_and_path@ =~= lane_filled(before, S as int, lane as int));
            }
            lane += 1;
        }
    }

    /// Calculates the masked swaps that move blocks down each lane on `path`.
    ///
    /// The path must already be loaded behind the stash. Masks use the same bucket-major
    /// layout as the path. Levels are processed from leaf to root, all lanes of one level
    /// together.
    pub fn calculate_masks(&mut self, path: PosType)
        requires
            old(self).buffers(),
            path < old(self).max_n,
            forall|i: int|
                S <= i < old(self).stash_and_path.len() ==> (
                #[trigger] old(self).stash_and_path@[i]).vacant() || old(self).stash_and_path@[i].pos
                    < old(self).max_n,
        ensures
            final(self).stash_and_path == old(self).stash_and_path,
            final(self).tree == old(self).tree,
            final(self).max_n == old(self).max_n,
            final(self).h == old(self).h,
            final(self).lane_masks.len() == old(self).lane_masks.len(),
            final(self).masks_whole(),
            forall|l: int, lane: int|
                #![trigger lane_parts(final(self).lane_masks@, Z as int, old(self).h as int, lane)[l]]
                0 <= l < old(self).h && 0 <= lane < Z ==> lane_parts(
                    final(self).lane_masks@,
                    Z as int,
                    old(self).h as int,
                    lane,
                )[l] == takes_part(
                    lane_depths(
                        old(self).stash_and_path@,
                        S as int,
                        Z as int,
                        old(self).h as int,
                        lane,
                        path,
                        B as int,
                    ),
                    l,
                ),
    {
        let ghost work = self.stash_and_path@;
        let ghost h = self.h as int;
        let ghost depths = |lane: int| lane_depths(work, S as int, Z as int, h, lane, path, B as int);
        let mut target: Vec<i64> = filled(self.h as i64, Z);
        let mut level: usize = self.h;
        while level > 0
            invariant
                level <= h,
                self.h == h,
                self.buffers(),
                path < self.max_n,
                work == self.stash_and_path@,
                self.stash_and_path == old(self).stash_and_path,
                self.tree == old(self).tree,
                self.max_n == old(self).max_n,
                target.len() == Z,
                depths == (|lane: int|
                    lane_depths(work, S as int, Z as int, h, lane, path, B as int)),
                forall|i: int|
                    S <= i < work.len() ==> (#[trigger] work[i]).vacant() || work[i].pos
                        < self.max_n,
                forall|lane: int|
                    0 <= lane < Z ==> #[trigger] target@[lane] == next_part(
                        depths(lane),
                        level as int,
                    ),
                forall|l: int, lane: int|
                    #![trigger self.lane_masks@[l * Z + lane]]
                    level <= l < h && 0 <= lane < Z ==> self.lane_masks@[l * Z + lane] == (
                    if takes_part(depths(lane), l) {
                        0xffffu16
                    } else {
                        0u16
                    }),
            decreases level,
        {
            level -= 1;
            proof {
                lemma_row_place(level as int, 0, Z as int, h);
            }
            let start: usize = level * Z;
            let mut lane: usize = 0;
            while lane < Z
                invariant
                    lane <= Z,
                    level < h,
                    self.h == h,
                    self.buffers(),
                    path < self.max_n,
                    start == level * Z,
                    start + Z <= h * Z,
                    work == self.stash_and_path@,
                    self.stash_and_path == old(self).stash_and_path,
                    self.tree == old(self).tree,
                    self.max_n == old(self).max_n,
                    target.len() == Z,
                    depths == (|e: int|
                        lane_depths(work, S as int, Z as int, h, e, path, B as int)),
                    forall|i: int|
                        S <= i < work.len() ==> (#[trigger] work[i]).vacant() || work[i].pos
                            < self.max_n,
                    forall|e: int|
                        0 <= e < Z ==> #[trigger] target@[e] == next_part(
                            depths(e),
                            if e < lane {
                                level as int
                            } else {
                                level + 1
                            },
                        ),
                    forall|l: int, e: int|
                        #![trigger self.lane_masks@[l * Z + e]]
                        level <= l < h && 0 <= e < Z && (l > level || e < lane)
                            ==> self.lane_masks@[l * Z + e] == (if takes_part(depths(e), l) {
                            0xffffu16
                        } else {
                            0u16
                        }),
                decreases Z - lane,
            {
                let ghost masks = self.lane_masks@;
                let block: Block32 = self.stash_and_path[S + start + lane];
                let depth: i64 = legal_depth(&block, path, B, self.h);
                let part: bool = either(block.is_empty(), depth >= target[lane]);
                proof {
                    let d = depths(lane as int);
                    assert(d[level as int] == depth);
                    lemma_next_part(d, level + 1);
                    assert(part == takes_part(d, level as int));
                }
                let mut next: i64 = target[lane];
                cmov_i64(&mut next, level as i64, part);
                target.set(lane, next);
                self.lane_masks.set(start + lane, 0u16.wrapping_sub(part as u16));
                proof {
                    assert forall|l: int, e: int|
                        #![trigger self.lane_masks@[l * Z + e]]
                        level <= l < h && 0 <= e < Z && (l > level || e < lane
                            + 1) implies self.lane_masks@[l * Z + e] == (if takes_part(depths(e), l) {
                        0xffffu16
                    } else {
                        0u16
                    }) by {
                        if l > level {
                            lemma_row_place(level as int, 0, Z as int, l);
                            lemma_row_place(l, e, Z as int, h);
                        }
                        assert(l * Z + e == start + lane || self.lane_masks@[l * Z + e]
                            == masks[l * Z + e]);
                        if l > level {
                            assert(masks[l * Z + e] == self.lane_masks@[l * Z + e]);
                        } else if e < lane {
                            assert(masks[l * Z + e] == self.lane_masks@[l * Z + e]);
                        }
                    }
                }
                lane += 1;
            }
        }
        proof {
            assert forall|i: int| 0 <= i < self.lane_masks.len() implies #[trigger] self.lane_masks@[i]
                == 0 || self.lane_masks@[i] == 0xffff by {
                lemma_row_of(i, Z as int, h);
                assert(self.lane_masks@[(i / Z as int) * Z + i % Z as int]
                    == self.lane_masks@[i]);
            }
            assert forall|l: int, lane: int|
                #![trigger lane_parts(self.lane_masks@, Z as int, h, lane)[l]]
                0 <= l < h && 0 <= lane < Z implies lane_parts(
                self.lane_masks@,
                Z as int,
                h,
                lane,
            )[l] == takes_part(
                lane_depths(work, S as int, Z as int, h, lane, path, B as int),
                l,
            ) by {
                assert(self.lane_masks@[l * Z + lane] == (if takes_part(depths(lane), l) {
                    0xffffu16
                } else {
                    0u16
                }));
            }
        }
    }
    /// Moves blocks down each lane according to the masks.
    ///
    /// The path must already be loaded behind the stash. Every lane carries one block,
    /// which starts as the dummy block and is swapped with every slot whose mask is set.
    pub fn move_down_lane(&mut self)
        requires
            old(self).buffers(),
            old(self).masks_whole(),
        ensures
            final(self).tree == old(self).tree,
            final(self).max_n == old(self).max_n,
            final(self).h == old(self).h,
            final(self).lane_masks == old(self).lane_masks,
            final(self).stash_and_path.len() == old(self).stash_and_path.len(),
            forall|i: int|
                0 <= i < S ==> #[trigger] final(self).stash_and_path@[i]
                    == old(self).stash_and_path@[i],
            forall|l: int, lane: int|
                #![trigger lane_column(final(self).stash_and_path@, S as int, Z as int, old(self).h as int, lane)[l]]
                0 <= l < old(self).h && 0 <= lane < Z ==> lane_column(
                    final(self).stash_and_path@,
                    S as int,
                    Z as int,
                    old(self).h as int,
                    lane,
                )[l] == moved(
                    lane_column(
                        old(self).stash_and_path@,
                        S as int,
                        Z as int,
                        old(self).h as int,
                        lane,
                    ),
                    lane_parts(old(self).lane_masks@, Z as int, old(self).h as int, lane),
                    l,
                ),
            (forall|lane: int|
                0 <= lane < Z ==> (#[trigger] carried(
                    lane_column(
                        old(self).stash_and_path@,
                        S as int,
                        Z as int,
                        old(self).h as int,
                        lane,
                    ),
                    lane_parts(old(self).lane_masks@, Z as int, old(self).h as int, lane),
                    old(self).h as int,
                )).vacant()) ==> forall|b: Block32| #[trigger]
                tally(final(self).stash_and_path@, b) == tally(old(self).stash_and_path@, b),
    {
        let ghost work0 = self.stash_and_path@;
        let ghost h = self.h as int;
        let ghost z = Z as int;
        let ghost col = |lane: int| lane_column(work0, S as int, z, h, lane);
        let ghost parts = |lane: int| lane_parts(self.lane_masks@, z, h, lane);
        let mut held: Vec<Block32> = filled(Block32::default(), Z);
        proof {
            assert forall|b: Block32| #[trigger] tally(held@, b) == 0 by {
                lemma_tally_vacant(held@, b);
            }
        }
        let mut level: usize = 0;
        while level < self.h
            invariant
                level <= h,
                self.h == h,
                z == Z,
                self.buffers(),
                self.masks_whole(),
                held.len() == Z,
                work0.len() == self.stash_and_path.len(),
                self.tree == old(self).tree,
                self.max_n == old(self).max_n,
                self.lane_masks == old(self).lane_masks,
                col == (|lane: int| lane_column(work0, S as int, z, h, lane)),
                parts == (|lane: int| lane_parts(self.lane_masks@, z, h, lane)),
                forall|lane: int|
                    0 <= lane < Z ==> #[trigger] held@[lane] == carried(
                        col(lane),
                        parts(lane),
                        level as int,
                    ),
                forall|i: int|
                    0 <= i < work0.len() && (i < S || i >= S + level * Z)
                        ==> #[trigger] self.stash_and_path@[i] == work0[i],
                forall|l: int, lane: int|
                    #![trigger self.stash_and_path@[S + l * z + lane]]
                    0 <= l < level && 0 <= lane < Z ==> self.stash_and_path@[S + l * z + lane]
                        == moved(col(lane), parts(lane), l),
                forall|b: Block32| #[trigger]
                    tally(self.stash_and_path@, b) + tally(held@, b) == tally(work0, b),
            decreases h - level,
        {
            proof {
                lemma_row_place(level as int, 0, z, h);
                assert((level + 1) * Z == level * Z + Z) by (nonlinear_arith);
            }
            let start: usize = level * Z;
            let mut lane: usize = 0;
            while lane < Z
                invariant
                    lane <= Z,
                    level < h,
                    self.h == h,
                    z == Z,
                    self.buffers(),
                    self.masks_whole(),
                    start == level * Z,
                    start + Z <= h * Z,
                    held.len() == Z,
                    work0.len() == self.stash_and_path.len(),
                    self.tree == old(self).tree,
                    self.max_n == old(self).max_n,
                    self.lane_masks == old(self).lane_masks,
                    col == (|e: int| lane_column(work0, S as int, z, h, e)),
                    parts == (|e: int| lane_parts(self.lane_masks@, z, h, e)),
                    forall|e: int|
                        0 <= e < Z ==> #[trigger] held@[e] == carried(
                            col(e),
                            parts(e),
                            if e < lane {
                                level + 1
                            } else {
                                level as int
                            },
                        ),
                    forall|i: int|
                        0 <= i < work0.len() && (i < S || i >= S + start + lane)
                            ==> #[trigger] self.stash_and_path@[i] == work0[i],
                    forall|l: int, e: int|
                        #![trigger self.stash_and_path@[S + l * z + e]]
                        0 <= l <= level && 0 <= e < Z && (l < level || e < lane)
                            ==> self.stash_and_path@[S + l * z + e] == moved(col(e), parts(e), l),
                    forall|b: Block32| #[trigger]
                        tally(self.stash_and_path@, b) + tally(held@, b) == tally(work0, b),
                decreases Z - lane,
            {
                let ghost before = self.stash_and_path@;
                let ghost held_before = held@;
                let at: usize = S + start + lane;
                let swap: bool = self.lane_masks[start + lane] != 0;
                let mut carry: Block32 = held[lane];
                let mut slot: Block32 = self.stash_and_path[at];
                exchange(&mut carry, &mut slot, swap);
                held.set(lane, carry);
                self.stash_and_path.set(at, slot);
                proof {
                    let e0 = lane as int;
                    assert(parts(e0)[level as int] == swap);
                    assert(col(e0)[level as int] == before[at as int]);
                    assert forall|b: Block32| #[trigger]
                        tally(self.stash_and_path@, b) + tally(held@, b) == tally(work0, b) by {
                        assert(tally(before, b) + tally(held_before, b) == tally(work0, b));
                        lemma_tally_update(before, at as int, slot, b);
                        lemma_tally_update(held_before, e0, carry, b);
                    }
                    assert forall|l: int, e: int|
                        #![trigger self.stash_and_path@[S + l * z + e]]
                        0 <= l <= level && 0 <= e < Z && (l < level || e < lane
                            + 1) implies self.stash_and_path@[S + l * z + e] == moved(
                        col(e),
                        parts(e),
                        l,
                    ) by {
                        if l < level {
                            lemma_row_place(l, e, z, level as int);
                            assert(self.stash_and_path@[S + l * z + e] == before[S + l * z + e]);
                        } else if e < lane {
                            assert(self.stash_and_path@[S + l * z + e] == before[S + l * z + e]);
                        }
                    }
                }
                lane += 1;
            }
            level += 1;
        }
        proof {
            let after = self.stash_and_path@;
            assert forall|l: int, lane: int|
                #![trigger lane_column(after, S as int, z, h, lane)[l]]
                0 <= l < h && 0 <= lane < Z implies lane_column(after, S as int, z, h, lane)[l]
                == moved(
                lane_column(work0, S as int, z, h, lane),
                lane_parts(self.lane_masks@, z, h, lane),
                l,
            ) by {
                assert(after[S + l * z + lane] == moved(col(lane), parts(lane), l));
            }
            if forall|lane: int|
                0 <= lane < Z ==> (#[trigger] carried(
                    lane_column(work0, S as int, z, h, lane),
                    lane_parts(self.lane_masks@, z, h, lane),
                    h,
                )).vacant() {
                assert forall|lane: int| 0 <= lane < held.len() implies (
                #[trigger] held@[lane]).vacant() by {
                    assert(held@[lane] == carried(col(lane), parts(lane), h));
                }
                assert forall|b: Block32| #[trigger] tally(after, b) == tally(work0, b) by {
                    assert(tally(after, b) + tally(held@, b) == tally(work0, b));
                    lemma_tally_vacant(held@, b);
                }
            }
        }
    }
}

impl<const Z: usize, const S: usize, const B: usize> View for LaneORAM<Z, S, B> {
    type V = Map<KeyType, Block32>;

    /// The stored block of every stored key.
    open spec fn view(&self) -> Map<KeyType, Block32> {
        self.state().stored()
    }
}

impl<const Z: usize, const S: usize, const B: usize> LaneORAM<Z, S, B> {
    /// The blocks and where they are.
    pub open spec fn state(&self) -> PathState<Block32> {
        PathState {
            geo: prefix_geometry(B as int, self.h as int),
            s: S as int,
            w: Z as int,
            nodes: bucket_slots(self.tree.tree@),
            work: self.stash_and_path@,
        }
    }

    /// The sizes fit together, and vacant slots are dummy blocks.
    pub open spec fn shape(&self) -> bool {
        &&& self.buffers()
        &&& self.max_n <= 0x1_0000_0000
        &&& self.tree.wf()
        &&& self.tree.height == self.h
        &&& self.tree.branching_factor == B
        &&& level_all(self.stash_and_path@, |b: Block32| canonical(b))
        &&& lane_all(bucket_slots(self.tree.tree@), |b: Block32| canonical(b))
    }

    /// The ORAM is at rest.
    pub open spec fn wf(&self) -> bool {
        &&& self.shape()
        &&& self.state().at_rest()
    }

    /// The path to `pos` is in the working array.
    pub open spec fn open_at(&self, pos: PosType) -> bool {
        &&& self.shape()
        &&& self.state().open_at(pos as int)
        &&& one_per_key(self.state().open_count(pos as int), keys())
    }

    /// The block that an update of `key` starts from.
    pub open spec fn entry(&self, key: KeyType) -> Block32 {
        if self@.contains_key(key) {
            self@[key]
        } else {
            Block32 { pos: DUMMY_POS, key, data: EMPTY_BLOCK_DATA }
        }
    }

    /// The sizes of the state are those of the ORAM.
    proof fn lemma_state(&self)
        requires
            self.shape(),
        ensures
            self.state().shape(),
            self.state().geo.h == self.h,
            self.state().geo.leaves == self.max_n,
    {
        lemma_prefix_geometry(B as int, self.h as int);
        let st = self.state();
        assert forall|k: int| 0 <= k < st.nodes.len() implies (#[trigger] st.nodes[k]).len()
            == st.w by {
            self.tree.tree@[k].lemma_width();
        }
    }

    /// Creates an empty lane ORAM for at least `max_n` logical blocks.
    pub fn new(max_n: usize) -> (r: Self)
        requires
            0 < max_n,
            0 < Z,
            2 <= B,
            is_pow2(B as int),
            full_width(levels_for(max_n as int, B as int) - 1, B as int) <= 0x1_0000_0000,
            full_nodes(B as int, levels_for(max_n as int, B as int)) <= usize::MAX,
            S + levels_for(max_n as int, B as int) * Z <= usize::MAX,
        ensures
            r.wf(),
            r@ == Map::<KeyType, Block32>::empty(),
            r.h == levels_for(max_n as int, B as int),
            r.max_n == full_width(r.h - 1, B as int),
            r.max_n >= max_n,
            forall|i: int|
                0 <= i < r.stash_and_path.len() ==> #[trigger] r.stash_and_path@[i]
                    == Block32::blank(),
            r.lane_masks@ == Seq::new((r.h * Z) as nat, |i: int| 0u16),
            r.masks_whole(),
    {
        proof {
            let h = levels_for(max_n as int, B as int);
            lemma_levels_from(max_n as int, B as int, 1);
            lemma_full_nodes_grows(B as int, 0, h - 1);
            lemma_wide_level(h - 1, B as int);
        }
        let (rounded, height): (usize, usize) = wide_shape(max_n, B);
        proof {
            assert(0 <= height * Z) by (nonlinear_arith);
        }
        let bucket: Bucket<Z> = Bucket::default();
        let blank: Block32 = Block32::default();
        let r = LaneORAM {
            max_n: rounded,
            h: height,
            tree: WideHeapTree::new_with(height, B, bucket),
            stash_and_path: filled(blank, S + height * Z),
            lane_masks: filled(0u16, height * Z),
        };
        proof {
            let st = r.state();
            assert forall|k: int, j: int|
                #![trigger st.nodes[k][j]]
                0 <= k < st.nodes.len() && 0 <= j < Z implies st.nodes[k][j] == blank by {
                assert(cloned(bucket, r.tree.tree[k]));
            }
            assert forall|k: int| 0 <= k < st.nodes.len() implies level_all(
                #[trigger] st.nodes[k],
                |b: Block32| canonical(b),
            ) by {
                r.tree.tree@[k].lemma_width();
                assert forall|j: int| 0 <= j < st.nodes[k].len() implies canonical(
                    #[trigger] st.nodes[k][j],
                ) by {}
            }
            r.lemma_state();
            st.lemma_empty();
        }
        r
    }

    /// Copies the path to `pos` behind the stash.
    fn load(&mut self, pos: PosType)
        requires
            old(self).wf(),
            pos < old(self).max_n,
        ensures
            final(self).stash_and_path@ == old(self).state().opened(pos as int),
            final(self).tree == old(self).tree,
            final(self).max_n == old(self).max_n,
            final(self).h == old(self).h,
            final(self).open_at(pos),
            final(self).state().open_stored(pos as int) == old(self)@,
    {
        let ghost before = *self;
        self.tree.read_path(pos, &mut self.stash_and_path, S, Z);
        proof {
            let st = before.state();
            before.lemma_state();
            st.lemma_open(pos as int);
            lemma_loaded(st, self.stash_and_path@, pos as int, &self.tree);
        }
    }

    /// Writes the path behind the stash back to the tree.
    fn store(&mut self, pos: PosType)
        requires
            old(self).open_at(pos),
        ensures
            final(self).wf(),
            final(self)@ == old(self).state().open_stored(pos as int),
            final(self).stash_and_path == old(self).stash_and_path,
            final(self).max_n == old(self).max_n,
            final(self).h == old(self).h,
            final(self).state().nodes == put_back(old(self).state(), pos as int),
    {
        let ghost before = *self;
        proof {
            before.lemma_state();
        }
        self.tree.write_path(pos, &self.stash_and_path, S, Z);
        proof {
            let st = before.state();
            lemma_stored(st, bucket_slots(self.tree.tree@), pos as int, &before.tree, &self.tree);
            lemma_path_put_back(
                st,
                bucket_slots(self.tree.tree@),
                pos as int,
                &before.tree,
                &self.tree,
            );
            assert(self.state() == (PathState { nodes: bucket_slots(self.tree.tree@), ..st }));
        }
    }
}

/// A loaded working array is the stash followed by the path, and stays canonical.
pub(crate) proof fn lemma_loaded<T: SlotBucket>(
    st: PathState<Block32>,
    work: Seq<Block32>,
    p: int,
    tree: &WideHeapTree<T>,
)
    requires
        st.shape(),
        tree.wf(),
        st.geo == prefix_geometry(tree.branching_factor as int, tree.height as int),
        st.w == T::width(),
        st.nodes == bucket_slots(tree.tree@),
        0 <= p < st.geo.leaves,
        work.len() == st.work.len(),
        forall|i: int|
            0 <= i < tree.height * st.w ==> work[st.s + i] == #[trigger] tree.path_slot(p, i),
        forall|k: int| 0 <= k < st.s ==> #[trigger] work[k] == st.work[k],
        level_all(st.work, |b: Block32| canonical(b)),
        lane_all(st.nodes, |b: Block32| canonical(b)),
    ensures
        work == st.opened(p),
        level_all(work, |b: Block32| canonical(b)),
{
    st.lemma_opened(p);
    lemma_prefix_path(tree, p);
    let o = st.opened(p);
    let t = st.with_work(o);
    assert forall|k: int| 0 <= k < o.len() implies work[k] == o[k] && canonical(
        #[trigger] work[k],
    ) by {
        if k >= st.s {
            let i = k - st.s;
            lemma_row_of(i, st.w, st.geo.h);
            let d = i / st.w;
            let j = i % st.w;
            assert(t.slot(d, j) == st.nodes[(st.geo.index)(d, p)][j]);
            assert(work[st.s + i] == tree.path_slot(p, i));
            assert(tree.prefix_path(p)[d] == (st.geo.index)(d, p));
            assert(0 <= tree.prefix_path(p)[d] < tree.tree.len());
            assert(tree.path_slot(p, i) == st.nodes[(st.geo.index)(d, p)][j]);
            assert(level_all(st.nodes[(st.geo.index)(d, p)], |b: Block32| canonical(b)));
        } else {
            assert(o[k] == st.work[k]);
            assert(work[k] == st.work[k]);
        }
    }
    assert(work =~= o);
}

/// Writing the path back puts the store at rest, and keeps the tree canonical.
pub(crate) proof fn lemma_stored<T: SlotBucket>(
    st: PathState<Block32>,
    nodes: Seq<Seq<Block32>>,
    p: int,
    before: &WideHeapTree<T>,
    after: &WideHeapTree<T>,
)
    requires
        st.open_at(p),
        one_per_key(st.open_count(p), keys()),
        before.wf(),
        after.tree.len() == before.tree.len(),
        st.geo == prefix_geometry(before.branching_factor as int, before.height as int),
        st.w == T::width(),
        st.nodes == bucket_slots(before.tree@),
        nodes == bucket_slots(after.tree@),
        forall|d: int|
            0 <= d < before.height ==> after.tree@[#[trigger] before.prefix_path(p)[d]].slots()
                == st.work.subrange(st.s + d * st.w, st.s + d * st.w + st.w),
        forall|k: int|
            0 <= k < before.tree.len() && !before.prefix_path(p).contains(k)
                ==> #[trigger] after.tree@[k] == before.tree@[k],
        level_all(st.work, |b: Block32| canonical(b)),
        lane_all(st.nodes, |b: Block32| canonical(b)),
    ensures
        ({
            let c = PathState { nodes, ..st };
            &&& c.at_rest()
            &&& c.stored() == st.open_stored(p)
            &&& lane_all(nodes, |b: Block32| canonical(b))
        }),
{
    lemma_prefix_path(before, p);
    let at = before.prefix_path(p);
    assert forall|d: int| 0 <= d < st.geo.h implies nodes[#[trigger] (st.geo.index)(d, p)]
        == st.row(d) by {
        assert(at[d] == (st.geo.index)(d, p));
        lemma_row_place(d, 0, st.w, st.geo.h);
        let row = st.work.subrange(st.s + d * st.w, st.s + d * st.w + st.w);
        assert(after.tree@[at[d]].slots() == row);
        assert(row =~= st.row(d));
    }
    assert forall|k: int|
        0 <= k < nodes.len() && !st.geo.path(p).contains(k) implies #[trigger] nodes[k]
        == st.nodes[k] by {
        assert(after.tree@[k] == before.tree@[k]);
    }
    st.lemma_close(p, nodes);
    assert forall|k: int| 0 <= k < nodes.len() implies level_all(
        #[trigger] nodes[k],
        |b: Block32| canonical(b),
    ) by {
        if at.contains(k) {
            let d = choose|d: int| 0 <= d < at.len() && at[d] == k;
            assert(nodes[(st.geo.index)(d, p)] == st.row(d));
            assert forall|j: int| 0 <= j < nodes[k].len() implies canonical(
                #[trigger] nodes[k][j],
            ) by {
                lemma_row_place(d, j, st.w, st.geo.h);
                assert(nodes[k][j] == st.work[st.s + d * st.w + j]);
            }
        } else {
            assert(nodes[k] == st.nodes[k]);
        }
    }
}

/// Writing a path back puts the rows of the working array into the nodes on the path.
pub(crate) proof fn lemma_path_put_back<T: SlotBucket>(
    st: PathState<Block32>,
    nodes: Seq<Seq<Block32>>,
    p: int,
    before: &WideHeapTree<T>,
    after: &WideHeapTree<T>,
)
    requires
        st.shape(),
        before.wf(),
        0 <= p < st.geo.leaves,
        after.tree.len() == before.tree.len(),
        st.geo == prefix_geometry(before.branching_factor as int, before.height as int),
        st.nodes == bucket_slots(before.tree@),
        nodes == bucket_slots(after.tree@),
        forall|d: int|
            0 <= d < before.height ==> after.tree@[#[trigger] before.prefix_path(p)[d]].slots()
                == st.work.subrange(st.s + d * st.w, st.s + d * st.w + st.w),
        forall|k: int|
            0 <= k < before.tree.len() && !before.prefix_path(p).contains(k)
                ==> #[trigger] after.tree@[k] == before.tree@[k],
    ensures
        nodes == put_back(st, p),
{
    let at = before.prefix_path(p);
    lemma_prefix_path(before, p);
    assert(st.geo.path(p) =~= at);
    assert forall|k: int| 0 <= k < nodes.len() implies #[trigger] nodes[k] == put_back(st, p)[k] by {
        if at.contains(k) {
            let d = at.index_of(k);
            assert(0 <= d < at.len() && at[d] == k);
            assert(after.tree@[at[d]].slots() == st.work.subrange(
                st.s + d * st.w,
                st.s + d * st.w + st.w,
            ));
            lemma_row_place(d, 0, st.w, st.geo.h);
            assert(st.work.subrange(st.s + d * st.w, st.s + d * st.w + st.w) =~= st.row(d));
        } else {
            assert(after.tree@[k] == before.tree@[k]);
        }
    }
    assert(nodes =~= put_back(st, p));
}

/// The last block with a key is the only one, or there is none.
proof fn lemma_last_match(s: Seq<Block32>, key: KeyType, otherwise: Block32)
    ensures
        (forall|i: int| 0 <= i < s.len() ==> (#[trigger] s[i]).key != key) ==> last_match32(
            s,
            key,
            otherwise,
        ) == otherwise,
        forall|i: int|
            0 <= i < s.len() && (#[trigger] s[i]).key == key && (forall|j: int|
                0 <= j < s.len() && (#[trigger] s[j]).key == key ==> j == i) ==> last_match32(
                s,
                key,
                otherwise,
            ) == s[i],
    decreases s.len(),
{
    if s.len() > 0 {
        let t = s.drop_last();
        lemma_last_match(t, key, otherwise);
        if forall|i: int| 0 <= i < s.len() ==> (#[trigger] s[i]).key != key {
            assert forall|i: int| 0 <= i < t.len() implies (#[trigger] t[i]).key != key by {
                assert(s[i].key != key);
            }
            assert(s[s.len() - 1].key != key);
        }
        assert forall|i: int|
            0 <= i < s.len() && (#[trigger] s[i]).key == key && (forall|j: int|
                0 <= j < s.len() && (#[trigger] s[j]).key == key ==> j == i) implies last_match32(
            s,
            key,
            otherwise,
        ) == s[i] by {
            if i < t.len() {
                assert(s[s.len() - 1].key != key);
                assert(t[i] == s[i]);
                assert forall|j: int| 0 <= j < t.len() && (#[trigger] t[j]).key == key implies j
                    == i by {
                    assert(s[j].key == key);
                }
            }
        }
    }
}

/// Taking the block of `key` out of a loaded path takes the key out of the store.
pub(crate) proof fn lemma_without_key(
    st: PathState<Block32>,
    p: int,
    key: KeyType,
    lookup: Block32,
)
    requires
        st.at_rest(),
        0 <= p < st.geo.leaves,
        level_all(st.opened(p), |b: Block32| canonical(b)),
        key != DUMMY_KEY,
        st.stored().contains_key(key) ==> st.visible(p, key),
    ensures
        ({
            let t = st.with_work(without_key32(st.opened(p), key));
            &&& t.open_at(p)
            &&& one_per_key(t.open_count(p), keys())
            &&& t.open_stored(p) == st.stored().remove(key)
            &&& t.has_vacancy() == st.has_room(key)
            &&& level_all(t.work, |b: Block32| canonical(b))
            &&& last_match32(st.opened(p), key, lookup) == (if st.stored().contains_key(key) {
                st.stored()[key]
            } else {
                lookup
            })
            &&& st.stored().contains_key(key) ==> !st.stored()[key].vacant()
                && st.stored()[key].key == key
        }),
{
    let o = st.opened(p);
    let u = st.with_work(o);
    let t = st.with_work(without_key32(o, key));
    st.lemma_open(p);
    st.lemma_opened(p);
    st.lemma_one_slot_per_key(p);
    lemma_last_match(o, key, lookup);
    assert forall|i: int| 0 <= i < o.len() implies (holds_key(#[trigger] o[i], key) <==> o[i].key
        == key) by {
        assert(canonical(o[i]));
    }
    if exists|i: int| 0 <= i < o.len() && holds_key(#[trigger] o[i], key) {
        let i = choose|i: int| 0 <= i < o.len() && holds_key(#[trigger] o[i], key);
        st.lemma_visible_is_stored(p, i);
        assert forall|j: int| 0 <= j < o.len() && (#[trigger] o[j]).key == key implies j == i by {
            assert(holds_key(o[j], key) && holds_key(o[i], key));
        }
        u.lemma_take(p, i, Block32::blank());
        assert(t.work =~= o.update(i, Block32::blank()));
    } else {
        if st.stored().contains_key(key) {
            assert(st.visible(p, key));
        }
        assert forall|j: int| 0 <= j < o.len() implies (#[trigger] o[j]).key != key by {
            assert(!holds_key(o[j], key));
        }
        assert(t.work =~= o);
        assert(st.stored().remove(key) =~= st.stored());
    }
    assert forall|i: int| 0 <= i < st.s implies (#[trigger] t.work[i]).vacant() == (
    st.work[i].vacant() || st.work[i].key_of() == key) by {
        assert(o[i] == st.work[i]);
        assert(canonical(o[i]));
    }
    if st.has_room(key) {
        let i = choose|i: int|
            0 <= i < st.s && ((#[trigger] st.work[i]).vacant() || st.work[i].key_of() == key);
        assert(t.work[i].vacant());
    }
    if t.has_vacancy() {
        let i = choose|i: int| 0 <= i < t.s && (#[trigger] t.work[i]).vacant();
        assert(st.work[i].vacant() || st.work[i].key_of() == key);
    }
}

/// Moving a block from the stash to the root keeps the store.
proof fn lemma_lane_filled(st: PathState<Block32>, p: int, lane: int)
    requires
        st.open_at(p),
        one_per_key(st.open_count(p), keys()),
        level_all(st.work, |b: Block32| canonical(b)),
        0 <= lane < st.w,
        (st.geo.index)(0, p) == 0,
        forall|q: int| 0 <= q < st.geo.leaves ==> #[trigger] (st.geo.index)(0, q) == 0,
    ensures
        ({
            let t = st.with_work(lane_filled(st.work, st.s, lane));
            &&& t.open_at(p)
            &&& one_per_key(t.open_count(p), keys())
            &&& t.open_stored(p) == st.open_stored(p)
            &&& level_all(t.work, |b: Block32| canonical(b))
        }),
{
    let i = first_live(st.work, 0, st.s);
    let r = st.s + lane;
    let t = st.with_work(lane_filled(st.work, st.s, lane));
    lemma_first_live(st.work, 0, st.s);
    lemma_row_place(0, lane, st.w, st.geo.h);
    assert(0 * st.w == 0);
    if st.work[r].vacant() && i < st.s {
        let mid = st.work.update(r, st.work[i]);
        assert forall|b: Block32| #[trigger] tally(t.work, b) == tally(st.work, b) by {
            lemma_tally_update(st.work, r, st.work[i], b);
            lemma_tally_update(mid, i, Block32::blank(), b);
        }
        assert(!st.work[i].vacant());
        assert forall|d: int, j: int|
            0 <= d < t.geo.h && 0 <= j < t.w && !(#[trigger] t.slot(
                d,
                j,
            )).vacant() implies t.geo.allows(d, p, t.slot(d, j).leaf_of()) by {
            lemma_row_place(d, j, st.w, st.geo.h);
            let k = st.s + d * st.w + j;
            if k == r {
                if d > 0 {
                    lemma_row_place(0, 0, st.w, d);
                }
                assert(d == 0);
                assert((st.geo.index)(0, st.work[i].leaf_of()) == 0);
            } else {
                assert(t.slot(d, j) == st.slot(d, j));
            }
        }
        st.lemma_rearranged(p, t.work);
    } else {
        assert(t == st);
    }
}

/// Moving blocks from the stash to the root slots keeps the store.
pub(crate) proof fn lemma_lanes_filled(st: PathState<Block32>, p: int, n: int)
    requires
        st.open_at(p),
        one_per_key(st.open_count(p), keys()),
        level_all(st.work, |b: Block32| canonical(b)),
        0 <= n <= st.w,
        (st.geo.index)(0, p) == 0,
        forall|q: int| 0 <= q < st.geo.leaves ==> #[trigger] (st.geo.index)(0, q) == 0,
    ensures
        ({
            let t = st.with_work(lanes_filled(st.work, st.s, n));
            &&& t.open_at(p)
            &&& one_per_key(t.open_count(p), keys())
            &&& t.open_stored(p) == st.open_stored(p)
            &&& level_all(t.work, |b: Block32| canonical(b))
        }),
    decreases n,
{
    if n > 0 {
        lemma_lanes_filled(st, p, n - 1);
        let m = st.with_work(lanes_filled(st.work, st.s, n - 1));
        lemma_lane_filled(m, p, n - 1);
        assert(m.with_work(lane_filled(m.work, st.s, n - 1)) == st.with_work(
            lanes_filled(st.work, st.s, n),
        ));
    }
}

/// Every path starts at node zero.
pub(crate) proof fn lemma_root(branching_factor: int, height: int)
    requires
        1 <= branching_factor,
        1 <= height,
    ensures
        forall|q: int|
            0 <= q < full_width(height - 1, branching_factor) ==> #[trigger] (prefix_geometry(
                branching_factor,
                height,
            ).index)(0, q) == 0,
{
    assert forall|q: int| 0 <= q < full_width(height - 1, branching_factor) implies #[trigger] (
    prefix_geometry(branching_factor, height).index)(0, q) == 0 by {
        vstd::arithmetic::div_mod::lemma_basic_div(q, full_width(height - 1, branching_factor));
    }
}

/// A block may lie as deep as it shares digits with the path.
pub(crate) proof fn lemma_depth_allows(
    b: Block32,
    path: PosType,
    branching_factor: int,
    height: int,
    l: int,
)
    requires
        1 <= branching_factor,
        1 <= height <= i64::MAX,
        path < full_width(height - 1, branching_factor),
        !b.vacant(),
        b.pos < full_width(height - 1, branching_factor),
        0 <= l < height,
        l <= depth_of(b, path, branching_factor, height),
    ensures
        prefix_geometry(branching_factor, height).allows(l, path as int, b.pos as int),
{
    lemma_shared_digits(branching_factor, height, height - 1, b.pos as int, path as int);
    assert(same_prefix(branching_factor, height, l, b.pos as int, path as int));
}

/// Moving blocks down the lanes keeps the store.
pub(crate) proof fn lemma_moved_down(
    st: PathState<Block32>,
    work: Seq<Block32>,
    masks: Seq<LaneMask>,
    path: PosType,
    branching_factor: int,
)
    requires
        2 <= branching_factor,
        st.geo.h <= i64::MAX,
        st.geo == prefix_geometry(branching_factor, st.geo.h),
        st.open_at(path as int),
        one_per_key(st.open_count(path as int), keys()),
        level_all(st.work, |b: Block32| canonical(b)),
        work.len() == st.work.len(),
        forall|l: int, lane: int|
            #![trigger lane_parts(masks, st.w, st.geo.h, lane)[l]]
            0 <= l < st.geo.h && 0 <= lane < st.w ==> lane_parts(masks, st.w, st.geo.h, lane)[l]
                == takes_part(
                lane_depths(st.work, st.s, st.w, st.geo.h, lane, path, branching_factor),
                l,
            ),
        forall|i: int| 0 <= i < st.s ==> #[trigger] work[i] == st.work[i],
        forall|l: int, lane: int|
            #![trigger lane_column(work, st.s, st.w, st.geo.h, lane)[l]]
            0 <= l < st.geo.h && 0 <= lane < st.w ==> lane_column(
                work,
                st.s,
                st.w,
                st.geo.h,
                lane,
            )[l] == moved(
                lane_column(st.work, st.s, st.w, st.geo.h, lane),
                lane_parts(masks, st.w, st.geo.h, lane),
                l,
            ),
        (forall|lane: int|
            0 <= lane < st.w ==> (#[trigger] carried(
                lane_column(st.work, st.s, st.w, st.geo.h, lane),
                lane_parts(masks, st.w, st.geo.h, lane),
                st.geo.h,
            )).vacant()) ==> forall|b: Block32| #[trigger] tally(work, b) == tally(st.work, b),
    ensures
        ({
            let t = st.with_work(work);
            &&& t.open_at(path as int)
            &&& one_per_key(t.open_count(path as int), keys())
            &&& t.open_stored(path as int) == st.open_stored(path as int)
            &&& level_all(t.work, |b: Block32| canonical(b))
        }),
{
    let h = st.geo.h;
    let p = path as int;
    let t = st.with_work(work);
    assert forall|lane: int, l: int|
        0 <= lane < st.w && 0 <= l <= h && (l == h || lane_parts(masks, st.w, h, lane)[l]) implies {
        let c = #[trigger] carried(
            lane_column(st.work, st.s, st.w, h, lane),
            lane_parts(masks, st.w, h, lane),
            l,
        );
        !c.vacant() ==> l < h && exists|k: int|
            0 <= k < l && c == #[trigger] lane_column(st.work, st.s, st.w, h, lane)[k]
                && lane_depths(st.work, st.s, st.w, h, lane, path, branching_factor)[k] >= l
    } by {
        let col = lane_column(st.work, st.s, st.w, h, lane);
        let d = lane_depths(st.work, st.s, st.w, h, lane, path, branching_factor);
        assert forall|k: int| 0 <= k < h implies (#[trigger] d[k] == -1 <==> col[k].vacant()) by {
            if !col[k].vacant() {
                assert(st.slot(k, lane) == col[k]);
                lemma_shared_digits(branching_factor, h, h - 1, col[k].pos as int, p);
            }
        }
        assert forall|k: int| 0 <= k < h implies #[trigger] lane_parts(masks, st.w, h, lane)[k]
            == takes_part(d, k) by {}
        lemma_carried(col, d, lane_parts(masks, st.w, h, lane), l);
    }
    assert forall|lane: int| 0 <= lane < st.w implies (#[trigger] carried(
        lane_column(st.work, st.s, st.w, h, lane),
        lane_parts(masks, st.w, h, lane),
        h,
    )).vacant() by {}
    assert forall|d: int, j: int|
        0 <= d < h && 0 <= j < st.w && !(#[trigger] t.slot(d, j)).vacant() implies t.geo.allows(
        d,
        p,
        t.slot(d, j).leaf_of(),
    ) by {
        let col = lane_column(st.work, st.s, st.w, h, j);
        let m = lane_parts(masks, st.w, h, j);
        assert(lane_column(work, st.s, st.w, h, j)[d] == moved(col, m, d));
        assert(t.slot(d, j) == moved(col, m, d));
        if m[d] {
            let c = carried(col, m, d);
            let k = choose|k: int|
                0 <= k < d && c == #[trigger] col[k] && lane_depths(
                    st.work,
                    st.s,
                    st.w,
                    h,
                    j,
                    path,
                    branching_factor,
                )[k] >= d;
            assert(st.slot(k, j) == c);
            lemma_depth_allows(c, path, branching_factor, h, d);
        } else {
            assert(st.slot(d, j) == t.slot(d, j));
        }
    }
    assert forall|i: int| 0 <= i < work.len() implies canonical(#[trigger] work[i]) by {
        if i < st.s {
            assert(work[i] == st.work[i]);
        } else {
            let n = i - st.s;
            lemma_row_of(n, st.w, h);
            let (d, j) = (n / st.w, n % st.w);
            let col = lane_column(st.work, st.s, st.w, h, j);
            let m = lane_parts(masks, st.w, h, j);
            assert(lane_column(work, st.s, st.w, h, j)[d] == moved(col, m, d));
            lemma_carried_canonical(st.work, st.s, st.w, h, j, m, d);
            lemma_row_place(d, j, st.w, h);
            assert(canonical(st.work[st.s + d * st.w + j]));
        }
    }
    st.lemma_rearranged(p, work);
}

/// What a pass carries is canonical when the working array is.
proof fn lemma_carried_canonical(
    work: Seq<Block32>,
    s: int,
    z: int,
    h: int,
    lane: int,
    m: Seq<bool>,
    l: int,
)
    requires
        0 <= s,
        0 <= lane < z,
        0 <= l <= h,
        work.len() == s + h * z,
        level_all(work, |b: Block32| canonical(b)),
    ensures
        canonical(carried(lane_column(work, s, z, h, lane), m, l)),
    decreases l,
{
    if l > 0 {
        lemma_carried_canonical(work, s, z, h, lane, m, l - 1);
        lemma_row_place(l - 1, lane, z, h);
        assert(canonical(work[s + (l - 1) * z + lane]));
    }
}

impl<const Z: usize, const S: usize, const B: usize> LaneORAM<Z, S, B> {
    /// Moves blocks from the stash to the root and down the lanes of the path to `pos`.
    fn evict(&mut self, pos: PosType)
        requires
            old(self).open_at(pos),
        ensures
            final(self).open_at(pos),
            final(self).state().open_stored(pos as int) == old(self).state().open_stored(
                pos as int,
            ),
            final(self).max_n == old(self).max_n,
            final(self).h == old(self).h,
            final(self).tree == old(self).tree,
            final(self).stash_and_path@ == evicted_work(
                old(self).stash_and_path@,
                S as int,
                Z as int,
                old(self).h as int,
                pos,
                B as int,
            ),
    {
        let ghost st0 = self.state();
        proof {
            self.lemma_state();
            lemma_row_place(0, 0, Z as int, self.h as int);
            assert(0 * Z == 0);
            lemma_root(B as int, self.h as int);
            lemma_lanes_filled(st0, pos as int, Z as int);
        }
        self.move_from_stash_to_free_lanes();
        let ghost st1 = self.state();
        proof {
            assert(st1 == st0.with_work(self.stash_and_path@));
            assert forall|i: int| S <= i < self.stash_and_path.len() implies (
            #[trigger] self.stash_and_path@[i]).vacant() || self.stash_and_path@[i].pos
                < self.max_n by {
                let n = i - S;
                lemma_row_of(n, Z as int, self.h as int);
                assert(st1.slot(n / Z as int, n % Z as int) == self.stash_and_path@[i]);
            }
        }
        self.calculate_masks(pos);
        let ghost masks = self.lane_masks@;
        self.move_down_lane();
        proof {
            lemma_moved_down(st1, self.stash_and_path@, masks, pos, B as int);
            assert(self.state() == st1.with_work(self.stash_and_path@));
            let (s, z, h) = (S as int, Z as int, self.h as int);
            let goal = settled(st1.work, s, z, h, pos, B as int);
            assert forall|i: int| 0 <= i < goal.len() implies self.stash_and_path@[i]
                == #[trigger] goal[i] by {
                if i >= s {
                    lemma_row_of(i - s, z, h);
                    let (l, lane) = ((i - s) / z, (i - s) % z);
                    let d = lane_depths(st1.work, s, z, h, lane, pos, B as int);
                    assert(lane_column(self.stash_and_path@, s, z, h, lane)[l]
                        == self.stash_and_path@[i]);
                    assert(lane_parts(masks, z, h, lane) =~= parts(d)) by {
                        assert forall|k: int| 0 <= k < h implies #[trigger] lane_parts(
                            masks,
                            z,
                            h,
                            lane,
                        )[k] == takes_part(d, k) by {}
                    }
                }
            }
            assert(self.stash_and_path@ =~= goal);
        }
    }

    /// Updates a block and assigns it `new_pos`, inserting a zeroed payload when absent.
    ///
    /// The closure may update the entire cache-line block, but changes to its position
    /// and key are discarded; `new_pos` and `key` always become the stored metadata.
    /// Without room in the stash the block is gone afterwards.
    pub fn update<T, F: FnOnce(&mut BlockType) -> T>(
        &mut self,
        pos: PosType,
        new_pos: PosType,
        key: KeyType,
        update_func: F,
    ) -> (r: (bool, T))
        requires
            old(self).wf(),
            pos < old(self).max_n,
            new_pos < old(self).max_n,
            new_pos != DUMMY_POS,
            key != DUMMY_KEY,
            old(self)@.contains_key(key) ==> old(self).state().visible(pos as int, key),
            forall|d: &mut Block32|
                *d == old(self).entry(key) ==> #[trigger] call_requires(update_func, (d,)),
        ensures
            final(self).wf(),
            final(self).max_n == old(self).max_n,
            final(self).h == old(self).h,
            r.0 == old(self)@.contains_key(key),
            r.0 == old(self).state().visible(pos as int, key),
            exists|d: &mut Block32| #[trigger]
                call_ensures(update_func, (d,), r.1) && *d == old(self).entry(key) && final(self)@
                    == (if old(self).state().has_room(key) {
                    old(self)@.insert(key, Block32 { pos: new_pos, key, data: final(d).data })
                } else {
                    old(self)@.remove(key)
                }) && final(self).state() == lane_updated(
                    old(self).state(),
                    pos,
                    Block32 { pos: new_pos, key, data: final(d).data },
                    B as int,
                ),
    {
        let ghost before = *self;
        let ghost st0 = self.state();
        self.load(pos);
        let lookup = Block32 { pos: DUMMY_POS, key, data: EMPTY_BLOCK_DATA };
        proof {
            lemma_without_key(st0, pos as int, key, lookup);
            if st0.visible(pos as int, key) {
                let i = choose|i: int|
                    0 <= i < st0.opened(pos as int).len() && holds_key(
                        #[trigger] st0.opened(pos as int)[i],
                        key,
                    );
                st0.lemma_visible_is_stored(pos as int, i);
            }
        }
        let mut block: Block32 = read_and_remove_path32(&lookup, &mut self.stash_and_path);
        let found: bool = !block.is_empty();
        let ghost st1 = self.state();
        proof {
            assert(st1 == st0.with_work(self.stash_and_path@));
            assert(block == before.entry(key));
        }
        let result = apply_update(&mut block, update_func);
        let ghost changed = block;
        block.pos = new_pos;
        block.key = key;
        let written: bool = put_first(&mut self.stash_and_path, S, &block);
        proof {
            if written {
                let i = choose|i: int|
                    0 <= i < S && (#[trigger] st1.work[i]).vacant() && (forall|k: int|
                        0 <= k < i ==> !(#[trigger] st1.work[k]).vacant()) && self.stash_and_path@
                        == st1.work.update(i, block);
                st1.lemma_put(pos as int, i, block);
                assert forall|k: int| 0 <= k < self.stash_and_path.len() implies canonical(
                    #[trigger] self.stash_and_path@[k],
                ) by {
                    assert(canonical(st1.work[k]));
                }
                assert(before@.remove(key).insert(key, block) =~= before@.insert(key, block));
            }
            assert(self.state() == st1.with_work(self.stash_and_path@));
            assert(self.open_at(pos));
            lemma_put_is_first(st1.work, S as int, block, self.stash_and_path@, written);
        }
        let ghost st2 = self.state();
        self.evict(pos);
        self.store(pos);
        proof {
            assert(self.state() == finished(st2, pos, B as int));
            let d = choose|d: &mut Block32| #[trigger]
                call_ensures(update_func, (d,), result) && *d == before.entry(key) && *final(d)
                    == changed;
            assert(call_ensures(update_func, (d,), result));
            assert(block == (Block32 { pos: new_pos, key, data: final(d).data }));
        }
        let r = (found, result);
        assert(r.1 == result);
        r
    }

    /// The store of a lane ORAM at rest.
    pub proof fn lemma_store(&self)
        requires
            self.wf(),
        ensures
            lane_store(self.state(), B as int),
            self.state().at_rest(),
            self.state().geo.leaves == self.max_n,
    {
        self.lemma_state();
    }

    /// A stored block is visible from its own position.
    pub proof fn lemma_stored_is_visible(&self, key: KeyType)
        requires
            self.wf(),
            self@.contains_key(key),
        ensures
            self@[key].key == key,
            self@[key].pos < self.max_n,
            self.state().visible(self@[key].pos as int, key),
    {
        self.lemma_state();
        self.state().lemma_stored_is_visible(key);
    }
}

} // verus!
