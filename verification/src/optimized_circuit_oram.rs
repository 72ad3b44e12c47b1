//! Circuit ORAM whose buckets hold two 32-byte blocks.
//!
//! Each of the two slots of every bucket forms a lane of its own: an eviction
//! moves blocks inside a lane, from the lane's half of the stash down the lane's
//! slots of a path.
use vstd::prelude::*;
use crate::circuit::{column_fits, column_settled, column_size, evict_column};
use crate::circuit::lemma_column_origin;
use crate::heap_tree::{full_width, lemma_full_width, lemma_full_width_grows, HeapTree};
use crate::oblivious::{both, cmov_bool, cmov_bytes, cmov_u32, ObliviousBlock};
use crate::path_access::{lemma_put_is_first, with_block};
use crate::prelude::{apply_update, ceil_pow2, ceil_pow2_from, filled, PositionType};
use crate::suffix::{common_suffix_length, lemma_shared_bits, meets, shared_bits};
use crate::tally::{by_key, hit, one_per_key, tally, tally_groups};
use crate::tally::{lemma_by_key, lemma_by_key_insert, lemma_by_key_remove, lemma_by_key_same};
use crate::tally::{lemma_one_place_per_key, lemma_tally_gather, lemma_tally_groups_concat};
use crate::tally::{lemma_tally_groups_positive, lemma_tally_groups_update};
use crate::tally::{lemma_tally_scatter, lemma_tally_update};

verus! {

broadcast use vstd::array::group_array_axioms;

/// Blocks per Circuit ORAM bucket.
pub const Z: usize = 2;

/// Total blocks reserved for the stash.
pub const S: usize = 20;

/// Buckets that the stash takes up.
pub const STASH_BUCKETS: usize = 10;

/// Deterministic evictions after every operation.
pub const EVICTIONS_PER_OP: usize = 2;

/// Position marking a dummy block.
pub const DUMMY_POS: PositionType = 0xffff_ffff;

/// Compact key type used by the optimized layout.
pub type Key = u32;

/// Payload bytes in one block.
pub const DATA_SIZE: usize = 24;

/// One half-cache-line Circuit ORAM block.
#[derive(Clone, Copy, Debug)]
pub struct Block {
    /// Assigned leaf; [`DUMMY_POS`] marks an empty block.
    pub pos: PositionType,
    /// Logical block key.
    pub key: Key,
    /// Untyped payload occupying the rest of the block.
    pub data: [u8; DATA_SIZE],
}

impl Default for Block {
    fn default() -> (r: Self)
        ensures
            r == Block::blank(),
    {
        Block { pos: DUMMY_POS, key: 0xffff_ffff, data: [0xffu8; DATA_SIZE] }
    }
}

impl ObliviousBlock for Block {
    open spec fn vacant(self) -> bool {
        self.pos == DUMMY_POS
    }

    open spec fn vacated(self) -> Self {
        Block { pos: DUMMY_POS, ..self }
    }

    open spec fn blank() -> Self {
        Block { pos: DUMMY_POS, key: 0xffff_ffff, data: [0xffu8; DATA_SIZE] }
    }

    proof fn lemma_vacancy(self) {
    }

    fn is_vacant(&self) -> (r: bool) {
        self.pos == DUMMY_POS
    }

    fn fresh() -> (r: Self) {
        Block::default()
    }

    fn select(&mut self, other: &Self, choice: bool) {
        cmov_u32(&mut self.pos, other.pos, choice);
        cmov_u32(&mut self.key, other.key, choice);
        cmov_bytes(&mut self.data, &other.data, choice);
    }

    fn vacate(&mut self, choice: bool) {
        cmov_u32(&mut self.pos, DUMMY_POS, choice);
    }
}

impl Block {
    /// Returns whether this block is a dummy.
    pub fn is_empty(&self) -> (r: bool)
        ensures
            r == (self.pos == DUMMY_POS),
    {
        self.pos == DUMMY_POS
    }
}

/// A two-block bucket.
#[derive(Clone, Copy, Debug)]
pub struct Bucket(pub [Block; Z]);

impl Default for Bucket {
    fn default() -> (r: Self)
        ensures
            forall|j: int| 0 <= j < Z ==> #[trigger] r.0[j] == Block::blank(),
    {
        Bucket([Block::default(); Z])
    }
}

/// The slots of every bucket.
pub open spec fn bucket_rows(s: Seq<Bucket>) -> Seq<Seq<Block>> {
    s.map_values(|c: Bucket| c.0@)
}

/// The slots of one lane.
pub open spec fn lane_column(s: Seq<Bucket>, lane: int) -> Seq<Block> {
    s.map_values(|c: Bucket| c.0[lane])
}

/// The deepest level of the path to `pos` that a block may lie at.
pub open spec fn depth_of(b: Block, pos: PositionType) -> i64 {
    if b.vacant() {
        (-1) as i64
    } else {
        shared_bits(b.pos as int, pos as int, 32) as i64
    }
}

/// The depths of one lane.
pub open spec fn depth_column(s: Seq<Bucket>, lane: int, pos: PositionType) -> Seq<i64> {
    s.map_values(|c: Bucket| depth_of(c.0[lane], pos))
}

/// The slots of both lanes.
pub open spec fn columns(s: Seq<Bucket>) -> Seq<Seq<Block>> {
    Seq::new(Z as nat, |lane: int| lane_column(s, lane))
}

/// [`depth_of`] every slot of a lane.
pub open spec fn column_depths(col: Seq<Block>, pos: PositionType) -> Seq<i64> {
    col.map_values(|b: Block| depth_of(b, pos))
}

/// The lane without the block of `key`.
pub open spec fn without_key(col: Seq<Block>, key: Key) -> Seq<Block> {
    col.map_values(
        |b: Block|
            if holds_key(b, key) {
                b.vacated()
            } else {
                b
            },
    )
}

/// The lanes without the block of `key`, and with `block` in the first vacant stash slot of
/// lane `lane`, if there is one.
pub open spec fn replaced(cols: Seq<Seq<Block>>, key: Key, lane: int, block: Block) -> Seq<
    Seq<Block>,
> {
    let taken = cols.map_values(|c: Seq<Block>| without_key(c, key));
    taken.update(lane, with_block(taken[lane], STASH_BUCKETS as int, block))
}

/// Whether a slot holds the block of `key`.
pub open spec fn holds_key(b: Block, key: Key) -> bool {
    !b.vacant() && b.key == key
}

/// The key of a block.
pub open spec fn key_of() -> spec_fn(Block) -> Key {
    |b: Block| b.key
}

/// Counting by bucket is counting by lane.
proof fn lemma_lanes(s: Seq<Bucket>, b: Block)
    ensures
        tally_groups(bucket_rows(s), b) == tally(lane_column(s, 0), b) + tally(
            lane_column(s, 1),
            b,
        ),
    decreases s.len(),
{
    if s.len() > 0 {
        let p = s.drop_last();
        lemma_lanes(p, b);
        assert(bucket_rows(s).drop_last() =~= bucket_rows(p));
        assert(lane_column(s, 0).drop_last() =~= lane_column(p, 0));
        assert(lane_column(s, 1).drop_last() =~= lane_column(p, 1));
        let row = s.last().0@;
        assert(row.drop_last().drop_last() =~= Seq::empty());
        reveal_with_fuel(tally, 3);
        assert(tally(row, b) == hit(row[0], b) + hit(row[1], b));
    }
}

impl HeapTree<Bucket> {
    /// The buckets on a path, root first.
    pub open spec fn path_buckets(&self, path: int) -> Seq<Bucket> {
        self.path_indices(path).map_values(|k: int| self.tree@[k])
    }

    /// Copies the buckets on a path into `out`, starting at `start`.
    pub fn read_optimized_path(&self, path: PositionType, out: &mut Vec<Bucket>, start: usize)
        requires
            self.wf(),
            path < self.leaf_count,
            old(out).len() == start + self.height,
        ensures
            final(out)@ == old(out)@.take(start as int) + self.path_buckets(path as int),
    {
        let ghost out0 = out@;
        let mut depth: usize = 0;
        while depth < self.height
            invariant
                self.wf(),
                path < self.leaf_count,
                depth <= self.height,
                out.len() == out0.len() == start + self.height,
                out@.take(start as int) == out0.take(start as int),
                forall|d: int|
                    0 <= d < depth ==> #[trigger] out@[start + d] == self.path_buckets(
                        path as int,
                    )[d],
            decreases self.height - depth,
        {
            let index: usize = self.get_index(depth, path);
            let ghost before = out@;
            out.set(start + depth, self.tree[index]);
            proof {
                assert(out@.take(start as int) =~= before.take(start as int));
                assert forall|d: int| 0 <= d < depth + 1 implies #[trigger] out@[start + d]
                    == self.path_buckets(path as int)[d] by {
                    if d < depth {
                        assert(before[start + d] == self.path_buckets(path as int)[d]);
                    }
                }
            }
            depth += 1;
        }
        assert(out@ =~= out0.take(start as int) + self.path_buckets(path as int)) by {
            assert forall|k: int| 0 <= k < out.len() implies out@[k] == (out0.take(start as int)
                + self.path_buckets(path as int))[k] by {
                if k < start {
                    assert(out@.take(start as int)[k] == out0.take(start as int)[k]);
                } else {
                    assert(out@[start + (k - start)] == self.path_buckets(path as int)[k - start]);
                }
            }
        }
    }

    /// Writes the buckets of `input`, starting at `start`, to a path.
    pub fn write_optimized_path(&mut self, path: PositionType, input: &Vec<Bucket>, start: usize)
        requires
            old(self).wf(),
            path < old(self).leaf_count,
            input.len() == start + old(self).height,
        ensures
            final(self).wf(),
            final(self).same_shape(old(self)),
            final(self).path_buckets(path as int) == input@.skip(start as int),
            forall|k: int|
                0 <= k < old(self).tree.len() && !old(self).path_indices(path as int).contains(k)
                    ==> #[trigger] final(self).tree@[k] == old(self).tree@[k],
    {
        let ghost tree0 = *self;
        let ghost at = self.path_indices(path as int);
        proof {
            self.lemma_path_indices(path as int);
        }
        let mut depth: usize = 0;
        while depth < self.height
            invariant
                self.wf(),
                self.same_shape(&tree0),
                tree0.wf(),
                path < self.leaf_count,
                depth <= self.height,
                input.len() == start + self.height,
                at == tree0.path_indices(path as int),
                forall|d: int| 0 <= d < self.height ==> 0 <= #[trigger] at[d] < self.tree.len(),
                forall|d: int, e: int|
                    0 <= d < e < self.height ==> #[trigger] at[d] != #[trigger] at[e],
                forall|d: int|
                    0 <= d < depth ==> self.tree@[#[trigger] at[d]] == input@[start + d],
                forall|k: int|
                    0 <= k < self.tree.len() && !at.contains(k) ==> #[trigger] self.tree@[k]
                        == tree0.tree@[k],
            decreases self.height - depth,
        {
            let index: usize = self.get_index(depth, path);
            let ghost before = self.tree@;
            assert(at[depth as int] == index);
            self.tree.set(index, input[start + depth]);
            proof {
                assert forall|d: int| 0 <= d < depth + 1 implies self.tree@[#[trigger] at[d]]
                    == input@[start + d] by {
                    if d < depth {
                        assert(at[d] != at[depth as int]);
                    }
                }
                assert(at.contains(index as int));
            }
            depth += 1;
        }
        assert(self.path_indices(path as int) =~= at);
        assert(self.path_buckets(path as int) =~= input@.skip(start as int));
    }
}

/// Takes the block of `key` out of a slot, if it is there.
fn take_matching(item: &mut Block, key: Key, result: &mut Block, found: &mut bool)
    ensures
        holds_key(*old(item), key) ==> *final(result) == *old(item) && *final(item) == old(item).vacated() && *final(found),
        !holds_key(*old(item), key) ==> *final(result) == *old(result) && *final(item) == *old(item) && *final(found) == *old(found),
{
    let matched: bool = both(!item.is_empty(), item.key == key);
    result.select(item, matched);
    item.vacate(matched);
    cmov_bool(found, true, matched);
}

/// No two slots hold the block of `key`.
pub open spec fn at_most_one(s: Seq<Bucket>, key: Key) -> bool {
    forall|i: int, j: int, i2: int, j2: int|
        #![trigger s[i].0[j], s[i2].0[j2]]
        0 <= i < s.len() && 0 <= j < Z && 0 <= i2 < s.len() && 0 <= j2 < Z && holds_key(
            s[i].0[j],
            key,
        ) && holds_key(s[i2].0[j2], key) ==> i == i2 && j == j2
}

/// `after` is `s` with the block in slot `j` of bucket `i` taken out.
pub open spec fn taken_out(s: Seq<Bucket>, after: Seq<Bucket>, i: int, j: int) -> bool {
    &&& after == s.update(i, after[i])
    &&& after[i].0@ == s[i].0@.update(j, s[i].0[j].vacated())
}

/// Takes the block of `key` out of the buckets and hands it out in `result`, which
/// stays as it is when there is none.
pub fn read_and_remove(arr: &mut Vec<Bucket>, key: Key, result: &mut Block) -> (found: bool)
    requires
        at_most_one(old(arr)@, key),
    ensures
        found ==> exists|i: int, j: int|
            #![trigger old(arr)[i].0[j]]
            0 <= i < old(arr).len() && 0 <= j < Z && holds_key(old(arr)[i].0[j], key)
                && *final(result) == old(arr)[i].0[j] && taken_out(
                old(arr)@,
                final(arr)@,
                i,
                j,
            ),
        !found ==> final(arr)@ == old(arr)@ && *final(result) == *old(result),
        !found ==> forall|i: int, j: int|
            #![trigger old(arr)[i].0[j]]
            0 <= i < old(arr).len() && 0 <= j < Z ==> !holds_key(old(arr)[i].0[j], key),
{
    let ghost s0 = arr@;
    let ghost r0 = *result;
    let ghost mut fi: int = 0;
    let ghost mut fj: int = 0;
    let mut found: bool = false;
    let mut i: usize = 0;
    while i < arr.len()
        invariant
            i <= arr.len() == s0.len(),
            at_most_one(s0, key),
            found ==> {
                &&& 0 <= fi < i
                &&& 0 <= fj < Z
                &&& holds_key(s0[fi].0[fj], key)
                &&& *result == s0[fi].0[fj]
                &&& taken_out(s0, arr@, fi, fj)
            },
            !found ==> arr@ == s0 && *result == r0 && forall|k: int, j: int|
                #![trigger s0[k].0[j]]
                0 <= k < i && 0 <= j < Z ==> !holds_key(s0[k].0[j], key),
        decreases arr.len() - i,
    {
        let ghost before = found;
        let mut bucket: Bucket = arr[i];
        let mut first: Block = bucket.0[0];
        let mut second: Block = bucket.0[1];
        assert(first == s0[i as int].0[0]);
        assert(second == s0[i as int].0[1]);
        take_matching(&mut first, key, result, &mut found);
        take_matching(&mut second, key, result, &mut found);
        bucket.0[0] = first;
        bucket.0[1] = second;
        arr.set(i, bucket);
        proof {
            if holds_key(s0[i as int].0[0], key) {
                fi = i as int;
                fj = 0;
                assert(arr@[i as int].0@ =~= s0[i as int].0@.update(0, first));
                assert(arr@ =~= s0.update(fi, arr@[fi]));
            } else if holds_key(s0[i as int].0[1], key) {
                fi = i as int;
                fj = 1;
                assert(arr@[i as int].0@ =~= s0[i as int].0@.update(1, second));
                assert(arr@ =~= s0.update(fi, arr@[fi]));
            } else {
                assert(arr@[i as int].0 =~= s0[i as int].0);
                if before {
                    assert(arr@ =~= s0.update(fi, arr@[fi]));
                } else {
                    assert(arr@ =~= s0);
                }
            }
        }
        i += 1;
    }
    found
}

/// Takes the block of `key` out of the buckets.
pub fn remove(arr: &mut Vec<Bucket>, key: Key) -> (found: bool)
    requires
        at_most_one(old(arr)@, key),
    ensures
        found ==> exists|i: int, j: int|
            #![trigger old(arr)[i].0[j]]
            0 <= i < old(arr).len() && 0 <= j < Z && holds_key(old(arr)[i].0[j], key) && taken_out(
                old(arr)@,
                final(arr)@,
                i,
                j,
            ),
        !found ==> final(arr)@ == old(arr)@ && forall|i: int, j: int|
            #![trigger old(arr)[i].0[j]]
            0 <= i < old(arr).len() && 0 <= j < Z ==> !holds_key(old(arr)[i].0[j], key),
{
    let mut dropped: Block = Block::default();
    read_and_remove(arr, key, &mut dropped)
}

/// Whether one of the first `n` buckets has a vacant slot in `lane`.
pub open spec fn lane_has_room(s: Seq<Bucket>, n: int, lane: int) -> bool {
    exists|i: int| 0 <= i < n && (#[trigger] s[i]).0[lane].vacant()
}

/// Puts `block` into the first vacant slot of `lane` in the first `n` buckets.
pub fn insert_first_empty(arr: &mut Vec<Bucket>, n: usize, lane: usize, block: &Block) -> (written:
    bool)
    requires
        n <= old(arr).len(),
        lane < Z,
    ensures
        written == lane_has_room(old(arr)@, n as int, lane as int),
        !written ==> final(arr)@ == old(arr)@,
        written ==> exists|i: int|
            #![trigger old(arr)[i]]
            0 <= i < n && old(arr)[i].0[lane as int].vacant() && (forall|k: int|
                0 <= k < i ==> !(#[trigger] old(arr)[k]).0[lane as int].vacant())
                && final(arr)@ == old(arr)@.update(i, final(arr)[i]) && final(arr)[i].0@ == old(arr)[i].0@.update(lane as int, *block),
{
    let ghost s0 = arr@;
    let ghost mut f: int = 0;
    let mut written: bool = false;
    let mut i: usize = 0;
    while i < n
        invariant
            i <= n <= arr.len() == s0.len(),
            lane < Z,
            !written ==> arr@ == s0 && forall|k: int|
                0 <= k < i ==> !(#[trigger] s0[k]).0[lane as int].vacant(),
            written ==> {
                &&& 0 <= f < i
                &&& s0[f].0[lane as int].vacant()
                &&& forall|k: int| 0 <= k < f ==> !(#[trigger] s0[k]).0[lane as int].vacant()
                &&& arr@ == s0.update(f, arr@[f])
                &&& arr@[f].0@ == s0[f].0@.update(lane as int, *block)
            },
        decreases n - i,
    {
        let ghost before = written;
        let mut bucket: Bucket = arr[i];
        let mut item: Block = bucket.0[lane];
        let write: bool = both(item.is_empty(), !written);
        item.select(block, write);
        bucket.0[lane] = item;
        arr.set(i, bucket);
        cmov_bool(&mut written, true, write);
        proof {
            if write {
                f = i as int;
                assert(arr@[f].0@ =~= s0[f].0@.update(lane as int, *block));
                assert(arr@ =~= s0.update(f, arr@[f]));
            } else {
                let c = if before {
                    s0.update(f, arr@[f])
                } else {
                    s0
                };
                assert(arr@[i as int].0 =~= s0[i as int].0);
                assert(arr@ =~= c);
            }
        }
        i += 1;
    }
    written
}

/// Circuit ORAM specialized for two 32-byte blocks per bucket.
#[derive(Debug)]
pub struct OptimizedCircuitORAM {
    /// Logical capacity, rounded up to a power of two.
    pub max_n: usize,
    /// Height of the tree.
    pub h: usize,
    /// Combined `[paired stash lanes | loaded path buckets]` storage.
    pub stash_and_path: Vec<Bucket>,
    /// Binary tree holding the ORAM buckets.
    pub tree: HeapTree<Bucket>,
    /// Next public path used by deterministic eviction.
    pub evict_counter: PositionType,
    /// Public round-robin lane used for the next stash insertion.
    pub insert_lane: usize,
}

impl View for OptimizedCircuitORAM {
    type V = Map<Key, Block>;

    /// The stored block of every stored key.
    open spec fn view(&self) -> Map<Key, Block> {
        by_key(self.count(), key_of())
    }
}

impl OptimizedCircuitORAM {
    /// The sizes fit together.
    pub open spec fn shape(&self) -> bool {
        &&& 2 <= self.h <= 32
        &&& self.max_n == full_width(self.h - 1, 2)
        &&& self.max_n <= 0x8000_0000
        &&& self.tree.wf()
        &&& self.tree.height == self.h
        &&& self.tree.branching_factor == 2
        &&& self.tree.leaf_count == self.max_n
        &&& self.stash_and_path.len() == STASH_BUCKETS + self.h
        &&& self.evict_counter < self.max_n
        &&& self.insert_lane < Z
    }

    /// The stash buckets.
    pub open spec fn stash(&self) -> Seq<Bucket> {
        self.stash_and_path@.take(STASH_BUCKETS as int)
    }

    /// The stash followed by the buckets on a path of the tree.
    pub open spec fn opened(&self, pos: int) -> Seq<Bucket> {
        self.stash() + self.tree.path_buckets(pos)
    }

    /// The number of slots of stash and tree that hold block `b`.
    pub open spec fn contents(&self, b: Block) -> int {
        tally_groups(bucket_rows(self.stash()), b) + tally_groups(bucket_rows(self.tree.tree@), b)
    }

    /// [`Self::contents`] as a function.
    pub open spec fn count(&self) -> spec_fn(Block) -> int {
        |b: Block| self.contents(b)
    }

    /// Every block of the tree lies on the path to its position.
    pub open spec fn tree_legal(&self) -> bool {
        forall|d: int, p: int, j: int|
            #![trigger self.tree.node(d, p).0[j]]
            0 <= d < self.h && 0 <= p < self.max_n && 0 <= j < Z && !self.tree.node(
                d,
                p,
            ).0[j].vacant() ==> {
                &&& self.tree.node(d, p).0[j].pos < self.max_n
                &&& meets(self.tree.node(d, p).0[j].pos as int, p, d)
            }
    }

    /// Every block of the stash has a position in the tree.
    pub open spec fn stash_legal(&self) -> bool {
        forall|i: int, j: int|
            #![trigger self.stash_and_path@[i].0[j]]
            0 <= i < STASH_BUCKETS && 0 <= j < Z && !self.stash_and_path@[i].0[j].vacant()
                ==> self.stash_and_path@[i].0[j].pos < self.max_n
    }

    /// The ORAM is at rest: sizes fit, blocks are where their positions allow, and
    /// every key is stored once.
    pub open spec fn wf(&self) -> bool {
        &&& self.shape()
        &&& self.tree_legal()
        &&& self.stash_legal()
        &&& one_per_key(self.count(), key_of())
    }

    /// The block of `key` is in the stash or on the path to `pos`.
    pub open spec fn visible(&self, pos: PositionType, key: Key) -> bool {
        exists|i: int, j: int|
            #![trigger self.opened(pos as int)[i].0[j]]
            0 <= i < STASH_BUCKETS + self.h && 0 <= j < Z && holds_key(
                self.opened(pos as int)[i].0[j],
                key,
            )
    }

    /// The stash lane that takes the next block has a vacant slot, or one that holds
    /// the block of `key`.
    pub open spec fn has_room(&self, key: Key) -> bool {
        exists|i: int|
            0 <= i < STASH_BUCKETS && ((#[trigger] self.stash_and_path@[i]).0[self.insert_lane
                as int].vacant() || self.stash_and_path@[i].0[self.insert_lane as int].key == key)
    }

    /// The path part of the working array holds blocks that may lie on the path.
    pub open spec fn path_legal(&self, pos: PositionType) -> bool {
        forall|d: int, j: int|
            #![trigger self.stash_and_path@[STASH_BUCKETS + d].0[j]]
            0 <= d < self.h && 0 <= j < Z && !self.stash_and_path@[STASH_BUCKETS + d].0[j].vacant()
                ==> {
                &&& self.stash_and_path@[STASH_BUCKETS + d].0[j].pos < self.max_n
                &&& meets(
                    self.stash_and_path@[STASH_BUCKETS + d].0[j].pos as int,
                    pos as int,
                    d,
                )
            }
    }

    /// The path to `pos` is in the working array, and blocks are where they may be.
    pub open spec fn open_at(&self, pos: PositionType) -> bool {
        &&& self.shape()
        &&& pos < self.max_n
        &&& self.tree_legal()
        &&& self.stash_legal()
        &&& self.path_legal(pos)
    }

    /// The number of slots that hold block `b` while the path to `pos` is in the
    /// working array: there it stands for the path in the tree.
    pub open spec fn open_contents(&self, pos: PositionType, b: Block) -> int {
        tally_groups(bucket_rows(self.stash_and_path@), b) + tally_groups(
            bucket_rows(self.tree.tree@),
            b,
        ) - tally_groups(bucket_rows(self.tree.path_buckets(pos as int)), b)
    }

    /// In the stash, slots of `lane` are filled only below `m`.
    pub open spec fn filled_below(&self, lane: int, m: int) -> bool {
        forall|i: int|
            m <= i < STASH_BUCKETS && 0 <= i ==> (#[trigger] self.stash_and_path@[i]).0[lane].vacant()
    }

    /// No stash slot was filled.
    pub open spec fn stash_not_filled(&self, before: &Self) -> bool {
        forall|i: int, j: int|
            #![trigger self.stash_and_path@[i].0[j]]
            0 <= i < STASH_BUCKETS && 0 <= j < Z && before.stash_and_path@[i].0[j].vacant()
                ==> self.stash_and_path@[i].0[j].vacant()
    }

    /// Two ORAMs differ only in the working array and the tree's nodes.
    pub open spec fn same_frame(&self, other: &Self) -> bool {
        &&& self.max_n == other.max_n
        &&& self.h == other.h
        &&& self.evict_counter == other.evict_counter
        &&& self.insert_lane == other.insert_lane
    }

    /// A stored block whose position is `pos` is visible from there.
    pub proof fn lemma_stored_is_visible(&self, key: Key)
        requires
            self.wf(),
            self@.contains_key(key),
        ensures
            self@[key].pos < self.max_n,
            self@[key].key == key,
            self.visible(self@[key].pos, key),
    {
        let b = self@[key];
        assert(self.count()(b) > 0 && key_of()(b) == key);
        lemma_tally_groups_positive(bucket_rows(self.stash()), b);
        lemma_tally_groups_positive(bucket_rows(self.tree.tree@), b);
        if tally_groups(bucket_rows(self.stash()), b) > 0 {
            let rows = bucket_rows(self.stash());
            let i = choose|i: int|
                0 <= i < rows.len() && !b.vacant() && (#[trigger] rows[i]).contains(b);
            let j = choose|j: int| 0 <= j < rows[i].len() && rows[i][j] == b;
            assert(self.stash_and_path@[i].0[j] == b);
            assert(self.opened(b.pos as int)[i].0[j] == b);
        } else {
            let rows = bucket_rows(self.tree.tree@);
            let i = choose|i: int|
                0 <= i < rows.len() && !b.vacant() && (#[trigger] rows[i]).contains(b);
            let j = choose|j: int| 0 <= j < rows[i].len() && rows[i][j] == b;
            let (d, p) = self.lemma_index_has_path(i);
            assert(self.tree.node(d, p).0[j] == b);
            self.tree.lemma_path_indices(b.pos as int);
            assert(self.tree.index_of(d, p) == self.tree.index_of(d, b.pos as int));
            assert(self.opened(b.pos as int)[STASH_BUCKETS + d].0[j] == b);
        }
    }

    /// Every node of the tree lies on some path.
    proof fn lemma_index_has_path(&self, i: int) -> (r: (int, int))
        requires
            self.shape(),
            0 <= i < self.tree.tree.len(),
        ensures
            0 <= r.0 < self.h,
            0 <= r.1 < self.max_n,
            self.tree.index_of(r.0, r.1) == i,
    {
        self.tree.lemma_node_has_path(i)
    }

    /// With the path loaded, the working array and the rest of the tree hold what
    /// stash and tree held.
    proof fn lemma_open(&self, old_self: &Self, pos: PositionType)
        requires
            old_self.wf(),
            pos < old_self.max_n,
            self.shape(),
            self.tree == old_self.tree,
            self.same_frame(old_self),
            self.stash_and_path@ == old_self.opened(pos as int),
        ensures
            self.open_at(pos),
            forall|b: Block| #[trigger] self.open_contents(pos, b) == old_self.contents(b),
            forall|b: Block|
                #[trigger] tally_groups(bucket_rows(self.stash_and_path@), b)
                    <= old_self.contents(b),
    {
        let path = self.tree.path_buckets(pos as int);
        let at = self.tree.path_indices(pos as int);
        let g = bucket_rows(self.tree.tree@);
        self.tree.lemma_path_indices(pos as int);
        assert(bucket_rows(path) =~= at.map_values(|k: int| g[k]));
        assert(bucket_rows(self.stash_and_path@) =~= bucket_rows(old_self.stash()) + bucket_rows(
            path,
        ));
        assert forall|b: Block| #[trigger]
            self.open_contents(pos, b) == old_self.contents(b) by {
            lemma_tally_groups_concat(bucket_rows(old_self.stash()), bucket_rows(path), b);
        }
        assert forall|b: Block| #[trigger]
            tally_groups(bucket_rows(self.stash_and_path@), b) <= old_self.contents(b) by {
            lemma_tally_groups_concat(bucket_rows(old_self.stash()), bucket_rows(path), b);
            lemma_tally_gather(g, at, b);
        }
        assert forall|i: int, j: int|
            #![trigger self.stash_and_path@[i].0[j]]
            0 <= i < STASH_BUCKETS && 0 <= j < Z
                && !self.stash_and_path@[i].0[j].vacant() implies self.stash_and_path@[i].0[j].pos
            < self.max_n by {
            assert(old_self.stash_and_path@[i].0[j] == self.stash_and_path@[i].0[j]);
        }
        assert forall|d: int, j: int|
            #![trigger self.stash_and_path@[STASH_BUCKETS + d].0[j]]
            0 <= d < self.h && 0 <= j < Z
                && !self.stash_and_path@[STASH_BUCKETS + d].0[j].vacant() implies {
            &&& self.stash_and_path@[STASH_BUCKETS + d].0[j].pos < self.max_n
            &&& meets(self.stash_and_path@[STASH_BUCKETS + d].0[j].pos as int, pos as int, d)
        } by {
            assert(self.stash_and_path@[STASH_BUCKETS + d] == self.tree.node(d, pos as int));
            assert(old_self.tree.node(d, pos as int).0[j]
                == self.stash_and_path@[STASH_BUCKETS + d].0[j]);
        }
        assert forall|d: int, p: int, j: int|
            #![trigger self.tree.node(d, p).0[j]]
            0 <= d < self.h && 0 <= p < self.max_n && 0 <= j < Z && !self.tree.node(
                d,
                p,
            ).0[j].vacant() implies {
            &&& self.tree.node(d, p).0[j].pos < self.max_n
            &&& meets(self.tree.node(d, p).0[j].pos as int, p, d)
        } by {
            assert(old_self.tree.node(d, p).0[j] == self.tree.node(d, p).0[j]);
        }
    }

    /// Writing the path back puts the ORAM at rest.
    proof fn lemma_close(&self, old_self: &Self, pos: PositionType)
        requires
            old_self.open_at(pos),
            self.shape(),
            self.same_frame(old_self),
            self.stash_and_path == old_self.stash_and_path,
            self.tree.same_shape(&old_self.tree),
            self.tree.path_buckets(pos as int) == old_self.stash_and_path@.skip(
                STASH_BUCKETS as int,
            ),
            forall|k: int|
                0 <= k < old_self.tree.tree.len() && !old_self.tree.path_indices(
                    pos as int,
                ).contains(k) ==> #[trigger] self.tree.tree@[k] == old_self.tree.tree@[k],
        ensures
            self.tree_legal(),
            self.stash_legal(),
            forall|b: Block| #[trigger] self.contents(b) == old_self.open_contents(pos, b),
    {
        let at = old_self.tree.path_indices(pos as int);
        let g = bucket_rows(old_self.tree.tree@);
        let after = bucket_rows(self.tree.tree@);
        old_self.tree.lemma_path_indices(pos as int);
        assert(self.tree.path_indices(pos as int) =~= at);
        assert(bucket_rows(old_self.tree.path_buckets(pos as int)) =~= at.map_values(
            |k: int| g[k],
        ));
        assert(bucket_rows(self.tree.path_buckets(pos as int)) =~= at.map_values(
            |k: int| after[k],
        ));
        assert forall|b: Block| #[trigger]
            self.contents(b) == old_self.open_contents(pos, b) by {
            lemma_tally_scatter(g, after, at, b);
            lemma_tally_groups_concat(
                bucket_rows(self.stash()),
                bucket_rows(self.tree.path_buckets(pos as int)),
                b,
            );
            assert(bucket_rows(self.stash_and_path@) =~= bucket_rows(self.stash()) + bucket_rows(
                self.tree.path_buckets(pos as int),
            ));
        }
        assert forall|d: int, p: int, j: int|
            #![trigger self.tree.node(d, p).0[j]]
            0 <= d < self.h && 0 <= p < self.max_n && 0 <= j < Z && !self.tree.node(
                d,
                p,
            ).0[j].vacant() implies {
            &&& self.tree.node(d, p).0[j].pos < self.max_n
            &&& meets(self.tree.node(d, p).0[j].pos as int, p, d)
        } by {
            old_self.tree.lemma_index_in_tree(d, p);
            assert(self.tree.index_of(d, p) == old_self.tree.index_of(d, p));
            if p % full_width(d, 2) == pos as int % full_width(d, 2) {
                assert(old_self.tree.index_of(d, p) == old_self.tree.index_of(d, pos as int));
                assert(self.tree.path_buckets(pos as int)[d]
                    == old_self.stash_and_path@[STASH_BUCKETS + d]);
                assert(self.tree.node(d, p) == self.tree.path_buckets(pos as int)[d]);
                assert(old_self.stash_and_path@[STASH_BUCKETS + d].0[j] == self.tree.node(
                    d,
                    p,
                ).0[j]);
            } else {
                assert(old_self.tree.node(d, p).0[j] == self.tree.node(d, p).0[j]);
            }
        }
    }

    /// An ORAM for `max_n` keys that nothing was done with.
    pub open spec fn is_new(&self, max_n: int) -> bool {
        &&& self.wf()
        &&& self@ == Map::<Key, Block>::empty()
        &&& self.max_n == ceil_pow2(max_n)
        &&& self.evict_counter == 0
        &&& self.insert_lane == 0
        &&& forall|i: int, j: int|
            0 <= i < STASH_BUCKETS + self.h && 0 <= j < Z ==> (
            #[trigger] self.stash_and_path@[i].0[j]) == Block::blank()
        &&& forall|i: int, j: int|
            0 <= i < self.tree.tree@.len() && 0 <= j < Z ==> (#[trigger] self.tree.tree@[i].0[j])
                == Block::blank()
    }

    /// Creates an empty optimized Circuit ORAM.
    pub fn new(max_n: usize) -> (r: Self)
        requires
            1 < max_n <= 0x8000_0000,
        ensures
            r.is_new(max_n as int),
    {
        let mut h: usize = 1;
        let mut rounded: usize = 1;
        proof {
            lemma_full_width(0, 2);
        }
        while rounded < max_n
            invariant
                1 < max_n <= 0x8000_0000,
                1 <= h <= 32,
                rounded == full_width(h - 1, 2),
                ceil_pow2(max_n as int) == ceil_pow2_from(max_n as int, h - 1),
                rounded <= 0x8000_0000,
            decreases 0x1_0000_0000 - rounded,
        {
            proof {
                lemma_full_width(h - 1, 2);
                vstd::arithmetic::power2::lemma2_to64();
                vstd::arithmetic::power2::lemma_pow2(31);
                if h == 32 {
                    assert(rounded == 0x8000_0000);
                } else {
                    lemma_full_width_grows(h as int, 31, 2);
                }
            }
            rounded = rounded * 2;
            h += 1;
        }
        proof {
            crate::heap_tree::lemma_binary_nodes(h as int);
            lemma_full_width(h - 1, 2);
            lemma_full_width_grows(h as int, 32, 2);
            vstd::arithmetic::power2::lemma2_to64();
            vstd::arithmetic::power2::lemma_pow2(32);
        }
        let blank: Bucket = Bucket::default();
        let r = Self {
            max_n: rounded,
            h,
            stash_and_path: filled(blank, STASH_BUCKETS + h),
            tree: HeapTree::new_with(h, blank),
            evict_counter: 0,
            insert_lane: 0,
        };
        proof {
            assert forall|b: Block| #[trigger] r.contents(b) == 0 by {
                r.lemma_blank_is_empty(b);
            }
            assert forall|b: Block| #[trigger] r.count()(b) == 0 by {
                assert(r.contents(b) == 0);
            }
            assert forall|d: int, p: int, j: int|
                #![trigger r.tree.node(d, p).0[j]]
                0 <= d < r.h && 0 <= p < r.max_n && 0 <= j < Z implies r.tree.node(
                d,
                p,
            ).0[j].vacant() by {
                r.tree.lemma_index_in_tree(d, p);
            }
            assert(r@ =~= Map::<Key, Block>::empty());
        }
        r
    }

    proof fn lemma_blank_is_empty(&self, b: Block)
        requires
            self.shape(),
            forall|i: int, j: int|
                #![trigger self.stash_and_path@[i].0[j]]
                0 <= i < self.stash_and_path.len() && 0 <= j < Z
                    ==> self.stash_and_path@[i].0[j].vacant(),
            forall|i: int, j: int|
                #![trigger self.tree.tree@[i].0[j]]
                0 <= i < self.tree.tree.len() && 0 <= j < Z ==> self.tree.tree@[i].0[j].vacant(),
        ensures
            self.contents(b) == 0,
    {
        let s = bucket_rows(self.stash());
        let t = bucket_rows(self.tree.tree@);
        lemma_tally_groups_positive(s, b);
        lemma_tally_groups_positive(t, b);
        if tally_groups(s, b) > 0 {
            let i = choose|i: int| 0 <= i < s.len() && !b.vacant() && (#[trigger] s[i]).contains(b);
            let j = choose|j: int| 0 <= j < s[i].len() && s[i][j] == b;
            assert(self.stash_and_path@[i].0[j] == b);
        }
        if tally_groups(t, b) > 0 {
            let i = choose|i: int| 0 <= i < t.len() && !b.vacant() && (#[trigger] t[i]).contains(b);
            let j = choose|j: int| 0 <= j < t[i].len() && t[i][j] == b;
            assert(self.tree.tree@[i].0[j] == b);
        }
    }

    /// Copies the path to `pos` into the working array.
    fn read_path(&mut self, pos: PositionType)
        requires
            old(self).wf(),
            pos < old(self).max_n,
        ensures
            final(self).stash_and_path@ == old(self).opened(pos as int),
            final(self).tree == old(self).tree,
            final(self).same_frame(old(self)),
            final(self).open_at(pos),
            forall|b: Block|
                #[trigger] final(self).open_contents(pos, b) == old(self).contents(b),
            forall|b: Block|
                #[trigger] tally_groups(bucket_rows(final(self).stash_and_path@), b) <= old(self).contents(b),
    {
        self.tree.read_optimized_path(pos, &mut self.stash_and_path, STASH_BUCKETS);
        proof {
            self.lemma_open(old(self), pos);
        }
    }

    /// Writes the path in the working array back to the tree.
    fn write_path(&mut self, pos: PositionType)
        requires
            old(self).open_at(pos),
        ensures
            final(self).shape(),
            final(self).tree_legal(),
            final(self).stash_legal(),
            final(self).same_frame(old(self)),
            final(self).stash_and_path == old(self).stash_and_path,
            final(self).tree.path_buckets(pos as int) == old(self).stash_and_path@.skip(
                STASH_BUCKETS as int,
            ),
            forall|k: int|
                0 <= k < old(self).tree.tree.len() && !old(self).tree.path_indices(
                    pos as int,
                ).contains(k) ==> #[trigger] final(self).tree.tree@[k] == old(self).tree.tree@[k],
            forall|b: Block|
                #[trigger] final(self).contents(b) == old(self).open_contents(pos, b),
    {
        self.tree.write_optimized_path(pos, &self.stash_and_path, STASH_BUCKETS);
        proof {
            self.lemma_close(old(self), pos);
        }
    }

    /// Puts a block into the stash lane whose turn it is.
    fn insert_into_stash(&mut self, block: &Block) -> (inserted: bool)
        requires
            old(self).stash_and_path.len() >= STASH_BUCKETS,
            old(self).insert_lane < Z,
        ensures
            inserted == lane_has_room(
                old(self).stash_and_path@,
                STASH_BUCKETS as int,
                old(self).insert_lane as int,
            ),
            !inserted ==> final(self).stash_and_path@ == old(self).stash_and_path@,
            inserted ==> exists|i: int|
                #![trigger old(self).stash_and_path@[i]]
                0 <= i < STASH_BUCKETS
                    && old(self).stash_and_path@[i].0[old(self).insert_lane as int].vacant() && (
                forall|k: int|
                    0 <= k < i ==> !(#[trigger] old(self).stash_and_path@[k]).0[old(self).insert_lane as int].vacant()) && final(self).stash_and_path@ == old(self).stash_and_path@.update(
                    i,
                    final(self).stash_and_path@[i],
                ) && final(self).stash_and_path@[i].0@ == old(self).stash_and_path@[i].0@.update(
                    old(self).insert_lane as int,
                    *block,
                ),
            final(self).insert_lane == 1 - old(self).insert_lane,
            final(self).tree == old(self).tree,
            final(self).max_n == old(self).max_n,
            final(self).h == old(self).h,
            final(self).evict_counter == old(self).evict_counter,
    {
        let inserted: bool = insert_first_empty(
            &mut self.stash_and_path,
            STASH_BUCKETS,
            self.insert_lane,
            block,
        );
        self.insert_lane = 1 - self.insert_lane;
        inserted
    }

    /// Runs one pass over one lane of the working array.
    fn evict_lane_once(&mut self, pos: PositionType, lane: usize)
        requires
            2 <= old(self).h <= 32,
            old(self).stash_and_path.len() == STASH_BUCKETS + old(self).h,
            lane < Z,
        ensures
            final(self).stash_and_path.len() == old(self).stash_and_path.len(),
            column_settled(
                lane_column(old(self).stash_and_path@, lane as int),
                depth_column(old(self).stash_and_path@, lane as int, pos),
                lane_column(final(self).stash_and_path@, lane as int),
                STASH_BUCKETS + 1,
                1,
                old(self).h as int,
            ),
            lane_column(final(self).stash_and_path@, 1 - lane) == lane_column(
                old(self).stash_and_path@,
                1 - lane,
            ),
            depth_column(final(self).stash_and_path@, 1 - lane, pos) == depth_column(
                old(self).stash_and_path@,
                1 - lane,
                pos,
            ),
            forall|b: Block|
                #[trigger] tally(lane_column(final(self).stash_and_path@, lane as int), b)
                    == tally(lane_column(old(self).stash_and_path@, lane as int), b),
            final(self).tree == old(self).tree,
            final(self).same_frame(old(self)),
    {
        let ghost s0 = self.stash_and_path@;
        let ghost col0 = lane_column(s0, lane as int);
        let ghost d0 = depth_column(s0, lane as int, pos);
        let n: usize = self.stash_and_path.len();
        let mut col: Vec<Block> = Vec::new();
        let mut depths: Vec<i64> = Vec::new();
        let mut i: usize = 0;
        while i < n
            invariant
                i <= n == s0.len(),
                lane < Z,
                s0 == self.stash_and_path@,
                col0 == lane_column(s0, lane as int),
                d0 == depth_column(s0, lane as int, pos),
                col@ == col0.take(i as int),
                depths@ == d0.take(i as int),
            decreases n - i,
        {
            let block: Block = self.stash_and_path[i].0[lane];
            let shared: i64 = common_suffix_length(block.pos, pos) as i64;
            let mut depth: i64 = -1;
            crate::oblivious::cmov_i64(&mut depth, shared, !block.is_empty());
            col.push(block);
            depths.push(depth);
            proof {
                assert(col0.take(i + 1) =~= col0.take(i as int).push(block));
                assert(d0.take(i + 1) =~= d0.take(i as int).push(depth));
            }
            i += 1;
        }
        proof {
            assert(col0.take(n as int) =~= col0);
            assert(d0.take(n as int) =~= d0);
            lemma_depths_fit(s0, lane as int, pos);
        }
        evict_column(
            &mut col,
            &depths,
            STASH_BUCKETS + 1,
            1,
            self.h,
            Ghost(|c: Block| true),
        );
        let ghost after = col@;
        i = 0;
        while i < n
            invariant
                i <= n == self.stash_and_path.len() == s0.len() == col.len(),
                after == col@,
                lane < Z,
                self.tree == old(self).tree,
                self.same_frame(old(self)),
                forall|k: int|
                    0 <= k < i ==> (#[trigger] self.stash_and_path@[k]).0[lane as int] == after[k],
                forall|k: int|
                    i <= k < n ==> (#[trigger] self.stash_and_path@[k]) == s0[k],
                forall|k: int|
                    0 <= k < n ==> (#[trigger] self.stash_and_path@[k]).0[1 - lane] == s0[k].0[1
                        - lane],
            decreases n - i,
        {
            let mut bucket: Bucket = self.stash_and_path[i];
            bucket.0[lane] = col[i];
            self.stash_and_path.set(i, bucket);
            i += 1;
        }
        proof {
            let s = self.stash_and_path@;
            assert(lane_column(s, lane as int) =~= after);
            assert(lane_column(s, 1 - lane) =~= lane_column(s0, 1 - lane));
            assert(depth_column(s, 1 - lane, pos) =~= depth_column(s0, 1 - lane, pos));
        }
    }

    /// Algorithms 2--4 (`EvictOnceFast`) from the Circuit ORAM paper, for both lanes of
    /// the working array: blocks move down the path to `pos` as
    /// [`crate::circuit::column_settled`] says.
    pub fn evict_once_fast(&mut self, pos: PositionType)
        requires
            2 <= old(self).h <= 32,
            old(self).stash_and_path.len() == STASH_BUCKETS + old(self).h,
        ensures
            final(self).stash_and_path.len() == old(self).stash_and_path.len(),
            forall|lane: int|
                0 <= lane < Z ==> column_settled(
                    #[trigger] lane_column(old(self).stash_and_path@, lane),
                    depth_column(old(self).stash_and_path@, lane, pos),
                    lane_column(final(self).stash_and_path@, lane),
                    STASH_BUCKETS + 1,
                    1,
                    old(self).h as int,
                ),
            forall|b: Block|
                #[trigger] tally_groups(bucket_rows(final(self).stash_and_path@), b)
                    == tally_groups(bucket_rows(old(self).stash_and_path@), b),
            final(self).tree == old(self).tree,
            final(self).same_frame(old(self)),
    {
        self.evict_lane_once(pos, 0);
        self.evict_lane_once(pos, 1);
        proof {
            assert forall|b: Block| #[trigger]
                tally_groups(bucket_rows(self.stash_and_path@), b) == tally_groups(
                    bucket_rows(old(self).stash_and_path@),
                    b,
                ) by {
                lemma_lanes(self.stash_and_path@, b);
                lemma_lanes(old(self).stash_and_path@, b);
            }
            assert forall|lane: int| 0 <= lane < Z implies column_settled(
                #[trigger] lane_column(old(self).stash_and_path@, lane),
                depth_column(old(self).stash_and_path@, lane, pos),
                lane_column(self.stash_and_path@, lane),
                STASH_BUCKETS + 1,
                1,
                old(self).h as int,
            ) by {
                assert(lane == 0 || lane == 1);
            }
        }
    }

    /// A pass leaves blocks where they may be.
    proof fn lemma_evict_keeps_open(&self, old_self: &Self, pos: PositionType)
        requires
            old_self.open_at(pos),
            self.tree == old_self.tree,
            self.same_frame(old_self),
            self.stash_and_path.len() == old_self.stash_and_path.len(),
            forall|lane: int|
                0 <= lane < Z ==> column_settled(
                    #[trigger] lane_column(old_self.stash_and_path@, lane),
                    depth_column(old_self.stash_and_path@, lane, pos),
                    lane_column(self.stash_and_path@, lane),
                    STASH_BUCKETS + 1,
                    1,
                    old_self.h as int,
                ),
        ensures
            self.open_at(pos),
            self.stash_not_filled(old_self),
    {
        let s0 = old_self.stash_and_path@;
        let s1 = self.stash_and_path@;
        let n0 = STASH_BUCKETS + 1;
        let h = self.h as int;
        assert forall|i: int, j: int|
            0 <= i < s1.len() && 0 <= j < Z && !(#[trigger] s1[i].0[j]).vacant() implies {
            &&& s1[i].0[j].pos < self.max_n
            &&& i >= STASH_BUCKETS ==> meets(s1[i].0[j].pos as int, pos as int, i - STASH_BUCKETS)
            &&& i < STASH_BUCKETS ==> s1[i].0[j] == s0[i].0[j]
        } by {
            let col = lane_column(s0, j);
            let d = depth_column(s0, j, pos);
            let after = lane_column(s1, j);
            lemma_depths_fit(s0, j, pos);
            assert(column_settled(lane_column(s0, j), d, after, n0, 1, h));
            let l = if i < n0 {
                0
            } else {
                i - STASH_BUCKETS
            };
            lemma_column_origin(col, d, after, n0, 1, h, l, i);
            if after[i] == col[i] {
                assert(s0[i].0[j] == s1[i].0[j]);
                if i >= STASH_BUCKETS {
                    assert(s0[STASH_BUCKETS + (i - STASH_BUCKETS)].0[j] == s1[i].0[j]);
                }
            } else {
                let k = choose|k: int|
                    0 <= k < col.len() && after[i] == #[trigger] col[k] && d[k] >= l;
                let b = s0[k].0[j];
                assert(b == s1[i].0[j]);
                if k >= STASH_BUCKETS {
                    assert(s0[STASH_BUCKETS + (k - STASH_BUCKETS)].0[j] == b);
                }
                lemma_shared_bits(b.pos as int, pos as int, 32);
                assert(meets(b.pos as int, pos as int, l));
            }
        }
        assert forall|i: int, j: int|
            #![trigger self.stash_and_path@[i].0[j]]
            0 <= i < STASH_BUCKETS && 0 <= j < Z
                && !self.stash_and_path@[i].0[j].vacant() implies self.stash_and_path@[i].0[j].pos
            < self.max_n by {
            assert(!s1[i].0[j].vacant());
        }
        assert forall|d: int, j: int|
            #![trigger self.stash_and_path@[STASH_BUCKETS + d].0[j]]
            0 <= d < self.h && 0 <= j < Z
                && !self.stash_and_path@[STASH_BUCKETS + d].0[j].vacant() implies {
            &&& self.stash_and_path@[STASH_BUCKETS + d].0[j].pos < self.max_n
            &&& meets(self.stash_and_path@[STASH_BUCKETS + d].0[j].pos as int, pos as int, d)
        } by {
            assert(!s1[STASH_BUCKETS + d].0[j].vacant());
        }
        assert forall|d: int, p: int, j: int|
            #![trigger self.tree.node(d, p).0[j]]
            0 <= d < self.h && 0 <= p < self.max_n && 0 <= j < Z && !self.tree.node(
                d,
                p,
            ).0[j].vacant() implies {
            &&& self.tree.node(d, p).0[j].pos < self.max_n
            &&& meets(self.tree.node(d, p).0[j].pos as int, p, d)
        } by {
            assert(old_self.tree.node(d, p).0[j] == self.tree.node(d, p).0[j]);
        }
    }

    /// One pass over the lanes `cols` of the path to `pos`, which is then put back, turns
    /// the ORAM into `after`.
    pub open spec fn passed(&self, cols: Seq<Seq<Block>>, after: &Self, pos: PositionType) -> bool {
        &&& after.h == self.h
        &&& after.max_n == self.max_n
        &&& after.tree.tree.len() == self.tree.tree.len()
        &&& forall|lane: int|
            0 <= lane < Z ==> column_settled(
                #[trigger] cols[lane],
                column_depths(cols[lane], pos),
                lane_column(after.opened(pos as int), lane),
                STASH_BUCKETS + 1,
                1,
                self.h as int,
            )
        &&& forall|k: int|
            0 <= k < self.tree.tree.len() && !self.tree.path_indices(pos as int).contains(k)
                ==> #[trigger] after.tree.tree@[k] == self.tree.tree@[k]
    }

    /// State `i` of `states` comes from the one before it by a pass over the path to `pos`.
    pub open spec fn eviction(states: Seq<Self>, i: int, pos: PositionType) -> bool {
        states[i - 1].passed(columns(states[i - 1].opened(pos as int)), &states[i], pos)
    }

    /// `n` evictions turn the ORAM into `after`, along the paths to the leaves from
    /// `evict_counter` on, with the first leaf behind the last.
    pub open spec fn evictions(&self, after: &Self, n: int) -> bool {
        exists|states: Seq<Self>|
            #![trigger states.first()]
            {
                &&& states.len() == n + 1
                &&& states.first() == *self
                &&& states.last() == *after
                &&& forall|i: int|
                    1 <= i <= n ==> #[trigger] Self::eviction(
                        states,
                        i,
                        ((self.evict_counter + (i - 1)) % self.max_n as int) as PositionType,
                    )
            }
    }

    /// A pass over the lanes `cols` of the path to `pos`, and the evictions that every
    /// access makes, turn the ORAM into `after`.
    pub open spec fn finishes(&self, cols: Seq<Seq<Block>>, after: &Self, pos: PositionType) -> bool {
        exists|mid: Self| #[trigger]
            self.passed(cols, &mid, pos) && mid.evict_counter == self.evict_counter
                && mid.evictions(after, EVICTIONS_PER_OP as int)
    }

    /// Which slots the blocks are in after an access to `key` along the path to `pos` that
    /// leaves `block` behind.
    pub open spec fn moved(&self, before: &Self, pos: PositionType, key: Key, block: Block) -> bool {
        before.finishes(
            replaced(columns(before.opened(pos as int)), key, before.insert_lane as int, block),
            self,
            pos,
        )
    }

    /// One more eviction, along the path whose turn it is.
    proof fn lemma_one_more_eviction(&self, mid: &Self, after: &Self, n: int)
        requires
            0 <= n,
            self.evictions(mid, n),
            ({
                let pos = ((self.evict_counter + n) % self.max_n as int) as PositionType;
                mid.passed(columns(mid.opened(pos as int)), after, pos)
            }),
        ensures
            self.evictions(after, n + 1),
    {
        let states = choose|states: Seq<Self>|
            #![trigger states.first()]
            {
                &&& states.len() == n + 1
                &&& states.first() == *self
                &&& states.last() == *mid
                &&& forall|i: int|
                    1 <= i <= n ==> #[trigger] Self::eviction(
                        states,
                        i,
                        ((self.evict_counter + (i - 1)) % self.max_n as int) as PositionType,
                    )
            };
        let more = states.push(*after);
        assert(more.first() == *self);
        assert forall|i: int| 1 <= i <= n + 1 implies #[trigger] Self::eviction(
            more,
            i,
            ((self.evict_counter + (i - 1)) % self.max_n as int) as PositionType,
        ) by {
            if i <= n {
                assert(Self::eviction(
                    states,
                    i,
                    ((self.evict_counter + (i - 1)) % self.max_n as int) as PositionType,
                ));
            }
        }
    }

    /// Evicts along the path to `pos`.
    fn perform_eviction(&mut self, pos: PositionType)
        requires
            old(self).wf(),
            pos < old(self).max_n,
        ensures
            final(self).wf(),
            final(self)@ == old(self)@,
            final(self).same_frame(old(self)),
            final(self).stash_not_filled(old(self)),
            old(self).passed(columns(old(self).opened(pos as int)), final(self), pos),
    {
        self.read_path(pos);
        let ghost opened = *self;
        self.evict_once_fast(pos);
        proof {
            self.lemma_evict_keeps_open(&opened, pos);
        }
        let ghost evicted = *self;
        self.write_path(pos);
        proof {
            assert forall|b: Block| #[trigger] self.count()(b) == old(self).count()(b) by {
                assert(self.contents(b) == evicted.open_contents(pos, b));
                assert(evicted.open_contents(pos, b) == opened.open_contents(pos, b));
                assert(opened.open_contents(pos, b) == old(self).contents(b));
            }
            lemma_by_key_same(old(self).count(), self.count(), key_of());
            assert(self.opened(pos as int) =~= evicted.stash_and_path@);
            lemma_columns(opened.stash_and_path@, pos);
        }
    }

    /// Evicts along the next public paths.
    fn perform_deterministic_evictions(&mut self)
        requires
            old(self).wf(),
        ensures
            final(self).wf(),
            final(self)@ == old(self)@,
            final(self).stash_not_filled(old(self)),
            final(self).max_n == old(self).max_n,
            final(self).h == old(self).h,
            final(self).insert_lane == old(self).insert_lane,
            final(self).evict_counter == (old(self).evict_counter + EVICTIONS_PER_OP)
                % old(self).max_n as int,
            old(self).evictions(final(self), EVICTIONS_PER_OP as int),
    {
        let mut i: usize = 0;
        proof {
            let states = seq![*self];
            assert(states.first() == *self);
            lemma_full_width_grows(1, self.h - 1, 2);
            lemma_full_width(0, 2);
            vstd::arithmetic::div_mod::lemma_small_mod(
                self.evict_counter as nat,
                self.max_n as nat,
            );
        }
        while i < EVICTIONS_PER_OP
            invariant
                i <= EVICTIONS_PER_OP,
                self.wf(),
                self@ == old(self)@,
                self.stash_not_filled(old(self)),
                self.max_n == old(self).max_n,
                self.h == old(self).h,
                self.insert_lane == old(self).insert_lane,
                self.max_n >= 2,
                self.evict_counter == (old(self).evict_counter + i) % old(self).max_n as int,
                old(self).evictions(self, i as int),
            decreases EVICTIONS_PER_OP - i,
        {
            let pos: PositionType = self.evict_counter;
            let ghost mid = *self;
            self.perform_eviction(pos);
            let ghost before = *self;
            self.evict_counter = (self.evict_counter + 1) % self.max_n as PositionType;
            proof {
                assert(self.opened(pos as int) == before.opened(pos as int));
                old(self).lemma_one_more_eviction(&mid, self, i as int);
                assert(self.count() =~= before.count());
                assert(self.tree == before.tree);
                assert forall|d: int, p: int, j: int|
                    #![trigger self.tree.node(d, p).0[j]]
                    0 <= d < self.h && 0 <= p < self.max_n && 0 <= j < Z && !self.tree.node(
                        d,
                        p,
                    ).0[j].vacant() implies {
                    &&& self.tree.node(d, p).0[j].pos < self.max_n
                    &&& meets(self.tree.node(d, p).0[j].pos as int, p, d)
                } by {
                    assert(before.tree.node(d, p).0[j] == self.tree.node(d, p).0[j]);
                }
                vstd::arithmetic::div_mod::lemma_add_mod_noop(
                    old(self).evict_counter + i,
                    1,
                    self.max_n as int,
                );
                vstd::arithmetic::div_mod::lemma_small_mod(1, self.max_n as nat);
                vstd::arithmetic::div_mod::lemma_mod_bound(
                    before.evict_counter + 1,
                    self.max_n as int,
                );
            }
            i += 1;
        }
    }

    /// Evicts along the accessed path, writes it back and evicts along the next public
    /// paths.
    fn finish_access(&mut self, pos: PositionType)
        requires
            old(self).open_at(pos),
            one_per_key(|b: Block| old(self).open_contents(pos, b), key_of()),
        ensures
            final(self).wf(),
            final(self)@ == by_key(|b: Block| old(self).open_contents(pos, b), key_of()),
            final(self).stash_not_filled(old(self)),
            final(self).max_n == old(self).max_n,
            final(self).h == old(self).h,
            final(self).insert_lane == old(self).insert_lane,
            final(self).evict_counter == (old(self).evict_counter + EVICTIONS_PER_OP)
                % old(self).max_n as int,
            old(self).finishes(columns(old(self).stash_and_path@), final(self), pos),
    {
        let ghost open_count = |b: Block| old(self).open_contents(pos, b);
        self.evict_once_fast(pos);
        proof {
            self.lemma_evict_keeps_open(old(self), pos);
        }
        let ghost evicted = *self;
        self.write_path(pos);
        proof {
            assert forall|b: Block| #[trigger] self.count()(b) == open_count(b) by {
                assert(self.contents(b) == evicted.open_contents(pos, b));
            }
            lemma_by_key_same(open_count, self.count(), key_of());
            assert(self.opened(pos as int) =~= evicted.stash_and_path@);
            lemma_columns(old(self).stash_and_path@, pos);
            assert(old(self).passed(columns(old(self).stash_and_path@), self, pos));
        }
        self.perform_deterministic_evictions();
    }

    /// Loads the path to `pos` and takes the block of `key` out of the working array.
    fn open_and_remove(&mut self, pos: PositionType, key: Key, result: &mut Block) -> (found: bool)
        requires
            old(self).wf(),
            pos < old(self).max_n,
        ensures
            final(self).open_at(pos),
            final(self).same_frame(old(self)),
            found == old(self).visible(pos, key),
            !found ==> *final(result) == *old(result),
            found ==> holds_key(*final(result), key) && old(self)@.contains_key(key) && old(self)@[key] == *final(result),
            one_per_key(|b: Block| final(self).open_contents(pos, b), key_of()),
            by_key(|b: Block| final(self).open_contents(pos, b), key_of()) == (if found {
                old(self)@.remove(key)
            } else {
                old(self)@
            }),
            final(self).stash_not_filled(old(self)),
            lane_has_room(
                final(self).stash_and_path@,
                STASH_BUCKETS as int,
                old(self).insert_lane as int,
            ) == old(self).has_room(key),
            final(self).tree == old(self).tree,
            columns(final(self).stash_and_path@) == columns(
                old(self).opened(pos as int),
            ).map_values(|c: Seq<Block>| without_key(c, key)),
    {
        self.read_path(pos);
        let ghost loaded = *self;
        let ghost s0 = self.stash_and_path@;
        let ghost r0 = *result;
        proof {
            let rows = bucket_rows(s0);
            assert forall|b: Block| #[trigger] tally_groups(rows, b) <= old(self).count()(b) by {
                assert(tally_groups(bucket_rows(self.stash_and_path@), b) <= old(self).contents(b));
            }
            lemma_one_place_per_key(rows, old(self).count(), key_of());
            assert forall|i: int, j: int, i2: int, j2: int|
                #![trigger s0[i].0[j], s0[i2].0[j2]]
                0 <= i < s0.len() && 0 <= j < Z && 0 <= i2 < s0.len() && 0 <= j2 < Z && holds_key(
                    s0[i].0[j],
                    key,
                ) && holds_key(s0[i2].0[j2], key) implies i == i2 && j == j2 by {
                assert(rows[i][j] == s0[i].0[j]);
                assert(rows[i2][j2] == s0[i2].0[j2]);
                assert(key_of()(rows[i][j]) == key_of()(rows[i2][j2]));
            }
        }
        let found: bool = read_and_remove(&mut self.stash_and_path, key, result);
        proof {
            let ghost open_count = |b: Block| self.open_contents(pos, b);
            let s1 = self.stash_and_path@;
            let goal = columns(s0).map_values(|c: Seq<Block>| without_key(c, key));
            assert forall|l: int| 0 <= l < Z implies #[trigger] columns(s1)[l] == goal[l] by {
                assert forall|k: int| 0 <= k < s1.len() implies (#[trigger] s1[k]).0[l] == (
                if holds_key(s0[k].0[l], key) {
                    s0[k].0[l].vacated()
                } else {
                    s0[k].0[l]
                }) by {}
                assert(columns(s1)[l] =~= goal[l]);
            }
            assert(columns(s1) =~= goal);
            if found {
                let (i, j) = choose|i: int, j: int|
                    #![trigger s0[i].0[j]]
                    0 <= i < s0.len() && 0 <= j < Z && holds_key(s0[i].0[j], key) && *result
                        == s0[i].0[j] && taken_out(s0, s1, i, j);
                self.lemma_taken(&loaded, pos, i, j);
                assert(old(self).opened(pos as int)[i].0[j] == *result);
                lemma_tally_groups_positive(bucket_rows(s0), *result);
                assert(bucket_rows(s0)[i].contains(*result)) by {
                    assert(bucket_rows(s0)[i][j] == *result);
                }
                assert(old(self).count()(*result) > 0) by {
                    assert(tally_groups(bucket_rows(s0), *result) <= old(self).contents(*result));
                }
                lemma_by_key(old(self).count(), key_of(), *result);
                assert forall|b: Block| #[trigger]
                    open_count(b) == old(self).count()(b) - hit(*result, b) by {
                    assert(loaded.open_contents(pos, b) == old(self).contents(b));
                    assert(self.open_contents(pos, b) == loaded.open_contents(pos, b) - hit(
                        *result,
                        b,
                    ));
                }
                lemma_by_key_remove(old(self).count(), open_count, key_of(), *result);
            } else {
                assert forall|b: Block| #[trigger] open_count(b) == old(self).count()(b) by {
                    assert(loaded.open_contents(pos, b) == old(self).contents(b));
                }
                lemma_by_key_same(old(self).count(), open_count, key_of());
                assert forall|i: int, j: int|
                    #![trigger old(self).opened(pos as int)[i].0[j]]
                    0 <= i < STASH_BUCKETS + self.h && 0 <= j < Z implies !holds_key(
                    old(self).opened(pos as int)[i].0[j],
                    key,
                ) by {
                    assert(s0[i].0[j] == old(self).opened(pos as int)[i].0[j]);
                }
            }
            let lane = old(self).insert_lane as int;
            assert forall|i: int| 0 <= i < STASH_BUCKETS implies (#[trigger] s1[i]).0[lane].vacant()
                == (old(self).stash_and_path@[i].0[lane].vacant() || old(self).stash_and_path@[i].0[lane].key == key) by {
                assert(s0[i] == old(self).stash_and_path@[i]);
                assert(s0[i].0[lane] == old(self).stash_and_path@[i].0[lane]);
            }
            if old(self).has_room(key) {
                let i = choose|i: int|
                    0 <= i < STASH_BUCKETS && ((#[trigger] old(self).stash_and_path@[i]).0[lane].vacant()
                        || old(self).stash_and_path@[i].0[lane].key == key);
                assert(s1[i].0[lane].vacant());
            }
            if lane_has_room(s1, STASH_BUCKETS as int, lane) {
                let i = choose|i: int| 0 <= i < STASH_BUCKETS && (#[trigger] s1[i]).0[lane].vacant();
                assert(old(self).stash_and_path@[i].0[lane].vacant() || old(self).stash_and_path@[i].0[lane].key == key);
            }
            assert forall|i: int, j: int|
                #![trigger self.stash_and_path@[i].0[j]]
                0 <= i < STASH_BUCKETS && 0 <= j < Z && old(self).stash_and_path@[i].0[j].vacant() implies self.stash_and_path@[i].0[j].vacant() by {
                assert(s0[i] == old(self).stash_and_path@[i]);
            }
        }
        found
    }

    /// Taking a block out of the working array keeps the rest as it may be.
    proof fn lemma_taken(&self, before: &Self, pos: PositionType, i: int, j: int)
        requires
            before.open_at(pos),
            self.tree == before.tree,
            self.same_frame(before),
            0 <= i < before.stash_and_path.len(),
            0 <= j < Z,
            taken_out(before.stash_and_path@, self.stash_and_path@, i, j),
        ensures
            self.open_at(pos),
            forall|b: Block| #[trigger]
                self.open_contents(pos, b) == before.open_contents(pos, b) - hit(
                    before.stash_and_path@[i].0[j],
                    b,
                ),
    {
        let s0 = before.stash_and_path@;
        let s1 = self.stash_and_path@;
        assert forall|i2: int, j2: int|
            0 <= i2 < s1.len() && 0 <= j2 < Z && !(#[trigger] s1[i2].0[j2]).vacant() implies s1[i2].0[j2]
            == s0[i2].0[j2] by {}
        self.lemma_same_tree_legal(before);
        assert forall|i2: int, j2: int|
            #![trigger self.stash_and_path@[i2].0[j2]]
            0 <= i2 < STASH_BUCKETS && 0 <= j2 < Z
                && !self.stash_and_path@[i2].0[j2].vacant() implies self.stash_and_path@[i2].0[j2].pos
            < self.max_n by {
            assert(before.stash_and_path@[i2].0[j2] == self.stash_and_path@[i2].0[j2]);
        }
        assert forall|d: int, j2: int|
            #![trigger self.stash_and_path@[STASH_BUCKETS + d].0[j2]]
            0 <= d < self.h && 0 <= j2 < Z
                && !self.stash_and_path@[STASH_BUCKETS + d].0[j2].vacant() implies {
            &&& self.stash_and_path@[STASH_BUCKETS + d].0[j2].pos < self.max_n
            &&& meets(self.stash_and_path@[STASH_BUCKETS + d].0[j2].pos as int, pos as int, d)
        } by {
            assert(before.stash_and_path@[STASH_BUCKETS + d].0[j2]
                == self.stash_and_path@[STASH_BUCKETS + d].0[j2]);
        }
        assert forall|b: Block| #[trigger]
            self.open_contents(pos, b) == before.open_contents(pos, b) - hit(s0[i].0[j], b) by {
            lemma_slot_changed(s0, s1, i, j, s0[i].0[j].vacated(), b);
        }
    }

    /// With the same tree, blocks of the tree stay where they may be.
    proof fn lemma_same_tree_legal(&self, before: &Self)
        requires
            before.tree_legal(),
            self.tree == before.tree,
            self.max_n == before.max_n,
            self.h == before.h,
        ensures
            self.tree_legal(),
    {
        assert forall|d: int, p: int, j: int|
            #![trigger self.tree.node(d, p).0[j]]
            0 <= d < self.h && 0 <= p < self.max_n && 0 <= j < Z && !self.tree.node(
                d,
                p,
            ).0[j].vacant() implies {
            &&& self.tree.node(d, p).0[j].pos < self.max_n
            &&& meets(self.tree.node(d, p).0[j].pos as int, p, d)
        } by {
            assert(before.tree.node(d, p).0[j] == self.tree.node(d, p).0[j]);
        }
    }

    /// Puts a block into the stash and finishes the access.
    fn place_and_finish(&mut self, pos: PositionType, block: &Block)
        requires
            old(self).open_at(pos),
            block.vacant() || block.pos < old(self).max_n,
            one_per_key(|b: Block| old(self).open_contents(pos, b), key_of()),
            !block.vacant() ==> !by_key(
                |b: Block| old(self).open_contents(pos, b),
                key_of(),
            ).contains_key(block.key),
        ensures
            final(self).wf(),
            final(self)@ == (if !block.vacant() && lane_has_room(
                old(self).stash_and_path@,
                STASH_BUCKETS as int,
                old(self).insert_lane as int,
            ) {
                by_key(|b: Block| old(self).open_contents(pos, b), key_of()).insert(
                    block.key,
                    *block,
                )
            } else {
                by_key(|b: Block| old(self).open_contents(pos, b), key_of())
            }),
            final(self).max_n == old(self).max_n,
            final(self).h == old(self).h,
            final(self).insert_lane == 1 - old(self).insert_lane,
            final(self).evict_counter == (old(self).evict_counter + EVICTIONS_PER_OP)
                % old(self).max_n as int,
            forall|lane: int, m: int| #[trigger]
                old(self).filled_below(lane, m) && 0 <= lane < Z && 0 <= m ==> final(self).filled_below(
                    lane,
                    if lane == old(self).insert_lane {
                        m + 1
                    } else {
                        m
                    },
                ),
            ({
                let cols = columns(old(self).stash_and_path@);
                let lane = old(self).insert_lane as int;
                old(self).finishes(
                    cols.update(lane, with_block(cols[lane], STASH_BUCKETS as int, *block)),
                    final(self),
                    pos,
                )
            }),
    {
        let ghost count0 = |b: Block| old(self).open_contents(pos, b);
        let ghost lane = self.insert_lane as int;
        let ghost s0 = self.stash_and_path@;
        let inserted: bool = self.insert_into_stash(block);
        let ghost s1 = self.stash_and_path@;
        let ghost count1 = |b: Block| self.open_contents(pos, b);
        let ghost placed = *self;
        let ghost cols = columns(s0);
        let ghost put = cols.update(lane, with_block(cols[lane], STASH_BUCKETS as int, *block));
        proof {
            self.lemma_same_tree_legal(old(self));
            lemma_columns_put(s0, s1, lane, *block, inserted);
            if inserted {
                let i = choose|i: int|
                    #![trigger s0[i]]
                    0 <= i < STASH_BUCKETS && s0[i].0[lane].vacant() && (forall|k: int|
                        0 <= k < i ==> !(#[trigger] s0[k]).0[lane].vacant()) && s1 == s0.update(
                        i,
                        s1[i],
                    ) && s1[i].0@ == s0[i].0@.update(lane, *block);
                assert forall|b: Block| #[trigger] count1(b) == count0(b) + hit(*block, b) by {
                    lemma_slot_changed(s0, s1, i, lane, *block, b);
                }
                if block.vacant() {
                    assert forall|b: Block| #[trigger] count1(b) == count0(b) by {}
                    lemma_by_key_same(count0, count1, key_of());
                } else {
                    lemma_by_key_insert(count0, count1, key_of(), *block);
                }
                assert forall|i2: int, j2: int|
                    0 <= i2 < s1.len() && 0 <= j2 < Z && !(i2 == i && j2 == lane) implies (
                #[trigger] s1[i2].0[j2]) == s0[i2].0[j2] by {}
                assert(s1[i].0[lane] == *block);
            } else {
                assert forall|b: Block| #[trigger] count1(b) == count0(b) by {}
                lemma_by_key_same(count0, count1, key_of());
            }
            assert forall|i2: int, j2: int|
                #![trigger self.stash_and_path@[i2].0[j2]]
                0 <= i2 < STASH_BUCKETS && 0 <= j2 < Z
                    && !self.stash_and_path@[i2].0[j2].vacant() implies self.stash_and_path@[i2].0[j2].pos
                < self.max_n by {
                assert(s1[i2].0[j2] == s0[i2].0[j2] || s1[i2].0[j2] == *block);
                assert(old(self).stash_and_path@[i2].0[j2] == s0[i2].0[j2]);
            }
            assert forall|d: int, j2: int|
                #![trigger self.stash_and_path@[STASH_BUCKETS + d].0[j2]]
                0 <= d < self.h && 0 <= j2 < Z
                    && !self.stash_and_path@[STASH_BUCKETS + d].0[j2].vacant() implies {
                &&& self.stash_and_path@[STASH_BUCKETS + d].0[j2].pos < self.max_n
                &&& meets(self.stash_and_path@[STASH_BUCKETS + d].0[j2].pos as int, pos as int, d)
            } by {
                assert(s1[STASH_BUCKETS + d] == s0[STASH_BUCKETS + d]);
                assert(old(self).stash_and_path@[STASH_BUCKETS + d].0[j2]
                    == self.stash_and_path@[STASH_BUCKETS + d].0[j2]);
            }
        }
        self.finish_access(pos);
        proof {
            let mid = choose|mid: Self| #[trigger]
                placed.passed(put, &mid, pos) && mid.evict_counter == placed.evict_counter
                    && mid.evictions(self, EVICTIONS_PER_OP as int);
            assert(old(self).passed(put, &mid, pos));
            assert forall|l: int, m: int| #[trigger]
                old(self).filled_below(l, m) && 0 <= l < Z && 0 <= m implies self.filled_below(
                l,
                if l == lane {
                    m + 1
                } else {
                    m
                },
            ) by {
                let m2 = if l == lane {
                    m + 1
                } else {
                    m
                };
                assert forall|i: int| m2 <= i < STASH_BUCKETS && 0 <= i implies (
                #[trigger] self.stash_and_path@[i]).0[l].vacant() by {
                    assert(s0[i].0[l].vacant());
                    if inserted {
                        let f = choose|f: int|
                            #![trigger s0[f]]
                            0 <= f < STASH_BUCKETS && s0[f].0[lane].vacant() && (forall|k: int|
                                0 <= k < f ==> !(#[trigger] s0[k]).0[lane].vacant()) && s1
                                == s0.update(f, s1[f]) && s1[f].0@ == s0[f].0@.update(lane, *block);
                        if l == lane && f == i {
                            assert(!s0[m].0[lane].vacant());
                            assert(old(self).stash_and_path@[m].0[l].vacant());
                        }
                    }
                    assert(placed.stash_and_path@[i].0[l].vacant());
                    assert(self.stash_and_path@[i].0[l].vacant());
                }
            }
        }
    }

    /// Reads and remaps a block. `out` is unchanged when the key is absent.
    pub fn read(
        &mut self,
        pos: PositionType,
        new_pos: PositionType,
        key: Key,
        out: &mut [u8; DATA_SIZE],
    ) -> (found: bool)
        requires
            old(self).wf(),
            pos < old(self).max_n,
            new_pos < old(self).max_n || new_pos == DUMMY_POS,
        ensures
            final(self).wf(),
            found == old(self).visible(pos, key),
            found ==> old(self)@.contains_key(key),
            *final(out) == (if found {
                old(self)@[key].data
            } else {
                *old(out)
            }),
            final(self)@ == (if !found {
                old(self)@
            } else if new_pos != DUMMY_POS && old(self).has_room(key) {
                old(self)@.insert(key, Block { pos: new_pos, key, data: old(self)@[key].data })
            } else {
                old(self)@.remove(key)
            }),
            final(self).advanced(old(self)),
            final(self).moved(
                old(self),
                pos,
                key,
                Block {
                    pos: if found {
                        new_pos
                    } else {
                        DUMMY_POS
                    },
                    key,
                    data: *final(out),
                },
            ),
    {
        let mut block: Block = Block { pos: DUMMY_POS, key, data: *out };
        let found: bool = self.open_and_remove(pos, key, &mut block);
        *out = block.data;
        cmov_u32(&mut block.pos, new_pos, found);
        let ghost opened = *self;
        self.place_and_finish(pos, &block);
        proof {
            self.lemma_advanced(old(self), &opened);
            self.lemma_moved(old(self), &opened, pos, key, block);
            if found {
                assert(old(self)@.remove(key).insert(key, block) =~= old(self)@.insert(key, block));
            }
        }
        found
    }

    /// Updates an existing block, without inserting it when absent.
    pub fn write(
        &mut self,
        pos: PositionType,
        new_pos: PositionType,
        key: Key,
        data: [u8; DATA_SIZE],
    ) -> (found: bool)
        requires
            old(self).wf(),
            pos < old(self).max_n,
            new_pos < old(self).max_n,
        ensures
            final(self).wf(),
            found == old(self).visible(pos, key),
            found ==> old(self)@.contains_key(key),
            final(self)@ == (if !found {
                old(self)@
            } else if old(self).has_room(key) {
                old(self)@.insert(key, Block { pos: new_pos, key, data })
            } else {
                old(self)@.remove(key)
            }),
            final(self).advanced(old(self)),
            final(self).moved(
                old(self),
                pos,
                key,
                Block {
                    pos: if found {
                        new_pos
                    } else {
                        DUMMY_POS
                    },
                    key,
                    data,
                },
            ),
    {
        let mut dropped: Block = Block::default();
        let found: bool = self.open_and_remove(pos, key, &mut dropped);
        let mut block: Block = Block { pos: DUMMY_POS, key, data };
        cmov_u32(&mut block.pos, new_pos, found);
        let ghost opened = *self;
        self.place_and_finish(pos, &block);
        proof {
            self.lemma_advanced(old(self), &opened);
            self.lemma_moved(old(self), &opened, pos, key, block);
            if found {
                assert(old(self)@.remove(key).insert(key, block) =~= old(self)@.insert(key, block));
            }
        }
        found
    }

    /// Updates a block or inserts it when absent.
    pub fn write_or_insert(
        &mut self,
        pos: PositionType,
        new_pos: PositionType,
        key: Key,
        data: [u8; DATA_SIZE],
    ) -> (found: bool)
        requires
            old(self).wf(),
            pos < old(self).max_n,
            new_pos < old(self).max_n,
            old(self)@.contains_key(key) ==> old(self).visible(pos, key),
        ensures
            final(self).wf(),
            found == old(self)@.contains_key(key),
            final(self)@ == (if old(self).has_room(key) {
                old(self)@.insert(key, Block { pos: new_pos, key, data })
            } else {
                old(self)@.remove(key)
            }),
            final(self).advanced(old(self)),
            final(self).moved(old(self), pos, key, Block { pos: new_pos, key, data }),
    {
        let mut dropped: Block = Block::default();
        let found: bool = self.open_and_remove(pos, key, &mut dropped);
        let block: Block = Block { pos: new_pos, key, data };
        let ghost opened = *self;
        self.place_and_finish(pos, &block);
        proof {
            self.lemma_advanced(old(self), &opened);
            self.lemma_moved(old(self), &opened, pos, key, block);
            assert(old(self)@.remove(key).insert(key, block) =~= old(self)@.insert(key, block));
            if !found {
                assert(old(self)@.remove(key) =~= old(self)@);
            }
        }
        found
    }

    /// Reads or inserts a block, then applies `update` to its payload. An absent block
    /// starts with a payload of zeros.
    pub fn update<T, F: FnOnce(&mut [u8; DATA_SIZE]) -> T>(
        &mut self,
        pos: PositionType,
        new_pos: PositionType,
        key: Key,
        update: F,
    ) -> (r: (bool, T))
        requires
            old(self).wf(),
            pos < old(self).max_n,
            new_pos < old(self).max_n,
            old(self)@.contains_key(key) ==> old(self).visible(pos, key),
            forall|d: &mut [u8; DATA_SIZE]|
                *d == old(self).payload(key) ==> #[trigger] call_requires(update, (d,)),
        ensures
            final(self).wf(),
            r.0 == old(self)@.contains_key(key),
            exists|d: &mut [u8; DATA_SIZE]| #[trigger]
                call_ensures(update, (d,), r.1) && *d == old(self).payload(key) && final(self)@
                    == (if old(self).has_room(key) {
                    old(self)@.insert(key, Block { pos: new_pos, key, data: *final(d) })
                } else {
                    old(self)@.remove(key)
                }) && final(self).moved(
                    old(self),
                    pos,
                    key,
                    Block { pos: new_pos, key, data: *final(d) },
                ),
            final(self).advanced(old(self)),
    {
        let mut block: Block = Block { pos: DUMMY_POS, key, data: [0u8; DATA_SIZE] };
        let found: bool = self.open_and_remove(pos, key, &mut block);
        let mut data: [u8; DATA_SIZE] = block.data;
        assert(data == old(self).payload(key));
        let result = apply_update(&mut data, update);
        block.data = data;
        block.pos = new_pos;
        block.key = key;
        let ghost opened = *self;
        self.place_and_finish(pos, &block);
        proof {
            self.lemma_advanced(old(self), &opened);
            self.lemma_moved(old(self), &opened, pos, key, block);
            assert(old(self)@.remove(key).insert(key, block) =~= old(self)@.insert(key, block));
            if !found {
                assert(old(self)@.remove(key) =~= old(self)@);
            }
            let d = choose|d: &mut [u8; DATA_SIZE]| #[trigger]
                call_ensures(update, (d,), result) && *d == old(self).payload(key) && *final(d)
                    == data;
            assert(call_ensures(update, (d,), result));
            assert(*final(d) == block.data);
            assert(block == (Block { pos: new_pos, key, data: *final(d) }));
        }
        let r = (found, result);
        assert(r.1 == result);
        r
    }

    /// The payload that [`Self::update`] starts from.
    pub open spec fn payload(&self, key: Key) -> [u8; DATA_SIZE] {
        if self@.contains_key(key) {
            self@[key].data
        } else {
            [0u8; DATA_SIZE]
        }
    }

    /// What every access does to the public counters, and that it fills at most one
    /// more slot of the stash lane whose turn it is.
    pub open spec fn advanced(&self, before: &Self) -> bool {
        &&& self.max_n == before.max_n
        &&& self.h == before.h
        &&& self.insert_lane == 1 - before.insert_lane
        &&& self.evict_counter == (before.evict_counter + EVICTIONS_PER_OP) % before.max_n as int
        &&& forall|lane: int, m: int| #[trigger]
            before.filled_below(lane, m) && 0 <= lane < Z && 0 <= m ==> self.filled_below(
                lane,
                if lane == before.insert_lane {
                    m + 1
                } else {
                    m
                },
            )
    }

    /// Where taking a block out and putting one in leaves the blocks.
    proof fn lemma_moved(
        &self,
        before: &Self,
        opened: &Self,
        pos: PositionType,
        key: Key,
        block: Block,
    )
        requires
            opened.same_frame(before),
            opened.tree == before.tree,
            columns(opened.stash_and_path@) == columns(before.opened(pos as int)).map_values(
                |c: Seq<Block>| without_key(c, key),
            ),
            ({
                let cols = columns(opened.stash_and_path@);
                let lane = opened.insert_lane as int;
                opened.finishes(
                    cols.update(lane, with_block(cols[lane], STASH_BUCKETS as int, block)),
                    self,
                    pos,
                )
            }),
        ensures
            self.moved(before, pos, key, block),
    {
        let cols = replaced(
            columns(before.opened(pos as int)),
            key,
            before.insert_lane as int,
            block,
        );
        let mid = choose|mid: Self| #[trigger]
            opened.passed(cols, &mid, pos) && mid.evict_counter == opened.evict_counter
                && mid.evictions(self, EVICTIONS_PER_OP as int);
        assert(before.passed(cols, &mid, pos));
    }

    proof fn lemma_advanced(&self, before: &Self, opened: &Self)
        requires
            opened.same_frame(before),
            opened.stash_not_filled(before),
            opened.stash_and_path.len() >= STASH_BUCKETS,
            self.max_n == opened.max_n,
            self.h == opened.h,
            self.insert_lane == 1 - opened.insert_lane,
            self.evict_counter == (opened.evict_counter + EVICTIONS_PER_OP) % opened.max_n as int,
            forall|lane: int, m: int| #[trigger]
                opened.filled_below(lane, m) && 0 <= lane < Z && 0 <= m ==> self.filled_below(
                    lane,
                    if lane == opened.insert_lane {
                        m + 1
                    } else {
                        m
                    },
                ),
        ensures
            self.advanced(before),
    {
        assert forall|lane: int, m: int| #[trigger]
            before.filled_below(lane, m) && 0 <= lane < Z && 0 <= m implies self.filled_below(
            lane,
            if lane == before.insert_lane {
                m + 1
            } else {
                m
            },
        ) by {
            assert forall|i: int| m <= i < STASH_BUCKETS && 0 <= i implies (
            #[trigger] opened.stash_and_path@[i]).0[lane].vacant() by {
                assert(before.stash_and_path@[i].0[lane].vacant());
                assert(opened.stash_and_path@[i].0[lane].vacant());
            }
            assert(opened.filled_below(lane, m));
        }
    }

    /// State `i + 1` comes from state `i` by inserting the key, payload and position of
    /// number `i`, if the stash has room for them.
    pub open spec fn insert_step(
        states: Seq<Self>,
        keys: Seq<Key>,
        values: Seq<[u8; DATA_SIZE]>,
        positions: Seq<PositionType>,
        i: int,
    ) -> bool {
        let before = states[i];
        let after = states[i + 1];
        let block = Block { pos: positions[i], key: keys[i], data: values[i] };
        &&& after.wf()
        &&& after.advanced(&before)
        &&& after.moved(&before, 0, keys[i], block)
        &&& after@ == (if before.has_room(keys[i]) {
            before@.insert(keys[i], block)
        } else {
            before@
        })
    }

    /// The keys, payloads and positions are inserted one after another, from state to state.
    pub open spec fn inserts(
        states: Seq<Self>,
        keys: Seq<Key>,
        values: Seq<[u8; DATA_SIZE]>,
        positions: Seq<PositionType>,
    ) -> bool {
        &&& states.len() == keys.len() + 1
        &&& forall|i: int|
            0 <= i < keys.len() ==> #[trigger] Self::insert_step(states, keys, values, positions, i)
    }

    /// Where every insert has room, every key is stored.
    proof fn lemma_inserts(
        states: Seq<Self>,
        keys: Seq<Key>,
        values: Seq<[u8; DATA_SIZE]>,
        positions: Seq<PositionType>,
        n: int,
    )
        requires
            Self::inserts(states, keys, values, positions),
            states[0]@ == Map::<Key, Block>::empty(),
            0 <= n <= keys.len(),
            keys.len() == values.len(),
            keys.len() == positions.len(),
            forall|i: int| 0 <= i < n ==> (#[trigger] states[i]).has_room(keys[i]),
        ensures
            states[n]@ == loaded(keys.take(n), values.take(n), positions.take(n)),
        decreases n,
    {
        if n > 0 {
            Self::lemma_inserts(states, keys, values, positions, n - 1);
            assert(Self::insert_step(states, keys, values, positions, n - 1));
            assert(states[n - 1].has_room(keys[n - 1]));
            assert(keys.take(n).drop_last() =~= keys.take(n - 1));
            assert(values.take(n).drop_last() =~= values.take(n - 1));
            assert(positions.take(n).drop_last() =~= positions.take(n - 1));
        }
    }

    /// Creates an ORAM and inserts the supplied keys, payloads, and positions, one after
    /// another. Up to [`S`] blocks always fit; of more, those for which the stash has no
    /// room are left out.
    pub fn new_with_positions_and_values(
        max_n: usize,
        keys: &[Key],
        values: &[[u8; DATA_SIZE]],
        positions: &[PositionType],
    ) -> (r: Self)
        requires
            1 < max_n <= 0x8000_0000,
            keys@.len() == values@.len(),
            keys@.len() == positions@.len(),
            keys@.len() <= max_n,
            keys@.no_duplicates(),
            forall|i: int|
                0 <= i < positions@.len() ==> #[trigger] positions@[i] < ceil_pow2(max_n as int),
        ensures
            r.wf(),
            r.max_n == ceil_pow2(max_n as int),
            r@.submap_of(loaded(keys@, values@, positions@)),
            keys@.len() <= S ==> r@ == loaded(keys@, values@, positions@),
            exists|states: Seq<Self>|
                {
                    &&& #[trigger] Self::inserts(states, keys@, values@, positions@)
                    &&& states[0].is_new(max_n as int)
                    &&& states.last() == r
                    &&& (forall|i: int|
                        0 <= i < keys@.len() ==> (#[trigger] states[i]).has_room(keys@[i]))
                        ==> r@ == loaded(keys@, values@, positions@)
                },
    {
        let mut oram = Self::new(max_n);
        let mut i: usize = 0;
        let ghost mut states = seq![oram];
        assert(loaded(keys@.take(0), values@.take(0), positions@.take(0)) =~= Map::empty());
        while i < keys.len()
            invariant
                1 < max_n <= 0x8000_0000,
                i <= keys@.len() == values@.len() == positions@.len(),
                keys@.no_duplicates(),
                forall|k: int|
                    0 <= k < positions@.len() ==> #[trigger] positions@[k] < ceil_pow2(
                        max_n as int,
                    ),
                oram.wf(),
                oram.max_n == ceil_pow2(max_n as int),
                oram.insert_lane == i % 2,
                oram@.submap_of(
                    loaded(
                        keys@.take(i as int),
                        values@.take(i as int),
                        positions@.take(i as int),
                    ),
                ),
                i <= S ==> oram@ == loaded(
                    keys@.take(i as int),
                    values@.take(i as int),
                    positions@.take(i as int),
                ),
                i <= S ==> oram.filled_below(0, (i + 1) / 2),
                i <= S ==> oram.filled_below(1, i as int / 2),
                states.len() == i + 1,
                states[0].is_new(max_n as int),
                states.last() == oram,
                forall|k: int|
                    0 <= k < i ==> #[trigger] Self::insert_step(
                        states,
                        keys@,
                        values@,
                        positions@,
                        k,
                    ),
            decreases keys.len() - i,
        {
            let ghost before = oram;
            let ghost done = loaded(
                keys@.take(i as int),
                values@.take(i as int),
                positions@.take(i as int),
            );
            let key: Key = keys[i];
            let data: [u8; DATA_SIZE] = values[i];
            let pos: PositionType = positions[i];
            proof {
                lemma_loaded_keys(
                    keys@.take(i as int),
                    values@.take(i as int),
                    positions@.take(i as int),
                    key,
                );
                if keys@.take(i as int).contains(key) {
                    let k = choose|k: int| 0 <= k < i && keys@.take(i as int)[k] == key;
                    assert(keys@[k] == keys@[i as int]);
                }
                assert(!oram@.contains_key(key));
                if i < S {
                    let lane = oram.insert_lane as int;
                    let m = if lane == 0 {
                        (i + 1) / 2
                    } else {
                        i as int / 2
                    };
                    assert(oram.filled_below(lane, m));
                    assert(oram.stash_and_path@[m].0[lane].vacant());
                    assert(oram.has_room(key));
                }
            }
            oram.write_or_insert(0, pos, key, data);
            proof {
                let keys1 = keys@.take(i + 1);
                let values1 = values@.take(i + 1);
                let positions1 = positions@.take(i + 1);
                assert(keys1.drop_last() =~= keys@.take(i as int));
                assert(values1.drop_last() =~= values@.take(i as int));
                assert(positions1.drop_last() =~= positions@.take(i as int));
                assert(before@.remove(key) =~= before@);
                let block = Block { pos, key, data };
                let done1 = loaded(keys1, values1, positions1);
                assert(done1 == done.insert(key, block));
                assert(before@.submap_of(done));
                if before.has_room(key) {
                    assert(oram@ == before@.insert(key, block));
                } else {
                    assert(oram@ == before@.remove(key));
                }
                assert(oram@.submap_of(done1)) by {
                    assert forall|k: Key| #[trigger]
                        oram@.dom().contains(k) implies done1.dom().contains(k) && oram@[k]
                        == done1[k] by {
                        if k != key {
                            assert(before@.dom().contains(k));
                            assert(done.dom().contains(k));
                        }
                    }
                }
                if i < S {
                    assert(before.filled_below(0, (i + 1) / 2));
                    assert(before.filled_below(1, i as int / 2));
                    assert((i + 2) / 2 == i as int / 2 + 1);
                    if i % 2 == 0 {
                        assert((i + 1) / 2 == i as int / 2);
                    } else {
                        assert((i + 1) / 2 == i as int / 2 + 1);
                    }
                }
                let more = states.push(oram);
                assert forall|k: int| 0 <= k < i + 1 implies #[trigger] Self::insert_step(
                    more,
                    keys@,
                    values@,
                    positions@,
                    k,
                ) by {
                    if k < i {
                        assert(Self::insert_step(states, keys@, values@, positions@, k));
                    }
                }
                states = more;
            }
            i += 1;
        }
        proof {
            assert(keys@.take(i as int) =~= keys@);
            assert(values@.take(i as int) =~= values@);
            assert(positions@.take(i as int) =~= positions@);
            assert(Self::inserts(states, keys@, values@, positions@));
            if forall|k: int| 0 <= k < keys@.len() ==> (#[trigger] states[k]).has_room(keys@[k]) {
                Self::lemma_inserts(states, keys@, values@, positions@, i as int);
            }
        }
        oram
    }

    /// What was written is what a read at the new position returns, and other keys keep
    /// their blocks.
    pub proof fn lemma_read_after_write(
        before: &Self,
        after: &Self,
        key: Key,
        new_pos: PositionType,
        data: [u8; DATA_SIZE],
    )
        requires
            after.wf(),
            after@ == before@.insert(key, (Block { pos: new_pos, key, data })),
        ensures
            after.visible(new_pos, key),
            after@[key].data == data,
            forall|k: Key|
                k != key ==> after@.contains_key(k) == before@.contains_key(k) && (
                before@.contains_key(k) ==> #[trigger] after@[k] == before@[k]),
    {
        after.lemma_stored_is_visible(key);
    }

    /// An absent key is visible from nowhere.
    pub proof fn lemma_absent_is_not_visible(&self, pos: PositionType, key: Key)
        requires
            self.wf(),
            pos < self.max_n,
            !self@.contains_key(key),
        ensures
            !self.visible(pos, key),
    {
        if self.visible(pos, key) {
            let s = self.opened(pos as int);
            let (i, j) = choose|i: int, j: int|
                #![trigger self.opened(pos as int)[i].0[j]]
                0 <= i < STASH_BUCKETS + self.h && 0 <= j < Z && holds_key(
                    self.opened(pos as int)[i].0[j],
                    key,
                );
            let b = s[i].0[j];
            lemma_tally_groups_positive(bucket_rows(self.stash()), b);
            lemma_tally_groups_positive(bucket_rows(self.tree.tree@), b);
            if i < STASH_BUCKETS {
                assert(bucket_rows(self.stash())[i].contains(b)) by {
                    assert(bucket_rows(self.stash())[i][j] == b);
                }
            } else {
                let k = self.tree.index_of(i - STASH_BUCKETS, pos as int);
                self.tree.lemma_index_in_tree(i - STASH_BUCKETS, pos as int);
                assert(bucket_rows(self.tree.tree@)[k].contains(b)) by {
                    assert(bucket_rows(self.tree.tree@)[k][j] == b);
                }
            }
            assert(self.count()(b) > 0);
            lemma_by_key(self.count(), key_of(), b);
        }
    }
}

/// The blocks of the given keys, payloads and positions.
pub open spec fn loaded(
    keys: Seq<Key>,
    values: Seq<[u8; DATA_SIZE]>,
    positions: Seq<PositionType>,
) -> Map<Key, Block>
    decreases keys.len(),
{
    if keys.len() == 0 {
        Map::empty()
    } else {
        loaded(keys.drop_last(), values.drop_last(), positions.drop_last()).insert(
            keys.last(),
            Block { pos: positions.last(), key: keys.last(), data: values.last() },
        )
    }
}

pub(crate) proof fn lemma_loaded_keys(
    keys: Seq<Key>,
    values: Seq<[u8; DATA_SIZE]>,
    positions: Seq<PositionType>,
    key: Key,
)
    ensures
        loaded(keys, values, positions).contains_key(key) ==> keys.contains(key),
    decreases keys.len(),
{
    if keys.len() > 0 {
        lemma_loaded_keys(keys.drop_last(), values.drop_last(), positions.drop_last(), key);
        if keys.drop_last().contains(key) {
            let k = choose|k: int| 0 <= k < keys.drop_last().len() && keys.drop_last()[k] == key;
            assert(keys[k] == key);
        }
        assert(keys[keys.len() - 1] == keys.last());
    }
}

/// Changing one slot changes the count by what left and what came.
proof fn lemma_slot_changed(s0: Seq<Bucket>, s1: Seq<Bucket>, i: int, j: int, c: Block, b: Block)
    requires
        0 <= i < s0.len(),
        0 <= j < Z,
        s1 == s0.update(i, s1[i]),
        s1[i].0@ == s0[i].0@.update(j, c),
    ensures
        tally_groups(bucket_rows(s1), b) == tally_groups(bucket_rows(s0), b) - hit(s0[i].0[j], b)
            + hit(c, b),
{
    assert(bucket_rows(s1) =~= bucket_rows(s0).update(i, s1[i].0@));
    lemma_tally_groups_update(bucket_rows(s0), i, s1[i].0@, b);
    lemma_tally_update(s0[i].0@, j, c, b);
}

/// The lanes and their depths, one by one.
proof fn lemma_columns(s: Seq<Bucket>, pos: PositionType)
    ensures
        forall|lane: int|
            0 <= lane < Z ==> #[trigger] columns(s)[lane] == lane_column(s, lane) && column_depths(
                columns(s)[lane],
                pos,
            ) == depth_column(s, lane, pos),
{
    assert forall|lane: int| 0 <= lane < Z implies #[trigger] columns(s)[lane] == lane_column(
        s,
        lane,
    ) && column_depths(columns(s)[lane], pos) == depth_column(s, lane, pos) by {
        assert(column_depths(columns(s)[lane], pos) =~= depth_column(s, lane, pos));
    }
}

/// A block that was put into a stash lane is in its first vacant slot.
proof fn lemma_columns_put(s0: Seq<Bucket>, s1: Seq<Bucket>, lane: int, block: Block, inserted: bool)
    requires
        0 <= lane < Z,
        s0.len() >= STASH_BUCKETS,
        inserted == lane_has_room(s0, STASH_BUCKETS as int, lane),
        !inserted ==> s1 == s0,
        inserted ==> exists|i: int|
            #![trigger s0[i]]
            0 <= i < STASH_BUCKETS && s0[i].0[lane].vacant() && (forall|k: int|
                0 <= k < i ==> !(#[trigger] s0[k]).0[lane].vacant()) && s1 == s0.update(i, s1[i])
                && s1[i].0@ == s0[i].0@.update(lane, block),
    ensures
        columns(s1) == columns(s0).update(
            lane,
            with_block(columns(s0)[lane], STASH_BUCKETS as int, block),
        ),
{
    let n = STASH_BUCKETS as int;
    let col0 = columns(s0)[lane];
    let col1 = columns(s1)[lane];
    let goal = columns(s0).update(lane, with_block(col0, n, block));
    if inserted {
        let i = choose|i: int|
            #![trigger s0[i]]
            0 <= i < n && s0[i].0[lane].vacant() && (forall|k: int|
                0 <= k < i ==> !(#[trigger] s0[k]).0[lane].vacant()) && s1 == s0.update(i, s1[i])
                && s1[i].0@ == s0[i].0@.update(lane, block);
        assert(col0[i] == s0[i].0[lane]);
        assert forall|k: int| 0 <= k < i implies !(#[trigger] col0[k]).vacant() by {
            assert(col0[k] == s0[k].0[lane]);
        }
        assert(s1[i].0[lane] == block);
        assert(col1 =~= col0.update(i, block));
        assert(columns(s1)[1 - lane] =~= columns(s0)[1 - lane]) by {
            assert(s1[i].0[1 - lane] == s0[i].0[1 - lane]);
        }
    } else {
        assert forall|k: int| 0 <= k < n implies !(#[trigger] col0[k]).vacant() by {
            assert(!s0[k].0[lane].vacant());
        }
    }
    lemma_put_is_first(col0, n, block, col1, inserted);
    assert(columns(s1) =~= goal) by {
        assert forall|l: int| 0 <= l < Z implies #[trigger] columns(s1)[l] == goal[l] by {
            assert(l == lane || l == 1 - lane);
        }
    }
}

/// The depths of a lane fit its column.
proof fn lemma_depths_fit(s: Seq<Bucket>, lane: int, pos: PositionType)
    requires
        0 <= lane < Z,
        s.len() >= STASH_BUCKETS + 2,
    ensures
        column_fits(lane_column(s, lane), depth_column(s, lane, pos), STASH_BUCKETS + 1),
        column_size(lane_column(s, lane), STASH_BUCKETS + 1, 1, s.len() - STASH_BUCKETS),
{
    let col = lane_column(s, lane);
    let d = depth_column(s, lane, pos);
    assert forall|k: int| 0 <= k < col.len() implies {
        &&& -1 <= #[trigger] d[k]
        &&& col[k].vacant() ==> d[k] == -1
        &&& k >= STASH_BUCKETS + 1 && !col[k].vacant() ==> d[k] != -1
    } by {
        lemma_shared_bits(col[k].pos as int, pos as int, 32);
    }
}

} // verus!
