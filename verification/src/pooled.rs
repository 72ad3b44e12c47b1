//! Eight ORAM trees packed into the buckets of one.
//!
//! Every bucket has two slots for each of eight lanes. A key belongs to the lane
//! that its lowest bits name, and its block lies in the slots of that lane or in
//! the stash, which all lanes share. The functions here say what an access to one
//! lane does to stash and buckets; `stash` and `nodes` are the slots of the stash
//! and of every bucket, and `h` is the height of the tree.
use vstd::prelude::*;
use crate::circuit::{column_fits, column_settled, column_size, donor, holds, level_blank};
use crate::circuit::{lemma_column_conserves, lemma_column_origin, lemma_first_step};
use crate::circuit::{lemma_levels_fit, lemma_peak, lemma_settled_live, level_peaks, level_room};
use crate::circuit::{level_settled, levels, peak_slot, received, receives, settled, target_of};
use crate::heap_tree::{full_width, lemma_full_width, node_index};
use crate::heap_tree::{lemma_binary_nodes, lemma_index_has_path, lemma_level_start_grows};
use crate::heap_tree::{lemma_node_index_in_level, lemma_node_index_injective};
use crate::oblivious::ObliviousBlock;
use crate::path_access::with_block;
use crate::suffix::{lemma_shared_bits, meets, shared_bits};
use crate::tally::{by_key, hit, one_per_key, tally, tally_groups};
use crate::tally::{lemma_by_key, lemma_by_key_same, lemma_tally_concat};
use crate::tally::{lemma_tally_groups_positive, lemma_tally_positive};
use crate::tally::{lemma_tally_scatter, lemma_tally_twice, lemma_tally_update};

verus! {

/// Slots in one lane of a bucket.
pub const SLOTS_PER_POOLED_LANE: usize = 2;

/// Number of lanes packed into one bucket.
pub const POOLED_LANES: usize = 8;

/// Total slots in one bucket.
pub const BLOCKS_PER_BUCKET: usize = 16;

/// A block with a key and a position.
pub trait PooledBlock: ObliviousBlock {
    /// The type of keys.
    type Key: Copy;

    /// The key of the block.
    spec fn block_key(self) -> Self::Key;

    /// The key of the block as a number, which names the lane.
    spec fn key_int(self) -> int;

    /// The position of the block.
    spec fn pos_int(self) -> int;

    /// The number of bits of a position.
    spec fn pos_bits() -> int;

    /// A slot whose block is taken out is a fresh one, and keys and positions are
    /// at least zero.
    proof fn lemma_pooled(self)
        ensures
            self.vacated() == Self::blank(),
            Self::blank().vacant(),
            0 <= self.pos_int(),
            0 <= Self::pos_bits() <= 64,
    ;

    /// The lane of the block.
    fn lane_index(&self) -> (r: usize)
        ensures
            r == self.key_int() % 8,
            r < 8,
    ;

    /// The number of low bits that the block's position shares with `path`.
    fn shared_with(&self, path: u64) -> (r: i64)
        requires
            path < full_width(Self::pos_bits(), 2),
        ensures
            r == shared_bits(self.pos_int(), path as int, Self::pos_bits()),
    ;

    /// Whether the block has the key.
    fn has_key(&self, key: Self::Key) -> (r: bool)
        ensures
            r == (self.block_key() == key),
    ;
}

/// The key of a block, as a function.
pub open spec fn key_of<B: PooledBlock>() -> spec_fn(B) -> B::Key {
    |b: B| b.block_key()
}

/// The lane of a block.
pub open spec fn lane_of<B: PooledBlock>(b: B) -> int {
    b.key_int() % 8
}

/// The index of the bucket on the path to `p` at depth `d`.
pub open spec fn at(h: int, d: int, p: int) -> int {
    node_index(d, p, 2, full_width(h - 1, 2))
}

/// The slots of a lane on the path to `pos`, root first.
pub open spec fn path_lane<B>(nodes: Seq<Seq<B>>, h: int, pos: int, lane: int) -> Seq<B> {
    Seq::new((2 * h) as nat, |k: int| nodes[at(h, k / 2, pos)][2 * lane + k % 2])
}

/// The stash followed by the slots of a lane on the path to `pos`.
pub open spec fn opened<B>(
    stash: Seq<B>,
    nodes: Seq<Seq<B>>,
    h: int,
    pos: int,
    lane: int,
) -> Seq<B> {
    stash + path_lane(nodes, h, pos, lane)
}

/// The deepest level of the path to `pos` that a block of the lane may lie at.
pub open spec fn pooled_depth<B: PooledBlock>(b: B, in_stash: bool, lane: int, pos: int) -> i64 {
    if b.vacant() || (in_stash && lane_of(b) != lane) {
        (-1) as i64
    } else {
        shared_bits(b.pos_int(), pos, B::pos_bits()) as i64
    }
}

/// The depths of a column whose first `s` slots are the stash.
pub open spec fn depth_column<B: PooledBlock>(
    col: Seq<B>,
    s: int,
    lane: int,
    pos: int,
) -> Seq<i64> {
    Seq::new(col.len(), |k: int| pooled_depth(col[k], k < s, lane, pos))
}

/// What a pass leaves in slot `k` of a column whose level zero has `n0` slots.
pub open spec fn settled_at<B: ObliviousBlock>(
    col: Seq<B>,
    d: Seq<i64>,
    n0: int,
    h: int,
    k: int,
) -> Option<B> {
    if k < n0 {
        settled(levels(col, n0, 2, h), levels(d, n0, 2, h), 0, k)
    } else {
        settled(levels(col, n0, 2, h), levels(d, n0, 2, h), (k - n0) / 2 + 1, (k - n0) % 2)
    }
}

/// What a pass makes of a column whose vacant slots are all fresh.
pub open spec fn settled_column<B: ObliviousBlock>(
    col: Seq<B>,
    d: Seq<i64>,
    n0: int,
    h: int,
) -> Seq<B> {
    Seq::new(
        col.len(),
        |k: int|
            match settled_at(col, d, n0, h, k) {
                Some(b) => b,
                None => B::blank(),
            },
    )
}

/// The buckets after the slots of a lane on the first `d` levels of the path to `pos`
/// were replaced by `part`.
pub open spec fn write_lane<B>(
    nodes: Seq<Seq<B>>,
    h: int,
    pos: int,
    lane: int,
    part: Seq<B>,
    d: int,
) -> Seq<Seq<B>>
    decreases d,
{
    if d <= 0 {
        nodes
    } else {
        let prev = write_lane(nodes, h, pos, lane, part, d - 1);
        let n = at(h, d - 1, pos);
        prev.update(
            n,
            prev[n].update(2 * lane, part[2 * (d - 1)]).update(2 * lane + 1, part[2 * (d - 1) + 1]),
        )
    }
}

/// Stash and buckets after one pass over a lane of the path to `pos`.
pub open spec fn evicted<B: PooledBlock>(
    stash: Seq<B>,
    nodes: Seq<Seq<B>>,
    h: int,
    pos: int,
    lane: int,
) -> (Seq<B>, Seq<Seq<B>>) {
    let s = stash.len() as int;
    let col = opened(stash, nodes, h, pos, lane);
    let after = settled_column(col, depth_column(col, s, lane, pos), s + 2, h);
    (after.take(s), write_lane(nodes, h, pos, lane, after.skip(s), h))
}

/// The slots without the block of `key`.
pub open spec fn without_key<B: PooledBlock>(col: Seq<B>, key: B::Key) -> Seq<B> {
    col.map_values(
        |b: B|
            if b.block_key() == key {
                B::blank()
            } else {
                b
            },
    )
}

/// The last block with key `key`, or the fresh slot when there is none.
pub open spec fn last_with<B: PooledBlock>(s: Seq<B>, key: B::Key) -> B
    decreases s.len(),
{
    if s.len() == 0 {
        B::blank()
    } else if s.last().block_key() == key {
        s.last()
    } else {
        last_with(s.drop_last(), key)
    }
}

/// The slots after the last block with key `key` was taken out, and every other such block
/// was passed on to the next of their slots. The first of these slots is left fresh.
pub open spec fn passed_on<B: PooledBlock>(s: Seq<B>, key: B::Key) -> Seq<B> {
    Seq::new(
        s.len(),
        |i: int|
            if s[i].block_key() == key {
                last_with(s.take(i), key)
            } else {
                s[i]
            },
    )
}

/// Where no slot has the key, nothing is taken out.
pub proof fn lemma_none_with<B: PooledBlock>(s: Seq<B>, key: B::Key)
    requires
        forall|i: int| 0 <= i < s.len() ==> (#[trigger] s[i]).block_key() != key,
    ensures
        last_with(s, key) == B::blank(),
        passed_on(s, key) == s,
    decreases s.len(),
{
    if s.len() > 0 {
        lemma_none_with(s.drop_last(), key);
    }
    assert(passed_on(s, key) =~= s);
}

/// Where one slot has the key, its block is taken out and the slot is left fresh.
pub proof fn lemma_one_with<B: PooledBlock>(s: Seq<B>, key: B::Key, i: int)
    requires
        0 <= i < s.len(),
        s[i].block_key() == key,
        forall|j: int| 0 <= j < s.len() && (#[trigger] s[j]).block_key() == key ==> j == i,
    ensures
        last_with(s, key) == s[i],
        passed_on(s, key) == s.update(i, B::blank()),
    decreases s.len(),
{
    if i < s.len() - 1 {
        assert(s.last().block_key() != key);
        assert forall|j: int|
            0 <= j < s.drop_last().len() && (#[trigger] s.drop_last()[j]).block_key() == key implies j
            == i by {
            assert(s[j].block_key() == key);
        }
        lemma_one_with(s.drop_last(), key, i);
    }
    assert forall|j: int| 0 <= j < i implies (#[trigger] s.take(i)[j]).block_key() != key by {
        assert(s.take(i)[j] == s[j]);
    }
    lemma_none_with(s.take(i), key);
    assert(passed_on(s, key) =~= s.update(i, B::blank()));
}

/// Stash and buckets after `block` was put into the first vacant stash slot of the open
/// column `col`, a pass went over it, and the lane of the path to `pos` was written back.
pub open spec fn placed<B: PooledBlock>(
    col: Seq<B>,
    nodes: Seq<Seq<B>>,
    s: int,
    h: int,
    pos: int,
    lane: int,
    block: B,
) -> (Seq<B>, Seq<Seq<B>>) {
    let put = with_block(col, s, block);
    let after = settled_column(put, depth_column(put, s, lane, pos), s + 2, h);
    (after.take(s), write_lane(nodes, h, pos, lane, after.skip(s), h))
}

/// Stash and buckets after the block of `key` on a lane of the path to `pos` was replaced
/// by `block` in the stash, a pass went over the lane, and it was written back.
pub open spec fn accessed<B: PooledBlock>(
    stash: Seq<B>,
    nodes: Seq<Seq<B>>,
    h: int,
    pos: int,
    lane: int,
    key: B::Key,
    block: B,
) -> (Seq<B>, Seq<Seq<B>>) {
    placed(
        without_key(opened(stash, nodes, h, pos, lane), key),
        nodes,
        stash.len() as int,
        h,
        pos,
        lane,
        block,
    )
}

/// Stash and buckets after a pass over each of the first `lanes` lanes of the path to
/// `pos`, one after another.
pub open spec fn evicted_lanes<B: PooledBlock>(
    stash: Seq<B>,
    nodes: Seq<Seq<B>>,
    h: int,
    pos: int,
    lanes: int,
) -> (Seq<B>, Seq<Seq<B>>)
    decreases lanes,
{
    if lanes <= 0 {
        (stash, nodes)
    } else {
        let prev = evicted_lanes(stash, nodes, h, pos, lanes - 1);
        evicted(prev.0, prev.1, h, pos, lanes - 1)
    }
}

/// The number of slots that hold each block.
pub open spec fn pooled_count<B: PooledBlock>(
    stash: Seq<B>,
    nodes: Seq<Seq<B>>,
) -> spec_fn(B) -> int {
    |b: B| tally(stash, b) + tally_groups(nodes, b)
}

/// Every bucket of the tree has its slots.
pub open spec fn nodes_shape<B>(nodes: Seq<Seq<B>>, h: int) -> bool {
    &&& 2 <= h <= 64
    &&& nodes.len() == full_width(h, 2) - 1
    &&& forall|n: int| 0 <= n < nodes.len() ==> (#[trigger] nodes[n]).len() == 16
}

/// A block may lie in a slot of `lane` at depth `d` of the path to `p`.
pub open spec fn may_lie<B: PooledBlock>(b: B, h: int, d: int, p: int, lane: int) -> bool {
    b.vacant() || {
        &&& b.pos_int() < full_width(h - 1, 2)
        &&& meets(b.pos_int(), p, d)
        &&& lane_of(b) == lane
    }
}

/// Every block of the buckets lies in its lane and on the path to its position.
pub open spec fn nodes_legal<B: PooledBlock>(nodes: Seq<Seq<B>>, h: int) -> bool {
    forall|d: int, p: int, k: int|
        #![trigger nodes[at(h, d, p)][k]]
        0 <= d < h && 0 <= p < full_width(h - 1, 2) && 0 <= k < 16 ==> may_lie(
            nodes[at(h, d, p)][k],
            h,
            d,
            p,
            k / 2,
        )
}

/// Every vacant slot of the buckets is a fresh one.
pub open spec fn nodes_blank<B: ObliviousBlock>(nodes: Seq<Seq<B>>) -> bool {
    forall|n: int| 0 <= n < nodes.len() ==> level_blank(#[trigger] nodes[n])
}

/// Every block of the stash has a position in the tree.
pub open spec fn stash_legal<B: PooledBlock>(stash: Seq<B>, h: int) -> bool {
    forall|i: int|
        0 <= i < stash.len() && !(#[trigger] stash[i]).vacant() ==> stash[i].pos_int()
            < full_width(h - 1, 2)
}

/// Stash and buckets at rest.
pub open spec fn pool_ok<B: PooledBlock>(stash: Seq<B>, nodes: Seq<Seq<B>>, h: int) -> bool {
    &&& nodes_shape(nodes, h)
    &&& nodes_legal(nodes, h)
    &&& nodes_blank(nodes)
    &&& stash_legal(stash, h)
    &&& level_blank(stash)
    &&& one_per_key(pooled_count(stash, nodes), key_of::<B>())
}

/// The block of every stored key.
pub open spec fn pool_map<B: PooledBlock>(
    stash: Seq<B>,
    nodes: Seq<Seq<B>>,
) -> Map<B::Key, B> {
    by_key(pooled_count(stash, nodes), key_of::<B>())
}

/// The column of a lane, in use while the buckets still hold the old path: blocks are
/// where they may be.
pub open spec fn open_ok<B: PooledBlock>(
    col: Seq<B>,
    nodes: Seq<Seq<B>>,
    s: int,
    h: int,
    pos: int,
    lane: int,
) -> bool {
    &&& nodes_shape(nodes, h)
    &&& nodes_legal(nodes, h)
    &&& nodes_blank(nodes)
    &&& 0 <= s
    &&& 0 <= pos < full_width(h - 1, 2)
    &&& 0 <= lane < 8
    &&& col.len() == s + 2 * h
    &&& level_blank(col)
    &&& stash_legal(col.take(s), h)
    &&& forall|k: int|
        s <= k < col.len() ==> may_lie(#[trigger] col[k], h, (k - s) / 2, pos, lane)
}

/// The number of slots that hold each block while the column stands for the path.
pub open spec fn open_count<B: PooledBlock>(
    col: Seq<B>,
    nodes: Seq<Seq<B>>,
    h: int,
    pos: int,
    lane: int,
) -> spec_fn(B) -> int {
    |b: B| tally(col, b) + tally_groups(nodes, b) - tally(path_lane(nodes, h, pos, lane), b)
}

// ---------------------------------------------------------------------------
// Paths.
// ---------------------------------------------------------------------------
/// Buckets of a path are in the tree, lie apart, and are shared with another path
/// exactly where the two paths meet.
pub proof fn lemma_at(h: int, pos: int)
    requires
        1 <= h,
        0 <= pos < full_width(h - 1, 2),
    ensures
        forall|d: int| 0 <= d < h ==> 0 <= #[trigger] at(h, d, pos) < full_width(h, 2) - 1,
        forall|d: int, e: int|
            #![trigger at(h, d, pos), at(h, e, pos)]
            0 <= d < h && 0 <= e < h && d != e ==> at(h, d, pos) != at(h, e, pos),
        forall|d: int, e: int, p: int|
            #![trigger at(h, d, pos), at(h, e, p)]
            0 <= d < h && 0 <= e < h && 0 <= p < full_width(h - 1, 2) ==> (at(h, d, pos) == at(
                h,
                e,
                p,
            ) <==> d == e && meets(p, pos, d)),
{
    let n = full_width(h - 1, 2);
    lemma_binary_nodes(h);
    assert forall|d: int| 0 <= d < h implies 0 <= #[trigger] at(h, d, pos) < full_width(h, 2)
        - 1 by {
        lemma_node_index_in_level(d, pos, 2, n);
        lemma_level_start_grows(d + 1, h, 2, n);
    }
    assert forall|d: int, e: int, p: int|
        #![trigger at(h, d, pos), at(h, e, p)]
        0 <= d < h && 0 <= e < h && 0 <= p < n implies (at(h, d, pos) == at(h, e, p) <==> d == e
        && meets(p, pos, d)) by {
        if at(h, d, pos) == at(h, e, p) {
            lemma_node_index_injective(d, pos, e, p, 2, n);
        }
    }
    assert forall|d: int, e: int|
        #![trigger at(h, d, pos), at(h, e, pos)]
        0 <= d < h && 0 <= e < h && d != e implies at(h, d, pos) != at(h, e, pos) by {
        if at(h, d, pos) == at(h, e, pos) {
            lemma_node_index_injective(d, pos, e, pos, 2, n);
        }
    }
}

/// Whether slot `k` of bucket `n` belongs to the lane on the first `d` levels of the
/// path.
pub open spec fn on_lane(h: int, pos: int, lane: int, d: int, n: int, k: int) -> bool {
    (k == 2 * lane || k == 2 * lane + 1) && exists|e: int|
        0 <= e < d && n == #[trigger] at(h, e, pos)
}

/// [`write_lane`] replaces the slots of the lane on the path and no others.
pub proof fn lemma_write_lane<B>(
    nodes: Seq<Seq<B>>,
    h: int,
    pos: int,
    lane: int,
    part: Seq<B>,
    d: int,
)
    requires
        nodes_shape(nodes, h),
        0 <= pos < full_width(h - 1, 2),
        0 <= lane < 8,
        part.len() == 2 * h,
        0 <= d <= h,
    ensures
        ({
            let r = write_lane(nodes, h, pos, lane, part, d);
            &&& nodes_shape(r, h)
            &&& forall|e: int, j: int|
                #![trigger part[2 * e + j]]
                0 <= e < d && 0 <= j < 2 ==> r[at(h, e, pos)][2 * lane + j] == part[2 * e + j]
            &&& forall|n: int, k: int|
                #![trigger r[n][k]]
                0 <= n < nodes.len() && 0 <= k < 16 && !on_lane(h, pos, lane, d, n, k)
                    ==> r[n][k] == nodes[n][k]
        }),
    decreases d,
{
    lemma_at(h, pos);
    if d > 0 {
        lemma_write_lane(nodes, h, pos, lane, part, d - 1);
        let prev = write_lane(nodes, h, pos, lane, part, d - 1);
        let r = write_lane(nodes, h, pos, lane, part, d);
        let m = at(h, d - 1, pos);
        assert forall|n: int| 0 <= n < r.len() implies (#[trigger] r[n]).len() == 16 by {
            assert(prev[n].len() == 16);
        }
        assert forall|e: int, j: int|
            #![trigger part[2 * e + j]]
            0 <= e < d && 0 <= j < 2 implies r[at(h, e, pos)][2 * lane + j] == part[2 * e + j] by {
            if e < d - 1 {
                assert(at(h, e, pos) != m);
            }
        }
        assert forall|n: int, k: int|
            #![trigger r[n][k]]
            0 <= n < nodes.len() && 0 <= k < 16 && !on_lane(h, pos, lane, d, n, k) implies r[n][k]
            == nodes[n][k] by {
            if on_lane(h, pos, lane, d - 1, n, k) {
                let e = choose|e: int| 0 <= e < d - 1 && n == #[trigger] at(h, e, pos);
                assert(at(h, e, pos) == n);
            }
            if n == m && (k == 2 * lane || k == 2 * lane + 1) {
                assert(at(h, d - 1, pos) == n);
            }
            assert(prev[n][k] == nodes[n][k]);
        }
    }
}

/// Writing back what a path holds changes nothing, and what is written is what the path
/// then holds.
pub proof fn lemma_write_lane_path<B>(
    nodes: Seq<Seq<B>>,
    h: int,
    pos: int,
    lane: int,
    part: Seq<B>,
)
    requires
        nodes_shape(nodes, h),
        0 <= pos < full_width(h - 1, 2),
        0 <= lane < 8,
        part.len() == 2 * h,
    ensures
        path_lane(write_lane(nodes, h, pos, lane, part, h), h, pos, lane) == part,
        forall|other: int|
            0 <= other < 8 && other != lane ==> #[trigger] path_lane(
                write_lane(nodes, h, pos, lane, part, h),
                h,
                pos,
                other,
            ) == path_lane(nodes, h, pos, other),
{
    let r = write_lane(nodes, h, pos, lane, part, h);
    lemma_write_lane(nodes, h, pos, lane, part, h);
    lemma_at(h, pos);
    let got = path_lane(r, h, pos, lane);
    assert forall|k: int| 0 <= k < 2 * h implies got[k] == part[k] by {
        assert(part[2 * (k / 2) + k % 2] == part[k]);
    }
    assert(got =~= part);
    assert forall|other: int| 0 <= other < 8 && other != lane implies #[trigger] path_lane(
        r,
        h,
        pos,
        other,
    ) == path_lane(nodes, h, pos, other) by {
        assert forall|k: int| 0 <= k < 2 * h implies path_lane(r, h, pos, other)[k] == path_lane(
            nodes,
            h,
            pos,
            other,
        )[k] by {
            let n = at(h, k / 2, pos);
            assert(!on_lane(h, pos, lane, h, n, 2 * other + k % 2));
            assert(r[n][2 * other + k % 2] == nodes[n][2 * other + k % 2]);
        }
        assert(path_lane(r, h, pos, other) =~= path_lane(nodes, h, pos, other));
    }
}

/// Two buckets of 16 slots that differ only in the slots of a lane differ in their
/// counts by those slots.
proof fn lemma_row_change<B: ObliviousBlock>(x: Seq<B>, y: Seq<B>, lane: int, b: B)
    requires
        x.len() == 16,
        y.len() == 16,
        0 <= lane < 8,
        forall|k: int|
            0 <= k < 16 && k != 2 * lane && k != 2 * lane + 1 ==> #[trigger] y[k] == x[k],
    ensures
        tally(y, b) == tally(x, b) - hit(x[2 * lane], b) - hit(x[2 * lane + 1], b) + hit(
            y[2 * lane],
            b,
        ) + hit(y[2 * lane + 1], b),
{
    let m = x.update(2 * lane, y[2 * lane]);
    lemma_tally_update(x, 2 * lane, y[2 * lane], b);
    lemma_tally_update(m, 2 * lane + 1, y[2 * lane + 1], b);
    assert(m.update(2 * lane + 1, y[2 * lane + 1]) =~= y);
}

/// The slots of a lane in the rows of a path, one after another.
pub open spec fn lane_part<B>(g: Seq<Seq<B>>, lane: int) -> Seq<B> {
    Seq::new((2 * g.len()) as nat, |k: int| g[k / 2][2 * lane + k % 2])
}

proof fn lemma_rows_change<B: ObliviousBlock>(
    g: Seq<Seq<B>>,
    after: Seq<Seq<B>>,
    lane: int,
    b: B,
)
    requires
        g.len() == after.len(),
        0 <= lane < 8,
        forall|d: int| 0 <= d < g.len() ==> (#[trigger] g[d]).len() == 16,
        forall|d: int| 0 <= d < g.len() ==> (#[trigger] after[d]).len() == 16,
        forall|d: int, k: int|
            #![trigger after[d][k]]
            0 <= d < g.len() && 0 <= k < 16 && k != 2 * lane && k != 2 * lane + 1 ==> after[d][k]
                == g[d][k],
    ensures
        tally_groups(after, b) - tally(lane_part(after, lane), b) == tally_groups(g, b) - tally(
            lane_part(g, lane),
            b,
        ),
    decreases g.len(),
{
    if g.len() > 0 {
        let p = g.drop_last();
        let q = after.drop_last();
        let n = g.len() as int;
        assert forall|d: int| 0 <= d < p.len() implies (#[trigger] p[d]).len() == 16 by {
            assert(p[d] == g[d]);
        }
        assert forall|d: int| 0 <= d < q.len() implies (#[trigger] q[d]).len() == 16 by {
            assert(q[d] == after[d]);
        }
        assert forall|d: int, k: int|
            #![trigger q[d][k]]
            0 <= d < p.len() && 0 <= k < 16 && k != 2 * lane && k != 2 * lane + 1 implies q[d][k]
            == p[d][k] by {
            assert(after[d][k] == g[d][k]);
        }
        lemma_rows_change(p, q, lane, b);
        assert(g[n - 1].len() == 16 && after[n - 1].len() == 16);
        assert forall|k: int|
            0 <= k < 16 && k != 2 * lane && k != 2 * lane + 1 implies #[trigger] after[n - 1][k]
            == g[n - 1][k] by {}
        lemma_row_change(g[n - 1], after[n - 1], lane, b);
        lemma_lane_part_last(g, lane, b);
        lemma_lane_part_last(after, lane, b);
    } else {
        assert(lane_part(after, lane) =~= lane_part(g, lane));
    }
}

proof fn lemma_lane_part_last<B: ObliviousBlock>(g: Seq<Seq<B>>, lane: int, b: B)
    requires
        g.len() > 0,
    ensures
        tally(lane_part(g, lane), b) == tally(lane_part(g.drop_last(), lane), b) + hit(
            g.last()[2 * lane],
            b,
        ) + hit(g.last()[2 * lane + 1], b),
{
    let full = lane_part(g, lane);
    let n = g.len() as int;
    assert(full.drop_last().drop_last() =~= lane_part(g.drop_last(), lane));
    assert(full.last() == g.last()[2 * lane + 1]);
    assert(full.drop_last().last() == g.last()[2 * lane]);
    reveal_with_fuel(tally, 3);
}

/// The slots of one lane on a path hold at most what all buckets hold.
proof fn lemma_path_lane_counted<B: PooledBlock>(
    nodes: Seq<Seq<B>>,
    h: int,
    pos: int,
    lane: int,
    b: B,
)
    requires
        nodes_shape(nodes, h),
        0 <= pos < full_width(h - 1, 2),
        0 <= lane < 8,
    ensures
        tally(path_lane(nodes, h, pos, lane), b) <= tally_groups(nodes, b),
{
    let fresh = Seq::new((2 * h) as nat, |k: int| B::blank());
    let r = write_lane(nodes, h, pos, lane, fresh, h);
    lemma_write_lane_count(nodes, h, pos, lane, fresh, b);
    b.lemma_pooled();
    crate::tally::lemma_tally_vacant(fresh, b);
    lemma_tally_groups_positive(r, b);
}

/// [`write_lane`] changes the count by what the lane lost and gained.
pub proof fn lemma_write_lane_count<B: PooledBlock>(
    nodes: Seq<Seq<B>>,
    h: int,
    pos: int,
    lane: int,
    part: Seq<B>,
    b: B,
)
    requires
        nodes_shape(nodes, h),
        0 <= pos < full_width(h - 1, 2),
        0 <= lane < 8,
        part.len() == 2 * h,
    ensures
        tally_groups(write_lane(nodes, h, pos, lane, part, h), b) == tally_groups(nodes, b) - tally(
            path_lane(nodes, h, pos, lane),
            b,
        ) + tally(part, b),
{
    let r = write_lane(nodes, h, pos, lane, part, h);
    let places = Seq::new(h as nat, |d: int| at(h, d, pos));
    let g = places.map_values(|k: int| nodes[k]);
    let after = places.map_values(|k: int| r[k]);
    lemma_at(h, pos);
    lemma_write_lane(nodes, h, pos, lane, part, h);
    lemma_write_lane_path(nodes, h, pos, lane, part);
    assert forall|i: int| 0 <= i < places.len() implies 0 <= #[trigger] places[i]
        < nodes.len() by {
        assert(0 <= at(h, i, pos) < nodes.len());
    }
    assert forall|i: int, j: int| 0 <= i < j < places.len() implies #[trigger] places[i]
        != #[trigger] places[j] by {
        assert(at(h, i, pos) != at(h, j, pos));
    }
    assert forall|k: int| 0 <= k < nodes.len() && !places.contains(k) implies #[trigger] r[k]
        == nodes[k] by {
        assert forall|c: int| 0 <= c < 16 implies r[k][c] == nodes[k][c] by {
            if on_lane(h, pos, lane, h, k, c) {
                let e = choose|e: int| 0 <= e < h && k == #[trigger] at(h, e, pos);
                assert(places[e] == k);
            }
        }
        assert(nodes[k].len() == 16 && r[k].len() == 16);
        assert(r[k] =~= nodes[k]);
    }
    lemma_tally_scatter(nodes, r, places, b);
    assert forall|d: int| 0 <= d < g.len() implies (#[trigger] g[d]).len() == 16 by {
        assert(nodes[places[d]].len() == 16);
    }
    assert forall|d: int| 0 <= d < g.len() implies (#[trigger] after[d]).len() == 16 by {
        assert(r[places[d]].len() == 16);
    }
    assert forall|d: int, k: int|
        #![trigger after[d][k]]
        0 <= d < g.len() && 0 <= k < 16 && k != 2 * lane && k != 2 * lane + 1 implies after[d][k]
        == g[d][k] by {
        assert(!on_lane(h, pos, lane, h, places[d], k));
        assert(r[places[d]][k] == nodes[places[d]][k]);
    }
    lemma_rows_change(g, after, lane, b);
    assert(lane_part(g, lane) =~= path_lane(nodes, h, pos, lane));
    assert(lane_part(after, lane) =~= part) by {
        let got = path_lane(r, h, pos, lane);
        assert(lane_part(after, lane) =~= got);
    }
}

// ---------------------------------------------------------------------------
// Accesses.
// ---------------------------------------------------------------------------
/// Loading a lane of a path.
pub proof fn lemma_open<B: PooledBlock>(
    stash: Seq<B>,
    nodes: Seq<Seq<B>>,
    h: int,
    pos: int,
    lane: int,
)
    requires
        pool_ok(stash, nodes, h),
        0 <= pos < full_width(h - 1, 2),
        0 <= lane < 8,
    ensures
        ({
            let col = opened(stash, nodes, h, pos, lane);
            &&& open_ok(col, nodes, stash.len() as int, h, pos, lane)
            &&& forall|b: B| #[trigger]
                open_count(col, nodes, h, pos, lane)(b) == pooled_count(stash, nodes)(b)
            &&& forall|b: B| #[trigger] tally(col, b) <= pooled_count(stash, nodes)(b)
        }),
{
    let s = stash.len() as int;
    let path = path_lane(nodes, h, pos, lane);
    let col = opened(stash, nodes, h, pos, lane);
    lemma_at(h, pos);
    assert(col.take(s) =~= stash);
    assert forall|b: B| #[trigger]
        open_count(col, nodes, h, pos, lane)(b) == pooled_count(stash, nodes)(b) by {
        lemma_tally_concat(stash, path, b);
    }
    assert forall|b: B| #[trigger] tally(col, b) <= pooled_count(stash, nodes)(b) by {
        lemma_tally_concat(stash, path, b);
        lemma_path_lane_counted(nodes, h, pos, lane, b);
    }
    assert forall|k: int| s <= k < col.len() implies may_lie(
        #[trigger] col[k],
        h,
        (k - s) / 2,
        pos,
        lane,
    ) by {
        let d = (k - s) / 2;
        let c = 2 * lane + (k - s) % 2;
        assert(col[k] == nodes[at(h, d, pos)][c]);
        assert(c / 2 == lane);
    }
    assert forall|k: int| 0 <= k < col.len() && (#[trigger] col[k]).vacant() implies col[k]
        == B::blank() by {
        if k < s {
            assert(col[k] == stash[k]);
        } else {
            let n = at(h, (k - s) / 2, pos);
            assert(col[k] == nodes[n][2 * lane + (k - s) % 2]);
            assert(nodes[n].len() == 16);
            assert(level_blank(nodes[n]));
        }
    }
}

/// The depths of a column fit it.
pub proof fn lemma_depths_fit<B: PooledBlock>(col: Seq<B>, s: int, h: int, pos: int, lane: int)
    requires
        0 <= s,
        1 <= h,
        0 <= pos,
        col.len() == s + 2 * h,
    ensures
        column_fits(col, depth_column(col, s, lane, pos), s + 2),
        column_size(col, s + 2, 2, h),
{
    let d = depth_column(col, s, lane, pos);
    assert forall|k: int| 0 <= k < col.len() implies {
        &&& -1 <= #[trigger] d[k]
        &&& col[k].vacant() ==> d[k] == -1
        &&& k >= s + 2 && !col[k].vacant() ==> d[k] != -1
    } by {
        col[k].lemma_pooled();
        lemma_shared_bits(col[k].pos_int(), pos, B::pos_bits());
    }
}

/// A pass leaves blocks where they may be, and fills no stash slot.
pub proof fn lemma_evict_open<B: PooledBlock>(
    col: Seq<B>,
    after: Seq<B>,
    nodes: Seq<Seq<B>>,
    s: int,
    h: int,
    pos: int,
    lane: int,
)
    requires
        open_ok(col, nodes, s, h, pos, lane),
        column_settled(col, depth_column(col, s, lane, pos), after, s + 2, 2, h),
        level_blank(after),
        h <= B::pos_bits(),
    ensures
        open_ok(after, nodes, s, h, pos, lane),
        forall|i: int|
            0 <= i < s && !(#[trigger] after[i]).vacant() ==> after[i] == col[i],
        after == settled_column(col, depth_column(col, s, lane, pos), s + 2, h),
{
    let d = depth_column(col, s, lane, pos);
    let n0 = s + 2;
    lemma_depths_fit(col, s, h, pos, lane);
    assert forall|k: int| 0 <= k < col.len() && !(#[trigger] after[k]).vacant() implies {
        &&& after[k].pos_int() < full_width(h - 1, 2)
        &&& k >= s ==> may_lie(after[k], h, (k - s) / 2, pos, lane)
        &&& k < s ==> after[k] == col[k]
    } by {
        let l = if k < n0 {
            0
        } else {
            (k - s) / 2
        };
        lemma_column_origin(col, d, after, n0, 2, h, l, k);
        if after[k] == col[k] {
            if k < s {
                assert(col.take(s)[k] == col[k]);
            }
        } else {
            let i = choose|i: int|
                0 <= i < col.len() && after[k] == #[trigger] col[i] && d[i] >= l;
            let b = col[i];
            b.lemma_pooled();
            lemma_shared_bits(b.pos_int(), pos, B::pos_bits());
            assert(meets(b.pos_int(), pos, l));
            if i < s {
                assert(col.take(s)[i] == b);
                assert(lane_of(b) == lane);
            }
        }
    }
    assert forall|k: int| s <= k < after.len() implies may_lie(
        #[trigger] after[k],
        h,
        (k - s) / 2,
        pos,
        lane,
    ) by {}
    assert forall|i: int|
        0 <= i < after.take(s).len() && !(#[trigger] after.take(s)[i]).vacant() implies after.take(
        s,
    )[i].pos_int() < full_width(h - 1, 2) by {
        assert(after.take(s)[i] == after[i]);
    }
    lemma_settled_column(col, d, after, n0, h);
}

/// With fresh vacant slots, what a pass leaves is determined.
pub proof fn lemma_settled_column<B: ObliviousBlock>(
    col: Seq<B>,
    d: Seq<i64>,
    after: Seq<B>,
    n0: int,
    h: int,
)
    requires
        column_size(col, n0, 2, h),
        column_settled(col, d, after, n0, 2, h),
        level_blank(after),
    ensures
        after == settled_column(col, d, n0, h),
{
    let want = settled_column(col, d, n0, h);
    let g = levels(col, n0, 2, h);
    let dd = levels(d, n0, 2, h);
    let ga = levels(after, n0, 2, h);
    assert forall|k: int| 0 <= k < col.len() implies after[k] == want[k] by {
        if k < n0 {
            assert(level_settled(g, dd, ga, 0));
            assert(ga[0][k] == after[k]);
        } else {
            let l = (k - n0) / 2 + 1;
            let j = (k - n0) % 2;
            assert(level_settled(g, dd, ga, l));
            assert(ga[l][j] == after[k]);
        }
    }
    assert(after =~= want);
}

/// Writing the column back leaves blocks where they may be.
proof fn lemma_close_legal<B: PooledBlock>(
    col: Seq<B>,
    nodes: Seq<Seq<B>>,
    s: int,
    h: int,
    pos: int,
    lane: int,
)
    requires
        open_ok(col, nodes, s, h, pos, lane),
    ensures
        nodes_legal(write_lane(nodes, h, pos, lane, col.skip(s), h), h),
{
    let part = col.skip(s);
    let r = write_lane(nodes, h, pos, lane, part, h);
    lemma_at(h, pos);
    lemma_write_lane(nodes, h, pos, lane, part, h);
    assert forall|d: int, p: int, k: int|
        #![trigger r[at(h, d, p)][k]]
        0 <= d < h && 0 <= p < full_width(h - 1, 2) && 0 <= k < 16 implies may_lie(
        r[at(h, d, p)][k],
        h,
        d,
        p,
        k / 2,
    ) by {
        let n = at(h, d, p);
        lemma_at(h, p);
        if on_lane(h, pos, lane, h, n, k) {
            let e = choose|e: int| 0 <= e < h && n == #[trigger] at(h, e, pos);
            assert(at(h, e, pos) == at(h, d, p));
            assert(e == d && meets(p, pos, d));
            let j = k - 2 * lane;
            assert(part[2 * e + j] == col[s + 2 * e + j]);
            assert(r[n][k] == part[2 * e + j]);
            assert((s + 2 * e + j - s) / 2 == e);
        } else {
            assert(r[n][k] == nodes[n][k]);
        }
    }
}

/// Writing the column back leaves vacant slots fresh.
proof fn lemma_close_blank<B: PooledBlock>(
    col: Seq<B>,
    nodes: Seq<Seq<B>>,
    s: int,
    h: int,
    pos: int,
    lane: int,
)
    requires
        open_ok(col, nodes, s, h, pos, lane),
    ensures
        nodes_blank(write_lane(nodes, h, pos, lane, col.skip(s), h)),
{
    let part = col.skip(s);
    let r = write_lane(nodes, h, pos, lane, part, h);
    lemma_at(h, pos);
    lemma_write_lane(nodes, h, pos, lane, part, h);
    assert forall|n: int| 0 <= n < r.len() implies level_blank(#[trigger] r[n]) by {
        assert forall|k: int| 0 <= k < r[n].len() && (#[trigger] r[n][k]).vacant() implies r[n][k]
            == B::blank() by {
            if on_lane(h, pos, lane, h, n, k) {
                let e = choose|e: int| 0 <= e < h && n == #[trigger] at(h, e, pos);
                let j = k - 2 * lane;
                assert(part[2 * e + j] == col[s + 2 * e + j]);
                assert(r[n][k] == part[2 * e + j]);
            } else {
                assert(r[n][k] == nodes[n][k]);
                assert(level_blank(nodes[n]));
            }
        }
    }
}

/// Writing the column back puts stash and buckets at rest.
pub proof fn lemma_close<B: PooledBlock>(
    col: Seq<B>,
    nodes: Seq<Seq<B>>,
    s: int,
    h: int,
    pos: int,
    lane: int,
)
    requires
        open_ok(col, nodes, s, h, pos, lane),
        one_per_key(open_count(col, nodes, h, pos, lane), key_of::<B>()),
    ensures
        ({
            let stash = col.take(s);
            let r = write_lane(nodes, h, pos, lane, col.skip(s), h);
            &&& pool_ok(stash, r, h)
            &&& pool_map(stash, r) == by_key(
                open_count(col, nodes, h, pos, lane),
                key_of::<B>(),
            )
            &&& opened(stash, r, h, pos, lane) == col
        }),
{
    let stash = col.take(s);
    let part = col.skip(s);
    let r = write_lane(nodes, h, pos, lane, part, h);
    let before = open_count(col, nodes, h, pos, lane);
    let after = pooled_count(stash, r);
    lemma_write_lane(nodes, h, pos, lane, part, h);
    lemma_write_lane_path(nodes, h, pos, lane, part);
    lemma_close_legal(col, nodes, s, h, pos, lane);
    lemma_close_blank(col, nodes, s, h, pos, lane);
    assert(stash + part =~= col);
    assert forall|b: B| #[trigger] after(b) == before(b) by {
        lemma_write_lane_count(nodes, h, pos, lane, part, b);
        lemma_tally_concat(stash, part, b);
    }
    lemma_by_key_same(before, after, key_of::<B>());
}

/// [`settled_column`] is what a pass leaves, with fresh vacant slots.
pub proof fn lemma_settled_column_settles<B: ObliviousBlock>(
    col: Seq<B>,
    d: Seq<i64>,
    n0: int,
    h: int,
)
    requires
        column_size(col, n0, 2, h),
        column_fits(col, d, n0),
        B::blank().vacant(),
    ensures
        column_settled(col, d, settled_column(col, d, n0, h), n0, 2, h),
        level_blank(settled_column(col, d, n0, h)),
{
    let after = settled_column(col, d, n0, h);
    let g = levels(col, n0, 2, h);
    let dd = levels(d, n0, 2, h);
    let ga = levels(after, n0, 2, h);
    lemma_levels_fit(col, d, n0, 2, h);
    assert forall|l: int| 0 <= l < g.len() implies #[trigger] level_settled(g, dd, ga, l) by {
        assert(g[l].len() == (if l == 0 {
            n0
        } else {
            2
        }));
        assert forall|j: int| 0 <= j < g[l].len() implies holds(
            #[trigger] ga[l][j],
            settled(g, dd, l, j),
        ) by {
            lemma_settled_live(g, dd, l, j);
            let k = if l == 0 {
                j
            } else {
                n0 + 2 * (l - 1) + j
            };
            assert(ga[l][j] == after[k]);
            if l > 0 {
                assert((k - n0) / 2 + 1 == l && (k - n0) % 2 == j);
            }
        }
    }
    assert forall|k: int| 0 <= k < after.len() && (#[trigger] after[k]).vacant() implies after[k]
        == B::blank() by {
        if k < n0 {
            lemma_settled_live(g, dd, 0, k);
        } else {
            assert(g[(k - n0) / 2 + 1].len() == 2);
            lemma_settled_live(g, dd, (k - n0) / 2 + 1, (k - n0) % 2);
        }
    }
}

/// A pass over one lane keeps stash and buckets as they should be and stores the same
/// blocks. The stash only loses blocks.
pub proof fn lemma_evicted<B: PooledBlock>(
    stash: Seq<B>,
    nodes: Seq<Seq<B>>,
    h: int,
    pos: int,
    lane: int,
)
    requires
        pool_ok(stash, nodes, h),
        0 <= pos < full_width(h - 1, 2),
        0 <= lane < 8,
        h <= B::pos_bits(),
    ensures
        ({
            let s = stash.len() as int;
            let col = opened(stash, nodes, h, pos, lane);
            let r = evicted(stash, nodes, h, pos, lane);
            &&& pool_ok(r.0, r.1, h)
            &&& pool_map(r.0, r.1) == pool_map(stash, nodes)
            &&& r.0.len() == s
            &&& forall|i: int|
                0 <= i < s ==> #[trigger] r.0[i] == stash[i] || r.0[i].vacant()
            &&& opened(r.0, r.1, h, pos, lane) == settled_column(
                col,
                depth_column(col, s, lane, pos),
                s + 2,
                h,
            )
        }),
{
    let s = stash.len() as int;
    let col = opened(stash, nodes, h, pos, lane);
    let d = depth_column(col, s, lane, pos);
    let after = settled_column(col, d, s + 2, h);
    lemma_open(stash, nodes, h, pos, lane);
    lemma_depths_fit(col, s, h, pos, lane);
    B::blank().lemma_pooled();
    lemma_settled_column_settles(col, d, s + 2, h);
    lemma_evict_open(col, after, nodes, s, h, pos, lane);
    let before = pooled_count(stash, nodes);
    let mid = open_count(after, nodes, h, pos, lane);
    assert forall|b: B| #[trigger] mid(b) == before(b) by {
        assert(open_count(col, nodes, h, pos, lane)(b) == before(b));
        lemma_column_conserves(col, d, after, s + 2, 2, h, b);
    }
    lemma_by_key_same(before, mid, key_of::<B>());
    lemma_close(after, nodes, s, h, pos, lane);
    let r = evicted(stash, nodes, h, pos, lane);
    assert forall|i: int| 0 <= i < s implies #[trigger] r.0[i] == stash[i] || r.0[i].vacant() by {
        assert(r.0[i] == after[i]);
        assert(col[i] == stash[i]);
    }
}

// ---------------------------------------------------------------------------
// All lanes of one path.
// ---------------------------------------------------------------------------
/// The levels of a lane.
pub open spec fn lane_levels<B: PooledBlock>(
    stash: Seq<B>,
    nodes: Seq<Seq<B>>,
    h: int,
    pos: int,
    lane: int,
) -> Seq<Seq<B>> {
    levels(opened(stash, nodes, h, pos, lane), stash.len() as int + 2, 2, h)
}

/// The depths of a lane, level by level.
pub open spec fn lane_depths<B: PooledBlock>(
    stash: Seq<B>,
    nodes: Seq<Seq<B>>,
    h: int,
    pos: int,
    lane: int,
) -> Seq<Seq<i64>> {
    let col = opened(stash, nodes, h, pos, lane);
    levels(depth_column(col, stash.len() as int, lane, pos), stash.len() as int + 2, 2, h)
}

/// The level that the deepest-going block of `level` is moved to, or -1.
pub open spec fn lane_target<B: PooledBlock>(
    stash: Seq<B>,
    nodes: Seq<Seq<B>>,
    h: int,
    pos: int,
    lane: int,
    level: int,
) -> int {
    let d = lane_depths(stash, nodes, h, pos, lane);
    target_of(level_peaks(d), level_room(d), level)
}

/// Whether the pass of a lane takes the block in slot `j` of stash and root.
pub open spec fn takes_from<B: PooledBlock>(
    stash: Seq<B>,
    nodes: Seq<Seq<B>>,
    h: int,
    pos: int,
    lane: int,
    j: int,
) -> bool {
    &&& lane_target(stash, nodes, h, pos, lane, 0) != -1
    &&& peak_slot(lane_depths(stash, nodes, h, pos, lane)[0]) == j
}

/// What the pass of a lane leaves in slot `j` at depth `e` of the path.
pub open spec fn lane_settled_slot<B: PooledBlock>(
    stash: Seq<B>,
    nodes: Seq<Seq<B>>,
    h: int,
    pos: int,
    lane: int,
    e: int,
    j: int,
) -> B {
    let s = stash.len() as int;
    let col = opened(stash, nodes, h, pos, lane);
    settled_column(col, depth_column(col, s, lane, pos), s + 2, h)[s + 2 * e + j]
}

/// The stash when each of the first `m` lanes has given up the block that its own pass
/// takes.
pub open spec fn batch_stash<B: PooledBlock>(
    stash: Seq<B>,
    nodes: Seq<Seq<B>>,
    h: int,
    pos: int,
    m: int,
    after: Seq<B>,
) -> bool {
    &&& after.len() == stash.len()
    &&& forall|j: int|
        0 <= j < stash.len() ==> #[trigger] after[j] == (if exists|lane: int|
            0 <= lane < m && #[trigger] takes_from(stash, nodes, h, pos, lane, j) {
            B::blank()
        } else {
            stash[j]
        })
}

/// Slot `k` of bucket `n` belongs to one of the first `m` lanes on the path.
pub open spec fn on_lanes(h: int, pos: int, m: int, n: int, k: int) -> bool {
    k / 2 < m && exists|e: int| 0 <= e < h && n == #[trigger] at(h, e, pos)
}

/// The buckets when each of the first `m` lanes of the path is as its own pass leaves
/// it.
pub open spec fn batch_nodes<B: PooledBlock>(
    stash: Seq<B>,
    nodes: Seq<Seq<B>>,
    h: int,
    pos: int,
    m: int,
    after: Seq<Seq<B>>,
) -> bool {
    &&& nodes_shape(after, h)
    &&& forall|lane: int, e: int, j: int|
        #![trigger lane_settled_slot(stash, nodes, h, pos, lane, e, j)]
        0 <= lane < m && 0 <= e < h && 0 <= j < 2 ==> after[at(h, e, pos)][2 * lane + j]
            == lane_settled_slot(stash, nodes, h, pos, lane, e, j)
    &&& forall|n: int, k: int|
        #![trigger after[n][k]]
        0 <= n < nodes.len() && 0 <= k < 16 && !on_lanes(h, pos, m, n, k) ==> after[n][k]
            == nodes[n][k]
}

/// [`batch_stash`] and [`batch_nodes`] determine stash and buckets.
pub proof fn lemma_batch_unique<B: PooledBlock>(
    stash: Seq<B>,
    nodes: Seq<Seq<B>>,
    h: int,
    pos: int,
    m: int,
    st1: Seq<B>,
    nd1: Seq<Seq<B>>,
    st2: Seq<B>,
    nd2: Seq<Seq<B>>,
)
    requires
        nodes_shape(nodes, h),
        0 <= pos < full_width(h - 1, 2),
        0 <= m <= 8,
        batch_stash(stash, nodes, h, pos, m, st1),
        batch_nodes(stash, nodes, h, pos, m, nd1),
        batch_stash(stash, nodes, h, pos, m, st2),
        batch_nodes(stash, nodes, h, pos, m, nd2),
    ensures
        st1 == st2,
        nd1 == nd2,
{
    assert(st1 =~= st2);
    assert forall|n: int| 0 <= n < nodes.len() implies nd1[n] == nd2[n] by {
        assert(nd1[n].len() == 16 && nd2[n].len() == 16);
        assert forall|k: int| 0 <= k < 16 implies nd1[n][k] == nd2[n][k] by {
            if on_lanes(h, pos, m, n, k) {
                let e = choose|e: int| 0 <= e < h && n == #[trigger] at(h, e, pos);
                let lane = k / 2;
                let j = k % 2;
                assert(nd1[at(h, e, pos)][2 * lane + j] == lane_settled_slot(
                    stash,
                    nodes,
                    h,
                    pos,
                    lane,
                    e,
                    j,
                ));
                assert(2 * lane + j == k);
            } else {
                assert(nd1[n][k] == nodes[n][k]);
            }
        }
        assert(nd1[n] =~= nd2[n]);
    }
    assert(nd1 =~= nd2);
}

/// What a pass takes out of level zero belongs to the lane.
pub proof fn lemma_takes_own<B: PooledBlock>(
    stash: Seq<B>,
    nodes: Seq<Seq<B>>,
    h: int,
    pos: int,
    lane: int,
    j: int,
)
    requires
        pool_ok(stash, nodes, h),
        0 <= pos < full_width(h - 1, 2),
        0 <= lane < 8,
        takes_from(stash, nodes, h, pos, lane, j),
    ensures
        0 <= j < stash.len() + 2,
        !opened(stash, nodes, h, pos, lane)[j].vacant(),
        j < stash.len() ==> lane_of(stash[j]) == lane,
{
    let s = stash.len() as int;
    let col = opened(stash, nodes, h, pos, lane);
    let d = depth_column(col, s, lane, pos);
    lemma_open(stash, nodes, h, pos, lane);
    lemma_depths_fit(col, s, h, pos, lane);
    lemma_levels_fit(col, d, s + 2, 2, h);
    lemma_first_step(
        lane_levels(stash, nodes, h, pos, lane),
        lane_depths(stash, nodes, h, pos, lane),
    );
    assert(lane_depths(stash, nodes, h, pos, lane)[0][j] == d[j]);
    assert(lane_levels(stash, nodes, h, pos, lane)[0][j] == col[j]);
    if j < s {
        assert(col[j] == stash[j]);
    }
}

/// Passes over the first `m` lanes, one after another, leave every lane as its own pass
/// on the state before would, because a pass touches nothing of another lane.
pub proof fn lemma_batch_sequential<B: PooledBlock>(
    stash: Seq<B>,
    nodes: Seq<Seq<B>>,
    h: int,
    pos: int,
    m: int,
)
    requires
        pool_ok(stash, nodes, h),
        0 <= pos < full_width(h - 1, 2),
        0 <= m <= 8,
        h <= B::pos_bits(),
    ensures
        ({
            let r = evicted_lanes(stash, nodes, h, pos, m);
            &&& batch_stash(stash, nodes, h, pos, m, r.0)
            &&& batch_nodes(stash, nodes, h, pos, m, r.1)
            &&& pool_ok(r.0, r.1, h)
            &&& pool_map(r.0, r.1) == pool_map(stash, nodes)
            &&& forall|i: int|
                0 <= i < stash.len() ==> #[trigger] r.0[i] == stash[i] || r.0[i].vacant()
        }),
    decreases m,
{
    if m > 0 {
        lemma_batch_sequential(stash, nodes, h, pos, m - 1);
        let prev = evicted_lanes(stash, nodes, h, pos, m - 1);
        let r = evicted_lanes(stash, nodes, h, pos, m);
        lemma_evicted(prev.0, prev.1, h, pos, m - 1);
        lemma_lane_untouched(stash, nodes, h, pos, m - 1, prev.0, prev.1);
        lemma_batch_step_stash(stash, nodes, h, pos, m - 1, prev.0, prev.1);
        lemma_batch_step_nodes(stash, nodes, h, pos, m - 1, prev.0, prev.1);
        assert forall|i: int| 0 <= i < stash.len() implies #[trigger] r.0[i] == stash[i]
            || r.0[i].vacant() by {
            assert(prev.0[i] == stash[i] || prev.0[i].vacant());
            assert(r.0[i] == prev.0[i] || r.0[i].vacant());
        }
    } else {
        assert forall|n: int, k: int| 0 <= n < nodes.len() && 0 <= k < 16 implies !on_lanes(
            h,
            pos,
            0,
            n,
            k,
        ) by {}
    }
}

/// The depths of a lane, and what its pass leaves in the slots of the path, are the same
/// once other lanes were passed over.
proof fn lemma_lane_untouched<B: PooledBlock>(
    stash: Seq<B>,
    nodes: Seq<Seq<B>>,
    h: int,
    pos: int,
    m: int,
    st: Seq<B>,
    nd: Seq<Seq<B>>,
)
    requires
        pool_ok(stash, nodes, h),
        pool_ok(st, nd, h),
        0 <= pos < full_width(h - 1, 2),
        0 <= m < 8,
        batch_stash(stash, nodes, h, pos, m, st),
        batch_nodes(stash, nodes, h, pos, m, nd),
    ensures
        path_lane(nd, h, pos, m) == path_lane(nodes, h, pos, m),
        ({
            let s = stash.len() as int;
            let col = opened(stash, nodes, h, pos, m);
            let col2 = opened(st, nd, h, pos, m);
            let d = depth_column(col, s, m, pos);
            &&& depth_column(col2, s, m, pos) == d
            &&& forall|k: int|
                0 <= k < col.len() && #[trigger] d[k] >= 0 ==> col2[k] == col[k]
            &&& forall|k: int| s <= k < col.len() ==> #[trigger] col2[k] == col[k]
        }),
{
    let s = stash.len() as int;
    let col = opened(stash, nodes, h, pos, m);
    let col2 = opened(st, nd, h, pos, m);
    let d = depth_column(col, s, m, pos);
    let d2 = depth_column(col2, s, m, pos);
    lemma_at(h, pos);
    let p1 = path_lane(nodes, h, pos, m);
    let p2 = path_lane(nd, h, pos, m);
    assert forall|k: int| 0 <= k < 2 * h implies p1[k] == p2[k] by {
        let n = at(h, k / 2, pos);
        let c = 2 * m + k % 2;
        assert(c / 2 == m);
        assert(!on_lanes(h, pos, m, n, c));
        assert(nd[n][c] == nodes[n][c]);
    }
    assert(p1 =~= p2);
    assert forall|k: int| 0 <= k < col.len() implies d2[k] == d[k] && (d[k] >= 0 ==> col2[k]
        == col[k]) by {
        if k < s {
            assert(col[k] == stash[k] && col2[k] == st[k]);
            if exists|lane: int|
                0 <= lane < m && #[trigger] takes_from(stash, nodes, h, pos, lane, k) {
                let lane = choose|lane: int|
                    0 <= lane < m && #[trigger] takes_from(stash, nodes, h, pos, lane, k);
                lemma_takes_own(stash, nodes, h, pos, lane, k);
                B::blank().lemma_pooled();
            }
        }
    }
    assert(d2 =~= d);
}

/// What a pass leaves depends on the column only through its depths, the blocks that can
/// move, and the slot itself.
proof fn lemma_settled_depends<B: ObliviousBlock>(
    col: Seq<B>,
    col2: Seq<B>,
    d: Seq<i64>,
    n0: int,
    h: int,
    k: int,
)
    requires
        column_size(col, n0, 2, h),
        column_fits(col, d, n0),
        col2.len() == col.len(),
        forall|i: int| 0 <= i < col.len() && #[trigger] d[i] >= 0 ==> col2[i] == col[i],
        0 <= k < col.len(),
    ensures
        col2[k] == col[k] ==> settled_at(col2, d, n0, h, k) == settled_at(col, d, n0, h, k),
        k < n0 ==> settled_at(col2, d, n0, h, k) == (if col2[k].vacant() || (target_of(
            level_peaks(levels(d, n0, 2, h)),
            level_room(levels(d, n0, 2, h)),
            0,
        ) != -1 && k == peak_slot(levels(d, n0, 2, h)[0])) {
            None::<B>
        } else {
            Some(col2[k])
        }),
{
    let g = levels(col, n0, 2, h);
    let g2 = levels(col2, n0, 2, h);
    let dd = levels(d, n0, 2, h);
    lemma_levels_fit(col, d, n0, 2, h);
    let l = if k < n0 {
        0
    } else {
        (k - n0) / 2 + 1
    };
    let j = if k < n0 {
        k
    } else {
        (k - n0) % 2
    };
    assert(g[l][j] == col[k]);
    assert(g2[l][j] == col2[k]);
    let peaks = level_peaks(dd);
    let room = level_room(dd);
    if l > 0 && receives(peaks, room, l) {
        crate::circuit::lemma_bound_for(peaks, room, l);
        let m = donor(peaks, l);
        lemma_peak(dd[m]);
        let i = peak_slot(dd[m]);
        assert(g[m].len() == dd[m].len());
        let c = if m == 0 {
            i
        } else {
            n0 + 2 * (m - 1) + i
        };
        assert(dd[m][i] == d[c]);
        assert(g[m][i] == col[c]);
        assert(g2[m][i] == col2[c]);
        assert(received(g, dd, l) == received(g2, dd, l));
    }
}

proof fn lemma_batch_step_stash<B: PooledBlock>(
    stash: Seq<B>,
    nodes: Seq<Seq<B>>,
    h: int,
    pos: int,
    m: int,
    st: Seq<B>,
    nd: Seq<Seq<B>>,
)
    requires
        pool_ok(stash, nodes, h),
        pool_ok(st, nd, h),
        0 <= pos < full_width(h - 1, 2),
        0 <= m < 8,
        batch_stash(stash, nodes, h, pos, m, st),
        batch_nodes(stash, nodes, h, pos, m, nd),
    ensures
        batch_stash(stash, nodes, h, pos, m + 1, evicted(st, nd, h, pos, m).0),
{
    let s = stash.len() as int;
    let r = evicted(st, nd, h, pos, m);
    let col = opened(stash, nodes, h, pos, m);
    let col2 = opened(st, nd, h, pos, m);
    let d = depth_column(col, s, m, pos);
    lemma_lane_untouched(stash, nodes, h, pos, m, st, nd);
    lemma_open(stash, nodes, h, pos, m);
    lemma_open(st, nd, h, pos, m);
    lemma_depths_fit(col, s, h, pos, m);
    B::blank().lemma_pooled();
    assert forall|j: int| 0 <= j < s implies #[trigger] r.0[j] == (if exists|lane: int|
        0 <= lane < m + 1 && #[trigger] takes_from(stash, nodes, h, pos, lane, j) {
        B::blank()
    } else {
        stash[j]
    }) by {
        lemma_settled_depends(col, col2, d, s + 2, h, j);
        assert(col2[j] == st[j]);
        if takes_from(stash, nodes, h, pos, m, j) {
            assert(r.0[j] == B::blank());
        } else if exists|lane: int|
            0 <= lane < m + 1 && #[trigger] takes_from(stash, nodes, h, pos, lane, j) {
            let lane = choose|lane: int|
                0 <= lane < m + 1 && #[trigger] takes_from(stash, nodes, h, pos, lane, j);
            assert(lane < m);
            assert(st[j] == B::blank());
        } else {
            assert(st[j] == stash[j]);
            if stash[j].vacant() {
                assert(stash[j] == B::blank());
            }
        }
    }
}

proof fn lemma_batch_step_nodes<B: PooledBlock>(
    stash: Seq<B>,
    nodes: Seq<Seq<B>>,
    h: int,
    pos: int,
    m: int,
    st: Seq<B>,
    nd: Seq<Seq<B>>,
)
    requires
        pool_ok(stash, nodes, h),
        pool_ok(st, nd, h),
        0 <= pos < full_width(h - 1, 2),
        0 <= m < 8,
        batch_stash(stash, nodes, h, pos, m, st),
        batch_nodes(stash, nodes, h, pos, m, nd),
    ensures
        batch_nodes(stash, nodes, h, pos, m + 1, evicted(st, nd, h, pos, m).1),
{
    let s = stash.len() as int;
    let r = evicted(st, nd, h, pos, m);
    let col = opened(stash, nodes, h, pos, m);
    let col2 = opened(st, nd, h, pos, m);
    let d = depth_column(col, s, m, pos);
    let after = settled_column(col2, d, s + 2, h);
    lemma_lane_untouched(stash, nodes, h, pos, m, st, nd);
    lemma_open(stash, nodes, h, pos, m);
    lemma_depths_fit(col, s, h, pos, m);
    lemma_write_lane(nd, h, pos, m, after.skip(s), h);
    lemma_at(h, pos);
    assert forall|lane: int, e: int, j: int|
        #![trigger lane_settled_slot(stash, nodes, h, pos, lane, e, j)]
        0 <= lane < m + 1 && 0 <= e < h && 0 <= j < 2 implies r.1[at(h, e, pos)][2 * lane + j]
        == lane_settled_slot(stash, nodes, h, pos, lane, e, j) by {
        let n = at(h, e, pos);
        if lane == m {
            let k = s + 2 * e + j;
            assert(after.skip(s)[2 * e + j] == after[k]);
            lemma_settled_depends(col, col2, d, s + 2, h, k);
            assert(col2[k] == col[k]);
        } else {
            assert(!on_lane(h, pos, m, h, n, 2 * lane + j));
            assert(r.1[n][2 * lane + j] == nd[n][2 * lane + j]);
        }
    }
    assert forall|n: int, k: int|
        #![trigger r.1[n][k]]
        0 <= n < nodes.len() && 0 <= k < 16 && !on_lanes(h, pos, m + 1, n, k) implies r.1[n][k]
        == nodes[n][k] by {
        if on_lane(h, pos, m, h, n, k) {
            let e = choose|e: int| 0 <= e < h && n == #[trigger] at(h, e, pos);
            assert(k / 2 == m);
        }
        assert(r.1[n][k] == nd[n][k]);
        if on_lanes(h, pos, m, n, k) {
            let e = choose|e: int| 0 <= e < h && n == #[trigger] at(h, e, pos);
            assert(on_lanes(h, pos, m + 1, n, k));
        }
    }
}

/// A stored block is in the stash or in its lane on the path to its position.
pub proof fn lemma_stored_is_opened<B: PooledBlock>(
    stash: Seq<B>,
    nodes: Seq<Seq<B>>,
    h: int,
    key: B::Key,
)
    requires
        pool_ok(stash, nodes, h),
        pool_map(stash, nodes).contains_key(key),
    ensures
        ({
            let b = pool_map(stash, nodes)[key];
            &&& !b.vacant()
            &&& b.block_key() == key
            &&& 0 <= b.pos_int() < full_width(h - 1, 2)
            &&& opened(stash, nodes, h, b.pos_int(), lane_of(b)).contains(b)
        }),
{
    let count = pooled_count(stash, nodes);
    let b = pool_map(stash, nodes)[key];
    assert(count(b) > 0 && key_of::<B>()(b) == key);
    b.lemma_pooled();
    lemma_tally_positive(stash, b);
    lemma_tally_groups_positive(nodes, b);
    if tally(stash, b) > 0 {
        let i = choose|i: int| 0 <= i < stash.len() && stash[i] == b;
        assert(opened(stash, nodes, h, b.pos_int(), lane_of(b))[i] == b);
    } else {
        let n = choose|n: int|
            0 <= n < nodes.len() && !b.vacant() && (#[trigger] nodes[n]).contains(b);
        let k = choose|k: int| 0 <= k < nodes[n].len() && nodes[n][k] == b;
        assert(nodes[n].len() == 16);
        lemma_binary_nodes(h);
        lemma_full_width(h - 1, 2);
        let (d, p) = lemma_index_has_path(n, h, 2, full_width(h - 1, 2));
        assert(at(h, d, p) == n);
        assert(may_lie(nodes[at(h, d, p)][k], h, d, p, k / 2));
        lemma_at(h, b.pos_int());
        assert(at(h, d, b.pos_int()) == at(h, d, p));
        let col = opened(stash, nodes, h, b.pos_int(), lane_of(b));
        let i = stash.len() + 2 * d + k % 2;
        assert(col[i] == nodes[at(h, (i - stash.len()) / 2, b.pos_int())][2 * lane_of(b) + (i
            - stash.len()) % 2]);
        assert(2 * (k / 2) + k % 2 == k);
        assert(col[i] == b);
    }
}

/// What a loaded column holds is stored.
pub proof fn lemma_opened_is_stored<B: PooledBlock>(
    stash: Seq<B>,
    nodes: Seq<Seq<B>>,
    h: int,
    pos: int,
    lane: int,
    i: int,
)
    requires
        pool_ok(stash, nodes, h),
        0 <= pos < full_width(h - 1, 2),
        0 <= lane < 8,
        0 <= i < opened(stash, nodes, h, pos, lane).len(),
        !opened(stash, nodes, h, pos, lane)[i].vacant(),
    ensures
        ({
            let b = opened(stash, nodes, h, pos, lane)[i];
            &&& pooled_count(stash, nodes)(b) > 0
            &&& pool_map(stash, nodes).contains_key(b.block_key())
            &&& pool_map(stash, nodes)[b.block_key()] == b
        }),
{
    let col = opened(stash, nodes, h, pos, lane);
    let b = col[i];
    lemma_open(stash, nodes, h, pos, lane);
    lemma_tally_positive(col, b);
    assert(col.contains(b));
    assert(tally(col, b) <= pooled_count(stash, nodes)(b));
    lemma_by_key(pooled_count(stash, nodes), key_of::<B>(), b);
}

/// No two slots of a loaded column hold blocks of one key.
pub proof fn lemma_one_slot_per_key<B: PooledBlock>(
    stash: Seq<B>,
    nodes: Seq<Seq<B>>,
    h: int,
    pos: int,
    lane: int,
)
    requires
        pool_ok(stash, nodes, h),
        0 <= pos < full_width(h - 1, 2),
        0 <= lane < 8,
    ensures
        ({
            let col = opened(stash, nodes, h, pos, lane);
            forall|i: int, j: int|
                0 <= i < col.len() && 0 <= j < col.len() && !(#[trigger] col[i]).vacant() && !(
                #[trigger] col[j]).vacant() && col[i].block_key() == col[j].block_key() ==> i == j
        }),
{
    let col = opened(stash, nodes, h, pos, lane);
    let count = pooled_count(stash, nodes);
    lemma_open(stash, nodes, h, pos, lane);
    assert forall|i: int, j: int|
        0 <= i < col.len() && 0 <= j < col.len() && !(#[trigger] col[i]).vacant() && !(
        #[trigger] col[j]).vacant() && col[i].block_key() == col[j].block_key() implies i == j by {
        let b = col[i];
        lemma_opened_is_stored(stash, nodes, h, pos, lane, i);
        lemma_opened_is_stored(stash, nodes, h, pos, lane, j);
        assert(tally(col, b) <= count(b));
        assert(count(b) <= 1);
        if i < j {
            lemma_tally_twice(col, i, j, b);
        } else if j < i {
            lemma_tally_twice(col, j, i, b);
        }
    }
}

} // verus!
