//! What evictions of a pooled tree achieve, lane by lane.
//!
//! The laws count the blocks of a lane from a level of a path on, and say on the slots
//! alone when an eviction brings one more block that deep.
use vstd::prelude::*;
use crate::circuit_laws::{lemma_column_progress, lemma_column_reaches, live};
use crate::heap_tree::full_width;
use crate::path_access::{first_vacant, lemma_first_vacant, with_block};
use crate::pooled::{accessed, at, depth_column, evicted, evicted_lanes, lane_of};
use crate::pooled::{lane_settled_slot, lemma_at, lemma_batch_sequential, lemma_depths_fit};
use crate::pooled::{lemma_settled_column_settles, lemma_write_lane_path};
use crate::pooled::{nodes_shape, opened, path_lane, pool_ok, settled_column, without_key};
use crate::pooled::PooledBlock;
use crate::suffix::{lemma_shared_bits, meets};

verus! {

/// The number of blocks of a lane from level `l` of the path to `pos` on.
pub open spec fn blocks_from<B: PooledBlock>(
    nodes: Seq<Seq<B>>,
    h: int,
    pos: int,
    lane: int,
    l: int,
) -> int {
    live(path_lane(nodes, h, pos, lane).skip(2 * l))
}

/// A lane has a vacant slot at level `l` of the path to `pos`.
pub open spec fn lane_open<B: PooledBlock>(
    nodes: Seq<Seq<B>>,
    h: int,
    pos: int,
    lane: int,
    l: int,
) -> bool {
    exists|j: int| 0 <= j < 2 && (#[trigger] nodes[at(h, l, pos)][2 * lane + j]).vacant()
}

/// A block that may go to level `l` of the path to `pos`: its position has the same
/// lowest `l` bits.
pub open spec fn may_reach<B: PooledBlock>(b: B, pos: int, l: int) -> bool {
    !b.vacant() && meets(b.pos_int(), pos, l)
}

/// A block of the lane in the stash, or higher up on the path to `pos`, may go to level
/// `l`.
pub open spec fn lane_ready<B: PooledBlock>(
    stash: Seq<B>,
    nodes: Seq<Seq<B>>,
    h: int,
    pos: int,
    lane: int,
    l: int,
) -> bool {
    ||| exists|i: int|
        0 <= i < stash.len() && lane_of(#[trigger] stash[i]) == lane && may_reach(stash[i], pos, l)
    ||| exists|e: int, j: int|
        0 <= e < l && 0 <= j < 2 && may_reach(
            #[trigger] nodes[at(h, e, pos)][2 * lane + j],
            pos,
            l,
        )
}

/// A block of the lane in the stash, or above level `l` on the path to `pos`, may go to level
/// `e`.
pub open spec fn lane_ready_to<B: PooledBlock>(
    stash: Seq<B>,
    nodes: Seq<Seq<B>>,
    h: int,
    pos: int,
    lane: int,
    l: int,
    e: int,
) -> bool {
    ||| exists|i: int|
        0 <= i < stash.len() && lane_of(#[trigger] stash[i]) == lane && may_reach(stash[i], pos, e)
    ||| exists|a: int, j: int|
        0 <= a < l && 0 <= j < 2 && may_reach(
            #[trigger] nodes[at(h, a, pos)][2 * lane + j],
            pos,
            e,
        )
}

/// One pass over the lane: no level loses a block to the levels above it, one block at
/// most gets past each level, and one does where the level is open and a block is ready. One
/// gets past every level between an open one and a block above that may go there; so a block
/// leaves stash and root where one of them may go to an open level below.
pub open spec fn lane_progress<B: PooledBlock>(
    stash: Seq<B>,
    nodes: Seq<Seq<B>>,
    after: Seq<Seq<B>>,
    h: int,
    pos: int,
    lane: int,
) -> bool {
    forall|l: int|
        1 <= l < h ==> {
            let was = blocks_from(nodes, h, pos, lane, l);
            let now = #[trigger] blocks_from(after, h, pos, lane, l);
            &&& was <= now <= was + 1
            &&& lane_open(nodes, h, pos, lane, l) && lane_ready(stash, nodes, h, pos, lane, l)
                ==> now == was + 1
            &&& !lane_ready(stash, nodes, h, pos, lane, l) ==> now == was
            &&& forall|e: int|
                l <= e < h && #[trigger] lane_open(nodes, h, pos, lane, e) && lane_ready_to(
                    stash,
                    nodes,
                    h,
                    pos,
                    lane,
                    l,
                    e,
                ) ==> now == was + 1
        }
}

/// A depth of a column reaches a level exactly where the block may go there.
proof fn lemma_depth_reaches<B: PooledBlock>(
    col: Seq<B>,
    s: int,
    pos: int,
    lane: int,
    k: int,
    l: int,
)
    requires
        0 <= s,
        0 <= k < col.len(),
        0 <= pos,
        1 <= l <= B::pos_bits(),
    ensures
        depth_column(col, s, lane, pos)[k] >= l <==> may_reach(col[k], pos, l) && (k < s
            ==> lane_of(col[k]) == lane),
{
    col[k].lemma_pooled();
    lemma_shared_bits(col[k].pos_int(), pos, B::pos_bits());
    assert(l <= crate::suffix::shared_bits(col[k].pos_int(), pos, B::pos_bits()) <==> meets(
        col[k].pos_int(),
        pos,
        l,
    ));
}

/// A slot of the column that holds a block that may go to level `l`.
spec fn ready_at<B: PooledBlock>(col: Seq<B>, s: int, pos: int, lane: int, l: int, k: int) -> bool {
    0 <= k < s + 2 * l && may_reach(col[k], pos, l) && (k < s ==> lane_of(col[k]) == lane)
}

/// A pass over a column in which `s` slots are the stash.
proof fn lemma_column_step<B: PooledBlock>(col: Seq<B>, s: int, h: int, pos: int, lane: int, l: int)
    requires
        0 <= s,
        2 <= h <= B::pos_bits(),
        0 <= pos,
        col.len() == s + 2 * h,
        1 <= l < h,
    ensures
        ({
            let after = settled_column(col, depth_column(col, s, lane, pos), s + 2, h);
            let was = live(col.skip(s + 2 * l));
            let now = live(after.skip(s + 2 * l));
            let ready = exists|k: int| #[trigger] ready_at(col, s, pos, lane, l, k);
            &&& was <= now <= was + 1
            &&& (col[s + 2 * l].vacant() || col[s + 2 * l + 1].vacant()) && ready ==> now == was + 1
            &&& !ready ==> now == was
        }),
{
    let d = depth_column(col, s, lane, pos);
    let after = settled_column(col, d, s + 2, h);
    lemma_depths_fit(col, s, h, pos, lane);
    B::blank().lemma_pooled();
    lemma_settled_column_settles(col, d, s + 2, h);
    lemma_column_progress(col, d, after, s + 2, 2, h, l);
    let start = s + 2 + (l - 1) * 2;
    assert(start == s + 2 * l);
    assert(col[start].vacant() ==> start <= start < start + 2);
    assert(col[start + 1].vacant() ==> start <= start + 1 < start + 2);
    assert forall|k: int| 0 <= k < s + 2 * l implies (#[trigger] d[k] >= l <==> may_reach(
        col[k],
        pos,
        l,
    ) && (k < s ==> lane_of(col[k]) == lane)) by {
        lemma_depth_reaches(col, s, pos, lane, k, l);
    }
    if exists|k: int| #[trigger] ready_at(col, s, pos, lane, l, k) {
        let k = choose|k: int| #[trigger] ready_at(col, s, pos, lane, l, k);
        assert(d[k] >= l);
    }
    if exists|k: int| 0 <= k < start && #[trigger] d[k] >= l {
        let k = choose|k: int| 0 <= k < start && #[trigger] d[k] >= l;
        assert(ready_at(col, s, pos, lane, l, k));
    }
}

proof fn lemma_path_slot<B: PooledBlock>(
    stash: Seq<B>,
    nodes: Seq<Seq<B>>,
    h: int,
    pos: int,
    lane: int,
    e: int,
    j: int,
)
    requires
        0 <= e < h,
        0 <= j < 2,
    ensures
        opened(stash, nodes, h, pos, lane)[stash.len() + 2 * e + j]
            == nodes[at(h, e, pos)][2 * lane + j],
{
    assert((2 * e + j) / 2 == e && (2 * e + j) % 2 == j);
}

proof fn lemma_ready<B: PooledBlock>(
    stash: Seq<B>,
    nodes: Seq<Seq<B>>,
    h: int,
    pos: int,
    lane: int,
    l: int,
)
    requires
        1 <= l < h,
    ensures
        ({
            let col = opened(stash, nodes, h, pos, lane);
            let s = stash.len() as int;
            &&& lane_ready(stash, nodes, h, pos, lane, l) <==> exists|k: int| #[trigger]
                ready_at(col, s, pos, lane, l, k)
            &&& lane_open(nodes, h, pos, lane, l) <==> col[s + 2 * l].vacant() || col[s + 2 * l
                + 1].vacant()
        }),
{
    let s = stash.len() as int;
    let col = opened(stash, nodes, h, pos, lane);
    lemma_path_slot(stash, nodes, h, pos, lane, l, 0);
    lemma_path_slot(stash, nodes, h, pos, lane, l, 1);
    let n = at(h, l, pos);
    if col[s + 2 * l].vacant() {
        assert(nodes[n][2 * lane + 0].vacant());
    }
    if col[s + 2 * l + 1].vacant() {
        assert(nodes[n][2 * lane + 1].vacant());
    }
    if exists|i: int|
        0 <= i < stash.len() && lane_of(#[trigger] stash[i]) == lane && may_reach(
            stash[i],
            pos,
            l,
        ) {
        let i = choose|i: int|
            0 <= i < stash.len() && lane_of(#[trigger] stash[i]) == lane && may_reach(
                stash[i],
                pos,
                l,
            );
        assert(col[i] == stash[i]);
        assert(ready_at(col, s, pos, lane, l, i));
    }
    if exists|e: int, j: int|
        0 <= e < l && 0 <= j < 2 && may_reach(
            #[trigger] nodes[at(h, e, pos)][2 * lane + j],
            pos,
            l,
        ) {
        let (e, j) = choose|e: int, j: int|
            0 <= e < l && 0 <= j < 2 && may_reach(
                #[trigger] nodes[at(h, e, pos)][2 * lane + j],
                pos,
                l,
            );
        lemma_path_slot(stash, nodes, h, pos, lane, e, j);
        assert(ready_at(col, s, pos, lane, l, s + 2 * e + j));
    }
    if exists|k: int| #[trigger] ready_at(col, s, pos, lane, l, k) {
        let k = choose|k: int| #[trigger] ready_at(col, s, pos, lane, l, k);
        if k < s {
            assert(stash[k] == col[k]);
        } else {
            let e = (k - s) / 2;
            let j = (k - s) % 2;
            lemma_path_slot(stash, nodes, h, pos, lane, e, j);
            assert(may_reach(nodes[at(h, e, pos)][2 * lane + j], pos, l));
        }
    }
}

/// A pass over the column of a lane brings a block past every level between an open one and a
/// block above that may go there.
proof fn lemma_lane_reaches<B: PooledBlock>(
    stash: Seq<B>,
    nodes: Seq<Seq<B>>,
    h: int,
    pos: int,
    lane: int,
    l: int,
    e: int,
)
    requires
        2 <= h <= B::pos_bits(),
        0 <= pos,
        1 <= l <= e < h,
        lane_open(nodes, h, pos, lane, e),
        lane_ready_to(stash, nodes, h, pos, lane, l, e),
    ensures
        ({
            let s = stash.len() as int;
            let col = opened(stash, nodes, h, pos, lane);
            let out = settled_column(col, depth_column(col, s, lane, pos), s + 2, h);
            live(out.skip(s + 2 * l)) == live(col.skip(s + 2 * l)) + 1
        }),
{
    let s = stash.len() as int;
    let col = opened(stash, nodes, h, pos, lane);
    let d = depth_column(col, s, lane, pos);
    let out = settled_column(col, d, s + 2, h);
    lemma_depths_fit(col, s, h, pos, lane);
    B::blank().lemma_pooled();
    lemma_settled_column_settles(col, d, s + 2, h);
    let j = choose|j: int| 0 <= j < 2 && (#[trigger] nodes[at(h, e, pos)][2 * lane + j]).vacant();
    lemma_path_slot(stash, nodes, h, pos, lane, e, j);
    let k = s + 2 * e + j;
    let i = if exists|i: int|
        0 <= i < stash.len() && lane_of(#[trigger] stash[i]) == lane && may_reach(
            stash[i],
            pos,
            e,
        ) {
        choose|i: int|
            0 <= i < stash.len() && lane_of(#[trigger] stash[i]) == lane && may_reach(
                stash[i],
                pos,
                e,
            )
    } else {
        let (a, c) = choose|a: int, c: int|
            0 <= a < l && 0 <= c < 2 && may_reach(
                #[trigger] nodes[at(h, a, pos)][2 * lane + c],
                pos,
                e,
            );
        lemma_path_slot(stash, nodes, h, pos, lane, a, c);
        s + 2 * a + c
    };
    assert(i < s ==> col[i] == stash[i]);
    lemma_depth_reaches(col, s, pos, lane, i, e);
    assert(s + 2 + (e - 1) * 2 == s + 2 * e && s + 2 + (l - 1) * 2 == s + 2 * l);
    lemma_column_reaches(col, d, out, s + 2, 2, h, l, e, k, i);
}

/// A pass over the column of a lane makes progress, wherever its slots end up.
proof fn lemma_lane_step<B: PooledBlock>(
    stash: Seq<B>,
    nodes: Seq<Seq<B>>,
    after: Seq<Seq<B>>,
    h: int,
    pos: int,
    lane: int,
)
    requires
        nodes_shape(nodes, h),
        h <= B::pos_bits(),
        0 <= pos < full_width(h - 1, 2),
        0 <= lane < 8,
        ({
            let s = stash.len() as int;
            let col = opened(stash, nodes, h, pos, lane);
            path_lane(after, h, pos, lane) == settled_column(
                col,
                depth_column(col, s, lane, pos),
                s + 2,
                h,
            ).skip(s)
        }),
    ensures
        lane_progress(stash, nodes, after, h, pos, lane),
{
    let s = stash.len() as int;
    let col = opened(stash, nodes, h, pos, lane);
    let out = settled_column(col, depth_column(col, s, lane, pos), s + 2, h);
    assert forall|l: int| 1 <= l < h implies {
        let was = blocks_from(nodes, h, pos, lane, l);
        let now = #[trigger] blocks_from(after, h, pos, lane, l);
        &&& was <= now <= was + 1
        &&& lane_open(nodes, h, pos, lane, l) && lane_ready(stash, nodes, h, pos, lane, l) ==> now
            == was + 1
        &&& !lane_ready(stash, nodes, h, pos, lane, l) ==> now == was
        &&& forall|e: int|
            l <= e < h && #[trigger] lane_open(nodes, h, pos, lane, e) && lane_ready_to(
                stash,
                nodes,
                h,
                pos,
                lane,
                l,
                e,
            ) ==> now == was + 1
    } by {
        lemma_column_step(col, s, h, pos, lane, l);
        lemma_ready(stash, nodes, h, pos, lane, l);
        assert(col.skip(s + 2 * l) =~= path_lane(nodes, h, pos, lane).skip(2 * l));
        assert(out.skip(s).skip(2 * l) =~= out.skip(s + 2 * l));
        assert forall|e: int|
            l <= e < h && #[trigger] lane_open(nodes, h, pos, lane, e) && lane_ready_to(
                stash,
                nodes,
                h,
                pos,
                lane,
                l,
                e,
            ) implies blocks_from(after, h, pos, lane, l) == blocks_from(nodes, h, pos, lane, l)
            + 1 by {
            lemma_lane_reaches(stash, nodes, h, pos, lane, l, e);
        }
    }
}

/// An eviction of one lane makes progress in that lane.
pub proof fn lemma_evicted_progress<B: PooledBlock>(
    stash: Seq<B>,
    nodes: Seq<Seq<B>>,
    h: int,
    pos: int,
    lane: int,
)
    requires
        pool_ok(stash, nodes, h),
        h <= B::pos_bits(),
        0 <= pos < full_width(h - 1, 2),
        0 <= lane < 8,
    ensures
        lane_progress(stash, nodes, evicted(stash, nodes, h, pos, lane).1, h, pos, lane),
{
    let s = stash.len() as int;
    let col = opened(stash, nodes, h, pos, lane);
    let after = settled_column(col, depth_column(col, s, lane, pos), s + 2, h);
    lemma_write_lane_path(nodes, h, pos, lane, after.skip(s));
    lemma_lane_step(stash, nodes, evicted(stash, nodes, h, pos, lane).1, h, pos, lane);
}

/// A batch of evictions makes progress in every lane, however many lanes go before it.
pub proof fn lemma_batch_progress<B: PooledBlock>(
    stash: Seq<B>,
    nodes: Seq<Seq<B>>,
    h: int,
    pos: int,
    lane: int,
)
    requires
        pool_ok(stash, nodes, h),
        h <= B::pos_bits(),
        0 <= pos < full_width(h - 1, 2),
        0 <= lane < 8,
    ensures
        lane_progress(stash, nodes, evicted_lanes(stash, nodes, h, pos, 8).1, h, pos, lane),
{
    let s = stash.len() as int;
    let col = opened(stash, nodes, h, pos, lane);
    let out = settled_column(col, depth_column(col, s, lane, pos), s + 2, h);
    let after = evicted_lanes(stash, nodes, h, pos, 8).1;
    lemma_batch_sequential(stash, nodes, h, pos, 8);
    assert forall|k: int| 0 <= k < 2 * h implies path_lane(after, h, pos, lane)[k] == out.skip(
        s,
    )[k] by {
        assert(after[at(h, k / 2, pos)][2 * lane + k % 2] == lane_settled_slot(
            stash,
            nodes,
            h,
            pos,
            lane,
            k / 2,
            k % 2,
        ));
        assert(s + 2 * (k / 2) + k % 2 == s + k);
    }
    assert(path_lane(after, h, pos, lane) =~= out.skip(s));
    lemma_lane_step(stash, nodes, after, h, pos, lane);
}

// ---------------------------------------------------------------------------
// An access.
// ---------------------------------------------------------------------------
/// The rows without the block of `key`.
pub open spec fn rows_without<B: PooledBlock>(nodes: Seq<Seq<B>>, key: B::Key) -> Seq<Seq<B>> {
    Seq::new(nodes.len(), |n: int| without_key(nodes[n], key))
}

/// The stash has a slot for the block of `key`.
pub open spec fn slot_for<B: PooledBlock>(stash: Seq<B>, key: B::Key) -> bool {
    exists|i: int|
        0 <= i < stash.len() && ((#[trigger] stash[i]).vacant() || stash[i].block_key() == key)
}

/// An access of `key` along the path to `pos` that leaves `block` behind, in terms of the
/// slots: it makes progress in the lane of the key as one pass does from the slots without
/// the key, with `block` as one more block of the stash.
pub open spec fn access_progress<B: PooledBlock>(
    stash: Seq<B>,
    nodes: Seq<Seq<B>>,
    after: Seq<Seq<B>>,
    h: int,
    pos: int,
    lane: int,
    key: B::Key,
    block: B,
) -> bool {
    let st = without_key(stash, key);
    let nd = rows_without(nodes, key);
    let put = slot_for(stash, key);
    forall|l: int|
        1 <= l < h ==> {
            let was = blocks_from(nd, h, pos, lane, l);
            let now = #[trigger] blocks_from(after, h, pos, lane, l);
            let ready = lane_ready(st, nd, h, pos, lane, l) || (put && may_reach(block, pos, l));
            &&& was <= now <= was + 1
            &&& lane_open(nd, h, pos, lane, l) && ready ==> now == was + 1
            &&& !ready ==> now == was
        }
}

/// An access makes progress.
pub proof fn lemma_access_progress<B: PooledBlock>(
    stash: Seq<B>,
    nodes: Seq<Seq<B>>,
    h: int,
    pos: int,
    lane: int,
    key: B::Key,
    block: B,
)
    requires
        pool_ok(stash, nodes, h),
        h <= B::pos_bits(),
        0 <= pos < full_width(h - 1, 2),
        0 <= lane < 8,
        !block.vacant(),
        lane_of(block) == lane,
    ensures
        access_progress(
            stash,
            nodes,
            accessed(stash, nodes, h, pos, lane, key, block).1,
            h,
            pos,
            lane,
            key,
            block,
        ),
{
    let s = stash.len() as int;
    let st = without_key(stash, key);
    let nd = rows_without(nodes, key);
    let put = slot_for(stash, key);
    let col = without_key(opened(stash, nodes, h, pos, lane), key);
    let i = first_vacant(col, 0, s);
    let st2 = if i < s {
        st.update(i, block)
    } else {
        st
    };
    B::blank().lemma_pooled();
    lemma_first_vacant(col, 0, s);
    lemma_at(h, pos);
    assert(with_block(col, s, block) =~= opened(st2, nd, h, pos, lane)) by {
        assert forall|k: int| 0 <= k < s + 2 * h implies with_block(col, s, block)[k] == opened(
            st2,
            nd,
            h,
            pos,
            lane,
        )[k] by {
            if k >= s {
                let n = at(h, (k - s) / 2, pos);
                assert(nodes[n].len() == 16);
                assert(nd[n] == without_key(nodes[n], key));
            }
        }
    }
    assert(nodes_shape(nd, h)) by {
        assert forall|n: int| 0 <= n < nd.len() implies (#[trigger] nd[n]).len() == 16 by {
            assert(nodes[n].len() == 16);
        }
    }
    if put {
        let k = choose|k: int|
            0 <= k < stash.len() && ((#[trigger] stash[k]).vacant() || stash[k].block_key() == key);
        assert(col[k].vacant());
        assert(i < s);
    } else {
        if i < s {
            assert(col[i].vacant());
            assert(stash[i].vacant() || stash[i].block_key() == key);
        }
    }
    let acc = accessed(stash, nodes, h, pos, lane, key, block).1;
    let after = settled_column(
        opened(st2, nd, h, pos, lane),
        depth_column(opened(st2, nd, h, pos, lane), s, lane, pos),
        s + 2,
        h,
    );
    lemma_write_lane_path(nodes, h, pos, lane, after.skip(s));
    lemma_lane_step(st2, nd, acc, h, pos, lane);
    assert forall|l: int| 1 <= l < h implies {
        let was = blocks_from(nd, h, pos, lane, l);
        let now = #[trigger] blocks_from(acc, h, pos, lane, l);
        let ready = lane_ready(st, nd, h, pos, lane, l) || (put && may_reach(block, pos, l));
        &&& was <= now <= was + 1
        &&& lane_open(nd, h, pos, lane, l) && ready ==> now == was + 1
        &&& !ready ==> now == was
    } by {
        let ready = lane_ready(st, nd, h, pos, lane, l) || (put && may_reach(block, pos, l));
        if exists|k: int|
            0 <= k < st.len() && lane_of(#[trigger] st[k]) == lane && may_reach(st[k], pos, l) {
            let k = choose|k: int|
                0 <= k < st.len() && lane_of(#[trigger] st[k]) == lane && may_reach(st[k], pos, l);
            assert(col[k] == st[k]);
            assert(st2[k] == st[k]);
        }
        if put && may_reach(block, pos, l) {
            assert(st2[i] == block);
        }
        if exists|k: int|
            0 <= k < st2.len() && lane_of(#[trigger] st2[k]) == lane && may_reach(st2[k], pos, l) {
            let k = choose|k: int|
                0 <= k < st2.len() && lane_of(#[trigger] st2[k]) == lane && may_reach(
                    st2[k],
                    pos,
                    l,
                );
            assert(k != i ==> st[k] == st2[k]);
        }
        assert(ready == lane_ready(st2, nd, h, pos, lane, l));
    }
}

} // verus!
