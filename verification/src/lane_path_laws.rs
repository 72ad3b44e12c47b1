//! What evicting a path of lane ORAM achieves.
//!
//! The laws speak of an array that holds the stash and behind it the buckets of a path,
//! root first, with one slot for every lane. Evicting the path fills the free lanes of the
//! root from the stash, in order, and takes every block deeper that may go to a free slot
//! below it in its lane.
use vstd::prelude::*;
use crate::circuit_laws::{lemma_live_bounds, lemma_live_concat, live, weight};
use crate::heap_tree::full_width;
use crate::lane_oram::{
    carried, first_live, lane_column, lane_depths, lanes_filled, last_match32, last_match64,
    lemma_carried, lemma_first_live, lemma_next_part, moved, next_part, takes_part, without_key32,
    without_key64, Block32, Block64, PosType, DUMMY_KEY,
};
use crate::lane_laws::lemma_put_back_opened;
use crate::lane_transition::{
    evicted_work, finished, lane_passed, lane_store, lane_updated, lemma_loaded_store, parts, settled,
};
use crate::oblivious::ObliviousBlock;
use crate::path_access::{lemma_first_vacant, with_block};
use crate::path_store::{lemma_row_of, lemma_row_place, PathBlock, PathState};
use crate::wide_heap_tree::{lemma_shared_digits, same_prefix};

verus! {

/// The blocks of `s`, without the vacant slots.
pub open spec fn live_blocks(s: Seq<Block32>) -> Seq<Block32>
    decreases s.len(),
{
    if s.len() == 0 {
        Seq::empty()
    } else if s.last().vacant() {
        live_blocks(s.drop_last())
    } else {
        live_blocks(s.drop_last()).push(s.last())
    }
}

/// There are as many blocks as slots that hold one.
pub proof fn lemma_live_blocks(s: Seq<Block32>)
    ensures
        live_blocks(s).len() == live(s),
        forall|i: int| 0 <= i < live_blocks(s).len() ==> !(#[trigger] live_blocks(s)[i]).vacant(),
    decreases s.len(),
{
    if s.len() > 0 {
        lemma_live_blocks(s.drop_last());
    }
}

/// Taking the first block away leaves the others in order.
proof fn lemma_first_taken(s: Seq<Block32>)
    requires
        first_live(s, 0, s.len() as int) < s.len(),
    ensures
        live_blocks(s).len() > 0,
        live_blocks(s)[0] == s[first_live(s, 0, s.len() as int)],
        live_blocks(s.update(first_live(s, 0, s.len() as int), Block32::blank()))
            == live_blocks(s).skip(1),
    decreases s.len(),
{
    let n = s.len() as int;
    let i = first_live(s, 0, n);
    lemma_first_live(s, 0, n);
    let t = s.drop_last();
    lemma_first_live(t, 0, n - 1);
    let k = first_live(t, 0, n - 1);
    let u = s.update(i, Block32::blank());
    lemma_live_blocks(t);
    if k < n - 1 {
        assert(!s[k].vacant());
        assert(i <= k) by {
            if i > k {
                assert(s[k].vacant());
            }
        }
        assert(!t[i].vacant());
        assert(i == k) by {
            if i < k {
                assert(t[i].vacant());
            }
        }
        lemma_first_taken(t);
        assert(u.drop_last() =~= t.update(k, Block32::blank()));
        assert(u.last() == s.last());
        assert(live_blocks(u) =~= live_blocks(s).skip(1));
    } else {
        assert(i == n - 1) by {
            if i < n - 1 {
                assert(t[i].vacant());
            }
        }
        lemma_live_bounds(t);
        assert forall|j: int| 0 <= j < t.len() implies (#[trigger] t[j]).vacant() by {}
        assert(live_blocks(t).len() == 0);
        assert(u.drop_last() =~= t);
        assert(live_blocks(s).skip(1) =~= live_blocks(u));
    }
}

/// The number of free lanes among the first `n` root slots.
pub open spec fn free_lanes(work: Seq<Block32>, s: int, n: int) -> int {
    n - live(work.subrange(s, s + n))
}

/// The root of the path was filled from the stash: a free lane takes the next block of the
/// stash, in order, as long as there is one. The blocks behind those stay, and so do the
/// blocks of the root.
pub open spec fn root_filled(work: Seq<Block32>, after: Seq<Block32>, s: int, n: int) -> bool {
    let waiting = live_blocks(work.take(s));
    let free = free_lanes(work, s, n);
    &&& after.len() == work.len()
    &&& live_blocks(after.take(s)) == waiting.skip(if free < waiting.len() {
        free
    } else {
        waiting.len() as int
    })
    &&& forall|i: int| s + n <= i < work.len() ==> #[trigger] after[i] == work[i]
    &&& forall|i: int| 0 <= i < s ==> #[trigger] after[i] == work[i] || after[i].vacant()
    &&& forall|lane: int|
        0 <= lane < n ==> {
            let q = free_lanes(work, s, lane);
            #[trigger] after[s + lane] == (if !work[s + lane].vacant() || q >= waiting.len() {
                work[s + lane]
            } else {
                waiting[q]
            })
        }
}

/// The root is filled from the stash.
pub proof fn lemma_root_filled(work: Seq<Block32>, s: int, n: int)
    requires
        0 <= s,
        0 <= n,
        s + n <= work.len(),
    ensures
        root_filled(work, lanes_filled(work, s, n), s, n),
        0 <= free_lanes(work, s, n),
    decreases n,
{
    let waiting = live_blocks(work.take(s));
    lemma_live_blocks(work.take(s));
    if n == 0 {
        assert(work.subrange(s, s) =~= Seq::empty());
        assert(waiting.skip(0) =~= waiting);
    } else {
        lemma_root_filled(work, s, n - 1);
        let f = lanes_filled(work, s, n - 1);
        let g = lanes_filled(work, s, n);
        let lane = n - 1;
        let q = free_lanes(work, s, lane);
        assert(work.subrange(s, s + n).drop_last() =~= work.subrange(s, s + n - 1));
        assert(work.subrange(s, s + n).last() == work[s + lane]);
        let i = first_live(f, 0, s);
        let head = f.take(s);
        lemma_first_live(f, 0, s);
        lemma_first_live(head, 0, s);
        let k = first_live(head, 0, s);
        assert(i == k) by {
            if i < k {
                assert(head[i].vacant());
            } else if k < i {
                assert(f[k].vacant());
            }
        }
        assert(f[s + lane] == work[s + lane]);
        lemma_live_blocks(head);
        if f[s + lane].vacant() && i < s {
            lemma_first_taken(head);
            assert(g.take(s) =~= head.update(i, Block32::blank()));
            assert(live_blocks(head).len() > 0);
            assert(q < waiting.len());
            assert(live_blocks(head)[0] == waiting[q]);
            assert(live_blocks(head).skip(1) =~= waiting.skip(q + 1));
        } else {
            assert(g == f);
            if f[s + lane].vacant() {
                lemma_live_bounds(head);
                assert forall|j: int| 0 <= j < s implies (#[trigger] head[j]).vacant() by {
                    assert(f[j].vacant());
                }
                assert(live_blocks(head).len() == 0);
                assert(q >= waiting.len());
                assert(waiting.skip(waiting.len() as int) =~= Seq::empty());
            }
        }
        assert forall|e: int| 0 <= e < n implies {
            let r = free_lanes(work, s, e);
            #[trigger] g[s + e] == (if !work[s + e].vacant() || r >= waiting.len() {
                work[s + e]
            } else {
                waiting[r]
            })
        } by {
            if e < lane {
                assert(g[s + e] == f[s + e]);
            }
        }
        assert forall|j: int| 0 <= j < s implies #[trigger] g[j] == work[j] || g[j].vacant() by {
            assert(f[j] == work[j] || f[j].vacant());
        }
        assert forall|j: int| s + n <= j < work.len() implies #[trigger] g[j] == work[j] by {
            assert(f[j] == work[j]);
        }
    }
}

/// A carried block is that of the last level that took part.
proof fn lemma_carried_back(col: Seq<Block32>, m: Seq<bool>, e: int, n: int)
    requires
        0 <= e < n,
        m[e],
        forall|k: int| e < k < n ==> !#[trigger] m[k],
    ensures
        carried(col, m, n) == col[e],
    decreases n - e,
{
    if n - 1 > e {
        assert(!m[n - 1]);
        lemma_carried_back(col, m, e, n - 1);
    }
}

/// A pass down a lane takes a block that may go to a vacant slot below it deeper, and no
/// deeper than that slot.
proof fn lemma_block_moves(col: Seq<Block32>, d: Seq<i64>, e: int, l: int)
    requires
        col.len() == d.len(),
        forall|k: int| 0 <= k < d.len() ==> (#[trigger] d[k] == -1 <==> col[k].vacant()),
        0 <= e < l < col.len(),
        !col[e].vacant(),
        col[l].vacant(),
        d[e] >= l,
    ensures
        exists|k: int| e < k <= l && #[trigger] moved(col, parts(d), k) == col[e],
{
    let m = parts(d);
    let n = next_part(d, e + 1);
    lemma_next_part(d, e + 1);
    assert(d[l] == -1);
    assert(takes_part(d, l));
    assert(n <= l) by {
        if l < n {
            assert(!takes_part(d, l));
        }
    }
    assert(takes_part(d, e));
    assert(m[e]);
    assert forall|k: int| e < k < n implies !#[trigger] m[k] by {
        assert(!takes_part(d, k));
    }
    lemma_carried_back(col, m, e, n);
    assert(m[n]);
    assert(moved(col, m, n) == col[e]);
}

/// A pass down a lane takes no block out of it, and none up.
proof fn lemma_block_stays(col: Seq<Block32>, d: Seq<i64>, e: int)
    requires
        col.len() == d.len(),
        forall|k: int| 0 <= k < d.len() ==> (#[trigger] d[k] == -1 <==> col[k].vacant()),
        0 <= e < col.len(),
        !col[e].vacant(),
    ensures
        exists|k: int| e <= k < col.len() && #[trigger] moved(col, parts(d), k) == col[e],
{
    let m = parts(d);
    if m[e] {
        let n = next_part(d, e + 1);
        lemma_next_part(d, e + 1);
        assert(takes_part(d, e));
        assert(d[e] != -1);
        assert forall|k: int| e < k < n implies !#[trigger] m[k] by {
            assert(!takes_part(d, k));
        }
        lemma_carried_back(col, m, e, n);
        assert(m[n]);
        assert(moved(col, m, n) == col[e]);
    } else {
        assert(moved(col, m, e) == col[e]);
    }
}

proof fn lemma_pass_count(col: Seq<Block32>, m: Seq<bool>, after: Seq<Block32>, l: int)
    requires
        0 <= l <= col.len(),
        after.len() == col.len(),
        m.len() == col.len(),
        forall|k: int| 0 <= k < col.len() ==> #[trigger] after[k] == moved(col, m, k),
    ensures
        live(after.take(l)) + weight(carried(col, m, l)) == live(col.take(l)),
    decreases l,
{
    if l > 0 {
        lemma_pass_count(col, m, after, l - 1);
        assert(after.take(l).drop_last() =~= after.take(l - 1));
        assert(col.take(l).drop_last() =~= col.take(l - 1));
        assert(after[l - 1] == moved(col, m, l - 1));
    }
}

/// Slot `lane` at level `l` of the path.
pub open spec fn lane_slot(work: Seq<Block32>, s: int, z: int, lane: int, l: int) -> Block32 {
    work[s + l * z + lane]
}

/// A block that may go to level `l` of the path: the highest `l` digits of the two leaves
/// agree.
pub open spec fn may_reach(block: Block32, path: PosType, b: int, h: int, l: int) -> bool {
    !block.vacant() && same_prefix(b, h, l, block.pos as int, path as int)
}

/// The lanes of the path moved down from `work` to `after`. A block with a vacant slot
/// below it in its lane, which it may go to, gets deeper and no deeper than that slot. No
/// block leaves its lane or gets higher, and one that is at another level than before may
/// be there. From every level on, a lane loses no block and gets one at most. The stash
/// stays.
pub open spec fn moved_down(
    work: Seq<Block32>,
    after: Seq<Block32>,
    s: int,
    z: int,
    h: int,
    path: PosType,
    b: int,
) -> bool {
    &&& after.len() == work.len()
    &&& forall|i: int| 0 <= i < s ==> #[trigger] after[i] == work[i]
    &&& forall|lane: int, e: int, l: int|
        #![trigger lane_slot(work, s, z, lane, e), lane_slot(work, s, z, lane, l)]
        0 <= lane < z && 0 <= e < l < h && may_reach(
            lane_slot(work, s, z, lane, e),
            path,
            b,
            h,
            l,
        ) && lane_slot(work, s, z, lane, l).vacant() ==> exists|k: int|
            e < k <= l && #[trigger] lane_slot(after, s, z, lane, k) == lane_slot(
                work,
                s,
                z,
                lane,
                e,
            )
    &&& forall|lane: int, e: int|
        0 <= lane < z && 0 <= e < h && !(#[trigger] lane_slot(work, s, z, lane, e)).vacant()
            ==> exists|k: int|
            e <= k < h && #[trigger] lane_slot(after, s, z, lane, k) == lane_slot(
                work,
                s,
                z,
                lane,
                e,
            )
    &&& forall|lane: int, l: int|
        0 <= lane < z && 0 <= l < h && !(#[trigger] lane_slot(after, s, z, lane, l)).vacant() ==> {
            ||| lane_slot(after, s, z, lane, l) == lane_slot(work, s, z, lane, l)
            ||| exists|e: int|
                0 <= e < l && lane_slot(after, s, z, lane, l) == #[trigger] lane_slot(
                    work,
                    s,
                    z,
                    lane,
                    e,
                ) && may_reach(lane_slot(work, s, z, lane, e), path, b, h, l)
        }
    &&& forall|lane: int, l: int|
        #![trigger lane_column(after, s, z, h, lane).skip(l)]
        0 <= lane < z && 0 <= l < h ==> {
            let was = live(lane_column(work, s, z, h, lane).skip(l));
            let now = live(lane_column(after, s, z, h, lane).skip(l));
            was <= now <= was + 1
        }
}

/// The blocks of the array belong to leaves of the tree.
pub open spec fn in_tree(work: Seq<Block32>, b: int, h: int) -> bool {
    forall|i: int|
        0 <= i < work.len() && !(#[trigger] work[i]).vacant() ==> work[i].pos < full_width(
            h - 1,
            b,
        )
}

proof fn lemma_lane_moves(
    work: Seq<Block32>,
    s: int,
    z: int,
    h: int,
    path: PosType,
    b: int,
    lane: int,
)
    requires
        0 <= s,
        1 <= z,
        1 <= h <= i64::MAX,
        2 <= b,
        work.len() == s + h * z,
        in_tree(work, b, h),
        path < full_width(h - 1, b),
        0 <= lane < z,
    ensures
        ({
            let col = lane_column(work, s, z, h, lane);
            let d = lane_depths(work, s, z, h, lane, path, b);
            let out = lane_column(settled(work, s, z, h, path, b), s, z, h, lane);
            &&& forall|l: int| 0 <= l < h ==> #[trigger] out[l] == moved(col, parts(d), l)
            &&& forall|k: int| 0 <= k < h ==> (#[trigger] d[k] == -1 <==> col[k].vacant())
            &&& forall|k: int, l: int|
                #![trigger d[k], same_prefix(b, h, l, col[k].pos as int, path as int)]
                0 <= k < h && 0 <= l < h && !col[k].vacant() ==> (d[k] >= l <==> may_reach(
                    col[k],
                    path,
                    b,
                    h,
                    l,
                ))
        }),
{
    let col = lane_column(work, s, z, h, lane);
    let d = lane_depths(work, s, z, h, lane, path, b);
    let out = lane_column(settled(work, s, z, h, path, b), s, z, h, lane);
    assert forall|l: int| 0 <= l < h implies #[trigger] out[l] == moved(col, parts(d), l) by {
        lemma_row_place(l, lane, z, h);
        vstd::arithmetic::div_mod::lemma_fundamental_div_mod_converse(l * z + lane, z, l, lane);
    }
    assert forall|k: int| 0 <= k < h && !(#[trigger] col[k]).vacant() implies col[k].pos
        < full_width(h - 1, b) by {
        lemma_row_place(k, lane, z, h);
        assert(work[s + k * z + lane] == col[k]);
    }
    assert forall|k: int| 0 <= k < h implies (#[trigger] d[k] == -1 <==> col[k].vacant()) by {
        if !col[k].vacant() {
            lemma_shared_digits(b, h, h - 1, col[k].pos as int, path as int);
        }
    }
    assert forall|k: int, l: int|
        #![trigger d[k], same_prefix(b, h, l, col[k].pos as int, path as int)]
        0 <= k < h && 0 <= l < h && !col[k].vacant() implies (d[k] >= l <==> may_reach(
        col[k],
        path,
        b,
        h,
        l,
    )) by {
        lemma_shared_digits(b, h, h - 1, col[k].pos as int, path as int);
    }
}

/// A pass down the lanes moves the blocks down.
pub proof fn lemma_moved_down(
    work: Seq<Block32>,
    s: int,
    z: int,
    h: int,
    path: PosType,
    b: int,
)
    requires
        0 <= s,
        1 <= z,
        1 <= h <= i64::MAX,
        2 <= b,
        work.len() == s + h * z,
        in_tree(work, b, h),
        path < full_width(h - 1, b),
    ensures
        moved_down(work, settled(work, s, z, h, path, b), s, z, h, path, b),
{
    let after = settled(work, s, z, h, path, b);
    assert forall|lane: int, e: int, l: int|
        #![trigger lane_slot(work, s, z, lane, e), lane_slot(work, s, z, lane, l)]
        0 <= lane < z && 0 <= e < l < h && may_reach(
            lane_slot(work, s, z, lane, e),
            path,
            b,
            h,
            l,
        ) && lane_slot(work, s, z, lane, l).vacant() implies exists|k: int|
        e < k <= l && #[trigger] lane_slot(after, s, z, lane, k) == lane_slot(work, s, z, lane, e) by {
        let col = lane_column(work, s, z, h, lane);
        let d = lane_depths(work, s, z, h, lane, path, b);
        let out = lane_column(after, s, z, h, lane);
        lemma_lane_moves(work, s, z, h, path, b, lane);
        assert(may_reach(col[e], path, b, h, l));
        assert(same_prefix(b, h, l, col[e].pos as int, path as int));
        assert(d[e] >= l);
        lemma_block_moves(col, d, e, l);
        let k = choose|k: int| e < k <= l && #[trigger] moved(col, parts(d), k) == col[e];
        assert(out[k] == col[e]);
        assert(lane_slot(after, s, z, lane, k) == lane_slot(work, s, z, lane, e));
    }
    assert forall|lane: int, e: int|
        0 <= lane < z && 0 <= e < h && !(#[trigger] lane_slot(
            work,
            s,
            z,
            lane,
            e,
        )).vacant() implies exists|k: int|
        e <= k < h && #[trigger] lane_slot(after, s, z, lane, k) == lane_slot(work, s, z, lane, e) by {
        let col = lane_column(work, s, z, h, lane);
        let d = lane_depths(work, s, z, h, lane, path, b);
        let out = lane_column(after, s, z, h, lane);
        lemma_lane_moves(work, s, z, h, path, b, lane);
        assert(col[e] == lane_slot(work, s, z, lane, e));
        lemma_block_stays(col, d, e);
        let k = choose|k: int| e <= k < h && #[trigger] moved(col, parts(d), k) == col[e];
        assert(out[k] == col[e]);
        assert(lane_slot(after, s, z, lane, k) == lane_slot(work, s, z, lane, e));
    }
    assert forall|lane: int, l: int|
        0 <= lane < z && 0 <= l < h && !(#[trigger] lane_slot(
            after,
            s,
            z,
            lane,
            l,
        )).vacant() implies {
        ||| lane_slot(after, s, z, lane, l) == lane_slot(work, s, z, lane, l)
        ||| exists|e: int|
            0 <= e < l && lane_slot(after, s, z, lane, l) == #[trigger] lane_slot(
                work,
                s,
                z,
                lane,
                e,
            ) && may_reach(lane_slot(work, s, z, lane, e), path, b, h, l)
    } by {
        let col = lane_column(work, s, z, h, lane);
        let d = lane_depths(work, s, z, h, lane, path, b);
        let out = lane_column(after, s, z, h, lane);
        let m = parts(d);
        lemma_lane_moves(work, s, z, h, path, b, lane);
        assert(out[l] == lane_slot(after, s, z, lane, l));
        assert(col[l] == lane_slot(work, s, z, lane, l));
        if m[l] {
            lemma_carried(col, d, m, l);
            let e = choose|e: int| 0 <= e < l && carried(col, m, l) == #[trigger] col[e] && d[e] >= l;
            assert(col[e] == lane_slot(work, s, z, lane, e));
            assert(d[e] != -1);
            assert(same_prefix(b, h, l, col[e].pos as int, path as int) ==> may_reach(
                col[e],
                path,
                b,
                h,
                l,
            ));
            assert(may_reach(lane_slot(work, s, z, lane, e), path, b, h, l));
        }
    }
    assert forall|lane: int, l: int|
        #![trigger lane_column(after, s, z, h, lane).skip(l)]
        0 <= lane < z && 0 <= l < h implies {
        let was = live(lane_column(work, s, z, h, lane).skip(l));
        let now = live(lane_column(after, s, z, h, lane).skip(l));
        was <= now <= was + 1
    } by {
        let col = lane_column(work, s, z, h, lane);
        let d = lane_depths(work, s, z, h, lane, path, b);
        let out = lane_column(after, s, z, h, lane);
        let m = parts(d);
        lemma_lane_moves(work, s, z, h, path, b, lane);
        lemma_pass_count(col, m, out, l);
        lemma_pass_count(col, m, out, h);
        lemma_carried(col, d, m, h);
        lemma_live_concat(col.take(l), col.skip(l));
        lemma_live_concat(out.take(l), out.skip(l));
        assert(col.take(l) + col.skip(l) =~= col);
        assert(out.take(l) + out.skip(l) =~= out);
        assert(col.take(h) =~= col);
        assert(out.take(h) =~= out);
    }
}

/// What evicting a path does to the stash and the slots of the path, `work` before and
/// `after` afterwards. The free lanes of the root take blocks out of the stash, the first
/// ones first, until there is none left or no lane is free. A block with a vacant slot below
/// it in its lane, which it may go to, gets deeper; so does a block that comes out of the
/// stash. No block leaves its lane.
pub open spec fn path_progress(
    work: Seq<Block32>,
    after: Seq<Block32>,
    s: int,
    z: int,
    h: int,
    path: PosType,
    b: int,
) -> bool {
    let waiting = live_blocks(work.take(s));
    let free = free_lanes(work, s, z);
    &&& after.len() == work.len()
    &&& live_blocks(after.take(s)) == waiting.skip(if free < waiting.len() {
        free
    } else {
        waiting.len() as int
    })
    &&& forall|i: int| 0 <= i < s ==> #[trigger] after[i] == work[i] || after[i].vacant()
    &&& forall|lane: int, e: int, l: int|
        #![trigger lane_slot(work, s, z, lane, e), lane_slot(work, s, z, lane, l)]
        0 <= lane < z && 0 <= e < l < h && may_reach(
            lane_slot(work, s, z, lane, e),
            path,
            b,
            h,
            l,
        ) && lane_slot(work, s, z, lane, l).vacant() ==> exists|k: int|
            e < k <= l && #[trigger] lane_slot(after, s, z, lane, k) == lane_slot(
                work,
                s,
                z,
                lane,
                e,
            )
    &&& forall|lane: int, e: int|
        0 <= lane < z && 0 <= e < h && !(#[trigger] lane_slot(work, s, z, lane, e)).vacant()
            ==> exists|k: int|
            e <= k < h && #[trigger] lane_slot(after, s, z, lane, k) == lane_slot(
                work,
                s,
                z,
                lane,
                e,
            )
    &&& forall|lane: int|
        0 <= lane < z && lane_slot(work, s, z, lane, 0).vacant() && #[trigger] free_lanes(
            work,
            s,
            lane,
        ) < waiting.len() ==> exists|k: int|
            0 <= k < h && #[trigger] lane_slot(after, s, z, lane, k) == waiting[free_lanes(
                work,
                s,
                lane,
            )]
    &&& forall|lane: int, l: int|
        #![trigger free_lanes(work, s, lane), lane_slot(work, s, z, lane, l)]
        0 <= lane < z && lane_slot(work, s, z, lane, 0).vacant() && free_lanes(work, s, lane)
            < waiting.len() && 1 <= l < h && lane_slot(work, s, z, lane, l).vacant() && may_reach(
            waiting[free_lanes(work, s, lane)],
            path,
            b,
            h,
            l,
        ) ==> exists|k: int|
            1 <= k <= l && #[trigger] lane_slot(after, s, z, lane, k) == waiting[free_lanes(
                work,
                s,
                lane,
            )]
}

/// Filling the root changes free root slots alone.
proof fn lemma_filled_slot(
    work: Seq<Block32>,
    f: Seq<Block32>,
    s: int,
    z: int,
    h: int,
    lane: int,
    e: int,
)
    requires
        0 <= s,
        1 <= z,
        1 <= h,
        work.len() == s + h * z,
        root_filled(work, f, s, z),
        0 <= lane < z,
        0 <= e < h,
        e >= 1 || !lane_slot(work, s, z, lane, e).vacant(),
    ensures
        lane_slot(f, s, z, lane, e) == lane_slot(work, s, z, lane, e),
{
    lemma_row_place(e, lane, z, h);
    if e >= 1 {
        assert(s + z <= s + e * z + lane) by (nonlinear_arith)
            requires
                e >= 1,
                z >= 1,
                lane >= 0,
        ;
    } else {
        assert(0 * z == 0);
        assert(f[s + lane] == f[s + e * z + lane]);
    }
}

/// A free lane takes the next block of the stash.
proof fn lemma_filled_lane(
    work: Seq<Block32>,
    f: Seq<Block32>,
    s: int,
    z: int,
    lane: int,
)
    requires
        0 <= s,
        1 <= z,
        s + z <= work.len(),
        root_filled(work, f, s, z),
        0 <= lane < z,
        lane_slot(work, s, z, lane, 0).vacant(),
        free_lanes(work, s, lane) < live_blocks(work.take(s)).len(),
    ensures
        0 <= free_lanes(work, s, lane),
        lane_slot(f, s, z, lane, 0) == live_blocks(work.take(s))[free_lanes(work, s, lane)],
        !lane_slot(f, s, z, lane, 0).vacant(),
{
    lemma_root_filled(work, s, lane);
    lemma_live_blocks(work.take(s));
    assert(0 * z == 0);
    assert(f[s + lane] == live_blocks(work.take(s))[free_lanes(work, s, lane)]);
}

/// A block above a vacant slot that it may go to gets deeper, whether or not the root was
/// filled before.
proof fn lemma_filled_moves(
    work: Seq<Block32>,
    f: Seq<Block32>,
    after: Seq<Block32>,
    s: int,
    z: int,
    h: int,
    path: PosType,
    b: int,
    lane: int,
    e: int,
    l: int,
)
    requires
        0 <= s,
        1 <= z,
        work.len() == s + h * z,
        root_filled(work, f, s, z),
        moved_down(f, after, s, z, h, path, b),
        0 <= lane < z,
        0 <= e < l < h,
        may_reach(lane_slot(work, s, z, lane, e), path, b, h, l),
        lane_slot(work, s, z, lane, l).vacant(),
    ensures
        exists|k: int|
            e < k <= l && #[trigger] lane_slot(after, s, z, lane, k) == lane_slot(
                work,
                s,
                z,
                lane,
                e,
            ),
{
    lemma_filled_slot(work, f, s, z, h, lane, e);
    lemma_filled_slot(work, f, s, z, h, lane, l);
    assert(may_reach(lane_slot(f, s, z, lane, e), path, b, h, l));
    assert(lane_slot(f, s, z, lane, l).vacant());
}

proof fn lemma_filled_stays(
    work: Seq<Block32>,
    f: Seq<Block32>,
    after: Seq<Block32>,
    s: int,
    z: int,
    h: int,
    path: PosType,
    b: int,
    lane: int,
    e: int,
)
    requires
        0 <= s,
        1 <= z,
        work.len() == s + h * z,
        root_filled(work, f, s, z),
        moved_down(f, after, s, z, h, path, b),
        0 <= lane < z,
        0 <= e < h,
        !lane_slot(work, s, z, lane, e).vacant(),
    ensures
        exists|k: int|
            e <= k < h && #[trigger] lane_slot(after, s, z, lane, k) == lane_slot(
                work,
                s,
                z,
                lane,
                e,
            ),
{
    lemma_filled_slot(work, f, s, z, h, lane, e);
    assert(!lane_slot(f, s, z, lane, e).vacant());
}

proof fn lemma_filled_waits(
    work: Seq<Block32>,
    f: Seq<Block32>,
    after: Seq<Block32>,
    s: int,
    z: int,
    h: int,
    path: PosType,
    b: int,
    lane: int,
    l: int,
)
    requires
        0 <= s,
        1 <= z,
        1 <= h,
        work.len() == s + h * z,
        s + z <= work.len(),
        root_filled(work, f, s, z),
        moved_down(f, after, s, z, h, path, b),
        0 <= lane < z,
        0 <= l < h,
        lane_slot(work, s, z, lane, 0).vacant(),
        free_lanes(work, s, lane) < live_blocks(work.take(s)).len(),
    ensures
        ({
            let x = live_blocks(work.take(s))[free_lanes(work, s, lane)];
            &&& exists|k: int| 0 <= k < h && #[trigger] lane_slot(after, s, z, lane, k) == x
            &&& l >= 1 && lane_slot(work, s, z, lane, l).vacant() && may_reach(x, path, b, h, l)
                ==> exists|k: int| 1 <= k <= l && #[trigger] lane_slot(after, s, z, lane, k) == x
        }),
{
    let x = live_blocks(work.take(s))[free_lanes(work, s, lane)];
    lemma_filled_lane(work, f, s, z, lane);
    let k = choose|k: int|
        0 <= k < h && #[trigger] lane_slot(after, s, z, lane, k) == lane_slot(f, s, z, lane, 0);
    assert(lane_slot(after, s, z, lane, k) == x);
    if l >= 1 && lane_slot(work, s, z, lane, l).vacant() && may_reach(x, path, b, h, l) {
        lemma_filled_slot(work, f, s, z, h, lane, l);
        assert(may_reach(lane_slot(f, s, z, lane, 0), path, b, h, l));
        assert(lane_slot(f, s, z, lane, l).vacant());
        let m = choose|m: int|
            0 < m <= l && #[trigger] lane_slot(after, s, z, lane, m) == lane_slot(f, s, z, lane, 0);
        assert(lane_slot(after, s, z, lane, m) == x);
    }
}

/// Filling the root brings no block from elsewhere.
proof fn lemma_filled_in_tree(work: Seq<Block32>, f: Seq<Block32>, s: int, z: int, h: int, b: int)
    requires
        0 <= s,
        1 <= z,
        s + z <= work.len(),
        root_filled(work, f, s, z),
        in_tree(work, b, h),
    ensures
        in_tree(f, b, h),
{
    let waiting = live_blocks(work.take(s));
    assert forall|i: int| 0 <= i < f.len() && !(#[trigger] f[i]).vacant() implies f[i].pos
        < full_width(h - 1, b) by {
        if s <= i < s + z {
            let lane = i - s;
            assert(f[s + lane] == f[i]);
            let q = free_lanes(work, s, lane);
            lemma_root_filled(work, s, lane);
            if work[s + lane].vacant() && q < waiting.len() {
                lemma_blocks_are(work.take(s), q);
                let j = choose|j: int| 0 <= j < s && #[trigger] work.take(s)[j] == waiting[q];
                assert(work[j] == waiting[q]);
            }
        } else if i < s {
            assert(f[i] == work[i] || f[i].vacant());
        } else {
            assert(f[i] == work[i]);
        }
    }
}

/// Evicting a path makes progress.
pub proof fn lemma_path_progress(
    work: Seq<Block32>,
    s: int,
    z: int,
    h: int,
    path: PosType,
    b: int,
)
    requires
        0 <= s,
        1 <= z,
        1 <= h <= i64::MAX,
        2 <= b,
        work.len() == s + h * z,
        in_tree(work, b, h),
        path < full_width(h - 1, b),
    ensures
        path_progress(work, evicted_work(work, s, z, h, path, b), s, z, h, path, b),
{
    let f = lanes_filled(work, s, z);
    assert(s + z <= work.len()) by (nonlinear_arith)
        requires
            work.len() == s + h * z,
            1 <= h,
            1 <= z,
    ;
    lemma_root_filled(work, s, z);
    lemma_filled_in_tree(work, f, s, z, h, b);
    lemma_moved_down(f, s, z, h, path, b);
    lemma_fill_and_move(work, f, evicted_work(work, s, z, h, path, b), s, z, h, path, b);
}

proof fn lemma_fill_and_move(
    work: Seq<Block32>,
    f: Seq<Block32>,
    after: Seq<Block32>,
    s: int,
    z: int,
    h: int,
    path: PosType,
    b: int,
)
    requires
        0 <= s,
        1 <= z,
        1 <= h,
        work.len() == s + h * z,
        s + z <= work.len(),
        root_filled(work, f, s, z),
        moved_down(f, after, s, z, h, path, b),
    ensures
        path_progress(work, after, s, z, h, path, b),
{
    let waiting = live_blocks(work.take(s));
    assert(after.take(s) =~= f.take(s));
    assert forall|i: int| 0 <= i < s implies #[trigger] after[i] == work[i] || after[i].vacant() by {
        assert(after[i] == f[i]);
    }
    assert forall|lane: int, e: int, l: int|
        #![trigger lane_slot(work, s, z, lane, e), lane_slot(work, s, z, lane, l)]
        0 <= lane < z && 0 <= e < l < h && may_reach(
            lane_slot(work, s, z, lane, e),
            path,
            b,
            h,
            l,
        ) && lane_slot(work, s, z, lane, l).vacant() implies exists|k: int|
        e < k <= l && #[trigger] lane_slot(after, s, z, lane, k) == lane_slot(work, s, z, lane, e) by {
        lemma_filled_moves(work, f, after, s, z, h, path, b, lane, e, l);
    }
    assert forall|lane: int, e: int|
        0 <= lane < z && 0 <= e < h && !(#[trigger] lane_slot(
            work,
            s,
            z,
            lane,
            e,
        )).vacant() implies exists|k: int|
        e <= k < h && #[trigger] lane_slot(after, s, z, lane, k) == lane_slot(work, s, z, lane, e) by {
        lemma_filled_stays(work, f, after, s, z, h, path, b, lane, e);
    }
    assert forall|lane: int|
        0 <= lane < z && lane_slot(work, s, z, lane, 0).vacant() && #[trigger] free_lanes(
            work,
            s,
            lane,
        ) < waiting.len() implies exists|k: int|
        0 <= k < h && #[trigger] lane_slot(after, s, z, lane, k) == waiting[free_lanes(
            work,
            s,
            lane,
        )] by {
        lemma_filled_waits(work, f, after, s, z, h, path, b, lane, 0);
    }
    assert forall|lane: int, l: int|
        #![trigger free_lanes(work, s, lane), lane_slot(work, s, z, lane, l)]
        0 <= lane < z && lane_slot(work, s, z, lane, 0).vacant() && free_lanes(work, s, lane)
            < waiting.len() && 1 <= l < h && lane_slot(work, s, z, lane, l).vacant() && may_reach(
            waiting[free_lanes(work, s, lane)],
            path,
            b,
            h,
            l,
        ) implies exists|k: int|
        1 <= k <= l && #[trigger] lane_slot(after, s, z, lane, k) == waiting[free_lanes(
            work,
            s,
            lane,
        )] by {
        lemma_filled_waits(work, f, after, s, z, h, path, b, lane, l);
    }
}

/// A block without its slot is that of one of the slots.
proof fn lemma_blocks_are(s: Seq<Block32>, q: int)
    requires
        0 <= q < live_blocks(s).len(),
    ensures
        exists|j: int| 0 <= j < s.len() && #[trigger] s[j] == live_blocks(s)[q],
    decreases s.len(),
{
    if s.len() > 0 {
        let t = s.drop_last();
        if q < live_blocks(t).len() {
            lemma_blocks_are(t, q);
            let j = choose|j: int| 0 <= j < t.len() && #[trigger] t[j] == live_blocks(t)[q];
            assert(s[j] == live_blocks(s)[q]);
        } else {
            assert(s[s.len() - 1] == live_blocks(s)[q]);
        }
    }
}

/// Evicting the path to `path` and putting it back turns the store `st`, with the stash and
/// the slots of the path as in `work`, into `after`. No other path changes.
pub open spec fn store_progress(
    st: PathState<Block32>,
    work: Seq<Block32>,
    after: PathState<Block32>,
    path: PosType,
    b: int,
) -> bool {
    &&& path_progress(work, after.opened(path as int), st.s, st.w, st.geo.h, path, b)
    &&& after.nodes.len() == st.nodes.len()
    &&& forall|k: int|
        0 <= k < st.nodes.len() && !st.geo.path(path as int).contains(k) ==> #[trigger] after.nodes[k]
            == st.nodes[k]
}

/// The blocks of an open store belong to leaves of the tree.
proof fn lemma_open_in_tree(st: PathState<Block32>, p: int, b: int)
    requires
        lane_store(st, b),
        st.open_at(p),
    ensures
        in_tree(st.work, b, st.geo.h),
{
    assert forall|i: int| 0 <= i < st.work.len() && !(#[trigger] st.work[i]).vacant() implies st.work[i].pos
        < full_width(st.geo.h - 1, b) by {
        if i < st.s {
            assert(st.work[i].leaf_of() < st.geo.leaves);
        } else {
            lemma_row_of(i - st.s, st.w, st.geo.h);
            let d = (i - st.s) / st.w;
            let j = (i - st.s) % st.w;
            assert(st.slot(d, j) == st.work[i]);
            assert(st.geo.allows(d, p, st.slot(d, j).leaf_of()));
        }
    }
}

/// What is left of an open path when it is evicted and put back.
pub proof fn lemma_finished_progress(st: PathState<Block32>, path: PosType, b: int)
    requires
        lane_store(st, b),
        st.open_at(path as int),
    ensures
        store_progress(st, st.work, finished(st, path, b), path, b),
{
    let t = st.with_work(evicted_work(st.work, st.s, st.w, st.geo.h, path, b));
    lemma_open_in_tree(st, path as int, b);
    lemma_path_progress(st.work, st.s, st.w, st.geo.h, path, b);
    lemma_put_back_opened(t, path as int);
}

/// A pass over a path makes progress from the store as it is.
pub proof fn lemma_passed_progress(st: PathState<Block32>, path: PosType, b: int)
    requires
        lane_store(st, b),
        st.at_rest(),
        path < st.geo.leaves,
    ensures
        store_progress(st, st.opened(path as int), lane_passed(st, path, b), path, b),
{
    lemma_loaded_store(st, path, b);
    lemma_finished_progress(st.with_work(st.opened(path as int)), path, b);
}

/// An access makes progress from the store with the block of the key replaced.
pub proof fn lemma_updated_progress(
    st: PathState<Block32>,
    path: PosType,
    block: Block32,
    b: int,
)
    requires
        lane_store(st, b),
        st.at_rest(),
        path < st.geo.leaves,
        !block.vacant(),
        block.key != DUMMY_KEY,
        block.pos < st.geo.leaves,
    ensures
        store_progress(
            st,
            with_block(without_key32(st.opened(path as int), block.key), st.s, block),
            lane_updated(st, path, block, b),
            path,
            b,
        ),
{
    let p = path as int;
    let key = block.key;
    lemma_loaded_store(st, path, b);
    let o = st.opened(p);
    st.lemma_opened(p);
    let taken = without_key32(o, key);
    let put = with_block(taken, st.s, block);
    lemma_first_vacant(taken, 0, st.s);
    let t = st.with_work(put);
    lemma_open_in_tree(st.with_work(o), p, b);
    assert(in_tree(put, b, st.geo.h)) by {
        assert forall|i: int| 0 <= i < put.len() && !(#[trigger] put[i]).vacant() implies put[i].pos
            < full_width(st.geo.h - 1, b) by {
            assert(put[i] == block || put[i] == o[i]);
        }
    }
    lemma_path_progress(put, st.s, st.w, st.geo.h, path, b);
    let w = st.with_work(evicted_work(put, st.s, st.w, st.geo.h, path, b));
    lemma_put_back_opened(w, p);
}

/// Looking a key up and taking it out of stash and path: where one slot has the key, its
/// block comes back and that slot alone is vacated; where none has it, nothing changes.
pub proof fn lemma_removal(s: Seq<Block32>, key: u32, otherwise: Block32, i: int)
    requires
        forall|j: int| 0 <= j < s.len() && (#[trigger] s[j]).key == key ==> j == i,
    ensures
        0 <= i < s.len() && s[i].key == key ==> last_match32(s, key, otherwise) == s[i]
            && without_key32(s, key) == s.update(i, Block32::blank()),
        !(0 <= i < s.len() && s[i].key == key) ==> last_match32(s, key, otherwise) == otherwise
            && without_key32(s, key) == s,
    decreases s.len(),
{
    if s.len() > 0 {
        let front = s.drop_last();
        assert forall|j: int| 0 <= j < front.len() && (#[trigger] front[j]).key == key implies j
            == i by {
            assert(s[j].key == key);
        }
        lemma_removal(front, key, otherwise, i);
        assert(s.last() == s[s.len() - 1]);
    }
    if 0 <= i < s.len() && s[i].key == key {
        assert(without_key32(s, key) =~= s.update(i, Block32::blank()));
    } else {
        assert(without_key32(s, key) =~= s);
    }
}

/// [`lemma_removal`] for the wider blocks.
pub proof fn lemma_removal_wide(s: Seq<Block64>, key: u64, otherwise: Block64, i: int)
    requires
        forall|j: int| 0 <= j < s.len() && (#[trigger] s[j]).key == key ==> j == i,
    ensures
        0 <= i < s.len() && s[i].key == key ==> last_match64(s, key, otherwise) == s[i]
            && without_key64(s, key) == s.update(i, Block64::blank()),
        !(0 <= i < s.len() && s[i].key == key) ==> last_match64(s, key, otherwise) == otherwise
            && without_key64(s, key) == s,
    decreases s.len(),
{
    if s.len() > 0 {
        let front = s.drop_last();
        assert forall|j: int| 0 <= j < front.len() && (#[trigger] front[j]).key == key implies j
            == i by {
            assert(s[j].key == key);
        }
        lemma_removal_wide(front, key, otherwise, i);
        assert(s.last() == s[s.len() - 1]);
    }
    if 0 <= i < s.len() && s[i].key == key {
        assert(without_key64(s, key) =~= s.update(i, Block64::blank()));
    } else {
        assert(without_key64(s, key) =~= s);
    }
}

} // verus!
