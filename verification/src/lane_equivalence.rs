//! The simulator goes through the states of lane ORAM, without the payloads.
use vstd::prelude::*;
use crate::circuit::level_all;
use crate::lane_oram::{
    canonical, carried, depth_of, first_live, lane_column, lane_depths, lane_filled, lanes_filled,
    lemma_first_live, without_key32, Block32, KeyType, LaneORAM, PosType, DUMMY_KEY,
    EMPTY_BLOCK_DATA,
};
use crate::lane_oram_sim::{LaneOramSimulator, SimUpdate};
use crate::lane_transition::{evicted_work, finished, lane_store, lane_updated, parts, settled};
use crate::oblivious::ObliviousBlock;
use crate::path_access::{first_vacant, lemma_first_vacant, put_back, with_block};
use crate::path_store::{holds_key, lemma_row_of, lemma_row_place, PathBlock, PathState};

verus! {

/// A block without its payload.
pub open spec fn bare(c: Block32) -> Block32 {
    if c.vacant() {
        Block32::blank()
    } else {
        Block32 { pos: c.pos, key: c.key, data: EMPTY_BLOCK_DATA }
    }
}

/// Slots without payloads.
pub open spec fn bare_slots(s: Seq<Block32>) -> Seq<Block32> {
    Seq::new(s.len(), |i: int| bare(s[i]))
}

/// A store without payloads.
pub open spec fn bare_store(st: PathState<Block32>) -> PathState<Block32> {
    PathState {
        nodes: Seq::new(st.nodes.len(), |k: int| bare_slots(st.nodes[k])),
        work: bare_slots(st.work),
        ..st
    }
}

proof fn lemma_bare_first(s: Seq<Block32>, i: int, n: int)
    requires
        0 <= i,
        n <= s.len(),
    ensures
        first_vacant(bare_slots(s), i, n) == first_vacant(s, i, n),
        first_live(bare_slots(s), i, n) == first_live(s, i, n),
    decreases n - i,
{
    if i < n {
        lemma_bare_first(s, i + 1, n);
    }
}

/// The path of a store without payloads is the path without payloads.
proof fn lemma_bare_opened(st: PathState<Block32>, p: int)
    requires
        st.shape(),
        0 <= p < st.geo.leaves,
    ensures
        bare_store(st).shape(),
        bare_store(st).opened(p) == bare_slots(st.opened(p)),
        st.opened(p).len() == st.work.len(),
{
    let t = bare_store(st);
    assert forall|k: int| 0 <= k < t.nodes.len() implies (#[trigger] t.nodes[k]).len() == t.w by {
        assert(st.nodes[k].len() == st.w);
    }
    st.lemma_opened(p);
    t.lemma_opened(p);
    let a = t.opened(p);
    let c = bare_slots(st.opened(p));
    assert forall|i: int| 0 <= i < a.len() implies #[trigger] a[i] == c[i] by {
        if i < st.s {
            assert(a[i] == t.work[i]);
            assert(st.opened(p)[i] == st.work[i]);
        } else {
            let n = i - st.s;
            lemma_row_of(n, st.w, st.geo.h);
            let (d, j) = (n / st.w, n % st.w);
            assert(t.with_work(a).slot(d, j) == t.nodes[(t.geo.index)(d, p)][j]);
            assert(st.with_work(st.opened(p)).slot(d, j) == st.nodes[(st.geo.index)(d, p)][j]);
        }
    }
    assert(a =~= c);
}

proof fn lemma_bare_without(s: Seq<Block32>, key: KeyType)
    requires
        key != DUMMY_KEY,
        level_all(s, |c: Block32| canonical(c)),
    ensures
        bare_slots(without_key32(s, key)) == without_key32(bare_slots(s), key),
{
    assert forall|i: int| 0 <= i < s.len() implies #[trigger] bare_slots(without_key32(s, key))[i]
        == without_key32(bare_slots(s), key)[i] by {
        assert(canonical(s[i]));
    }
    assert(bare_slots(without_key32(s, key)) =~= without_key32(bare_slots(s), key));
}

proof fn lemma_bare_filled(work: Seq<Block32>, s: int, n: int)
    requires
        0 <= s,
        0 <= n,
        s + n <= work.len(),
    ensures
        bare_slots(lanes_filled(work, s, n)) == lanes_filled(bare_slots(work), s, n),
        lanes_filled(work, s, n).len() == work.len(),
    decreases n,
{
    if n > 0 {
        lemma_bare_filled(work, s, n - 1);
        let w = lanes_filled(work, s, n - 1);
        lemma_bare_first(w, 0, s);
        lemma_first_live(w, 0, s);
        assert(bare_slots(lane_filled(w, s, n - 1)) =~= lane_filled(bare_slots(w), s, n - 1));
    } else {
        assert(lanes_filled(work, s, n) == work);
        assert(lanes_filled(bare_slots(work), s, n) == bare_slots(work));
    }
}

proof fn lemma_bare_carried(col: Seq<Block32>, m: Seq<bool>, l: int)
    requires
        0 <= l <= col.len(),
    ensures
        carried(bare_slots(col), m, l) == bare(carried(col, m, l)),
    decreases l,
{
    if l > 0 {
        lemma_bare_carried(col, m, l - 1);
    }
}

proof fn lemma_bare_settled(work: Seq<Block32>, s: int, z: int, h: int, path: PosType, b: int)
    requires
        0 <= s,
        1 <= z,
        1 <= h,
        work.len() == s + h * z,
    ensures
        bare_slots(settled(work, s, z, h, path, b)) == settled(
            bare_slots(work),
            s,
            z,
            h,
            path,
            b,
        ),
{
    let a = bare_slots(settled(work, s, z, h, path, b));
    let c = settled(bare_slots(work), s, z, h, path, b);
    assert forall|i: int| 0 <= i < a.len() implies #[trigger] a[i] == c[i] by {
        if i >= s {
            lemma_row_of(i - s, z, h);
            let (l, lane) = ((i - s) / z, (i - s) % z);
            let col = lane_column(work, s, z, h, lane);
            let bcol = lane_column(bare_slots(work), s, z, h, lane);
            assert forall|k: int| 0 <= k < h implies #[trigger] bcol[k] == bare(col[k])
                && depth_of(bcol[k], path, b, h) == depth_of(col[k], path, b, h) by {
                lemma_row_place(k, lane, z, h);
            }
            assert(bcol =~= bare_slots(col));
            let d = lane_depths(work, s, z, h, lane, path, b);
            let e = lane_depths(bare_slots(work), s, z, h, lane, path, b);
            assert(d =~= e) by {
                assert forall|k: int| 0 <= k < h implies #[trigger] d[k] == e[k] by {
                    lemma_row_place(k, lane, z, h);
                    assert(bcol[k] == bare(col[k]));
                }
            }
            lemma_bare_carried(col, parts(d), l);
        }
    }
    assert(a =~= c);
}

proof fn lemma_bare_put_back(st: PathState<Block32>, p: int)
    requires
        st.shape(),
        0 <= p < st.geo.leaves,
    ensures
        bare_store(PathState { nodes: put_back(st, p), ..st }) == (PathState {
            nodes: put_back(bare_store(st), p),
            ..bare_store(st)
        }),
{
    let a = bare_store(PathState { nodes: put_back(st, p), ..st });
    let t = bare_store(st);
    let c = put_back(t, p);
    assert forall|k: int| 0 <= k < a.nodes.len() implies #[trigger] a.nodes[k] == c[k] by {
        if st.geo.path(p).contains(k) {
            let d = st.geo.path(p).index_of(k);
            assert(0 <= d < st.geo.path(p).len() && st.geo.path(p)[d] == k);
            assert(bare_slots(st.row(d)) =~= t.row(d)) by {
                assert forall|j: int| 0 <= j < st.w implies bare_slots(st.row(d))[j]
                    == #[trigger] t.row(d)[j] by {
                    lemma_row_place(d, j, st.w, st.geo.h);
                    assert(0 <= st.s + d * st.w + j < st.work.len());
                }
            }
        }
    }
    assert(a.nodes =~= c);
}

/// Evicting and putting a path back does not look at payloads.
proof fn lemma_bare_finished(st: PathState<Block32>, path: PosType, b: int)
    requires
        st.shape(),
        path < st.geo.leaves,
    ensures
        bare_store(finished(st, path, b)) == finished(bare_store(st), path, b),
{
    let (s, w, h) = (st.s, st.w, st.geo.h);
    lemma_row_place(0, 0, w, h);
    assert(0 * w == 0);
    lemma_bare_filled(st.work, s, w);
    let f = lanes_filled(st.work, s, w);
    lemma_bare_settled(f, s, w, h, path, b);
    let t = st.with_work(evicted_work(st.work, s, w, h, path, b));
    lemma_bare_put_back(t, path as int);
    assert(bare_store(t) == bare_store(st).with_work(
        evicted_work(bare_store(st).work, s, w, h, path, b),
    ));
}

/// An access does not look at payloads: it does the same to a store without them.
pub proof fn lemma_payloads_play_no_part(
    st: PathState<Block32>,
    path: PosType,
    block: Block32,
    b: int,
)
    requires
        lane_store(st, b),
        st.at_rest(),
        path < st.geo.leaves,
        !block.vacant(),
        block.key != DUMMY_KEY,
    ensures
        bare_store(lane_updated(st, path, block, b)) == lane_updated(
            bare_store(st),
            path,
            bare(block),
            b,
        ),
{
    let p = path as int;
    lemma_bare_opened(st, p);
    crate::lane_transition::lemma_loaded_store(st, path, b);
    let o = st.opened(p);
    lemma_bare_without(o, block.key);
    let taken = without_key32(o, block.key);
    lemma_bare_first(taken, 0, st.s);
    lemma_first_vacant(taken, 0, st.s);
    let u = st.with_work(with_block(taken, st.s, block));
    assert(bare_slots(u.work) =~= with_block(bare_slots(taken), st.s, bare(block)));
    lemma_bare_finished(u, path, b);
    assert(bare_store(u) == bare_store(st).with_work(
        with_block(bare_slots(taken), st.s, bare(block)),
    ));
}

/// The simulator follows lane ORAM: from states that agree but for the payloads, one
/// update leads both to states that agree again, finds the key in both or in neither, and
/// the simulator reports an overflow exactly when the stash of lane ORAM has no room.
pub proof fn lemma_simulator_follows_lane_oram<const Z: usize, const S: usize, const B: usize>(
    oram: LaneORAM<Z, S, B>,
    oram_after: LaneORAM<Z, S, B>,
    sim: LaneOramSimulator,
    sim_after: LaneOramSimulator,
    pos: PosType,
    new_pos: PosType,
    key: KeyType,
    block: Block32,
    r: SimUpdate,
)
    requires
        oram.wf(),
        sim.wf(),
        sim.b == B,
        bare_store(oram.state()) == sim.state(),
        pos < oram.max_n,
        !block.vacant(),
        key != DUMMY_KEY,
        block.pos == new_pos,
        block.key == key,
        oram_after.state() == lane_updated(oram.state(), pos, block, B as int),
        sim.updated(&sim_after, pos, new_pos, key, Seq::empty(), r),
    ensures
        r.found == oram.state().visible(pos as int, key),
        r.overflowed == !oram.state().has_room(key),
        !r.overflowed ==> bare_store(oram_after.state()) == sim_after.state(),
{
    let st = oram.state();
    let p = pos as int;
    oram.lemma_store();
    lemma_payloads_play_no_part(st, pos, block, B as int);
    lemma_bare_opened(st, p);
    let o = st.opened(p);
    let c = sim.state().opened(p);
    if st.visible(p, key) {
        let i = choose|i: int| 0 <= i < o.len() && holds_key(#[trigger] o[i], key);
        assert(holds_key(c[i], key));
    }
    if sim.state().visible(p, key) {
        let i = choose|i: int| 0 <= i < c.len() && holds_key(#[trigger] c[i], key);
        assert(holds_key(o[i], key));
    }
    assert forall|i: int| 0 <= i < st.s implies (sim.state().work[i].vacant()
        || sim.state().work[i].key_of() == key) == ((#[trigger] st.work[i]).vacant()
        || st.work[i].key_of() == key) by {
        assert(canonical(st.work[i]));
    }
    if st.has_room(key) {
        let i = choose|i: int|
            0 <= i < st.s && ((#[trigger] st.work[i]).vacant() || st.work[i].key_of() == key);
        assert(sim.state().work[i].vacant() || sim.state().work[i].key_of() == key);
    }
    if sim.state().has_room(key) {
        let i = choose|i: int|
            0 <= i < st.s && ((#[trigger] sim.state().work[i]).vacant()
                || sim.state().work[i].key_of() == key);
        assert(st.work[i].vacant() || st.work[i].key_of() == key);
    }
    assert(bare(block) == (Block32 { pos: new_pos, key, data: EMPTY_BLOCK_DATA }));
}

/// A lane ORAM and a simulator of the same sizes that hold nothing agree.
pub proof fn lemma_simulator_starts_like_lane_oram<
    const Z: usize,
    const S: usize,
    const B: usize,
>(oram: LaneORAM<Z, S, B>, sim: LaneOramSimulator)
    requires
        oram.wf(),
        sim.wf(),
        sim.b == B,
        sim.z == Z,
        sim.stash@.len() == S,
        sim.height == oram.h,
        oram.state().stored() == Map::<u32, Block32>::empty(),
        sim.state().stored() == Map::<u32, Block32>::empty(),
        forall|i: int|
            0 <= i < oram.stash_and_path@.len() ==> #[trigger] oram.stash_and_path@[i]
                == Block32::blank(),
        forall|i: int|
            0 <= i < sim.state().work.len() ==> #[trigger] sim.state().work[i] == Block32::blank(),
    ensures
        bare_store(oram.state()) == sim.state(),
{
    let a = oram.state();
    let c = sim.state();
    oram.lemma_store();
    sim.lemma_state();
    assert forall|k: int, j: int|
        #![trigger a.nodes[k][j]]
        0 <= k < a.nodes.len() && 0 <= j < a.w implies a.nodes[k][j].vacant() by {
        lemma_nothing_stored(a, k, j);
    }
    assert forall|k: int, j: int|
        #![trigger c.nodes[k][j]]
        0 <= k < c.nodes.len() && 0 <= j < c.w implies c.nodes[k][j] == Block32::blank() by {
        lemma_nothing_stored(c, k, j);
        assert(level_all(c.nodes[k], |x: Block32| canonical(x)));
    }
    assert forall|k: int| 0 <= k < a.nodes.len() implies bare_store(a).nodes[k]
        == #[trigger] c.nodes[k] by {
        assert(a.nodes[k].len() == a.w);
        assert(bare_store(a).nodes[k] =~= c.nodes[k]);
    }
    assert(bare_store(a).nodes =~= c.nodes);
    assert(bare_store(a).work =~= c.work);
}

/// A store that stores nothing has only vacant slots in its tree.
proof fn lemma_nothing_stored(st: PathState<Block32>, k: int, j: int)
    requires
        st.at_rest(),
        st.stored() == Map::<u32, Block32>::empty(),
        0 <= k < st.nodes.len(),
        0 <= j < st.w,
    ensures
        st.nodes[k][j].vacant(),
{
    if !st.nodes[k][j].vacant() {
        assert(st.geo.reaches(k));
        let (d, q) = choose|d: int, q: int|
            0 <= d < st.geo.h && 0 <= q < st.geo.leaves && #[trigger] (st.geo.index)(d, q) == k;
        st.lemma_opened(q);
        let u = st.with_work(st.opened(q));
        assert(u.slot(d, j) == st.nodes[(st.geo.index)(d, q)][j]);
        lemma_row_place(d, j, st.w, st.geo.h);
        st.lemma_visible_is_stored(q, st.s + d * st.w + j);
    }
}

} // verus!
