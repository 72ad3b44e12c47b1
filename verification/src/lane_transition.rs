//! What an access of lane ORAM does to its blocks, slot by slot.
use vstd::prelude::*;
use crate::circuit::{lane_all, level_all};
use crate::lane_oram::{
    canonical, carried, lane_column, lane_depths, lane_parts, lanes_filled, lemma_lanes_filled,
    lemma_moved_down, lemma_root, lemma_without_key, moved, takes_part, without_key32, Block32,
    PosType, DUMMY_KEY,
};
use crate::oblivious::ObliviousBlock;
use crate::path_access::{first_vacant, lemma_first_vacant, put_back, with_block};
use crate::path_store::{keys, lemma_row_of, lemma_row_place, PathState};
use crate::tally::{hit, lemma_tally_scatter_slots, one_per_key, tally};
use crate::wide_heap_tree::prefix_geometry;

verus! {

/// Which levels of a lane take part in a pass.
pub open spec fn parts(d: Seq<i64>) -> Seq<bool> {
    Seq::new(d.len(), |l: int| takes_part(d, l))
}

/// The working array after a pass down every lane of the path to `path`.
pub open spec fn settled(
    work: Seq<Block32>,
    s: int,
    z: int,
    h: int,
    path: PosType,
    b: int,
) -> Seq<Block32> {
    Seq::new(
        work.len(),
        |i: int|
            if i < s {
                work[i]
            } else {
                moved(
                    lane_column(work, s, z, h, (i - s) % z),
                    parts(lane_depths(work, s, z, h, (i - s) % z, path, b)),
                    (i - s) / z,
                )
            },
    )
}

/// The working array after the root slots were filled from the stash and a pass went down
/// every lane.
pub open spec fn evicted_work(
    work: Seq<Block32>,
    s: int,
    z: int,
    h: int,
    path: PosType,
    b: int,
) -> Seq<Block32> {
    settled(lanes_filled(work, s, z), s, z, h, path, b)
}

/// The store after the path in the working array was evicted and put back.
pub open spec fn finished(st: PathState<Block32>, path: PosType, b: int) -> PathState<Block32> {
    let t = st.with_work(evicted_work(st.work, st.s, st.w, st.geo.h, path, b));
    PathState { nodes: put_back(t, path as int), ..t }
}

/// The store after the path to `path` was loaded, evicted and put back.
pub open spec fn lane_passed(st: PathState<Block32>, path: PosType, b: int) -> PathState<Block32> {
    finished(st.with_work(st.opened(path as int)), path, b)
}

/// [`lane_passed`] for the first `n` of `paths`, one after another.
pub open spec fn lanes_passed(
    st: PathState<Block32>,
    paths: Seq<PosType>,
    b: int,
    n: int,
) -> PathState<Block32>
    decreases n,
{
    if n <= 0 {
        st
    } else {
        lane_passed(lanes_passed(st, paths, b, n - 1), paths[n - 1], b)
    }
}

/// The store after an access: the block of a key on the path to `path` is replaced by
/// `block` in the stash, and the path is evicted and put back.
pub open spec fn lane_updated(
    st: PathState<Block32>,
    path: PosType,
    block: Block32,
    b: int,
) -> PathState<Block32> {
    let taken = without_key32(st.opened(path as int), block.key);
    finished(st.with_work(with_block(taken, st.s, block)), path, b)
}

/// Every slot of a store is canonical.
pub open spec fn store_canonical(st: PathState<Block32>) -> bool {
    &&& level_all(st.work, |c: Block32| canonical(c))
    &&& lane_all(st.nodes, |c: Block32| canonical(c))
}

/// The store is that of a lane ORAM with branching factor `b`.
pub open spec fn lane_store(st: PathState<Block32>, b: int) -> bool {
    &&& 2 <= b
    &&& 1 <= st.geo.h <= i64::MAX
    &&& st.geo == prefix_geometry(b, st.geo.h)
    &&& st.shape()
    &&& store_canonical(st)
}

/// A pass down a lane keeps the blocks, up to the one that it still carries.
proof fn lemma_pass_keeps(col: Seq<Block32>, m: Seq<bool>, after: Seq<Block32>, l: int, b: Block32)
    requires
        0 <= l <= col.len(),
        after.len() == col.len(),
        m.len() == col.len(),
        forall|k: int| 0 <= k < col.len() ==> #[trigger] after[k] == moved(col, m, k),
    ensures
        tally(after.take(l), b) + hit(carried(col, m, l), b) == tally(col.take(l), b),
    decreases l,
{
    if l > 0 {
        lemma_pass_keeps(col, m, after, l - 1, b);
        assert(after.take(l).drop_last() =~= after.take(l - 1));
        assert(col.take(l).drop_last() =~= col.take(l - 1));
        assert(after[l - 1] == moved(col, m, l - 1));
    }
}

/// The working array with only the first `n` lanes settled.
spec fn settled_lanes(
    work: Seq<Block32>,
    s: int,
    z: int,
    h: int,
    path: PosType,
    b: int,
    n: int,
) -> Seq<Block32> {
    Seq::new(
        work.len(),
        |i: int|
            if i >= s && (i - s) % z < n {
                settled(work, s, z, h, path, b)[i]
            } else {
                work[i]
            },
    )
}

/// Settling the lanes keeps the blocks.
proof fn lemma_settled_keeps(
    work: Seq<Block32>,
    s: int,
    z: int,
    h: int,
    path: PosType,
    b: int,
    n: int,
    c: Block32,
)
    requires
        0 <= s,
        1 <= h,
        0 <= n <= z,
        1 <= z,
        work.len() == s + h * z,
        forall|lane: int|
            0 <= lane < z ==> (#[trigger] carried(
                lane_column(work, s, z, h, lane),
                parts(lane_depths(work, s, z, h, lane, path, b)),
                h,
            )).vacant(),
    ensures
        tally(settled_lanes(work, s, z, h, path, b, n), c) == tally(work, c),
    decreases n,
{
    if n == 0 {
        assert forall|i: int| s <= i < work.len() implies 0 <= #[trigger] ((i - s) % z) by {
            vstd::arithmetic::div_mod::lemma_mod_bound(i - s, z);
        }
        assert(settled_lanes(work, s, z, h, path, b, 0) =~= work);
    } else {
        lemma_settled_keeps(work, s, z, h, path, b, n - 1, c);
        let lane = n - 1;
        let before = settled_lanes(work, s, z, h, path, b, lane);
        let after = settled_lanes(work, s, z, h, path, b, n);
        let col = lane_column(work, s, z, h, lane);
        let m = parts(lane_depths(work, s, z, h, lane, path, b));
        let at = Seq::new(h as nat, |l: int| s + l * z + lane);
        assert forall|l: int| 0 <= l < h implies 0 <= #[trigger] at[l] < work.len() && (at[l] - s)
            % z == lane && (at[l] - s) / z == l by {
            lemma_row_place(l, lane, z, h);
            vstd::arithmetic::div_mod::lemma_fundamental_div_mod_converse(
                l * z + lane,
                z,
                l,
                lane,
            );
        }
        assert forall|i: int, j: int| 0 <= i < j < at.len() implies #[trigger] at[i]
            != #[trigger] at[j] by {
            assert((at[i] - s) / z == i);
            assert((at[j] - s) / z == j);
        }
        assert forall|k: int| 0 <= k < work.len() && !at.contains(k) implies #[trigger] after[k]
            == before[k] by {
            if k >= s && (k - s) % z == lane {
                lemma_row_of(k - s, z, h);
                assert(at[(k - s) / z] == k);
            }
        }
        lemma_tally_scatter_slots(before, after, at, c);
        let moved_col = at.map_values(|k: int| after[k]);
        assert(at.map_values(|k: int| before[k]) =~= col) by {
            assert forall|l: int| 0 <= l < h implies before[#[trigger] at[l]] == col[l] by {}
        }
        assert forall|l: int| 0 <= l < h implies #[trigger] moved_col[l] == moved(col, m, l) by {
            assert(after[at[l]] == settled(work, s, z, h, path, b)[at[l]]);
        }
        lemma_pass_keeps(col, m, moved_col, h, c);
        assert(moved_col.take(h) =~= moved_col);
        assert(col.take(h) =~= col);
    }
}

/// Evicting the path in the working array keeps the store.
pub(crate) proof fn lemma_evicted_work(st: PathState<Block32>, path: PosType, b: int)
    requires
        lane_store(st, b),
        st.open_at(path as int),
        one_per_key(st.open_count(path as int), keys()),
    ensures
        ({
            let t = st.with_work(evicted_work(st.work, st.s, st.w, st.geo.h, path, b));
            &&& lane_store(t, b)
            &&& t.open_at(path as int)
            &&& one_per_key(t.open_count(path as int), keys())
            &&& t.open_stored(path as int) == st.open_stored(path as int)
        }),
{
    let p = path as int;
    let z = st.w;
    let h = st.geo.h;
    let s = st.s;
    lemma_root(b, h);
    lemma_lanes_filled(st, p, z);
    let f = lanes_filled(st.work, s, z);
    let st1 = st.with_work(f);
    let work = settled(f, s, z, h, path, b);
    let masks = Seq::new(
        (h * z) as nat,
        |i: int|
            if takes_part(lane_depths(f, s, z, h, i % z, path, b), i / z) {
                0xffffu16
            } else {
                0u16
            },
    );
    assert(0 <= h * z) by (nonlinear_arith)
        requires
            0 <= h,
            0 <= z,
    ;
    assert forall|l: int, lane: int|
        #![trigger lane_parts(masks, z, h, lane)[l]]
        0 <= l < h && 0 <= lane < z implies lane_parts(masks, z, h, lane)[l] == takes_part(
        lane_depths(f, s, z, h, lane, path, b),
        l,
    ) by {
        lemma_row_place(l, lane, z, h);
        vstd::arithmetic::div_mod::lemma_fundamental_div_mod_converse(l * z + lane, z, l, lane);
    }
    assert forall|lane: int| 0 <= lane < z implies lane_parts(masks, z, h, lane) == parts(
        #[trigger] lane_depths(f, s, z, h, lane, path, b),
    ) by {
        assert(lane_parts(masks, z, h, lane) =~= parts(lane_depths(f, s, z, h, lane, path, b)));
    }
    assert forall|l: int, lane: int|
        #![trigger lane_column(work, s, z, h, lane)[l]]
        0 <= l < h && 0 <= lane < z implies lane_column(work, s, z, h, lane)[l] == moved(
        lane_column(f, s, z, h, lane),
        lane_parts(masks, z, h, lane),
        l,
    ) by {
        lemma_row_place(l, lane, z, h);
        vstd::arithmetic::div_mod::lemma_fundamental_div_mod_converse(l * z + lane, z, l, lane);
        assert(lane_parts(masks, z, h, lane) == parts(lane_depths(f, s, z, h, lane, path, b)));
    }
    if forall|lane: int|
        0 <= lane < z ==> (#[trigger] carried(
            lane_column(f, s, z, h, lane),
            lane_parts(masks, z, h, lane),
            h,
        )).vacant() {
        assert forall|lane: int| 0 <= lane < z implies (#[trigger] carried(
            lane_column(f, s, z, h, lane),
            parts(lane_depths(f, s, z, h, lane, path, b)),
            h,
        )).vacant() by {
            assert(carried(
                lane_column(f, s, z, h, lane),
                lane_parts(masks, z, h, lane),
                h,
            ).vacant());
        }
        assert forall|c: Block32| #[trigger] tally(work, c) == tally(f, c) by {
            lemma_settled_keeps(f, s, z, h, path, b, z, c);
            assert(settled_lanes(f, s, z, h, path, b, z) =~= work) by {
                assert forall|i: int| s <= i < f.len() implies #[trigger] ((i - s) % z) < z by {
                    vstd::arithmetic::div_mod::lemma_mod_bound(i - s, z);
                }
            }
        }
    }
    lemma_moved_down(st1, work, masks, path, b);
    assert(st1.with_work(work) == st.with_work(work));
}

/// Putting a path back puts the store at rest.
pub(crate) proof fn lemma_put_back(st: PathState<Block32>, p: int, b: int)
    requires
        lane_store(st, b),
        st.open_at(p),
        one_per_key(st.open_count(p), keys()),
    ensures
        ({
            let c = PathState { nodes: put_back(st, p), ..st };
            &&& lane_store(c, b)
            &&& c.at_rest()
            &&& c.stored() == st.open_stored(p)
        }),
{
    let nodes = put_back(st, p);
    let at = st.geo.path(p);
    let c = PathState { nodes, ..st };
    assert forall|d: int| 0 <= d < st.geo.h implies nodes[#[trigger] (st.geo.index)(d, p)]
        == st.row(d) by {
        let k = (st.geo.index)(d, p);
        assert(at[d] == k);
        assert(at.contains(k));
        let e = at.index_of(k);
        assert(0 <= e < at.len() && at[e] == k);
        assert((st.geo.index)(e, p) == (st.geo.index)(d, p));
    }
    st.lemma_close(p, nodes);
    assert forall|k: int| 0 <= k < nodes.len() implies level_all(
        #[trigger] nodes[k],
        |x: Block32| canonical(x),
    ) by {
        if at.contains(k) {
            let d = at.index_of(k);
            assert(0 <= d < at.len() && at[d] == k);
            assert forall|j: int| 0 <= j < nodes[k].len() implies canonical(
                #[trigger] nodes[k][j],
            ) by {
                lemma_row_place(d, j, st.w, st.geo.h);
                assert(nodes[k][j] == st.work[st.s + d * st.w + j]);
                assert(canonical(st.work[st.s + d * st.w + j]));
            }
        } else {
            assert(nodes[k] == st.nodes[k]);
        }
    }
}

/// Evicting and putting a path back puts the store at rest.
pub(crate) proof fn lemma_finished(st: PathState<Block32>, path: PosType, b: int)
    requires
        lane_store(st, b),
        st.open_at(path as int),
        one_per_key(st.open_count(path as int), keys()),
    ensures
        lane_store(finished(st, path, b), b),
        finished(st, path, b).at_rest(),
        finished(st, path, b).stored() == st.open_stored(path as int),
{
    lemma_evicted_work(st, path, b);
    lemma_put_back(
        st.with_work(evicted_work(st.work, st.s, st.w, st.geo.h, path, b)),
        path as int,
        b,
    );
}

/// A loaded path leaves the store in order.
pub(crate) proof fn lemma_loaded_store(st: PathState<Block32>, path: PosType, b: int)
    requires
        lane_store(st, b),
        st.at_rest(),
        path < st.geo.leaves,
    ensures
        lane_store(st.with_work(st.opened(path as int)), b),
        st.with_work(st.opened(path as int)).open_at(path as int),
        one_per_key(
            st.with_work(st.opened(path as int)).open_count(path as int),
            keys(),
        ),
        st.with_work(st.opened(path as int)).open_stored(path as int) == st.stored(),
{
    let p = path as int;
    st.lemma_open(p);
    st.lemma_opened(p);
    let o = st.opened(p);
    let t = st.with_work(o);
    assert forall|k: int| 0 <= k < o.len() implies canonical(#[trigger] o[k]) by {
        if k >= st.s {
            let i = k - st.s;
            lemma_row_of(i, st.w, st.geo.h);
            let d = i / st.w;
            let j = i % st.w;
            assert(t.slot(d, j) == st.nodes[(st.geo.index)(d, p)][j]);
            assert(level_all(st.nodes[(st.geo.index)(d, p)], |c: Block32| canonical(c)));
        } else {
            assert(o[k] == st.work[k]);
            assert(canonical(st.work[k]));
        }
    }
}

/// Passes over paths keep the store.
pub proof fn lemma_lanes_passed(st: PathState<Block32>, paths: Seq<PosType>, b: int, n: int)
    requires
        lane_store(st, b),
        st.at_rest(),
        n <= paths.len(),
        forall|i: int| 0 <= i < paths.len() ==> #[trigger] paths[i] < st.geo.leaves,
    ensures
        lane_store(lanes_passed(st, paths, b, n), b),
        lanes_passed(st, paths, b, n).at_rest(),
        lanes_passed(st, paths, b, n).stored() == st.stored(),
        lanes_passed(st, paths, b, n).geo == st.geo,
        lanes_passed(st, paths, b, n).s == st.s,
        lanes_passed(st, paths, b, n).w == st.w,
    decreases n,
{
    if n > 0 {
        lemma_lanes_passed(st, paths, b, n - 1);
        let t = lanes_passed(st, paths, b, n - 1);
        let path = paths[n - 1];
        lemma_loaded_store(t, path, b);
        lemma_finished(t.with_work(t.opened(path as int)), path, b);
    }
}

/// An access with room in the stash stores the block.
pub proof fn lemma_lane_updated(st: PathState<Block32>, path: PosType, block: Block32, b: int)
    requires
        lane_store(st, b),
        st.at_rest(),
        path < st.geo.leaves,
        !block.vacant(),
        block.key != DUMMY_KEY,
        block.pos < st.geo.leaves,
        st.stored().contains_key(block.key) ==> st.visible(path as int, block.key),
        st.has_room(block.key),
    ensures
        lane_store(lane_updated(st, path, block, b), b),
        lane_updated(st, path, block, b).at_rest(),
        lane_updated(st, path, block, b).stored() == st.stored().insert(block.key, block),
        lane_updated(st, path, block, b).geo == st.geo,
        lane_updated(st, path, block, b).s == st.s,
        lane_updated(st, path, block, b).w == st.w,
{
    let p = path as int;
    let key = block.key;
    lemma_loaded_store(st, path, b);
    lemma_without_key(st, p, key, block);
    let taken = without_key32(st.opened(p), key);
    let t = st.with_work(taken);
    lemma_first_vacant(taken, 0, st.s);
    let i = first_vacant(taken, 0, st.s);
    assert(i < st.s) by {
        assert(t.has_vacancy());
        let k = choose|k: int| 0 <= k < t.s && (#[trigger] t.work[k]).vacant();
        assert(taken[k].vacant());
    }
    t.lemma_put(p, i, block);
    let u = st.with_work(with_block(taken, st.s, block));
    assert(u == t.with_work(taken.update(i, block)));
    assert forall|k: int| 0 <= k < u.work.len() implies canonical(#[trigger] u.work[k]) by {
        assert(canonical(taken[k]));
    }
    assert(st.stored().remove(key).insert(key, block) =~= st.stored().insert(key, block));
    lemma_finished(u, path, b);
}

} // verus!
