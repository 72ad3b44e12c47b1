//! What an eviction of the mock lane ORAM achieves.
//!
//! The laws say on slots and queue alone how the root takes blocks out of the queue, and
//! how the deepest empty slot of each lane on the path is filled.
use vstd::prelude::*;
use crate::prelude::K;
use crate::test_lane_oram::{
    chain, deepest_empty, first_holding, holds, lane_places, lanes_evicted, may_sink, path_places,
    root_filled, source_for, InsertResult, PerfectBaryTree, Slot, TestLaneBlock, TestLaneOram,
};
use crate::test_lane_laws::{
    lemma_first_holding, lemma_places_in_tree, lemma_root_filled, rightly_placed, sound_blocks,
};

verus! {

/// The number of empty slots among the first `n`.
pub open spec fn gaps(s: Seq<Slot<TestLaneBlock>>, n: int) -> int
    decreases n,
{
    if n <= 0 {
        0
    } else {
        gaps(s, n - 1) + (if s[n - 1] is Empty {
            1int
        } else {
            0
        })
    }
}

/// How many blocks the root takes: as many as it has gaps, or all of the queue.
pub open spec fn taken(s: Seq<Slot<TestLaneBlock>>, queue: Seq<TestLaneBlock>, z: int) -> int {
    if gaps(s, z) < queue.len() {
        gaps(s, z)
    } else {
        queue.len() as int
    }
}

/// The slots when every gap of the root, in order, has the next block of the queue, with
/// the position that its key has now.
pub open spec fn root_after(
    s: Seq<Slot<TestLaneBlock>>,
    queue: Seq<TestLaneBlock>,
    position_map: Seq<usize>,
    z: int,
) -> Seq<Slot<TestLaneBlock>> {
    Seq::new(
        s.len(),
        |i: int|
            if i < z && s[i] is Empty && gaps(s, i) < queue.len() {
                let key = queue[gaps(s, i)].key;
                Slot::Full(TestLaneBlock { key, pos: position_map[key as int] })
            } else {
                s[i]
            },
    )
}

proof fn lemma_gaps(s: Seq<Slot<TestLaneBlock>>, n: int)
    requires
        0 <= n,
    ensures
        0 <= gaps(s, n) <= n,
    decreases n,
{
    if n > 0 {
        lemma_gaps(s, n - 1);
    }
}

proof fn lemma_gaps_grow(s: Seq<Slot<TestLaneBlock>>, m: int, n: int)
    requires
        0 <= m <= n,
    ensures
        gaps(s, m) <= gaps(s, n),
        m < n && s[m] is Empty ==> gaps(s, m) < gaps(s, n),
    decreases n - m,
{
    if m < n {
        lemma_gaps_grow(s, m, n - 1);
    }
}

/// Emptying a full slot makes one more gap, if it is among those counted.
proof fn lemma_gaps_update(s: Seq<Slot<TestLaneBlock>>, i: int, n: int)
    requires
        0 <= i < s.len(),
        0 <= n <= s.len(),
        s[i] is Full,
    ensures
        gaps(s.update(i, Slot::Empty), n) == gaps(s, n) + (if i < n {
            1int
        } else {
            0
        }),
    decreases n,
{
    if n > 0 {
        lemma_gaps_update(s, i, n - 1);
    }
}

/// The root takes the front of the queue into its gaps, in order: the queue loses as many
/// blocks as the root has gaps, or all of them. Afterwards the queue is empty or every slot
/// of the root is full.
pub proof fn lemma_root_takes(
    s: Seq<Slot<TestLaneBlock>>,
    queue: Seq<TestLaneBlock>,
    position_map: Seq<usize>,
    z: int,
)
    requires
        0 <= z <= s.len(),
    ensures
        ({
            let (t, q) = root_filled(s, queue, position_map, z);
            &&& t == root_after(s, queue, position_map, z)
            &&& q == queue.skip(taken(s, queue, z))
            &&& q.len() == (if queue.len() > gaps(s, z) {
                queue.len() - gaps(s, z)
            } else {
                0
            })
            &&& q.len() == 0 || forall|i: int| 0 <= i < z ==> #[trigger] t[i] is Full
        }),
    decreases z,
{
    let (t, q) = root_filled(s, queue, position_map, z);
    lemma_gaps(s, z);
    if z == 0 {
        assert(t =~= root_after(s, queue, position_map, 0));
        assert(q =~= queue.skip(0));
    } else {
        lemma_root_takes(s, queue, position_map, z - 1);
        let (u, p) = root_filled(s, queue, position_map, z - 1);
        lemma_gaps(s, z - 1);
        assert(u[z - 1] == s[z - 1]);
        if s[z - 1] is Empty && p.len() > 0 {
            assert(p[0] == queue[gaps(s, z - 1)]);
            assert(q =~= queue.skip(taken(s, queue, z)));
            assert(t =~= root_after(s, queue, position_map, z));
        } else {
            assert(q =~= queue.skip(taken(s, queue, z)));
            assert(t =~= root_after(s, queue, position_map, z));
        }
        if q.len() > 0 {
            assert forall|i: int| 0 <= i < z implies #[trigger] t[i] is Full by {
                lemma_gaps_grow(s, i, z);
            }
        }
    }
}

// ---------------------------------------------------------------------------
// The lanes of the path.
// ---------------------------------------------------------------------------
/// A chain that starts at level `e` changes the lane from the root to that level alone.
proof fn lemma_chain_frame(
    s: Seq<Slot<TestLaneBlock>>,
    at: Seq<int>,
    leaf: int,
    levels: int,
    branching_factor: int,
    e: int,
)
    requires
        e < at.len(),
        forall|k: int| 0 <= k < at.len() ==> 0 <= #[trigger] at[k] < s.len(),
        forall|j: int, k: int|
            0 <= j < k < at.len() ==> #[trigger] at[j] != #[trigger] at[k],
    ensures
        ({
            let t = chain(s, at, leaf, levels, branching_factor, e);
            &&& t.len() == s.len()
            &&& forall|i: int|
                0 <= i < s.len() && (forall|k: int| 0 <= k <= e ==> i != #[trigger] at[k])
                    ==> #[trigger] t[i] == s[i]
        }),
    decreases e,
{
    if e > 0 {
        let from = source_for(s, at, leaf, levels, branching_factor, e, e);
        let next = if 0 <= from < e {
            from
        } else {
            e - 1
        };
        let u = if 0 <= from < e {
            s.update(at[e], s[at[from]]).update(at[from], Slot::Empty)
        } else {
            s
        };
        lemma_chain_frame(u, at, leaf, levels, branching_factor, next);
        let t = chain(s, at, leaf, levels, branching_factor, e);
        assert forall|i: int|
            0 <= i < s.len() && (forall|k: int| 0 <= k <= e ==> i != #[trigger] at[k]) implies
            #[trigger] t[i] == s[i] by {
            assert(i != at[e]);
            assert(i != at[next]);
            assert forall|k: int| 0 <= k <= next implies i != #[trigger] at[k] by {}
            assert(t[i] == u[i]);
        }
    }
}

/// The nearest level above that may give its block.
proof fn lemma_nearest(
    s: Seq<Slot<TestLaneBlock>>,
    at: Seq<int>,
    leaf: int,
    levels: int,
    branching_factor: int,
    e: int,
    n: int,
)
    ensures
        ({
            let from = source_for(s, at, leaf, levels, branching_factor, e, n);
            &&& from == -1 || 0 <= from < n
            &&& from >= 0 ==> may_sink(s[at[from]], leaf, levels, branching_factor, e)
            &&& forall|k: int|
                from < k < n && 0 <= k ==> !may_sink(
                    s[#[trigger] at[k]],
                    leaf,
                    levels,
                    branching_factor,
                    e,
                )
        }),
    decreases n,
{
    if n > 0 && !may_sink(s[at[n - 1]], leaf, levels, branching_factor, e) {
        lemma_nearest(s, at, leaf, levels, branching_factor, e, n - 1);
    }
}

/// The deepest empty level is empty, and no deeper one is.
proof fn lemma_deepest(s: Seq<Slot<TestLaneBlock>>, at: Seq<int>, n: int)
    ensures
        ({
            let e = deepest_empty(s, at, n);
            &&& e == -1 || 0 <= e < n
            &&& e >= 0 ==> s[at[e]] is Empty
            &&& forall|k: int| e < k < n && 0 <= k ==> !(s[#[trigger] at[k]] is Empty)
        }),
    decreases n,
{
    if n > 0 && !(s[at[n - 1]] is Empty) {
        lemma_deepest(s, at, n - 1);
    }
}

/// No block is at two of the levels.
spec fn apart(s: Seq<Slot<TestLaneBlock>>, at: Seq<int>) -> bool {
    forall|j: int, k: int|
        0 <= j < at.len() && 0 <= k < at.len() && s[#[trigger] at[j]] is Full && s[at[j]]
            == s[#[trigger] at[k]] ==> j == k
}

/// Level `f` has the block that was nearest above it among those that may go there, or is
/// empty if there was none.
spec fn refilled(
    s: Seq<Slot<TestLaneBlock>>,
    t: Seq<Slot<TestLaneBlock>>,
    at: Seq<int>,
    leaf: int,
    levels: int,
    branching_factor: int,
    f: int,
) -> bool {
    let from = source_for(s, at, leaf, levels, branching_factor, f, f);
    t[at[f]] == (if f > 0 && 0 <= from < f {
        s[at[from]]
    } else {
        Slot::Empty
    })
}

/// A source depends on the levels above alone.
proof fn lemma_source_same(
    s: Seq<Slot<TestLaneBlock>>,
    u: Seq<Slot<TestLaneBlock>>,
    at: Seq<int>,
    leaf: int,
    levels: int,
    branching_factor: int,
    e: int,
    n: int,
)
    requires
        n <= at.len(),
        forall|k: int| 0 <= k < n ==> s[#[trigger] at[k]] == u[at[k]],
    ensures
        source_for(s, at, leaf, levels, branching_factor, e, n) == source_for(
            u,
            at,
            leaf,
            levels,
            branching_factor,
            e,
            n,
        ),
    decreases n,
{
    if n > 0 {
        assert(s[at[n - 1]] == u[at[n - 1]]);
        lemma_source_same(s, u, at, leaf, levels, branching_factor, e, n - 1);
    }
}

/// A chain goes on at the level that gave its block: it is refilled from above. The level
/// that the chain starts with takes a block if there is one, and stays as it is otherwise.
proof fn lemma_chain_refills(
    s: Seq<Slot<TestLaneBlock>>,
    at: Seq<int>,
    leaf: int,
    levels: int,
    branching_factor: int,
    e: int,
    f: int,
    up: int,
)
    requires
        0 <= e < at.len(),
        forall|k: int| 0 <= k < at.len() ==> 0 <= #[trigger] at[k] < s.len(),
        forall|j: int, k: int|
            0 <= j < k < at.len() ==> #[trigger] at[j] != #[trigger] at[k],
        apart(s, at),
        0 <= f < up < at.len(),
    ensures
        ({
            let t = chain(s, at, leaf, levels, branching_factor, e);
            let from = source_for(s, at, leaf, levels, branching_factor, e, e);
            &&& t[at[e]] == (if e > 0 && 0 <= from < e {
                s[at[from]]
            } else {
                s[at[e]]
            })
            &&& s[at[f]] is Full && t[at[up]] == s[at[f]] ==> refilled(
                s,
                t,
                at,
                leaf,
                levels,
                branching_factor,
                f,
            )
        }),
    decreases e,
{
    let b = branching_factor;
    let t = chain(s, at, leaf, levels, b, e);
    let from = source_for(s, at, leaf, levels, b, e, e);
    if e <= 0 {
        assert(t == s);
        if s[at[f]] is Full && t[at[up]] == s[at[f]] {
            assert(f == up);
        }
    } else {
        lemma_nearest(s, at, leaf, levels, b, e, e);
        if 0 <= from < e {
            let u = s.update(at[e], s[at[from]]).update(at[from], Slot::Empty);
            assert(at[from] != at[e]);
            assert(apart(u, at)) by {
                assert forall|j: int, k: int|
                    0 <= j < at.len() && 0 <= k < at.len() && u[#[trigger] at[j]] is Full
                        && u[at[j]] == u[#[trigger] at[k]] implies j == k by {
                    let j0 = if j == e {
                        from
                    } else {
                        j
                    };
                    let k0 = if k == e {
                        from
                    } else {
                        k
                    };
                    assert(j != from && k != from);
                    assert(at[j] != at[from] && at[k] != at[from]);
                    assert(j != e ==> at[j] != at[e]);
                    assert(k != e ==> at[k] != at[e]);
                    assert(s[at[j0]] == u[at[j]] && s[at[k0]] == u[at[k]]);
                }
            }
            lemma_chain_frame(u, at, leaf, levels, b, from);
            lemma_chain_refills(u, at, leaf, levels, b, from, f, up);
            assert forall|k: int| from < k < at.len() implies t[#[trigger] at[k]] == u[at[k]] by {
                assert forall|j: int| 0 <= j <= from implies at[k] != #[trigger] at[j] by {}
            }
            assert(t[at[e]] == s[at[from]]);
            if s[at[f]] is Full && t[at[up]] == s[at[f]] {
                if f > from {
                    if up == e {
                        assert(s[at[from]] == s[at[f]]);
                    } else {
                        assert(at[up] != at[e] && at[up] != at[from]);
                        assert(s[at[up]] == s[at[f]]);
                    }
                    assert(false);
                } else {
                    assert forall|k: int| 0 <= k < f implies s[#[trigger] at[k]] == u[at[k]] by {
                        assert(at[k] != at[from] && at[k] != at[e]);
                    }
                    lemma_source_same(s, u, at, leaf, levels, b, f, f);
                    let src = source_for(s, at, leaf, levels, b, f, f);
                    if f == from {
                        if f > 0 && 0 <= src < f {
                            assert(s[at[src]] == u[at[src]]);
                        }
                        assert(refilled(s, t, at, leaf, levels, b, f));
                    } else {
                        assert(at[f] != at[from] && at[f] != at[e]);
                        assert(u[at[f]] == s[at[f]]);
                        if up > from {
                            if up == e {
                                assert(s[at[from]] == s[at[f]]);
                            } else {
                                assert(at[up] != at[e] && at[up] != at[from]);
                                assert(s[at[up]] == s[at[f]]);
                            }
                            assert(false);
                        }
                        assert(refilled(u, t, at, leaf, levels, b, f));
                        if f > 0 && 0 <= src < f {
                            assert(s[at[src]] == u[at[src]]);
                        }
                    }
                }
            }
        } else {
            lemma_chain_frame(s, at, leaf, levels, b, e - 1);
            lemma_chain_refills(s, at, leaf, levels, b, e - 1, f, up);
            assert forall|j: int| 0 <= j <= e - 1 implies at[e] != #[trigger] at[j] by {}
            assert(t[at[e]] == s[at[e]]);
        }
    }
}

/// Slot `lane` at `level` of the path to `leaf`.
pub open spec fn lane_slot(
    tree: &PerfectBaryTree<TestLaneBlock>,
    s: Seq<Slot<TestLaneBlock>>,
    leaf: int,
    lane: int,
    level: int,
) -> Slot<TestLaneBlock> {
    s[tree.node_on_path(level, leaf) * tree.node_size() + lane]
}

/// The slot holds a block that may lie at `level` of the path to `leaf`: the path to its
/// own position has the same node there.
pub open spec fn may_lie(
    tree: &PerfectBaryTree<TestLaneBlock>,
    slot: Slot<TestLaneBlock>,
    leaf: int,
    level: int,
) -> bool {
    slot matches Slot::Full(block) && tree.node_on_path(level, block.pos as int)
        == tree.node_on_path(level, leaf)
}

/// A lane of the path to `leaf` was evicted, from `s` to `t`. The deepest empty slot of the
/// lane takes the block that is nearest above it among those that may lie there, and stays
/// empty if there is none. The slots below it stay.
pub open spec fn lane_sunk(
    tree: &PerfectBaryTree<TestLaneBlock>,
    s: Seq<Slot<TestLaneBlock>>,
    t: Seq<Slot<TestLaneBlock>>,
    leaf: int,
    lane: int,
) -> bool {
    forall|e: int|
        0 <= e <= tree.depth() && (#[trigger] lane_slot(tree, s, leaf, lane, e)) is Empty && (forall|
            k: int,
        |
            e < k <= tree.depth() ==> !((#[trigger] lane_slot(tree, s, leaf, lane, k)) is Empty))
            ==> {
            &&& forall|k: int|
                e < k <= tree.depth() ==> #[trigger] lane_slot(tree, t, leaf, lane, k) == lane_slot(
                    tree,
                    s,
                    leaf,
                    lane,
                    k,
                )
            &&& forall|from: int|
                0 <= from < e && may_lie(
                    tree,
                    #[trigger] lane_slot(tree, s, leaf, lane, from),
                    leaf,
                    e,
                ) && (forall|k: int|
                    from < k < e ==> !may_lie(
                        tree,
                        #[trigger] lane_slot(tree, s, leaf, lane, k),
                        leaf,
                        e,
                    )) ==> lane_slot(tree, t, leaf, lane, e) == lane_slot(
                    tree,
                    s,
                    leaf,
                    lane,
                    from,
                )
            &&& (forall|k: int|
                0 <= k < e ==> !may_lie(
                    tree,
                    #[trigger] lane_slot(tree, s, leaf, lane, k),
                    leaf,
                    e,
                )) ==> lane_slot(tree, t, leaf, lane, e) is Empty
        }
}

/// Every block has a position in the tree.
pub open spec fn positions_fit(
    tree: &PerfectBaryTree<TestLaneBlock>,
    s: Seq<Slot<TestLaneBlock>>,
) -> bool {
    forall|i: int|
        0 <= i < s.len() ==> ((#[trigger] s[i]) matches Slot::Full(block) ==> block.pos
            < tree.leaves())
}

proof fn lemma_lane_at(tree: &PerfectBaryTree<TestLaneBlock>, leaf: int, lane: int)
    requires
        tree.wf(),
        0 <= leaf < tree.leaves(),
        0 <= lane < tree.node_size(),
    ensures
        ({
            let at = lane_places(tree.path(leaf), tree.node_size(), lane);
            &&& at.len() == tree.depth() + 1
            &&& forall|k: int|
                0 <= k < at.len() ==> 0 <= #[trigger] at[k] < tree@.len() && at[k]
                    == tree.node_on_path(k, leaf) * tree.node_size() + lane && at[k]
                    % tree.node_size() == lane
            &&& forall|j: int, k: int|
                0 <= j < k < at.len() ==> #[trigger] at[j] != #[trigger] at[k]
        }),
{
    tree.lemma_shape();
    let z = tree.node_size();
    let at = lane_places(tree.path(leaf), z, lane);
    assert forall|k: int| 0 <= k < at.len() implies 0 <= #[trigger] at[k] < tree@.len() && at[k]
        == tree.node_on_path(k, leaf) * z + lane && at[k] % z == lane by {
        tree.lemma_on_path(k, leaf);
        let n = tree.node_on_path(k, leaf);
        assert(0 <= n * z && n * z + z <= tree.nodes() * z) by (nonlinear_arith)
            requires
                0 <= n,
                n + 1 <= tree.nodes(),
                1 <= z,
        ;
        vstd::arithmetic::div_mod::lemma_fundamental_div_mod_converse(n * z + lane, z, n, lane);
    }
    assert forall|j: int, k: int| 0 <= j < k < at.len() implies #[trigger] at[j]
        != #[trigger] at[k] by {
        tree.lemma_path_descends(j, k, leaf);
        let a = tree.node_on_path(j, leaf);
        let c = tree.node_on_path(k, leaf);
        assert(at[j] == a * z + lane && at[k] == c * z + lane);
        assert(a * z < c * z) by (nonlinear_arith)
            requires
                a < c,
                1 <= z,
        ;
    }
}

/// The eviction of one lane, as a chain.
proof fn lemma_lane_sinks(
    tree: &PerfectBaryTree<TestLaneBlock>,
    s: Seq<Slot<TestLaneBlock>>,
    leaf: int,
    lane: int,
)
    requires
        tree.wf(),
        s.len() == tree@.len(),
        0 <= leaf < tree.leaves(),
        0 <= lane < tree.node_size(),
        positions_fit(tree, s),
    ensures
        ({
            let at = lane_places(tree.path(leaf), tree.node_size(), lane);
            let t = chain(
                s,
                at,
                leaf,
                tree.depth(),
                tree.fanout(),
                deepest_empty(s, at, at.len() as int),
            );
            lane_sunk(tree, s, t, leaf, lane)
        }),
{
    let at = lane_places(tree.path(leaf), tree.node_size(), lane);
    let n = at.len() as int;
    let levels = tree.depth();
    let b = tree.fanout();
    let d = deepest_empty(s, at, n);
    let t = chain(s, at, leaf, levels, b, d);
    lemma_lane_at(tree, leaf, lane);
    lemma_deepest(s, at, n);
    lemma_chain_frame(s, at, leaf, levels, b, d);
    assert forall|k: int| 0 <= k <= levels implies #[trigger] lane_slot(tree, s, leaf, lane, k)
        == s[at[k]] by {}
    assert forall|k: int| 0 <= k <= levels implies #[trigger] lane_slot(tree, t, leaf, lane, k)
        == t[at[k]] by {}
    assert forall|k: int, e: int| 0 <= k <= levels && 0 <= e <= levels implies may_lie(
        tree,
        #[trigger] lane_slot(tree, s, leaf, lane, k),
        leaf,
        e,
    ) == #[trigger] may_sink(s[at[k]], leaf, levels, b, e) by {
        assert(0 <= at[k] < s.len());
        if let Slot::Full(block) = s[at[k]] {
            tree.lemma_common_prefix(block.pos as int, leaf);
            assert(tree.node_on_path(e, block.pos as int) == tree.node_on_path(e, leaf) <==> e
                <= crate::test_lane_oram::common_depth(b, levels, block.pos as int, leaf, 0));
        }
    }
    assert forall|e: int|
        0 <= e <= levels && (#[trigger] lane_slot(tree, s, leaf, lane, e)) is Empty && (forall|
            k: int,
        |
            e < k <= levels ==> !((#[trigger] lane_slot(tree, s, leaf, lane, k)) is Empty)) implies {
        &&& forall|k: int|
            e < k <= levels ==> #[trigger] lane_slot(tree, t, leaf, lane, k) == lane_slot(
                tree,
                s,
                leaf,
                lane,
                k,
            )
        &&& forall|from: int|
            0 <= from < e && may_lie(
                tree,
                #[trigger] lane_slot(tree, s, leaf, lane, from),
                leaf,
                e,
            ) && (forall|k: int|
                from < k < e ==> !may_lie(
                    tree,
                    #[trigger] lane_slot(tree, s, leaf, lane, k),
                    leaf,
                    e,
                )) ==> lane_slot(tree, t, leaf, lane, e) == lane_slot(tree, s, leaf, lane, from)
        &&& (forall|k: int|
            0 <= k < e ==> !may_lie(
                tree,
                #[trigger] lane_slot(tree, s, leaf, lane, k),
                leaf,
                e,
            )) ==> lane_slot(tree, t, leaf, lane, e) is Empty
    } by {
        assert(s[at[e]] is Empty);
        assert(d == e) by {
            if d < e {
                assert(!(s[at[e]] is Empty));
            } else if d > e {
                assert(!(lane_slot(tree, s, leaf, lane, d) is Empty));
            }
        }
        assert forall|k: int| e < k <= levels implies #[trigger] lane_slot(tree, t, leaf, lane, k)
            == lane_slot(tree, s, leaf, lane, k) by {
            assert forall|j: int| 0 <= j <= d implies at[k] != #[trigger] at[j] by {}
            assert(t[at[k]] == s[at[k]]);
        }
        if e > 0 {
            let src = source_for(s, at, leaf, levels, b, e, e);
            lemma_nearest(s, at, leaf, levels, b, e, e);
            if 0 <= src < e {
                let u = s.update(at[e], s[at[src]]).update(at[src], Slot::Empty);
                lemma_chain_frame(u, at, leaf, levels, b, src);
                assert forall|j: int| 0 <= j <= src implies at[e] != #[trigger] at[j] by {}
                assert(t[at[e]] == u[at[e]]);
                assert(at[src] != at[e]);
                assert(t[at[e]] == s[at[src]]);
                assert(may_lie(tree, lane_slot(tree, s, leaf, lane, src), leaf, e)
                    == may_sink(s[at[src]], leaf, levels, b, e));
                assert forall|from: int|
                    0 <= from < e && may_lie(
                        tree,
                        #[trigger] lane_slot(tree, s, leaf, lane, from),
                        leaf,
                        e,
                    ) && (forall|k: int|
                        from < k < e ==> !may_lie(
                            tree,
                            #[trigger] lane_slot(tree, s, leaf, lane, k),
                            leaf,
                            e,
                        )) implies lane_slot(tree, t, leaf, lane, e) == lane_slot(
                    tree,
                    s,
                    leaf,
                    lane,
                    from,
                ) by {
                    assert(may_lie(tree, lane_slot(tree, s, leaf, lane, from), leaf, e)
                        == may_sink(s[at[from]], leaf, levels, b, e));
                    if from < src {
                        assert(!may_lie(tree, lane_slot(tree, s, leaf, lane, src), leaf, e));
                    } else if src < from {
                        assert(!may_sink(s[at[from]], leaf, levels, b, e));
                    }
                }
            } else {
                lemma_chain_frame(s, at, leaf, levels, b, e - 1);
                assert forall|j: int| 0 <= j <= e - 1 implies at[e] != #[trigger] at[j] by {}
                assert(t[at[e]] == s[at[e]]);
                assert forall|from: int| 0 <= from < e implies !may_lie(
                    tree,
                    #[trigger] lane_slot(tree, s, leaf, lane, from),
                    leaf,
                    e,
                ) by {
                    assert(may_lie(tree, lane_slot(tree, s, leaf, lane, from), leaf, e)
                        == may_sink(s[at[from]], leaf, levels, b, e));
                }
            }
        }
    }
}

/// Lanes that were evicted, and lanes that were not yet.
proof fn lemma_lanes_sink(
    tree: &PerfectBaryTree<TestLaneBlock>,
    s: Seq<Slot<TestLaneBlock>>,
    leaf: int,
    n: int,
)
    requires
        tree.wf(),
        s.len() == tree@.len(),
        0 <= leaf < tree.leaves(),
        0 <= n <= tree.node_size(),
        positions_fit(tree, s),
    ensures
        ({
            let z = tree.node_size();
            let t = lanes_evicted(s, tree.path(leaf), z, leaf, tree.depth(), tree.fanout(), n);
            &&& t.len() == s.len()
            &&& positions_fit(tree, t)
            &&& forall|lane: int| 0 <= lane < n ==> #[trigger] lane_sunk(tree, s, t, leaf, lane)
            &&& forall|i: int| 0 <= i < s.len() && i % z >= n ==> #[trigger] t[i] == s[i]
        }),
    decreases n,
{
    let z = tree.node_size();
    if n > 0 {
        lemma_lanes_sink(tree, s, leaf, n - 1);
        let u = lanes_evicted(s, tree.path(leaf), z, leaf, tree.depth(), tree.fanout(), n - 1);
        let t = lanes_evicted(s, tree.path(leaf), z, leaf, tree.depth(), tree.fanout(), n);
        let at = lane_places(tree.path(leaf), z, n - 1);
        let e = deepest_empty(u, at, at.len() as int);
        lemma_lane_at(tree, leaf, n - 1);
        lemma_deepest(u, at, at.len() as int);
        lemma_chain_frame(u, at, leaf, tree.depth(), tree.fanout(), e);
        lemma_chain_positions(tree, u, at, leaf, e);
        lemma_lane_sinks(tree, u, leaf, n - 1);
        assert forall|i: int| 0 <= i < s.len() && i % z != n - 1 implies #[trigger] t[i] == u[i] by {
            assert forall|k: int| 0 <= k <= e implies i != #[trigger] at[k] by {}
        }
        assert forall|lane: int| 0 <= lane < n implies #[trigger] lane_sunk(
            tree,
            s,
            t,
            leaf,
            lane,
        ) by {
            let places = lane_places(tree.path(leaf), z, lane);
            lemma_lane_at(tree, leaf, lane);
            assert forall|k: int| 0 <= k <= tree.depth() implies ({
                let i = #[trigger] tree.node_on_path(k, leaf) * z + lane;
                0 <= i < s.len() && i % z == lane
            }) by {
                assert(places[k] == tree.node_on_path(k, leaf) * z + lane);
            }
            if lane < n - 1 {
                assert(lane_sunk(tree, s, u, leaf, lane));
                lemma_sunk_same(tree, s, s, u, t, leaf, lane);
            } else {
                lemma_sunk_same(tree, u, s, t, t, leaf, lane);
            }
        }
    }
}

/// What holds of a lane depends on its own slots alone.
proof fn lemma_sunk_same(
    tree: &PerfectBaryTree<TestLaneBlock>,
    s: Seq<Slot<TestLaneBlock>>,
    s2: Seq<Slot<TestLaneBlock>>,
    t: Seq<Slot<TestLaneBlock>>,
    t2: Seq<Slot<TestLaneBlock>>,
    leaf: int,
    lane: int,
)
    requires
        lane_sunk(tree, s, t, leaf, lane),
        forall|k: int|
            0 <= k <= tree.depth() ==> #[trigger] lane_slot(tree, s2, leaf, lane, k) == lane_slot(
                tree,
                s,
                leaf,
                lane,
                k,
            ),
        forall|k: int|
            0 <= k <= tree.depth() ==> #[trigger] lane_slot(tree, t2, leaf, lane, k) == lane_slot(
                tree,
                t,
                leaf,
                lane,
                k,
            ),
    ensures
        lane_sunk(tree, s2, t2, leaf, lane),
{
    let levels = tree.depth();
    assert forall|e: int|
        0 <= e <= levels && (#[trigger] lane_slot(tree, s2, leaf, lane, e)) is Empty && (forall|
            k: int,
        |
            e < k <= levels ==> !((#[trigger] lane_slot(tree, s2, leaf, lane, k)) is Empty)) implies {
        &&& forall|k: int|
            e < k <= levels ==> #[trigger] lane_slot(tree, t2, leaf, lane, k) == lane_slot(
                tree,
                s2,
                leaf,
                lane,
                k,
            )
        &&& forall|from: int|
            0 <= from < e && may_lie(
                tree,
                #[trigger] lane_slot(tree, s2, leaf, lane, from),
                leaf,
                e,
            ) && (forall|k: int|
                from < k < e ==> !may_lie(
                    tree,
                    #[trigger] lane_slot(tree, s2, leaf, lane, k),
                    leaf,
                    e,
                )) ==> lane_slot(tree, t2, leaf, lane, e) == lane_slot(tree, s2, leaf, lane, from)
        &&& (forall|k: int|
            0 <= k < e ==> !may_lie(
                tree,
                #[trigger] lane_slot(tree, s2, leaf, lane, k),
                leaf,
                e,
            )) ==> lane_slot(tree, t2, leaf, lane, e) is Empty
    } by {
        assert(lane_slot(tree, s, leaf, lane, e) is Empty);
        assert forall|k: int| e < k <= levels implies !((#[trigger] lane_slot(
            tree,
            s,
            leaf,
            lane,
            k,
        )) is Empty) by {
            assert(!(lane_slot(tree, s2, leaf, lane, k) is Empty));
        }
        assert forall|k: int| e < k <= levels implies #[trigger] lane_slot(tree, t2, leaf, lane, k)
            == lane_slot(tree, s2, leaf, lane, k) by {
            assert(lane_slot(tree, t, leaf, lane, k) == lane_slot(tree, s, leaf, lane, k));
        }
        assert forall|from: int|
            0 <= from < e && may_lie(
                tree,
                #[trigger] lane_slot(tree, s2, leaf, lane, from),
                leaf,
                e,
            ) && (forall|k: int|
                from < k < e ==> !may_lie(
                    tree,
                    #[trigger] lane_slot(tree, s2, leaf, lane, k),
                    leaf,
                    e,
                )) implies lane_slot(tree, t2, leaf, lane, e) == lane_slot(
            tree,
            s2,
            leaf,
            lane,
            from,
        ) by {
            assert(may_lie(tree, lane_slot(tree, s, leaf, lane, from), leaf, e));
            assert forall|k: int| from < k < e implies !may_lie(
                tree,
                #[trigger] lane_slot(tree, s, leaf, lane, k),
                leaf,
                e,
            ) by {
                assert(!may_lie(tree, lane_slot(tree, s2, leaf, lane, k), leaf, e));
            }
        }
        if forall|k: int|
            0 <= k < e ==> !may_lie(
                tree,
                #[trigger] lane_slot(tree, s2, leaf, lane, k),
                leaf,
                e,
            ) {
            assert forall|k: int| 0 <= k < e implies !may_lie(
                tree,
                #[trigger] lane_slot(tree, s, leaf, lane, k),
                leaf,
                e,
            ) by {
                assert(!may_lie(tree, lane_slot(tree, s2, leaf, lane, k), leaf, e));
            }
        }
    }
}

/// A chain brings no block from elsewhere.
proof fn lemma_chain_positions(
    tree: &PerfectBaryTree<TestLaneBlock>,
    s: Seq<Slot<TestLaneBlock>>,
    at: Seq<int>,
    leaf: int,
    e: int,
)
    requires
        e < at.len(),
        forall|k: int| 0 <= k < at.len() ==> 0 <= #[trigger] at[k] < s.len(),
        positions_fit(tree, s),
    ensures
        positions_fit(tree, chain(s, at, leaf, tree.depth(), tree.fanout(), e)),
    decreases e,
{
    if e > 0 {
        let from = source_for(s, at, leaf, tree.depth(), tree.fanout(), e, e);
        if 0 <= from < e {
            let u = s.update(at[e], s[at[from]]).update(at[from], Slot::Empty);
            assert(positions_fit(tree, u)) by {
                assert forall|i: int| 0 <= i < u.len() implies ((#[trigger] u[i]) matches Slot::Full(
                    block,
                ) ==> block.pos < tree.leaves()) by {
                    assert(0 <= at[from] < s.len());
                    assert(s[at[from]] == s[at[from]]);
                    if i != at[e] && i != at[from] {
                        assert(u[i] == s[i]);
                    }
                }
            }
            lemma_chain_positions(tree, u, at, leaf, from);
        } else {
            lemma_chain_positions(tree, s, at, leaf, e - 1);
        }
    }
}

/// The slot at level `f` of a lane has the block that was nearest above it among those that
/// may lie there, and is empty if there was none.
pub open spec fn slot_refilled(
    tree: &PerfectBaryTree<TestLaneBlock>,
    s: Seq<Slot<TestLaneBlock>>,
    t: Seq<Slot<TestLaneBlock>>,
    leaf: int,
    lane: int,
    f: int,
) -> bool {
    &&& forall|from: int|
        0 <= from < f && may_lie(tree, #[trigger] lane_slot(tree, s, leaf, lane, from), leaf, f)
            && (forall|k: int|
            from < k < f ==> !may_lie(
                tree,
                #[trigger] lane_slot(tree, s, leaf, lane, k),
                leaf,
                f,
            )) ==> lane_slot(tree, t, leaf, lane, f) == lane_slot(tree, s, leaf, lane, from)
    &&& (forall|k: int|
        0 <= k < f ==> !may_lie(
            tree,
            #[trigger] lane_slot(tree, s, leaf, lane, k),
            leaf,
            f,
        )) ==> lane_slot(tree, t, leaf, lane, f) is Empty
}

/// In a lane of the path to `leaf`, a slot whose block went deeper is refilled from above.
pub open spec fn lane_passed_on(
    tree: &PerfectBaryTree<TestLaneBlock>,
    s: Seq<Slot<TestLaneBlock>>,
    t: Seq<Slot<TestLaneBlock>>,
    leaf: int,
    lane: int,
) -> bool {
    forall|f: int, up: int|
        #![trigger lane_slot(tree, s, leaf, lane, f), lane_slot(tree, t, leaf, lane, up)]
        0 <= f < up <= tree.depth() && lane_slot(tree, s, leaf, lane, f) is Full && lane_slot(
            tree,
            t,
            leaf,
            lane,
            up,
        ) == lane_slot(tree, s, leaf, lane, f) ==> slot_refilled(tree, s, t, leaf, lane, f)
}

/// No block is in two slots.
pub open spec fn blocks_apart(s: Seq<Slot<TestLaneBlock>>) -> bool {
    forall|i: int, j: int|
        0 <= i < s.len() && 0 <= j < s.len() && #[trigger] s[i] is Full && s[i] == #[trigger] s[j]
            ==> i == j
}

/// The chain of one lane, from slots that agree with `s` on the lane.
proof fn lemma_lane_passes_on(
    tree: &PerfectBaryTree<TestLaneBlock>,
    s: Seq<Slot<TestLaneBlock>>,
    u: Seq<Slot<TestLaneBlock>>,
    t: Seq<Slot<TestLaneBlock>>,
    leaf: int,
    lane: int,
)
    requires
        tree.wf(),
        s.len() == tree@.len(),
        u.len() == s.len(),
        0 <= leaf < tree.leaves(),
        0 <= lane < tree.node_size(),
        positions_fit(tree, s),
        blocks_apart(s),
        ({
            let at = lane_places(tree.path(leaf), tree.node_size(), lane);
            let c = chain(
                u,
                at,
                leaf,
                tree.depth(),
                tree.fanout(),
                deepest_empty(u, at, at.len() as int),
            );
            forall|k: int|
                0 <= k < at.len() ==> u[#[trigger] at[k]] == s[at[k]] && t[at[k]] == c[at[k]]
        }),
    ensures
        lane_passed_on(tree, s, t, leaf, lane),
{
    let at = lane_places(tree.path(leaf), tree.node_size(), lane);
    let levels = tree.depth();
    let b = tree.fanout();
    let e = deepest_empty(u, at, at.len() as int);
    let c = chain(u, at, leaf, levels, b, e);
    lemma_lane_at(tree, leaf, lane);
    lemma_deepest(u, at, at.len() as int);
    assert(apart(u, at)) by {
        assert forall|j: int, k: int|
            0 <= j < at.len() && 0 <= k < at.len() && u[#[trigger] at[j]] is Full && u[at[j]]
                == u[#[trigger] at[k]] implies j == k by {
            assert(s[at[j]] is Full && s[at[j]] == s[at[k]]);
            assert(at[j] == at[k]);
            if j < k {
                assert(at[j] != at[k]);
            } else if k < j {
                assert(at[k] != at[j]);
            }
        }
    }
    assert forall|k: int| 0 <= k <= levels implies #[trigger] lane_slot(tree, s, leaf, lane, k)
        == u[at[k]] by {
        assert(s[at[k]] == u[at[k]]);
    }
    assert forall|k: int| 0 <= k <= levels implies #[trigger] lane_slot(tree, t, leaf, lane, k)
        == c[at[k]] by {
        assert(t[at[k]] == c[at[k]]);
    }
    assert forall|f: int, up: int|
        #![trigger lane_slot(tree, s, leaf, lane, f), lane_slot(tree, t, leaf, lane, up)]
        0 <= f < up <= levels && lane_slot(tree, s, leaf, lane, f) is Full && lane_slot(
            tree,
            t,
            leaf,
            lane,
            up,
        ) == lane_slot(tree, s, leaf, lane, f) implies slot_refilled(tree, s, t, leaf, lane, f) by {
        if e < 0 {
            assert(c == u);
            assert(f == up);
        } else {
            lemma_chain_refills(u, at, leaf, levels, b, e, f, up);
            assert(refilled(u, c, at, leaf, levels, b, f));
            lemma_nearest(u, at, leaf, levels, b, f, f);
            let src = source_for(u, at, leaf, levels, b, f, f);
            assert forall|k: int| 0 <= k < f implies may_lie(
                tree,
                #[trigger] lane_slot(tree, s, leaf, lane, k),
                leaf,
                f,
            ) == may_sink(u[at[k]], leaf, levels, b, f) by {
                assert(0 <= at[k] < s.len());
                assert(s[at[k]] == u[at[k]]);
                if let Slot::Full(block) = u[at[k]] {
                    assert(block.pos < tree.leaves());
                    tree.lemma_common_prefix(block.pos as int, leaf);
                    assert(tree.node_on_path(f, block.pos as int) == tree.node_on_path(f, leaf)
                        <==> f <= crate::test_lane_oram::common_depth(
                        b,
                        levels,
                        block.pos as int,
                        leaf,
                        0,
                    ));
                }
            }
            assert forall|from: int|
                0 <= from < f && may_lie(
                    tree,
                    #[trigger] lane_slot(tree, s, leaf, lane, from),
                    leaf,
                    f,
                ) && (forall|k: int|
                    from < k < f ==> !may_lie(
                        tree,
                        #[trigger] lane_slot(tree, s, leaf, lane, k),
                        leaf,
                        f,
                    )) implies lane_slot(tree, t, leaf, lane, f) == lane_slot(
                tree,
                s,
                leaf,
                lane,
                from,
            ) by {
                assert(may_sink(u[at[from]], leaf, levels, b, f));
                if src < from {
                    assert(!may_sink(u[at[from]], leaf, levels, b, f));
                } else if from < src {
                    assert(!may_lie(tree, lane_slot(tree, s, leaf, lane, src), leaf, f));
                }
            }
            if forall|k: int|
                0 <= k < f ==> !may_lie(
                    tree,
                    #[trigger] lane_slot(tree, s, leaf, lane, k),
                    leaf,
                    f,
                ) {
                if 0 <= src < f {
                    assert(!may_lie(tree, lane_slot(tree, s, leaf, lane, src), leaf, f));
                }
            }
        }
    }
}

/// In every lane that was evicted, a slot whose block went deeper is refilled.
proof fn lemma_lanes_pass_on(
    tree: &PerfectBaryTree<TestLaneBlock>,
    s: Seq<Slot<TestLaneBlock>>,
    leaf: int,
    n: int,
    lane: int,
)
    requires
        tree.wf(),
        s.len() == tree@.len(),
        0 <= leaf < tree.leaves(),
        0 <= lane < n <= tree.node_size(),
        positions_fit(tree, s),
        blocks_apart(s),
    ensures
        ({
            let z = tree.node_size();
            let at = lane_places(tree.path(leaf), z, lane);
            let u = lanes_evicted(
                s,
                tree.path(leaf),
                z,
                leaf,
                tree.depth(),
                tree.fanout(),
                lane,
            );
            let c = chain(
                u,
                at,
                leaf,
                tree.depth(),
                tree.fanout(),
                deepest_empty(u, at, at.len() as int),
            );
            let t = lanes_evicted(s, tree.path(leaf), z, leaf, tree.depth(), tree.fanout(), n);
            forall|k: int|
                0 <= k < at.len() ==> u[#[trigger] at[k]] == s[at[k]] && t[at[k]] == c[at[k]]
        }),
    decreases n,
{
    let z = tree.node_size();
    let at = lane_places(tree.path(leaf), z, lane);
    let u = lanes_evicted(s, tree.path(leaf), z, leaf, tree.depth(), tree.fanout(), lane);
    lemma_lanes_sink(tree, s, leaf, lane);
    lemma_lane_at(tree, leaf, lane);
    assert forall|k: int| 0 <= k < at.len() implies u[#[trigger] at[k]] == s[at[k]] by {
        assert(at[k] % z == lane);
    }
    if lane < n - 1 {
        lemma_lanes_pass_on(tree, s, leaf, n - 1, lane);
        lemma_lanes_sink(tree, s, leaf, n - 1);
        let v = lanes_evicted(s, tree.path(leaf), z, leaf, tree.depth(), tree.fanout(), n - 1);
        let t = lanes_evicted(s, tree.path(leaf), z, leaf, tree.depth(), tree.fanout(), n);
        let places = lane_places(tree.path(leaf), z, n - 1);
        let e = deepest_empty(v, places, places.len() as int);
        lemma_lane_at(tree, leaf, n - 1);
        lemma_deepest(v, places, places.len() as int);
        lemma_chain_frame(v, places, leaf, tree.depth(), tree.fanout(), e);
        assert forall|k: int| 0 <= k < at.len() implies t[#[trigger] at[k]] == v[at[k]] by {
            assert forall|j: int| 0 <= j <= e implies at[k] != #[trigger] places[j] by {
                assert(places[j] % z == n - 1);
                assert(at[k] % z == lane);
            }
        }
    }
}

impl TestLaneOram {
    /// Evicting the path to `leaf`: the queue loses as many blocks at its front as the root
    /// has gaps, and they are in those gaps, in order. Then the queue is empty or the root is
    /// full, and in every lane of the path the deepest empty slot takes the nearest block
    /// above it that may lie there.
    pub proof fn lemma_evicted_progress(&self, leaf: int)
        requires
            self.wf(),
            positions_fit(&self.tree, self.tree@),
            0 <= leaf < self.tree.leaves(),
        ensures
            ({
                let z = self.tree.node_size();
                let (t, q) = self.evicted(leaf);
                let s = root_after(self.tree@, self.queue@, self.position_map@, z);
                &&& q == self.queue@.skip(taken(self.tree@, self.queue@, z))
                &&& q.len() == 0 || forall|i: int| 0 <= i < z ==> #[trigger] s[i] is Full
                &&& forall|lane: int|
                    0 <= lane < z ==> #[trigger] lane_sunk(&self.tree, s, t, leaf, lane)
            }),
    {
        let z = self.tree.node_size();
        let s = root_after(self.tree@, self.queue@, self.position_map@, z);
        self.tree.lemma_shape();
        assert(z <= self.tree@.len()) by (nonlinear_arith)
            requires
                self.tree@.len() == self.tree.nodes() * z,
                self.tree.nodes() >= 1,
                z >= 1,
        ;
        lemma_root_takes(self.tree@, self.queue@, self.position_map@, z);
        assert forall|i: int| 0 <= i < s.len() implies ((#[trigger] s[i]) matches Slot::Full(
            block,
        ) ==> block.pos < self.tree.leaves()) by {
            let g = gaps(self.tree@, i);
            lemma_gaps(self.tree@, i);
            if i < z && self.tree@[i] is Empty && g < self.queue@.len() {
                assert(self.queue@[g].key < self.position_map@.len());
            } else {
                assert(s[i] == self.tree@[i]);
            }
        }
        lemma_lanes_sink(&self.tree, s, leaf, z);
    }

    /// Evicting the path to `leaf` passes blocks on: in every lane of the path a slot whose
    /// block went deeper takes the nearest block above it that may lie there, and is empty if
    /// there is none.
    pub proof fn lemma_evicted_passes_on(&self, leaf: int)
        requires
            self.wf(),
            self.sound(),
            0 <= leaf < self.tree.leaves(),
        ensures
            ({
                let z = self.tree.node_size();
                let t = self.evicted(leaf).0;
                let s = root_after(self.tree@, self.queue@, self.position_map@, z);
                forall|lane: int|
                    0 <= lane < z ==> #[trigger] lane_passed_on(&self.tree, s, t, leaf, lane)
            }),
    {
        let z = self.tree.node_size();
        let s = root_after(self.tree@, self.queue@, self.position_map@, z);
        let t = self.evicted(leaf).0;
        self.tree.lemma_shape();
        assert(z <= self.tree@.len()) by (nonlinear_arith)
            requires
                self.tree@.len() == self.tree.nodes() * z,
                self.tree.nodes() >= 1,
                z >= 1,
        ;
        lemma_root_takes(self.tree@, self.queue@, self.position_map@, z);
        lemma_root_filled(
            &self.tree,
            self.tree@,
            self.queue@,
            self.position_map@,
            self.inserted@,
            z,
        );
        let q = root_filled(self.tree@, self.queue@, self.position_map@, z).1;
        assert(sound_blocks(&self.tree, s, q, self.position_map@, self.inserted@));
        assert forall|i: int| 0 <= i < s.len() implies ((#[trigger] s[i]) matches Slot::Full(
            block,
        ) ==> block.pos < self.tree.leaves()) by {
            assert(rightly_placed(&self.tree, s[i], i, self.position_map@, self.inserted@));
        }
        assert forall|i: int, j: int|
            0 <= i < s.len() && 0 <= j < s.len() && #[trigger] s[i] is Full && s[i]
                == #[trigger] s[j] implies i == j by {
            let k = s[i]->Full_0.key;
            assert(holds(s[i], k) && holds(s[j], k));
        }
        assert forall|lane: int| 0 <= lane < z implies #[trigger] lane_passed_on(
            &self.tree,
            s,
            t,
            leaf,
            lane,
        ) by {
            lemma_lanes_pass_on(&self.tree, s, leaf, z, lane);
            lemma_lanes_sink(&self.tree, s, leaf, lane);
            let u = lanes_evicted(
                s,
                self.tree.path(leaf),
                z,
                leaf,
                self.tree.depth(),
                self.tree.fanout(),
                lane,
            );
            lemma_lane_passes_on(&self.tree, s, u, t, leaf, lane);
        }
    }

    /// What an insert leaves in the queue. The block of the key joins the end of the queue,
    /// unless it waits there already; the root takes as many blocks from the front as it has
    /// gaps, one more if the block of the key was taken out of it.
    pub proof fn lemma_insert_queue(&self, after: &Self, key: K, r: InsertResult)
        requires
            self.wf(),
            key < self.position_map@.len(),
            self.stepped(after, key, r),
        ensures
            ({
                let out = r.removed_from;
                let joined = if !self.inserted@[key as int] || out is Some {
                    self.queue@.push(TestLaneBlock { key, pos: r.new_pos })
                } else {
                    self.queue@
                };
                let free = gaps(self.tree@, self.tree.node_size()) + (if out is Some
                    && out->0.node_index == 0 {
                    1int
                } else {
                    0
                });
                &&& r.queue_len == (if joined.len() > free {
                    joined.len() - free
                } else {
                    0
                })
                &&& after.queue@ == joined.skip(joined.len() - r.queue_len)
            }),
    {
        let z = self.tree.node_size();
        let pos = self.position_map@[key as int] as int;
        let path = self.tree.path(pos);
        let at = path_places(path, z);
        let i = first_holding(self.tree@, at, key, 0);
        let mid = choose|mid: Self| #[trigger]
            mid.relabelled(self, key, r.new_pos) && (after.tree@, after.queue@) == mid.evicted(
                r.old_pos as int,
            );
        self.tree.lemma_shape();
        mid.tree.lemma_shape();
        assert(z <= self.tree@.len()) by (nonlinear_arith)
            requires
                self.tree@.len() == self.tree.nodes() * z,
                self.tree.nodes() >= 1,
                z >= 1,
        ;
        lemma_first_holding(self.tree@, at, key, 0);
        lemma_places_in_tree(&self.tree, pos);
        lemma_root_takes(mid.tree@, mid.queue@, mid.position_map@, z);
        lemma_gaps(mid.tree@, z);
        if i < at.len() {
            assert(0 <= at[i] < self.tree@.len());
            assert(holds(self.tree@[at[i]], key));
            lemma_gaps_update(self.tree@, at[i], z);
            vstd::arithmetic::div_mod::lemma_mod_bound(i, z);
            let n = path[i / z] as int;
            assert(at[i] == n * z + i % z);
            assert(at[i] < z <==> n == 0) by (nonlinear_arith)
                requires
                    at[i] == n * z + i % z,
                    0 <= i % z < z,
                    0 <= n,
            ;
        }
    }
}

} // verus!
