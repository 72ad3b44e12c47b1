//! What inserts into the mock lane ORAM keep.
//!
//! Every block of the tree lies on the path to the position of its key, and no key has two
//! blocks. A lane eviction that finds no block for a slot goes on with the slot above, and
//! if that slot is occupied and another block may go there, the block in it is replaced and
//! gone. Where that does not happen, every inserted key has its block.
use vstd::prelude::*;
use crate::prelude::K;
use crate::test_lane_oram::{
    chain, deepest_empty, first_holding, holds, lane_places, lanes_evicted, may_sink, path_places,
    root_filled, source_for, InsertResult, PerfectBaryTree, Slot, TestLaneBlock, TestLaneOram,
};
use crate::wide_heap_tree::{full_nodes, lemma_prefix_index_bounds};

verus! {

/// Slot `i` belongs to a node on the path to `pos`.
pub open spec fn on_path_to(tree: &PerfectBaryTree<TestLaneBlock>, i: int, pos: int) -> bool {
    exists|l: int|
        0 <= l <= tree.depth() && #[trigger] tree.node_on_path(l, pos) == i / tree.node_size()
}

/// The key of a slot's block is inserted, and the block lies on the path to the position
/// of its key.
pub open spec fn rightly_placed(
    tree: &PerfectBaryTree<TestLaneBlock>,
    slot: Slot<TestLaneBlock>,
    i: int,
    position_map: Seq<usize>,
    inserted: Seq<bool>,
) -> bool {
    slot matches Slot::Full(block) ==> {
        &&& block.key < position_map.len()
        &&& inserted[block.key as int]
        &&& block.pos == position_map[block.key as int]
        &&& on_path_to(tree, i, block.pos as int)
    }
}

/// The key has a block in the tree.
pub open spec fn in_tree(s: Seq<Slot<TestLaneBlock>>, key: K) -> bool {
    exists|i: int| 0 <= i < s.len() && holds(#[trigger] s[i], key)
}

/// The key has a block in the queue.
pub open spec fn in_queue(q: Seq<TestLaneBlock>, key: K) -> bool {
    exists|i: int| 0 <= i < q.len() && (#[trigger] q[i]).key == key
}

/// No key has two blocks.
pub open spec fn single(s: Seq<Slot<TestLaneBlock>>, q: Seq<TestLaneBlock>) -> bool {
    &&& forall|i: int, j: int, key: K|
        #![trigger holds(s[i], key), holds(s[j], key)]
        0 <= i < s.len() && 0 <= j < s.len() && holds(s[i], key) && holds(s[j], key) ==> i == j
    &&& forall|i: int, j: int|
        0 <= i < j < q.len() ==> (#[trigger] q[i]).key != (#[trigger] q[j]).key
    &&& forall|i: int, j: int|
        #![trigger s[i], q[j]]
        0 <= i < s.len() && 0 <= j < q.len() ==> !holds(s[i], q[j].key)
}

/// Blocks are where they may be, of inserted keys only, and no key has two.
pub open spec fn sound_blocks(
    tree: &PerfectBaryTree<TestLaneBlock>,
    s: Seq<Slot<TestLaneBlock>>,
    q: Seq<TestLaneBlock>,
    position_map: Seq<usize>,
    inserted: Seq<bool>,
) -> bool {
    &&& forall|i: int|
        0 <= i < s.len() ==> rightly_placed(tree, #[trigger] s[i], i, position_map, inserted)
    &&& forall|j: int|
        0 <= j < q.len() ==> (#[trigger] q[j]).key < position_map.len() && inserted[q[j].key as int]
    &&& single(s, q)
}

/// Every inserted key has a block.
pub open spec fn all_kept(
    s: Seq<Slot<TestLaneBlock>>,
    q: Seq<TestLaneBlock>,
    inserted: Seq<bool>,
) -> bool {
    forall|key: K|
        #![trigger in_tree(s, key)]
        key < inserted.len() && inserted[key as int] ==> in_tree(s, key) || in_queue(q, key)
}

/// In [`chain`] every level that takes a block is vacant.
pub open spec fn chain_clear(
    s: Seq<Slot<TestLaneBlock>>,
    at: Seq<int>,
    leaf: int,
    levels: int,
    branching_factor: int,
    e: int,
) -> bool
    decreases e,
{
    if e <= 0 {
        true
    } else {
        let from = source_for(s, at, leaf, levels, branching_factor, e, e);
        if 0 <= from < e {
            s[at[e]] is Empty && chain_clear(
                s.update(at[e], s[at[from]]).update(at[from], Slot::Empty),
                at,
                leaf,
                levels,
                branching_factor,
                from,
            )
        } else {
            chain_clear(s, at, leaf, levels, branching_factor, e - 1)
        }
    }
}

/// In [`lanes_evicted`] every slot that takes a block is vacant.
pub open spec fn lanes_clear(
    s: Seq<Slot<TestLaneBlock>>,
    path: Seq<usize>,
    z: int,
    leaf: int,
    levels: int,
    branching_factor: int,
    n: int,
) -> bool
    decreases n,
{
    if n <= 0 {
        true
    } else {
        let t = lanes_evicted(s, path, z, leaf, levels, branching_factor, n - 1);
        let at = lane_places(path, z, n - 1);
        lanes_clear(s, path, z, leaf, levels, branching_factor, n - 1) && chain_clear(
            t,
            at,
            leaf,
            levels,
            branching_factor,
            deepest_empty(t, at, path.len() as int),
        )
    }
}

impl TestLaneOram {
    /// Blocks are where they may be, of inserted keys only, and no key has two.
    pub open spec fn sound(&self) -> bool {
        sound_blocks(&self.tree, self.tree@, self.queue@, self.position_map@, self.inserted@)
    }

    /// Every inserted key has a block in tree or queue.
    pub open spec fn whole(&self) -> bool {
        all_kept(self.tree@, self.queue@, self.inserted@)
    }

    /// Evicting the path to `leaf` replaces no block.
    pub open spec fn clear_path(&self, leaf: int) -> bool {
        let (s, q) = root_filled(
            self.tree@,
            self.queue@,
            self.position_map@,
            self.tree.node_size(),
        );
        lanes_clear(
            s,
            self.tree.path(leaf),
            self.tree.node_size(),
            leaf,
            self.tree.depth(),
            self.tree.fanout(),
            self.tree.node_size(),
        )
    }

    /// When `key` is inserted with `new_pos`, the eviction of its old path replaces no block.
    pub open spec fn insert_clear(&self, key: K, new_pos: usize) -> bool {
        exists|mid: Self| #[trigger]
            mid.relabelled(self, key, new_pos) && mid.clear_path(
                self.position_map@[key as int] as int,
            )
    }

    /// With nothing inserted everything is in order.
    pub proof fn lemma_fresh_is_sound(
        &self,
        levels: int,
        branching_factor: int,
        slots_per_node: int,
        keys_per_leaf: int,
    )
        requires
            self.is_fresh(levels, branching_factor, slots_per_node, keys_per_leaf),
        ensures
            self.sound(),
            self.whole(),
    {
    }
}

/// The first place that holds a key holds it, and there is one if any place does.
pub(crate) proof fn lemma_first_holding(s: Seq<Slot<TestLaneBlock>>, at: Seq<int>, key: K, i: int)
    requires
        0 <= i <= at.len(),
    ensures
        i <= first_holding(s, at, key, i) <= at.len(),
        first_holding(s, at, key, i) < at.len() ==> holds(
            s[at[first_holding(s, at, key, i)]],
            key,
        ),
        forall|j: int|
            i <= j < at.len() && holds(s[#[trigger] at[j]], key) ==> first_holding(s, at, key, i)
                < at.len(),
    decreases at.len() - i,
{
    if i < at.len() && !holds(s[at[i]], key) {
        lemma_first_holding(s, at, key, i + 1);
    }
}

/// A slot of a node on a path is one of the places of the path.
proof fn lemma_place_on_path(tree: &PerfectBaryTree<TestLaneBlock>, i: int, pos: int)
    requires
        tree.wf(),
        0 <= i < tree@.len(),
        0 <= pos < tree.leaves(),
        on_path_to(tree, i, pos),
    ensures
        path_places(tree.path(pos), tree.node_size()).contains(i),
{
    tree.lemma_shape();
    let z = tree.node_size();
    let path = tree.path(pos);
    let at = path_places(path, z);
    let l = choose|l: int| 0 <= l <= tree.depth() && #[trigger] tree.node_on_path(l, pos) == i / z;
    tree.lemma_on_path(l, pos);
    let j = l * z + i % z;
    vstd::arithmetic::div_mod::lemma_fundamental_div_mod(i, z);
    vstd::arithmetic::div_mod::lemma_mod_bound(i, z);
    vstd::arithmetic::div_mod::lemma_fundamental_div_mod_converse(j, z, l, i % z);
    assert(0 <= j < path.len() * z) by (nonlinear_arith)
        requires
            0 <= l < path.len(),
            0 <= i % z < z,
            j == l * z + i % z,
    ;
    assert(z * (i / z) == (i / z) * z) by (nonlinear_arith);
    assert(at[j] == i);
}

/// The places of a path are slots of the tree.
pub(crate) proof fn lemma_places_in_tree(tree: &PerfectBaryTree<TestLaneBlock>, pos: int)
    requires
        tree.wf(),
        0 <= pos < tree.leaves(),
    ensures
        forall|j: int|
            0 <= j < path_places(tree.path(pos), tree.node_size()).len() ==> 0
                <= #[trigger] path_places(tree.path(pos), tree.node_size())[j] < tree@.len(),
{
    tree.lemma_shape();
    let z = tree.node_size();
    let path = tree.path(pos);
    let at = path_places(path, z);
    assert forall|j: int| 0 <= j < at.len() implies 0 <= #[trigger] at[j] < tree@.len() by {
        assert(0 <= path.len() * z) by (nonlinear_arith)
            requires
                0 <= z,
        ;
        let l = j / z;
        vstd::arithmetic::div_mod::lemma_fundamental_div_mod(j, z);
        vstd::arithmetic::div_mod::lemma_mod_bound(j, z);
        vstd::arithmetic::div_mod::lemma_div_pos_is_pos(j, z);
        assert(l < path.len()) by (nonlinear_arith)
            requires
                z * l <= j,
                j < path.len() * z,
                1 <= z,
        ;
        tree.lemma_on_path(l, pos);
        let n = tree.node_on_path(l, pos);
        assert(0 <= n * z && n * z + z <= tree.nodes() * z) by (nonlinear_arith)
            requires
                0 <= n < tree.nodes(),
                1 <= z,
        ;
    }
}

impl TestLaneOram {
    /// Giving a key its new position keeps everything in order. Its block is found exactly
    /// where the tree has one.
    proof fn lemma_relabelled(&self, mid: &Self, key: K, new_pos: usize)
        requires
            self.wf(),
            self.sound(),
            key < self.position_map@.len(),
            new_pos < self.tree.leaves(),
            mid.relabelled(self, key, new_pos),
        ensures
            mid.sound(),
            self.whole() ==> mid.whole(),
            ({
                let at = path_places(
                    self.tree.path(self.position_map@[key as int] as int),
                    self.tree.node_size(),
                );
                in_tree(self.tree@, key) <==> first_holding(self.tree@, at, key, 0) < at.len()
            }),
    {
        let z = self.tree.node_size();
        let pos = self.position_map@[key as int] as int;
        let at = path_places(self.tree.path(pos), z);
        let f = first_holding(self.tree@, at, key, 0);
        let s = self.tree@;
        let t = mid.tree@;
        let q = self.queue@;
        let p = mid.queue@;
        lemma_first_holding(s, at, key, 0);
        lemma_places_in_tree(&self.tree, pos);
        if in_tree(s, key) {
            let i = choose|i: int| 0 <= i < s.len() && holds(#[trigger] s[i], key);
            assert(rightly_placed(&self.tree, s[i], i, self.position_map@, self.inserted@));
            lemma_place_on_path(&self.tree, i, pos);
            let j = choose|j: int| 0 <= j < at.len() && at[j] == i;
            assert(holds(s[at[j]], key));
        }
        if f < at.len() {
            assert(holds(s[at[f]], key));
            assert forall|i: int| 0 <= i < t.len() implies !holds(#[trigger] t[i], key) by {
                if i != at[f] {
                    assert(t[i] == s[i]);
                    assert(!(holds(s[i], key) && holds(s[at[f]], key)));
                }
            }
        }
        assert forall|i: int| 0 <= i < t.len() implies rightly_placed(
            &mid.tree,
            #[trigger] t[i],
            i,
            mid.position_map@,
            mid.inserted@,
        ) by {
            assert(rightly_placed(&self.tree, s[i], i, self.position_map@, self.inserted@));
            if let Slot::Full(block) = t[i] {
                assert(t[i] == s[i]);
                assert(!holds(t[i], key));
                let l = choose|l: int|
                    0 <= l <= self.tree.depth() && #[trigger] self.tree.node_on_path(
                        l,
                        block.pos as int,
                    ) == i / z;
                assert(mid.tree.node_on_path(l, block.pos as int) == i / mid.tree.node_size());
            }
        }
        assert forall|i: int, j: int| 0 <= i < t.len() && 0 <= j < p.len() implies !holds(
            #[trigger] t[i],
            (#[trigger] p[j]).key,
        ) by {
            if j < q.len() {
                assert(p[j] == q[j]);
                assert(!holds(s[i], q[j].key));
            } else {
                assert(p[j].key == key);
                if !self.inserted@[key as int] {
                    assert(rightly_placed(&self.tree, s[i], i, self.position_map@, self.inserted@));
                }
            }
        }
        assert forall|i: int, j: int| 0 <= i < j < p.len() implies (#[trigger] p[i]).key != (
        #[trigger] p[j]).key by {
            if j >= q.len() {
                assert(p[i] == q[i]);
                if f < at.len() {
                    assert(!holds(s[at[f]], q[i].key));
                }
            } else {
                assert(q[i].key != q[j].key);
            }
        }
        assert forall|i: int, j: int, k: K|
            #![trigger holds(t[i], k), holds(t[j], k)]
            0 <= i < t.len() && 0 <= j < t.len() && holds(t[i], k) && holds(t[j], k) implies i
            == j by {
            assert(holds(s[i], k) && holds(s[j], k));
        }
        if self.whole() {
            assert forall|k: K|
                #![trigger in_tree(t, k)]
                k < mid.inserted@.len() && mid.inserted@[k as int] implies in_tree(t, k) || in_queue(
                p,
                k,
            ) by {
                if k == key && (!self.inserted@[key as int] || f < at.len()) {
                    assert(p[q.len() as int].key == key);
                } else {
                    assert(in_tree(s, k) || in_queue(q, k));
                    if in_tree(s, k) {
                        let i = choose|i: int| 0 <= i < s.len() && holds(#[trigger] s[i], k);
                        assert(t[i] == s[i]);
                        assert(holds(t[i], k));
                    } else {
                        let j = choose|j: int| 0 <= j < q.len() && (#[trigger] q[j]).key == k;
                        assert(p[j] == q[j]);
                    }
                }
            }
        }
    }
}

/// Filling root slots from the queue keeps everything in order.
pub(crate) proof fn lemma_root_filled(
    tree: &PerfectBaryTree<TestLaneBlock>,
    s: Seq<Slot<TestLaneBlock>>,
    q: Seq<TestLaneBlock>,
    position_map: Seq<usize>,
    inserted: Seq<bool>,
    n: int,
)
    requires
        tree.wf(),
        s.len() == tree@.len(),
        0 <= n <= tree.node_size(),
        forall|k: int| 0 <= k < position_map.len() ==> #[trigger] position_map[k] < tree.leaves(),
        sound_blocks(tree, s, q, position_map, inserted),
    ensures
        root_filled(s, q, position_map, n).0.len() == s.len(),
        sound_blocks(
            tree,
            root_filled(s, q, position_map, n).0,
            root_filled(s, q, position_map, n).1,
            position_map,
            inserted,
        ),
        all_kept(s, q, inserted) <==> all_kept(
            root_filled(s, q, position_map, n).0,
            root_filled(s, q, position_map, n).1,
            inserted,
        ),
    decreases n,
{
    if n > 0 {
        lemma_root_filled(tree, s, q, position_map, inserted, n - 1);
        let (t, p) = root_filled(s, q, position_map, n - 1);
        let (u, r) = root_filled(s, q, position_map, n);
        tree.lemma_shape();
        let z = tree.node_size();
        assert(n - 1 < t.len()) by (nonlinear_arith)
            requires
                n <= z,
                t.len() == tree.nodes() * z,
                1 <= tree.nodes(),
                1 <= z,
        ;
        if t[n - 1] is Empty && p.len() > 0 {
            let key = p[0].key;
            let pos = position_map[key as int];
            assert(inserted[key as int]);
            tree.lemma_on_path(0, pos as int);
            lemma_prefix_index_bounds(tree.fanout(), tree.depth() + 1, 0, pos as int);
            assert(full_nodes(tree.fanout(), 0) == 0);
            vstd::arithmetic::div_mod::lemma_basic_div(pos as int, tree.leaves());
            vstd::arithmetic::div_mod::lemma_basic_div(n - 1, z);
            assert(tree.node_on_path(0, pos as int) == (n - 1) / z);
            assert(on_path_to(tree, n - 1, pos as int));
            assert forall|i: int| 0 <= i < u.len() implies rightly_placed(
                tree,
                #[trigger] u[i],
                i,
                position_map,
                inserted,
            ) by {
                if i != n - 1 {
                    assert(rightly_placed(tree, t[i], i, position_map, inserted));
                }
            }
            assert forall|j: int| 0 <= j < r.len() implies (#[trigger] r[j]).key
                < position_map.len() && inserted[r[j].key as int] by {
                assert(r[j] == p[j + 1]);
            }
            assert forall|i: int, j: int| 0 <= i < j < r.len() implies (#[trigger] r[i]).key != (
            #[trigger] r[j]).key by {
                assert(r[i] == p[i + 1] && r[j] == p[j + 1]);
            }
            assert forall|i: int, j: int| 0 <= i < u.len() && 0 <= j < r.len() implies !holds(
                #[trigger] u[i],
                (#[trigger] r[j]).key,
            ) by {
                assert(r[j] == p[j + 1]);
                if i != n - 1 {
                    assert(!holds(t[i], p[j + 1].key));
                } else {
                    assert(p[0].key != p[j + 1].key);
                }
            }
            assert forall|i: int, j: int, k: K|
                #![trigger holds(u[i], k), holds(u[j], k)]
                0 <= i < u.len() && 0 <= j < u.len() && holds(u[i], k) && holds(u[j], k) implies i
                == j by {
                if i != n - 1 && j != n - 1 {
                    assert(holds(t[i], k) && holds(t[j], k));
                } else if i != n - 1 {
                    assert(!holds(t[i], p[0].key));
                } else if j != n - 1 {
                    assert(!holds(t[j], p[0].key));
                }
            }
            if all_kept(s, q, inserted) {
                assert forall|k: K|
                    #![trigger in_tree(u, k)]
                    k < inserted.len() && inserted[k as int] implies in_tree(u, k) || in_queue(
                    r,
                    k,
                ) by {
                    assert(in_tree(t, k) || in_queue(p, k));
                    if in_tree(t, k) {
                        let i = choose|i: int| 0 <= i < t.len() && holds(#[trigger] t[i], k);
                        assert(u[i] == t[i]);
                        assert(holds(u[i], k));
                    } else {
                        let j = choose|j: int| 0 <= j < p.len() && (#[trigger] p[j]).key == k;
                        if j == 0 {
                            assert(holds(u[n - 1], k));
                        } else {
                            assert(r[j - 1] == p[j]);
                        }
                    }
                }
            }
            if all_kept(u, r, inserted) {
                assert forall|k: K|
                    #![trigger in_tree(t, k)]
                    k < inserted.len() && inserted[k as int] implies in_tree(t, k) || in_queue(
                    p,
                    k,
                ) by {
                    assert(in_tree(u, k) || in_queue(r, k));
                    if in_tree(u, k) {
                        let i = choose|i: int| 0 <= i < u.len() && holds(#[trigger] u[i], k);
                        if i == n - 1 {
                            assert(p[0].key == k);
                        } else {
                            assert(holds(t[i], k));
                        }
                    } else {
                        let j = choose|j: int| 0 <= j < r.len() && (#[trigger] r[j]).key == k;
                        assert(p[j + 1] == r[j]);
                    }
                }
            }
        }
    }
}

/// The source for a level is a level above it whose block may go there.
proof fn lemma_source_for(
    s: Seq<Slot<TestLaneBlock>>,
    at: Seq<int>,
    leaf: int,
    levels: int,
    branching_factor: int,
    e: int,
    n: int,
)
    ensures
        source_for(s, at, leaf, levels, branching_factor, e, n) == -1 || source_for(
            s,
            at,
            leaf,
            levels,
            branching_factor,
            e,
            n,
        ) < n,
        ({
            let from = source_for(s, at, leaf, levels, branching_factor, e, n);
            from >= 0 ==> may_sink(s[at[from]], leaf, levels, branching_factor, e)
        }),
    decreases n,
{
    if n > 0 && !may_sink(s[at[n - 1]], leaf, levels, branching_factor, e) {
        lemma_source_for(s, at, leaf, levels, branching_factor, e, n - 1);
    }
}

/// A chain of moves down a lane keeps everything in order, and every block exactly where
/// none is replaced.
proof fn lemma_chain(
    tree: &PerfectBaryTree<TestLaneBlock>,
    s: Seq<Slot<TestLaneBlock>>,
    q: Seq<TestLaneBlock>,
    position_map: Seq<usize>,
    inserted: Seq<bool>,
    leaf: int,
    lane: int,
    e: int,
)
    requires
        tree.wf(),
        s.len() == tree@.len(),
        0 <= leaf < tree.leaves(),
        0 <= lane < tree.node_size(),
        e <= tree.depth(),
        forall|k: int| 0 <= k < position_map.len() ==> #[trigger] position_map[k] < tree.leaves(),
        inserted.len() == position_map.len(),
        sound_blocks(tree, s, q, position_map, inserted),
    ensures
        ({
            let at = lane_places(tree.path(leaf), tree.node_size(), lane);
            let t = chain(s, at, leaf, tree.depth(), tree.fanout(), e);
            &&& t.len() == s.len()
            &&& sound_blocks(tree, t, q, position_map, inserted)
            &&& all_kept(t, q, inserted) <==> all_kept(s, q, inserted) && chain_clear(
                s,
                at,
                leaf,
                tree.depth(),
                tree.fanout(),
                e,
            )
        }),
    decreases e,
{
    if e > 0 {
        let z = tree.node_size();
        let path = tree.path(leaf);
        let at = lane_places(path, z, lane);
        let from = source_for(s, at, leaf, tree.depth(), tree.fanout(), e, e);
        lemma_source_for(s, at, leaf, tree.depth(), tree.fanout(), e, e);
        if 0 <= from < e {
            tree.lemma_shape();
            tree.lemma_on_path(e, leaf);
            tree.lemma_on_path(from, leaf);
            tree.lemma_path_descends(from, e, leaf);
            let a = at[e];
            let b = at[from];
            let ne = tree.node_on_path(e, leaf);
            let nf = tree.node_on_path(from, leaf);
            assert(path[e] == ne && path[from] == nf);
            assert(0 <= ne * z && ne * z + z <= tree.nodes() * z && 0 <= nf * z && nf * z + z <= ne
                * z) by (nonlinear_arith)
                requires
                    0 <= nf < ne < tree.nodes(),
                    1 <= z,
            ;
            assert(0 <= b < a < s.len());
            let t = s.update(a, s[b]).update(b, Slot::Empty);
            let block = s[b]->Full_0;
            assert(may_sink(s[b], leaf, tree.depth(), tree.fanout(), e));
            assert(rightly_placed(tree, s[b], b, position_map, inserted));
            tree.lemma_common_prefix(block.pos as int, leaf);
            assert(tree.node_on_path(e, block.pos as int) == ne);
            vstd::arithmetic::div_mod::lemma_fundamental_div_mod_converse(a, z, ne, lane);
            assert(on_path_to(tree, a, block.pos as int));
            assert forall|i: int| 0 <= i < t.len() implies rightly_placed(
                tree,
                #[trigger] t[i],
                i,
                position_map,
                inserted,
            ) by {
                if i != a && i != b {
                    assert(rightly_placed(tree, s[i], i, position_map, inserted));
                }
            }
            assert forall|i: int, j: int| 0 <= i < t.len() && 0 <= j < q.len() implies !holds(
                #[trigger] t[i],
                (#[trigger] q[j]).key,
            ) by {
                if i == a {
                    assert(!holds(s[b], q[j].key));
                } else if i != b {
                    assert(!holds(s[i], q[j].key));
                }
            }
            assert forall|i: int, j: int, k: K|
                #![trigger holds(t[i], k), holds(t[j], k)]
                0 <= i < t.len() && 0 <= j < t.len() && holds(t[i], k) && holds(t[j], k) implies i
                == j by {
                let i0 = if i == a {
                    b
                } else {
                    i
                };
                let j0 = if j == a {
                    b
                } else {
                    j
                };
                assert(holds(s[i0], k) && holds(s[j0], k));
            }
            if all_kept(s, q, inserted) && s[a] is Empty {
                assert forall|k: K|
                    #![trigger in_tree(t, k)]
                    k < inserted.len() && inserted[k as int] implies in_tree(t, k) || in_queue(
                    q,
                    k,
                ) by {
                    assert(in_tree(s, k) || in_queue(q, k));
                    if in_tree(s, k) {
                        let i = choose|i: int| 0 <= i < s.len() && holds(#[trigger] s[i], k);
                        if i == b {
                            assert(holds(t[a], k));
                        } else {
                            assert(holds(t[i], k));
                        }
                    }
                }
            }
            if all_kept(t, q, inserted) {
                assert forall|k: K|
                    #![trigger in_tree(s, k)]
                    k < inserted.len() && inserted[k as int] implies in_tree(s, k) || in_queue(
                    q,
                    k,
                ) by {
                    assert(in_tree(t, k) || in_queue(q, k));
                    if in_tree(t, k) {
                        let i = choose|i: int| 0 <= i < t.len() && holds(#[trigger] t[i], k);
                        if i == a {
                            assert(holds(s[b], k));
                        } else {
                            assert(holds(s[i], k));
                        }
                    }
                }
                if let Slot::Full(replaced) = s[a] {
                    let k = replaced.key;
                    assert(rightly_placed(tree, s[a], a, position_map, inserted));
                    assert(holds(s[a], k));
                    assert(in_tree(t, k) || in_queue(q, k));
                    if in_tree(t, k) {
                        let i = choose|i: int| 0 <= i < t.len() && holds(#[trigger] t[i], k);
                        if i == a {
                            assert(holds(s[b], k));
                        } else {
                            assert(holds(s[i], k));
                        }
                    } else {
                        let j = choose|j: int| 0 <= j < q.len() && (#[trigger] q[j]).key == k;
                        assert(!holds(s[a], q[j].key));
                    }
                }
            }
            lemma_chain(tree, t, q, position_map, inserted, leaf, lane, from);
        } else {
            lemma_chain(tree, s, q, position_map, inserted, leaf, lane, e - 1);
        }
    }
}

/// The deepest vacant slot of a lane is one of its levels.
proof fn lemma_deepest_empty(s: Seq<Slot<TestLaneBlock>>, at: Seq<int>, n: int)
    ensures
        deepest_empty(s, at, n) == -1 || deepest_empty(s, at, n) < n,
    decreases n,
{
    if n > 0 {
        lemma_deepest_empty(s, at, n - 1);
    }
}

/// Evicting lanes keeps everything in order, and every block exactly where none is
/// replaced.
proof fn lemma_lanes(
    tree: &PerfectBaryTree<TestLaneBlock>,
    s: Seq<Slot<TestLaneBlock>>,
    q: Seq<TestLaneBlock>,
    position_map: Seq<usize>,
    inserted: Seq<bool>,
    leaf: int,
    n: int,
)
    requires
        tree.wf(),
        s.len() == tree@.len(),
        0 <= leaf < tree.leaves(),
        0 <= n <= tree.node_size(),
        forall|k: int| 0 <= k < position_map.len() ==> #[trigger] position_map[k] < tree.leaves(),
        inserted.len() == position_map.len(),
        sound_blocks(tree, s, q, position_map, inserted),
    ensures
        ({
            let path = tree.path(leaf);
            let z = tree.node_size();
            let t = lanes_evicted(s, path, z, leaf, tree.depth(), tree.fanout(), n);
            &&& t.len() == s.len()
            &&& sound_blocks(tree, t, q, position_map, inserted)
            &&& all_kept(t, q, inserted) <==> all_kept(s, q, inserted) && lanes_clear(
                s,
                path,
                z,
                leaf,
                tree.depth(),
                tree.fanout(),
                n,
            )
        }),
    decreases n,
{
    if n > 0 {
        lemma_lanes(tree, s, q, position_map, inserted, leaf, n - 1);
        tree.lemma_shape();
        let path = tree.path(leaf);
        let z = tree.node_size();
        let t = lanes_evicted(s, path, z, leaf, tree.depth(), tree.fanout(), n - 1);
        let at = lane_places(path, z, n - 1);
        lemma_deepest_empty(t, at, path.len() as int);
        lemma_chain(
            tree,
            t,
            q,
            position_map,
            inserted,
            leaf,
            n - 1,
            deepest_empty(t, at, path.len() as int),
        );
    }
}

/// The order of blocks depends on the shape of the tree alone.
proof fn lemma_same_order(
    tree: &PerfectBaryTree<TestLaneBlock>,
    other: &PerfectBaryTree<TestLaneBlock>,
    s: Seq<Slot<TestLaneBlock>>,
    q: Seq<TestLaneBlock>,
    position_map: Seq<usize>,
    inserted: Seq<bool>,
)
    requires
        other.same_shape(tree),
        sound_blocks(tree, s, q, position_map, inserted),
    ensures
        sound_blocks(other, s, q, position_map, inserted),
{
    assert forall|i: int| 0 <= i < s.len() implies rightly_placed(
        other,
        #[trigger] s[i],
        i,
        position_map,
        inserted,
    ) by {
        assert(rightly_placed(tree, s[i], i, position_map, inserted));
        if let Slot::Full(block) = s[i] {
            let pos = block.pos as int;
            let l = choose|l: int|
                0 <= l <= tree.depth() && #[trigger] tree.node_on_path(l, pos) == i
                    / tree.node_size();
            assert(other.node_on_path(l, pos) == i / other.node_size());
        }
    }
}

impl TestLaneOram {
    /// An insert keeps every block on the path to the position of its key, of inserted keys
    /// only and none of them twice. It takes a block out of the tree exactly when the tree
    /// has one of the key. Where every inserted key had a block, the key and all of them
    /// have one afterwards, exactly if the eviction of the old path replaces no block.
    pub proof fn lemma_insert_keeps_blocks(&self, after: &Self, key: K, r: InsertResult)
        requires
            self.wf(),
            self.sound(),
            key < self.position_map@.len(),
            self.stepped(after, key, r),
        ensures
            after.sound(),
            r.removed_from is Some <==> in_tree(self.tree@, key),
            self.whole() ==> (after.whole() <==> self.insert_clear(key, r.new_pos)),
    {
        let mid = choose|mid: Self| #[trigger]
            mid.relabelled(self, key, r.new_pos) && (after.tree@, after.queue@) == mid.evicted(
                r.old_pos as int,
            );
        self.lemma_relabelled(&mid, key, r.new_pos);
        self.tree.lemma_shape();
        mid.tree.lemma_shape();
        let z = mid.tree.node_size();
        let leaf = r.old_pos as int;
        assert forall|k: int| 0 <= k < mid.position_map@.len() implies
            #[trigger] mid.position_map@[k] < mid.tree.leaves() by {
            assert(self.position_map@[k] < self.tree.leaves());
        }
        lemma_root_filled(
            &mid.tree,
            mid.tree@,
            mid.queue@,
            mid.position_map@,
            mid.inserted@,
            z,
        );
        let (s, q) = root_filled(mid.tree@, mid.queue@, mid.position_map@, z);
        lemma_lanes(&mid.tree, s, q, mid.position_map@, mid.inserted@, leaf, z);
        lemma_same_order(
            &mid.tree,
            &after.tree,
            after.tree@,
            after.queue@,
            after.position_map@,
            after.inserted@,
        );
        assert(mid.clear_path(leaf) == self.insert_clear(key, r.new_pos)) by {
            if self.insert_clear(key, r.new_pos) {
                let other = choose|other: Self| #[trigger]
                    other.relabelled(self, key, r.new_pos) && other.clear_path(leaf);
                assert(other.tree.path(leaf) =~= mid.tree.path(leaf));
            }
        }
    }
}

} // verus!
