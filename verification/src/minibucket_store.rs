//! The blocks of a tree of minibuckets and its stashes, by their keys.
use vstd::prelude::*;
use crate::heap_tree::full_width;
use crate::minibucket_chain::{distinct, stashed, stashes_ok, Chain, Stashes};
use crate::stash_index::{key_count, EMPTY_KEY};
use crate::wide_heap_tree::{
    full_nodes, lemma_full_nodes_grows, lemma_prefix_index_bounds, prefix_index,
};

verus! {

/// What does not change when blocks move: the shape of the tree, the way paths are
/// evicted, and the label of every key.
pub struct Setup {
    pub b: int,
    pub h: int,
    pub z: int,
    pub y: int,
    pub queues: bool,
    pub pooled: bool,
    pub chains: int,
    pub labels: Seq<u32>,
}

impl Setup {
    /// The number of slots of a bucket.
    pub open spec fn w(&self) -> int {
        self.z * self.y
    }

    /// The number of leaves.
    pub open spec fn leaves(&self) -> int {
        full_width(self.h - 1, self.b)
    }

    /// The number of stashes.
    pub open spec fn stash_count(&self) -> int {
        if self.queues {
            self.z
        } else {
            1
        }
    }

    /// The sizes fit together.
    pub open spec fn wf(&self) -> bool {
        &&& 2 <= self.b
        &&& 1 <= self.h
        &&& 1 <= self.z
        &&& 1 <= self.y
        &&& self.labels.len() <= 0xffff_ffff
        &&& forall|k: int| 0 <= k < self.labels.len() ==> #[trigger] self.labels[k] < self.leaves()
    }

    /// A chain over `cnt` slots from `off` on in each bucket, and stash `q`.
    pub open spec fn chain(&self, off: int, cnt: int, q: int, leaf: int) -> Chain {
        Chain { b: self.b, h: self.h, w: self.w(), off, cnt, q, leaf, labels: self.labels }
    }

    /// The loaded path to `leaf` and the stashes are in order.
    pub open spec fn ok(&self, slots: Seq<u32>, stashes: Stashes, leaf: int) -> bool {
        &&& stashes.len() == self.stash_count()
        &&& self.chain(0, 1, 0, leaf).ok(slots, stashes)
    }

    /// A key is in a slot or in a stash.
    pub open spec fn holds(&self, slots: Seq<u32>, stashes: Stashes, k: u32) -> bool {
        self.chain(0, 1, 0, 0).holds(slots, stashes, k)
    }

    /// The chain of lane `lane`.
    pub open spec fn lane_chain(&self, lane: int, leaf: int) -> Chain {
        self.chain(
            lane * self.y,
            self.y,
            if self.queues {
                lane
            } else {
                0
            },
            leaf,
        )
    }

    /// The slots and stashes after the chains of the first `n` lanes.
    pub open spec fn lanes_run(&self, slots: Seq<u32>, stashes: Stashes, leaf: int, n: int) -> (
        Seq<u32>,
        Stashes,
    )
        decreases n,
    {
        if n <= 0 {
            (slots, stashes)
        } else {
            let (s, t) = self.lanes_run(slots, stashes, leaf, n - 1);
            self.lane_chain(n - 1, leaf).run(s, t, self.h - 1)
        }
    }

    /// The slots and stashes after `n` passes over the path.
    pub open spec fn passes_run(&self, slots: Seq<u32>, stashes: Stashes, leaf: int, n: int) -> (
        Seq<u32>,
        Stashes,
    )
        decreases n,
    {
        if n <= 0 {
            (slots, stashes)
        } else {
            let (s, t) = self.passes_run(slots, stashes, leaf, n - 1);
            if self.pooled {
                self.chain(0, self.w(), 0, leaf).run(s, t, self.h - 1)
            } else {
                self.lanes_run(s, t, leaf, self.z)
            }
        }
    }

    /// Node `node` is on the path to `leaf` at level `d`.
    pub open spec fn on_path_at(&self, node: int, leaf: int, d: int) -> bool {
        0 <= d < self.h && prefix_index(self.b, self.h, d, leaf) == node
    }

    /// Node `node` is on the path to `leaf`.
    pub open spec fn on_path(&self, node: int, leaf: int) -> bool {
        exists|d: int| #[trigger] self.on_path_at(node, leaf, d)
    }

    /// The path to `leaf`, bucket after bucket.
    pub open spec fn opened(&self, tree: Seq<u32>, leaf: int) -> Seq<u32> {
        Seq::new(
            (self.h * self.w()) as nat,
            |i: int|
                tree[prefix_index(self.b, self.h, i / self.w(), leaf) * self.w() + i % self.w()],
        )
    }

    /// The tree with the buckets of a path put back.
    pub open spec fn closed(&self, tree: Seq<u32>, leaf: int, slots: Seq<u32>) -> Seq<u32> {
        Seq::new(
            tree.len(),
            |t: int|
                if self.on_path(t / self.w(), leaf) {
                    let d = choose|d: int| #[trigger] self.on_path_at(t / self.w(), leaf, d);
                    slots[d * self.w() + t % self.w()]
                } else {
                    tree[t]
                },
        )
    }

    /// The tree and the stashes after the path to `leaf` was evicted.
    pub open spec fn evicted(&self, tree: Seq<u32>, stashes: Stashes, leaf: int) -> (
        Seq<u32>,
        Stashes,
    ) {
        let (s, t) = self.passes_run(self.opened(tree, leaf), stashes, leaf, self.chains);
        (self.closed(tree, leaf, s), t)
    }

    /// The tree and the stashes after the first `n` of `paths` were evicted.
    pub open spec fn all_evicted(
        &self,
        tree: Seq<u32>,
        stashes: Stashes,
        paths: Seq<u32>,
        n: int,
    ) -> (Seq<u32>, Stashes)
        decreases n,
    {
        if n <= 0 {
            (tree, stashes)
        } else {
            let (s, t) = self.all_evicted(tree, stashes, paths, n - 1);
            self.evicted(s, t, paths[n - 1] as int)
        }
    }

    /// The tree is in order: no key is in two places, and every block lies on the path to
    /// its own leaf.
    pub open spec fn rest(&self, tree: Seq<u32>, stashes: Stashes) -> bool {
        &&& tree.len() == full_nodes(self.b, self.h) * self.w()
        &&& stashes.len() == self.stash_count()
        &&& distinct(tree)
        &&& stashes_ok(stashes, self.labels, self.leaves())
        &&& forall|t: int|
            0 <= t < tree.len() && #[trigger] tree[t] != EMPTY_KEY ==> tree[t] < self.labels.len()
                && !stashed(stashes, self.labels, tree[t]) && self.on_path(
                t / self.w(),
                self.labels[tree[t] as int] as int,
            )
    }

    /// A key is in the tree or in a stash.
    pub open spec fn stored(&self, tree: Seq<u32>, stashes: Stashes, k: u32) -> bool {
        self.holds(tree, stashes, k)
    }

    /// A key is in the tree off the path to `leaf`.
    pub open spec fn off_path(&self, tree: Seq<u32>, leaf: int, k: u32) -> bool {
        exists|t: int|
            0 <= t < tree.len() && !self.on_path(t / self.w(), leaf) && #[trigger] tree[t] == k
    }

    /// The tree off the path to `leaf` is in order and shares no key with the loaded path
    /// and the stashes.
    pub open spec fn off_ok(&self, tree: Seq<u32>, slots: Seq<u32>, stashes: Stashes, leaf: int) -> bool {
        &&& tree.len() == full_nodes(self.b, self.h) * self.w()
        &&& forall|t: int|
            0 <= t < tree.len() && !self.on_path(t / self.w(), leaf) && #[trigger] tree[t]
                != EMPTY_KEY ==> tree[t] < self.labels.len() && !self.holds(
                slots,
                stashes,
                tree[t],
            ) && self.on_path(t / self.w(), self.labels[tree[t] as int] as int)
        &&& forall|t: int, u: int|
            0 <= t < u < tree.len() && !self.on_path(t / self.w(), leaf) && !self.on_path(
                u / self.w(),
                leaf,
            ) && #[trigger] tree[t] != EMPTY_KEY ==> tree[t] != #[trigger] tree[u]
    }

    proof fn lemma_w(&self)
        requires
            self.wf(),
        ensures
            1 <= self.w(),
    {
        assert(1 <= self.z * self.y) by (nonlinear_arith)
            requires
                1 <= self.z,
                1 <= self.y,
        ;
    }

    /// A node on a path is a node of the tree, on one level alone.
    pub proof fn lemma_on_path_at(&self, node: int, leaf: int, other: int, d: int, e: int)
        requires
            self.wf(),
            0 <= leaf < self.leaves(),
            0 <= other < self.leaves(),
            self.on_path_at(node, leaf, d),
            self.on_path_at(node, other, e),
        ensures
            d == e,
            0 <= node < full_nodes(self.b, self.h),
    {
        lemma_prefix_index_bounds(self.b, self.h, d, leaf);
        lemma_prefix_index_bounds(self.b, self.h, e, other);
        lemma_full_nodes_grows(self.b, 0, d);
        if d < e {
            lemma_full_nodes_grows(self.b, d + 1, e);
        } else if e < d {
            lemma_full_nodes_grows(self.b, e + 1, d);
        }
    }

    /// Where slot `i` of the loaded path stands in the tree.
    pub open spec fn home(&self, leaf: int, i: int) -> int {
        prefix_index(self.b, self.h, i / self.w(), leaf) * self.w() + i % self.w()
    }

    /// The slots of a path have places of their own in the tree.
    pub proof fn lemma_home(&self, leaf: int, i: int)
        requires
            self.wf(),
            0 <= leaf < self.leaves(),
            0 <= i < self.h * self.w(),
        ensures
            0 <= i / self.w() < self.h,
            0 <= i % self.w() < self.w(),
            (i / self.w()) * self.w() + i % self.w() == i,
            0 <= self.home(leaf, i) < full_nodes(self.b, self.h) * self.w(),
            self.home(leaf, i) / self.w() == prefix_index(self.b, self.h, i / self.w(), leaf),
            self.home(leaf, i) % self.w() == i % self.w(),
            self.on_path_at(self.home(leaf, i) / self.w(), leaf, i / self.w()),
    {
        self.lemma_w();
        let w = self.w();
        vstd::arithmetic::div_mod::lemma_fundamental_div_mod(i, w);
        vstd::arithmetic::div_mod::lemma_mod_bound(i, w);
        vstd::arithmetic::div_mod::lemma_div_pos_is_pos(i, w);
        assert(w * (i / w) == (i / w) * w) by (nonlinear_arith);
        assert(i / w < self.h) by (nonlinear_arith)
            requires
                i == (i / w) * w + i % w,
                0 <= i % w,
                i < self.h * w,
                1 <= w,
        ;
        lemma_prefix_index_bounds(self.b, self.h, i / w, leaf);
        lemma_full_nodes_grows(self.b, 0, i / w);
        let p = prefix_index(self.b, self.h, i / w, leaf);
        let n = full_nodes(self.b, self.h);
        vstd::arithmetic::div_mod::lemma_fundamental_div_mod_converse(
            p * w + i % w,
            w,
            p,
            i % w,
        );
        assert(0 <= p * w && p * w + w <= n * w) by (nonlinear_arith)
            requires
                0 <= p,
                p + 1 <= n,
                1 <= w,
        ;
    }

    /// Every place of a node on the path is that of one slot of the loaded path.
    pub proof fn lemma_slot_of(&self, leaf: int, t: int, d: int)
        requires
            self.wf(),
            0 <= leaf < self.leaves(),
            0 <= t < full_nodes(self.b, self.h) * self.w(),
            self.on_path_at(t / self.w(), leaf, d),
        ensures
            0 <= d * self.w() + t % self.w() < self.h * self.w(),
            (d * self.w() + t % self.w()) / self.w() == d,
            (d * self.w() + t % self.w()) % self.w() == t % self.w(),
            self.home(leaf, d * self.w() + t % self.w()) == t,
    {
        self.lemma_w();
        let w = self.w();
        vstd::arithmetic::div_mod::lemma_fundamental_div_mod(t, w);
        vstd::arithmetic::div_mod::lemma_mod_bound(t, w);
        assert(w * (t / w) == (t / w) * w) by (nonlinear_arith);
        vstd::arithmetic::div_mod::lemma_fundamental_div_mod_converse(
            d * w + t % w,
            w,
            d,
            t % w,
        );
        assert(0 <= d * w && d * w + w <= self.h * w) by (nonlinear_arith)
            requires
                0 <= d,
                d + 1 <= self.h,
                1 <= w,
        ;
    }

    /// Loading a path keeps the order.
    pub proof fn lemma_open(&self, tree: Seq<u32>, stashes: Stashes, leaf: int)
        requires
            self.wf(),
            self.rest(tree, stashes),
            0 <= leaf < self.leaves(),
        ensures
            self.ok(self.opened(tree, leaf), stashes, leaf),
            self.off_ok(tree, self.opened(tree, leaf), stashes, leaf),
            forall|k: u32|
                #![trigger self.stored(tree, stashes, k)]
                self.stored(tree, stashes, k) <==> self.holds(
                    self.opened(tree, leaf),
                    stashes,
                    k,
                ) || (k != EMPTY_KEY && self.off_path(tree, leaf, k)),
    {
        self.lemma_w();
        let w = self.w();
        let slots = self.opened(tree, leaf);
        let c = self.chain(0, 1, 0, leaf);
        assert(0 <= self.h * w) by (nonlinear_arith)
            requires
                0 <= self.h,
                0 <= w,
        ;
        assert forall|i: int| 0 <= i < slots.len() implies #[trigger] slots[i] == tree[self.home(
            leaf,
            i,
        )] && 0 <= self.home(leaf, i) < tree.len() by {
            self.lemma_home(leaf, i);
        }
        assert forall|i: int, j: int|
            0 <= i < j < slots.len() && #[trigger] slots[i] != EMPTY_KEY implies slots[i]
            != #[trigger] slots[j] by {
            self.lemma_home(leaf, i);
            self.lemma_home(leaf, j);
            let t = self.home(leaf, i);
            let u = self.home(leaf, j);
            if t == u {
                self.lemma_on_path_at(t / w, leaf, leaf, i / w, j / w);
                assert(false);
            } else if t < u {
                assert(tree[t] != tree[u]);
            } else if tree[u] != EMPTY_KEY {
                assert(tree[u] != tree[t]);
            }
        }
        assert forall|i: int| 0 <= i < slots.len() && #[trigger] slots[i] != EMPTY_KEY implies
            slots[i] < self.labels.len() && !stashed(stashes, self.labels, slots[i]) && c.depth(
            slots[i],
        ) >= i / w by {
            self.lemma_home(leaf, i);
            let t = self.home(leaf, i);
            assert(tree[t] == slots[i]);
            let l = self.labels[tree[t] as int] as int;
            let e = choose|e: int| #[trigger] self.on_path_at(t / w, l, e);
            self.lemma_on_path_at(t / w, leaf, l, i / w, e);
            assert(c.wf());
            c.lemma_depth(slots[i], i / w);
        }
        assert forall|t: int|
            0 <= t < tree.len() && !self.on_path(t / w, leaf) && #[trigger] tree[t]
                != EMPTY_KEY implies !self.holds(slots, stashes, tree[t]) by {
            if slots.contains(tree[t]) {
                let i = choose|i: int| 0 <= i < slots.len() && slots[i] == tree[t];
                self.lemma_home(leaf, i);
                let u = self.home(leaf, i);
                assert(self.on_path(u / w, leaf));
                assert(tree[u] == tree[t]);
                if t < u {
                    assert(tree[t] != tree[u]);
                } else {
                    assert(tree[u] != tree[t]);
                }
            }
        }
        assert forall|k: u32|
            #![trigger self.stored(tree, stashes, k)]
            self.stored(tree, stashes, k) <==> self.holds(slots, stashes, k) || (k != EMPTY_KEY
                && self.off_path(tree, leaf, k)) by {
            if tree.contains(k) {
                let t = choose|t: int| 0 <= t < tree.len() && tree[t] == k;
                if self.on_path(t / w, leaf) {
                    let d = choose|d: int| #[trigger] self.on_path_at(t / w, leaf, d);
                    self.lemma_slot_of(leaf, t, d);
                    assert(slots[d * w + t % w] == k);
                } else {
                    assert(tree[t] == k);
                }
            }
            if slots.contains(k) {
                let i = choose|i: int| 0 <= i < slots.len() && slots[i] == k;
                assert(tree[self.home(leaf, i)] == k);
            }
            if self.off_path(tree, leaf, k) {
                let t = choose|t: int|
                    0 <= t < tree.len() && !self.on_path(t / w, leaf) && #[trigger] tree[t] == k;
                assert(tree.contains(k));
            }
        }
    }

    /// Putting a path back keeps the order.
    pub proof fn lemma_close(&self, tree: Seq<u32>, slots: Seq<u32>, stashes: Stashes, leaf: int)
        requires
            self.wf(),
            self.ok(slots, stashes, leaf),
            self.off_ok(tree, slots, stashes, leaf),
            0 <= leaf < self.leaves(),
        ensures
            self.rest(self.closed(tree, leaf, slots), stashes),
            forall|k: u32|
                #![trigger self.stored(self.closed(tree, leaf, slots), stashes, k)]
                self.stored(self.closed(tree, leaf, slots), stashes, k) <==> self.holds(
                    slots,
                    stashes,
                    k,
                ) || (k != EMPTY_KEY && self.off_path(tree, leaf, k)),
    {
        self.lemma_w();
        let w = self.w();
        let after = self.closed(tree, leaf, slots);
        let c = self.chain(0, 1, 0, leaf);
        assert forall|t: int| 0 <= t < after.len() && self.on_path(t / w, leaf) implies ({
            let d = choose|d: int| #[trigger] self.on_path_at(t / w, leaf, d);
            let i = d * w + t % w;
            0 <= i < slots.len() && #[trigger] after[t] == slots[i] && self.home(leaf, i) == t && i
                / w == d && self.on_path_at(t / w, leaf, d)
        }) by {
            let d = choose|d: int| #[trigger] self.on_path_at(t / w, leaf, d);
            self.lemma_slot_of(leaf, t, d);
        }
        assert forall|i: int| 0 <= i < slots.len() implies 0 <= self.home(leaf, i) < after.len()
            && after[self.home(leaf, i)] == #[trigger] slots[i] by {
            self.lemma_home(leaf, i);
            let t = self.home(leaf, i);
            assert(self.on_path(t / w, leaf));
            let d = choose|d: int| #[trigger] self.on_path_at(t / w, leaf, d);
            self.lemma_on_path_at(t / w, leaf, leaf, d, i / w);
        }
        assert forall|t: int, u: int|
            0 <= t < u < after.len() && #[trigger] after[t] != EMPTY_KEY implies after[t]
            != #[trigger] after[u] by {
            let a = self.on_path(t / w, leaf);
            let b = self.on_path(u / w, leaf);
            if a && b {
                let d = choose|d: int| #[trigger] self.on_path_at(t / w, leaf, d);
                let e = choose|e: int| #[trigger] self.on_path_at(u / w, leaf, e);
                let i = d * w + t % w;
                let j = e * w + u % w;
                assert(after[t] == slots[i] && after[u] == slots[j]);
                assert(i != j);
                if i < j {
                    assert(slots[i] != slots[j]);
                } else if slots[j] != EMPTY_KEY {
                    assert(slots[j] != slots[i]);
                }
            } else if a {
                let d = choose|d: int| #[trigger] self.on_path_at(t / w, leaf, d);
                assert(after[t] == slots[d * w + t % w]);
                assert(slots.contains(after[t]));
                assert(after[u] == tree[u]);
                if tree[u] != EMPTY_KEY {
                    assert(!self.holds(slots, stashes, tree[u]));
                }
            } else if b {
                let e = choose|e: int| #[trigger] self.on_path_at(u / w, leaf, e);
                assert(after[u] == slots[e * w + u % w]);
                assert(slots.contains(after[u]));
                assert(after[t] == tree[t]);
                assert(!self.holds(slots, stashes, tree[t]));
            } else {
                assert(after[t] == tree[t] && after[u] == tree[u]);
            }
        }
        assert forall|t: int| 0 <= t < after.len() && #[trigger] after[t] != EMPTY_KEY implies
            after[t] < self.labels.len() && !stashed(stashes, self.labels, after[t])
            && self.on_path(t / w, self.labels[after[t] as int] as int) by {
            if self.on_path(t / w, leaf) {
                let d = choose|d: int| #[trigger] self.on_path_at(t / w, leaf, d);
                let i = d * w + t % w;
                assert(after[t] == slots[i]);
                assert(c.wf());
                c.lemma_depth(slots[i], d);
                assert(self.on_path_at(t / w, self.labels[slots[i] as int] as int, d));
            } else {
                assert(after[t] == tree[t]);
                assert(!self.holds(slots, stashes, tree[t]));
            }
        }
        assert forall|k: u32|
            #![trigger self.stored(after, stashes, k)]
            self.stored(after, stashes, k) <==> self.holds(slots, stashes, k) || (k != EMPTY_KEY
                && self.off_path(tree, leaf, k)) by {
            if after.contains(k) {
                let t = choose|t: int| 0 <= t < after.len() && after[t] == k;
                if self.on_path(t / w, leaf) {
                    let d = choose|d: int| #[trigger] self.on_path_at(t / w, leaf, d);
                    assert(slots[d * w + t % w] == k);
                } else {
                    assert(tree[t] == k);
                }
            }
            if slots.contains(k) {
                let i = choose|i: int| 0 <= i < slots.len() && slots[i] == k;
                assert(after[self.home(leaf, i)] == k);
            }
            if self.off_path(tree, leaf, k) {
                let t = choose|t: int|
                    0 <= t < tree.len() && !self.on_path(t / w, leaf) && #[trigger] tree[t] == k;
                assert(after[t] == k);
            }
        }
    }

    /// A chain keeps the order.
    proof fn lemma_chain(&self, slots: Seq<u32>, stashes: Stashes, leaf: int, off: int, cnt: int, q: int)
        requires
            self.wf(),
            self.ok(slots, stashes, leaf),
            0 <= leaf < self.leaves(),
            0 <= off,
            1 <= cnt,
            off + cnt <= self.w(),
            0 <= q < self.stash_count(),
        ensures
            self.chain(off, cnt, q, leaf).wf(),
            self.chain(off, cnt, q, leaf).ok(slots, stashes),
            ({
                let (s, t) = self.chain(off, cnt, q, leaf).run(slots, stashes, self.h - 1);
                &&& self.ok(s, t, leaf)
                &&& forall|k: u32| self.holds(s, t, k) == #[trigger] self.holds(slots, stashes, k)
            }),
    {
        self.lemma_w();
        let c = self.chain(off, cnt, q, leaf);
        let c0 = self.chain(0, 1, 0, leaf);
        let c1 = self.chain(0, 1, 0, 0);
        assert forall|k: u32| c.depth(k) == #[trigger] c0.depth(k) by {}
        c.lemma_run(slots, stashes, self.h - 1);
        let (s, t) = c.run(slots, stashes, self.h - 1);
        assert forall|k: u32| self.holds(s, t, k) == #[trigger] self.holds(slots, stashes, k) by {
            assert(c.holds(s, t, k) == c.holds(slots, stashes, k));
            assert(c1.holds(s, t, k) == c.holds(s, t, k));
            assert(c1.holds(slots, stashes, k) == c.holds(slots, stashes, k));
        }
    }

    /// The chain of a lane keeps the order.
    pub proof fn lemma_lane(&self, slots: Seq<u32>, stashes: Stashes, leaf: int, lane: int)
        requires
            self.wf(),
            self.ok(slots, stashes, leaf),
            0 <= leaf < self.leaves(),
            0 <= lane < self.z,
        ensures
            self.lane_chain(lane, leaf).wf(),
            self.lane_chain(lane, leaf).ok(slots, stashes),
            ({
                let (s, t) = self.lane_chain(lane, leaf).run(slots, stashes, self.h - 1);
                &&& self.ok(s, t, leaf)
                &&& forall|k: u32| self.holds(s, t, k) == #[trigger] self.holds(slots, stashes, k)
            }),
    {
        assert(0 <= lane * self.y && lane * self.y + self.y <= self.z * self.y)
            by (nonlinear_arith)
            requires
                0 <= lane,
                lane + 1 <= self.z,
                1 <= self.y,
        ;
        self.lemma_chain(
            slots,
            stashes,
            leaf,
            lane * self.y,
            self.y,
            if self.queues {
                lane
            } else {
                0
            },
        );
    }

    /// The chain over whole buckets keeps the order.
    pub proof fn lemma_pooled(&self, slots: Seq<u32>, stashes: Stashes, leaf: int)
        requires
            self.wf(),
            self.ok(slots, stashes, leaf),
            0 <= leaf < self.leaves(),
        ensures
            self.chain(0, self.w(), 0, leaf).wf(),
            self.chain(0, self.w(), 0, leaf).ok(slots, stashes),
            ({
                let (s, t) = self.chain(0, self.w(), 0, leaf).run(slots, stashes, self.h - 1);
                &&& self.ok(s, t, leaf)
                &&& forall|k: u32| self.holds(s, t, k) == #[trigger] self.holds(slots, stashes, k)
            }),
    {
        self.lemma_w();
        self.lemma_chain(slots, stashes, leaf, 0, self.w(), 0);
    }

    /// The chains of some lanes keep the order.
    pub proof fn lemma_lanes(&self, slots: Seq<u32>, stashes: Stashes, leaf: int, n: int)
        requires
            self.wf(),
            self.ok(slots, stashes, leaf),
            0 <= leaf < self.leaves(),
            n <= self.z,
        ensures
            ({
                let (s, t) = self.lanes_run(slots, stashes, leaf, n);
                &&& self.ok(s, t, leaf)
                &&& forall|k: u32| self.holds(s, t, k) == #[trigger] self.holds(slots, stashes, k)
            }),
        decreases n,
    {
        if n > 0 {
            self.lemma_lanes(slots, stashes, leaf, n - 1);
            let (s, t) = self.lanes_run(slots, stashes, leaf, n - 1);
            self.lemma_lane(s, t, leaf, n - 1);
            let (s2, t2) = self.lanes_run(slots, stashes, leaf, n);
            assert forall|k: u32| self.holds(s2, t2, k) == #[trigger] self.holds(
                slots,
                stashes,
                k,
            ) by {
                assert(self.holds(s2, t2, k) == self.holds(s, t, k));
            }
        }
    }

    /// Passes over a path keep the order.
    pub proof fn lemma_passes(&self, slots: Seq<u32>, stashes: Stashes, leaf: int, n: int)
        requires
            self.wf(),
            self.ok(slots, stashes, leaf),
            0 <= leaf < self.leaves(),
        ensures
            ({
                let (s, t) = self.passes_run(slots, stashes, leaf, n);
                &&& self.ok(s, t, leaf)
                &&& forall|k: u32| self.holds(s, t, k) == #[trigger] self.holds(slots, stashes, k)
            }),
        decreases n,
    {
        if n > 0 {
            self.lemma_passes(slots, stashes, leaf, n - 1);
            let (s, t) = self.passes_run(slots, stashes, leaf, n - 1);
            self.lemma_pooled(s, t, leaf);
            self.lemma_lanes(s, t, leaf, self.z);
            let (s2, t2) = self.passes_run(slots, stashes, leaf, n);
            assert forall|k: u32| self.holds(s2, t2, k) == #[trigger] self.holds(
                slots,
                stashes,
                k,
            ) by {
                assert(self.holds(s2, t2, k) == self.holds(s, t, k));
            }
        }
    }

    /// The rest of the tree stays in order when the same keys are held.
    pub proof fn lemma_off_ok(
        &self,
        tree: Seq<u32>,
        slots: Seq<u32>,
        stashes: Stashes,
        s: Seq<u32>,
        t: Stashes,
        leaf: int,
    )
        requires
            self.off_ok(tree, slots, stashes, leaf),
            forall|k: u32| self.holds(s, t, k) == #[trigger] self.holds(slots, stashes, k),
        ensures
            self.off_ok(tree, s, t, leaf),
    {
        assert forall|u: int|
            0 <= u < tree.len() && !self.on_path(u / self.w(), leaf) && #[trigger] tree[u]
                != EMPTY_KEY implies !self.holds(s, t, tree[u]) by {
            assert(!self.holds(slots, stashes, tree[u]));
        }
    }

    /// Evicting a path keeps the order and loses no key.
    pub proof fn lemma_evicted(&self, tree: Seq<u32>, stashes: Stashes, leaf: int)
        requires
            self.wf(),
            self.rest(tree, stashes),
            0 <= leaf < self.leaves(),
        ensures
            ({
                let (s, t) = self.evicted(tree, stashes, leaf);
                &&& self.rest(s, t)
                &&& forall|k: u32| self.stored(s, t, k) == #[trigger] self.stored(tree, stashes, k)
            }),
    {
        let slots = self.opened(tree, leaf);
        self.lemma_open(tree, stashes, leaf);
        self.lemma_passes(slots, stashes, leaf, self.chains);
        let (s, t) = self.passes_run(slots, stashes, leaf, self.chains);
        self.lemma_off_ok(tree, slots, stashes, s, t, leaf);
        self.lemma_close(tree, s, t, leaf);
        let after = self.closed(tree, leaf, s);
        assert forall|k: u32| self.stored(after, t, k) == #[trigger] self.stored(
            tree,
            stashes,
            k,
        ) by {
            assert(self.holds(s, t, k) == self.holds(slots, stashes, k));
        }
    }

    /// Evicting any number of paths keeps the order and loses no key.
    pub proof fn lemma_all_evicted(&self, tree: Seq<u32>, stashes: Stashes, paths: Seq<u32>, n: int)
        requires
            self.wf(),
            self.rest(tree, stashes),
            n <= paths.len(),
            forall|i: int| 0 <= i < paths.len() ==> #[trigger] paths[i] < self.leaves(),
        ensures
            ({
                let (s, t) = self.all_evicted(tree, stashes, paths, n);
                &&& self.rest(s, t)
                &&& forall|k: u32| self.stored(s, t, k) == #[trigger] self.stored(tree, stashes, k)
            }),
        decreases n,
    {
        if n > 0 {
            self.lemma_all_evicted(tree, stashes, paths, n - 1);
            let (s, t) = self.all_evicted(tree, stashes, paths, n - 1);
            assert(paths[n - 1] < self.leaves());
            self.lemma_evicted(s, t, paths[n - 1] as int);
            let (s2, t2) = self.all_evicted(tree, stashes, paths, n);
            assert forall|k: u32| self.stored(s2, t2, k) == #[trigger] self.stored(
                tree,
                stashes,
                k,
            ) by {
                assert(self.stored(s2, t2, k) == self.stored(s, t, k));
            }
        }
    }
}

/// Slots without the block of `key`.
pub open spec fn without_key(slots: Seq<u32>, key: u32) -> Seq<u32> {
    Seq::new(
        slots.len(),
        |i: int|
            if slots[i] == key {
                EMPTY_KEY
            } else {
                slots[i]
            },
    )
}

/// Stashes without `key`.
pub open spec fn without_stashed(stashes: Stashes, key: u32) -> Stashes {
    Seq::new(
        stashes.len(),
        |q: int| Seq::new(stashes[q].len(), |l: int| stashes[q][l].remove(key)),
    )
}

/// Stashes with `key` in stash `q` under `label`.
pub open spec fn with_stashed(stashes: Stashes, q: int, label: int, key: u32) -> Stashes {
    stashes.update(q, stashes[q].update(label, stashes[q][label].insert(key)))
}

impl Setup {
    /// The setup with a new label for `key`.
    pub open spec fn relabelled(&self, key: u32, label: u32) -> Setup {
        Setup { labels: self.labels.update(key as int, label), ..*self }
    }

    /// Taking a key out keeps the order, and the key is then nowhere.
    pub proof fn lemma_taken(
        &self,
        tree: Seq<u32>,
        slots: Seq<u32>,
        stashes: Stashes,
        leaf: int,
        key: u32,
    )
        requires
            self.wf(),
            self.ok(slots, stashes, leaf),
            self.off_ok(tree, slots, stashes, leaf),
            key < self.labels.len(),
        ensures
            self.ok(without_key(slots, key), without_stashed(stashes, key), leaf),
            self.off_ok(tree, without_key(slots, key), without_stashed(stashes, key), leaf),
            forall|k: u32|
                #![trigger self.holds(slots, stashes, k)]
                self.holds(without_key(slots, key), without_stashed(stashes, key), k) <==> k != key
                    && self.holds(slots, stashes, k),
            forall|q: int, l: int|
                0 <= q < stashes.len() && 0 <= l < self.leaves()
                    ==> !#[trigger] without_stashed(stashes, key)[q][l].contains(key),
    {
        let s = without_key(slots, key);
        let t = without_stashed(stashes, key);
        let n = self.leaves();
        assert forall|q: int| 0 <= q < t.len() implies (#[trigger] t[q]).len() == n by {
            assert(stashes[q].len() == n);
        }
        assert forall|q: int, l: int, k: u32|
            0 <= q < t.len() && 0 <= l < n implies (#[trigger] t[q][l].contains(k) <==> k != key
            && stashes[q][l].contains(k)) by {
            assert(stashes[q].len() == n);
        }
        assert(stashes_ok(t, self.labels, n)) by {
            assert forall|q: int, r: int, l: int, k: u32|
                0 <= q < t.len() && 0 <= r < t.len() && 0 <= l < n
                    && #[trigger] t[q][l].contains(k) && #[trigger] t[r][l].contains(k) implies q
                == r by {
                assert(stashes[q][l].contains(k) && stashes[r][l].contains(k));
            }
        }
        assert forall|k: u32| k < self.labels.len() implies (#[trigger] stashed(t, self.labels, k)
            <==> k != key && stashed(stashes, self.labels, k)) by {
            let l = self.labels[k as int] as int;
            assert(0 <= l < n);
            if stashed(t, self.labels, k) {
                let q = choose|q: int| 0 <= q < t.len() && #[trigger] t[q][l].contains(k);
                assert(stashes[q][l].contains(k));
            }
            if k != key && stashed(stashes, self.labels, k) {
                let q = choose|q: int| 0 <= q < stashes.len() && #[trigger] stashes[q][l].contains(k);
                assert(t[q][l].contains(k));
            }
        }
        assert forall|k: u32|
            #![trigger self.holds(slots, stashes, k)]
            self.holds(s, t, k) <==> k != key && self.holds(slots, stashes, k) by {
            if s.contains(k) && k != EMPTY_KEY {
                let i = choose|i: int| 0 <= i < s.len() && s[i] == k;
                assert(slots[i] == k);
            }
            if slots.contains(k) && k != key {
                let i = choose|i: int| 0 <= i < slots.len() && slots[i] == k;
                assert(s[i] == k);
            }
        }
        let c = self.chain(0, 1, 0, leaf);
        assert forall|i: int, j: int|
            0 <= i < j < s.len() && #[trigger] s[i] != EMPTY_KEY implies s[i] != #[trigger] s[j] by {
            assert(slots[i] != slots[j]);
        }
        assert forall|i: int| 0 <= i < s.len() && #[trigger] s[i] != EMPTY_KEY implies s[i]
            < self.labels.len() && !stashed(t, self.labels, s[i]) && c.depth(s[i]) >= i
            / self.w() by {
            assert(slots[i] == s[i]);
        }
        assert forall|u: int|
            0 <= u < tree.len() && !self.on_path(u / self.w(), leaf) && #[trigger] tree[u]
                != EMPTY_KEY implies !self.holds(s, t, tree[u]) by {
            assert(!self.holds(slots, stashes, tree[u]));
        }
    }

    /// Giving a key that is nowhere a new label and putting it into a stash keeps the
    /// order.
    pub proof fn lemma_inserted(
        &self,
        tree: Seq<u32>,
        slots: Seq<u32>,
        stashes: Stashes,
        leaf: int,
        key: u32,
        label: u32,
        q: int,
    )
        requires
            self.wf(),
            self.ok(slots, stashes, leaf),
            self.off_ok(tree, slots, stashes, leaf),
            key < self.labels.len(),
            label < self.leaves(),
            0 <= q < self.stash_count(),
            !self.holds(slots, stashes, key),
            !self.off_path(tree, leaf, key),
            forall|p: int, l: int|
                0 <= p < stashes.len() && 0 <= l < self.leaves()
                    ==> !#[trigger] stashes[p][l].contains(key),
        ensures
            self.relabelled(key, label).wf(),
            self.relabelled(key, label).ok(
                slots,
                with_stashed(stashes, q, label as int, key),
                leaf,
            ),
            self.relabelled(key, label).off_ok(
                tree,
                slots,
                with_stashed(stashes, q, label as int, key),
                leaf,
            ),
            forall|k: u32|
                #![trigger self.holds(slots, stashes, k)]
                self.relabelled(key, label).holds(
                    slots,
                    with_stashed(stashes, q, label as int, key),
                    k,
                ) <==> k == key || self.holds(slots, stashes, k),
    {
        let f = self.relabelled(key, label);
        let t = with_stashed(stashes, q, label as int, key);
        let n = self.leaves();
        let c = self.chain(0, 1, 0, leaf);
        let d = f.chain(0, 1, 0, leaf);
        assert forall|i: int| 0 <= i < slots.len() implies #[trigger] slots[i] != key by {
            if slots[i] == key {
                assert(slots.contains(key));
            }
        }
        assert forall|p: int| 0 <= p < t.len() implies (#[trigger] t[p]).len() == n by {
            assert(stashes[p].len() == n);
        }
        assert forall|p: int, l: int, k: u32|
            0 <= p < t.len() && 0 <= l < n implies (#[trigger] t[p][l].contains(k) <==> (k == key
            && p == q && l == label) || (k != key && stashes[p][l].contains(k))) by {
            assert(stashes[p].len() == n);
            assert(!stashes[p][l].contains(key));
        }
        assert(stashes_ok(t, f.labels, n)) by {
            assert forall|p: int, l: int, k: u32|
                0 <= p < t.len() && 0 <= l < n && #[trigger] t[p][l].contains(k) implies k
                < f.labels.len() && f.labels[k as int] == l && k != EMPTY_KEY by {
                if k != key {
                    assert(stashes[p][l].contains(k));
                }
            }
            assert forall|p: int, r: int, l: int, k: u32|
                0 <= p < t.len() && 0 <= r < t.len() && 0 <= l < n
                    && #[trigger] t[p][l].contains(k) && #[trigger] t[r][l].contains(k) implies p
                == r by {
                if k != key {
                    assert(stashes[p][l].contains(k) && stashes[r][l].contains(k));
                }
            }
        }
        assert forall|k: u32| k < self.labels.len() implies (#[trigger] stashed(t, f.labels, k)
            <==> k == key || stashed(stashes, self.labels, k)) by {
            if k == key {
                assert(t[q][label as int].contains(key));
            } else {
                let l = self.labels[k as int] as int;
                assert(0 <= l < n);
                if stashed(t, f.labels, k) {
                    let p = choose|p: int| 0 <= p < t.len() && #[trigger] t[p][l].contains(k);
                    assert(stashes[p][l].contains(k));
                }
                if stashed(stashes, self.labels, k) {
                    let p = choose|p: int|
                        0 <= p < stashes.len() && #[trigger] stashes[p][l].contains(k);
                    assert(t[p][l].contains(k));
                }
            }
        }
        assert forall|i: int| 0 <= i < slots.len() && #[trigger] slots[i] != EMPTY_KEY implies
            slots[i] < f.labels.len() && !stashed(t, f.labels, slots[i]) && d.depth(slots[i]) >= i
            / self.w() by {
            assert(f.labels[slots[i] as int] == self.labels[slots[i] as int]);
            assert(c.depth(slots[i]) == d.depth(slots[i]));
        }
        assert forall|u: int|
            0 <= u < tree.len() && !f.on_path(u / f.w(), leaf) && #[trigger] tree[u]
                != EMPTY_KEY implies tree[u] < f.labels.len() && !f.holds(slots, t, tree[u])
            && f.on_path(u / f.w(), f.labels[tree[u] as int] as int) by {
            lemma_same_path(*self, f, u / self.w(), leaf);
            assert(!self.on_path(u / self.w(), leaf));
            assert(tree[u] != key);
            assert(!self.holds(slots, stashes, tree[u]));
            lemma_same_path(*self, f, u / self.w(), self.labels[tree[u] as int] as int);
        }
        assert forall|u: int, v: int|
            0 <= u < v < tree.len() && !f.on_path(u / f.w(), leaf) && !f.on_path(v / f.w(), leaf)
                && #[trigger] tree[u] != EMPTY_KEY implies tree[u] != #[trigger] tree[v] by {
            lemma_same_path(*self, f, u / self.w(), leaf);
            lemma_same_path(*self, f, v / self.w(), leaf);
        }
        assert forall|k: u32|
            #![trigger self.holds(slots, stashes, k)]
            f.holds(slots, t, k) <==> k == key || self.holds(slots, stashes, k) by {}
    }
}

/// Labels play no part in which nodes are on a path.
pub proof fn lemma_same_path(a: Setup, b: Setup, node: int, leaf: int)
    requires
        a.b == b.b,
        a.h == b.h,
    ensures
        a.on_path(node, leaf) == b.on_path(node, leaf),
{
    if a.on_path(node, leaf) {
        let d = choose|d: int| #[trigger] a.on_path_at(node, leaf, d);
        assert(b.on_path_at(node, leaf, d));
    }
    if b.on_path(node, leaf) {
        let d = choose|d: int| #[trigger] b.on_path_at(node, leaf, d);
        assert(a.on_path_at(node, leaf, d));
    }
}

/// The number of keys in the first `n` stashes.
pub open spec fn total_keys(stashes: Stashes, n: int) -> nat
    decreases n,
{
    if n <= 0 {
        0
    } else {
        total_keys(stashes, n - 1) + key_count(stashes[n - 1])
    }
}

/// The number of slots that hold a block.
pub open spec fn live_slots(s: Seq<u32>) -> nat
    decreases s.len(),
{
    if s.len() == 0 {
        0
    } else {
        live_slots(s.drop_last()) + (if s.last() == EMPTY_KEY {
            0nat
        } else {
            1nat
        })
    }
}

/// Numbers below `m` are at most `m` in number.
proof fn lemma_few_below(s: Set<u32>, m: nat)
    requires
        s.finite(),
        forall|k: u32| #[trigger] s.contains(k) ==> k < m,
    ensures
        s.len() <= m,
    decreases m,
{
    if m == 0 {
        if s.len() > 0 {
            assert(s.contains(s.choose()));
        }
    } else if m <= u32::MAX + 1 {
        let k = (m - 1) as u32;
        lemma_few_below(s.remove(k), (m - 1) as nat);
    } else {
        lemma_few_below(s, (m - 1) as nat);
    }
}

/// The keys under the first `n` labels of one stash.
pub open spec fn keys_below(keys: Seq<Set<u32>>, n: int) -> Set<u32> {
    Set::new(|k: u32| exists|l: int| 0 <= l < n && #[trigger] keys[l].contains(k))
}

/// Keys under labels of their own are as many as the counts say.
proof fn lemma_keys_below(keys: Seq<Set<u32>>, n: int)
    requires
        0 <= n <= keys.len(),
        forall|l: int| 0 <= l < keys.len() ==> (#[trigger] keys[l]).finite(),
        forall|l: int, e: int, k: u32|
            0 <= l < keys.len() && 0 <= e < keys.len() && #[trigger] keys[l].contains(k)
                && #[trigger] keys[e].contains(k) ==> l == e,
    ensures
        keys_below(keys, n).finite(),
        keys_below(keys, n).len() == key_count(keys.take(n)),
    decreases n,
{
    if n == 0 {
        assert(keys_below(keys, 0) =~= Set::empty());
    } else {
        lemma_keys_below(keys, n - 1);
        let a = keys_below(keys, n - 1);
        let b = keys[n - 1];
        assert(keys.take(n).drop_last() =~= keys.take(n - 1));
        assert(keys_below(keys, n) =~= a + b) by {
            assert forall|k: u32| keys_below(keys, n).contains(k) implies (a + b).contains(k) by {
                let l = choose|l: int| 0 <= l < n && #[trigger] keys[l].contains(k);
                if l < n - 1 {
                    assert(a.contains(k));
                }
            }
            assert forall|k: u32| (a + b).contains(k) implies keys_below(keys, n).contains(k) by {
                if a.contains(k) {
                    let l = choose|l: int| 0 <= l < n - 1 && #[trigger] keys[l].contains(k);
                    assert(keys[l].contains(k));
                } else {
                    assert(keys[n - 1].contains(k));
                }
            }
        }
        assert(a.disjoint(b)) by {
            assert forall|k: u32| a.contains(k) implies !b.contains(k) by {
                let l = choose|l: int| 0 <= l < n - 1 && #[trigger] keys[l].contains(k);
                if b.contains(k) {
                    assert(keys[l].contains(k) && keys[n - 1].contains(k));
                }
            }
        }
        vstd::set_lib::lemma_set_disjoint_lens(a, b);
    }
}

/// The keys in the first `n` stashes.
pub open spec fn stash_set(stashes: Stashes, n: int) -> Set<u32> {
    Set::new(
        |k: u32|
            exists|q: int, l: int|
                0 <= q < n && 0 <= l < stashes[q].len() && #[trigger] stashes[q][l].contains(k),
    )
}

/// The stashed keys are as many as the counts say, and no more than there are keys.
pub proof fn lemma_stash_set(stashes: Stashes, labels: Seq<u32>, leaves: int, n: int)
    requires
        0 <= n <= stashes.len(),
        stashes_ok(stashes, labels, leaves),
        forall|q: int, l: int|
            0 <= q < stashes.len() && 0 <= l < leaves ==> (#[trigger] stashes[q][l]).finite(),
    ensures
        stash_set(stashes, n).finite(),
        stash_set(stashes, n).len() == total_keys(stashes, n),
        total_keys(stashes, n) <= labels.len(),
    decreases n,
{
    if n == 0 {
        assert(stash_set(stashes, 0) =~= Set::empty());
    } else {
        lemma_stash_set(stashes, labels, leaves, n - 1);
        let keys = stashes[n - 1];
        let a = stash_set(stashes, n - 1);
        let b = keys_below(keys, keys.len() as int);
        assert(keys.len() == leaves);
        lemma_keys_below(keys, keys.len() as int);
        assert(keys.take(keys.len() as int) =~= keys);
        assert(stash_set(stashes, n) =~= a + b) by {
            assert forall|k: u32| stash_set(stashes, n).contains(k) implies (a + b).contains(
                k,
            ) by {
                let (q, l) = choose|q: int, l: int|
                    0 <= q < n && 0 <= l < stashes[q].len() && #[trigger] stashes[q][l].contains(k);
                if q == n - 1 {
                    assert(keys[l].contains(k));
                    assert(b.contains(k));
                } else {
                    assert(a.contains(k));
                }
            }
            assert forall|k: u32| (a + b).contains(k) implies stash_set(stashes, n).contains(
                k,
            ) by {
                if a.contains(k) {
                    let (q, l) = choose|q: int, l: int|
                        0 <= q < n - 1 && 0 <= l < stashes[q].len()
                            && #[trigger] stashes[q][l].contains(k);
                    assert(stashes[q][l].contains(k));
                } else {
                    let l = choose|l: int| 0 <= l < keys.len() && #[trigger] keys[l].contains(k);
                    assert(stashes[n - 1][l].contains(k));
                }
            }
        }
        assert(a.disjoint(b)) by {
            assert forall|k: u32| a.contains(k) implies !b.contains(k) by {
                let (q, l) = choose|q: int, l: int|
                    0 <= q < n - 1 && 0 <= l < stashes[q].len()
                        && #[trigger] stashes[q][l].contains(k);
                assert(stashes[q].len() == leaves);
                if b.contains(k) {
                    let e = choose|e: int| 0 <= e < keys.len() && #[trigger] keys[e].contains(k);
                    assert(stashes[n - 1][e].contains(k) && stashes[q][l].contains(k));
                    assert(l == e);
                    assert(stashes[n - 1][l].contains(k));
                }
            }
        }
        vstd::set_lib::lemma_set_disjoint_lens(a, b);
        assert forall|k: u32| #[trigger] stash_set(stashes, n).contains(k) implies k
            < labels.len() by {
            let (q, l) = choose|q: int, l: int|
                0 <= q < n && 0 <= l < stashes[q].len() && #[trigger] stashes[q][l].contains(k);
            assert(stashes[q].len() == leaves);
        }
        lemma_few_below(stash_set(stashes, n), labels.len());
    }
}

/// The keys in slots.
pub open spec fn slot_set(s: Seq<u32>) -> Set<u32> {
    Set::new(|k: u32| k != EMPTY_KEY && s.contains(k))
}

/// Slots without a key twice hold as many keys as there are slots with one.
pub proof fn lemma_slot_set(s: Seq<u32>)
    requires
        distinct(s),
    ensures
        slot_set(s).finite(),
        slot_set(s).len() == live_slots(s),
        live_slots(s) <= s.len(),
    decreases s.len(),
{
    if s.len() == 0 {
        assert(slot_set(s) =~= Set::empty());
    } else {
        let t = s.drop_last();
        assert(distinct(t)) by {
            assert forall|i: int, j: int|
                0 <= i < j < t.len() && #[trigger] t[i] != EMPTY_KEY implies t[i]
                != #[trigger] t[j] by {
                assert(s[i] != s[j]);
            }
        }
        lemma_slot_set(t);
        let last = s.last();
        assert forall|k: u32| s.contains(k) implies k == last || t.contains(k) by {
            let i = choose|i: int| 0 <= i < s.len() && s[i] == k;
            if i < t.len() {
                assert(t[i] == k);
            }
        }
        assert forall|k: u32| t.contains(k) implies s.contains(k) by {
            let i = choose|i: int| 0 <= i < t.len() && t[i] == k;
            assert(s[i] == k);
        }
        assert(s[s.len() - 1] == last);
        if last == EMPTY_KEY {
            assert(slot_set(s) =~= slot_set(t));
        } else {
            assert(slot_set(s) =~= slot_set(t).insert(last));
            if t.contains(last) {
                let i = choose|i: int| 0 <= i < t.len() && t[i] == last;
                assert(s[i] != s[s.len() - 1]);
            }
        }
    }
}

impl Setup {
    /// The keys in the tree and in the stashes.
    pub open spec fn stored_keys(&self, tree: Seq<u32>, stashes: Stashes) -> Set<u32> {
        Set::new(|k: u32| self.stored(tree, stashes, k))
    }

    /// The blocks of the tree and of the stashes are as many as the stored keys.
    pub proof fn lemma_stored_count(&self, tree: Seq<u32>, stashes: Stashes)
        requires
            self.wf(),
            self.rest(tree, stashes),
            forall|q: int, l: int|
                0 <= q < stashes.len() && 0 <= l < self.leaves() ==> (
                #[trigger] stashes[q][l]).finite(),
        ensures
            self.stored_keys(tree, stashes).finite(),
            self.stored_keys(tree, stashes).len() == live_slots(tree) + total_keys(
                stashes,
                stashes.len() as int,
            ),
            live_slots(tree) + total_keys(stashes, stashes.len() as int) <= self.labels.len(),
    {
        let m = stashes.len() as int;
        let a = slot_set(tree);
        let b = stash_set(stashes, m);
        lemma_slot_set(tree);
        lemma_stash_set(stashes, self.labels, self.leaves(), m);
        assert forall|k: u32| b.contains(k) == (k < self.labels.len() && stashed(
            stashes,
            self.labels,
            k,
        )) by {
            if b.contains(k) {
                let (q, l) = choose|q: int, l: int|
                    0 <= q < m && 0 <= l < stashes[q].len() && #[trigger] stashes[q][l].contains(k);
                assert(stashes[q].len() == self.leaves());
                assert(stashes[q][self.labels[k as int] as int].contains(k));
            }
            if k < self.labels.len() && stashed(stashes, self.labels, k) {
                let q = choose|q: int|
                    0 <= q < m && #[trigger] stashes[q][self.labels[k as int] as int].contains(k);
                assert(stashes[q].len() == self.leaves());
                assert(stashes[q][self.labels[k as int] as int].contains(k));
            }
        }
        assert forall|k: u32| a.contains(k) implies !b.contains(k) && k < self.labels.len() by {
            let t = choose|t: int| 0 <= t < tree.len() && tree[t] == k;
            assert(tree[t] != EMPTY_KEY);
        }
        assert(self.stored_keys(tree, stashes) =~= a + b) by {
            assert forall|k: u32| #![auto] b.contains(k) implies k != EMPTY_KEY by {}
        }
        assert(a.disjoint(b));
        vstd::set_lib::lemma_set_disjoint_lens(a, b);
        lemma_few_below(a + b, self.labels.len());
    }
}

} // verus!
