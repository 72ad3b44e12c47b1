//! What the paths that the minibucket simulator evicts achieve, call by call.
use vstd::prelude::*;
use crate::minibucket_chain::{stashed, Stashes};
use crate::minibucket_sim::{MinibucketLaneSimulator, SimUpdate};
use crate::minibucket_store::{with_stashed, without_key, without_stashed, Setup};
use crate::stash_index::EMPTY_KEY;

verus! {

impl Setup {
    /// Evictions look at no more paths than they take.
    proof fn lemma_evicted_prefix(
        &self,
        tree: Seq<u32>,
        stashes: Stashes,
        paths: Seq<u32>,
        more: Seq<u32>,
        n: int,
    )
        requires
            n <= paths.len(),
            n <= more.len(),
            forall|i: int| 0 <= i < n ==> #[trigger] paths[i] == more[i],
        ensures
            self.all_evicted(tree, stashes, paths, n) == self.all_evicted(tree, stashes, more, n),
        decreases n,
    {
        if n > 0 {
            self.lemma_evicted_prefix(tree, stashes, paths, more, n - 1);
            assert(paths[n - 1] == more[n - 1]);
        }
    }

    /// The first of the paths may as well be evicted before the others.
    proof fn lemma_evicted_first(
        &self,
        tree: Seq<u32>,
        stashes: Stashes,
        first: u32,
        paths: Seq<u32>,
        n: int,
    )
        requires
            0 <= n <= paths.len(),
        ensures
            ({
                let (s, t) = self.evicted(tree, stashes, first as int);
                self.all_evicted(tree, stashes, seq![first] + paths, n + 1) == self.all_evicted(
                    s,
                    t,
                    paths,
                    n,
                )
            }),
        decreases n,
    {
        let more = seq![first] + paths;
        let (s, t) = self.evicted(tree, stashes, first as int);
        if n > 0 {
            self.lemma_evicted_first(tree, stashes, first, paths, n - 1);
            assert(more[n] == paths[n - 1]);
        } else {
            assert(more[0] == first);
            assert(self.all_evicted(tree, stashes, more, 0) == (tree, stashes));
            assert(self.all_evicted(s, t, paths, 0) == (s, t));
        }
    }

    /// A path that is put back twice is as it was put back last.
    proof fn lemma_closed_twice(&self, tree: Seq<u32>, leaf: int, a: Seq<u32>, c: Seq<u32>)
        ensures
            self.closed(self.closed(tree, leaf, a), leaf, c) == self.closed(tree, leaf, c),
    {
        assert(self.closed(self.closed(tree, leaf, a), leaf, c) =~= self.closed(tree, leaf, c));
    }
}

impl Setup {
    /// The same setup with another number of chains for each lane.
    pub open spec fn with_chains(&self, chains: int) -> Setup {
        Setup { chains, ..*self }
    }

    proof fn lemma_same_lanes(
        &self,
        chains: int,
        slots: Seq<u32>,
        stashes: Stashes,
        leaf: int,
        n: int,
    )
        ensures
            self.with_chains(chains).lanes_run(slots, stashes, leaf, n) == self.lanes_run(
                slots,
                stashes,
                leaf,
                n,
            ),
        decreases n,
    {
        if n > 0 {
            self.lemma_same_lanes(chains, slots, stashes, leaf, n - 1);
        }
    }

    /// A pass does not depend on how many there are.
    proof fn lemma_same_passes(
        &self,
        chains: int,
        slots: Seq<u32>,
        stashes: Stashes,
        leaf: int,
        n: int,
    )
        ensures
            self.with_chains(chains).passes_run(slots, stashes, leaf, n) == self.passes_run(
                slots,
                stashes,
                leaf,
                n,
            ),
        decreases n,
    {
        if n > 0 {
            self.lemma_same_passes(chains, slots, stashes, leaf, n - 1);
            let (s, t) = self.passes_run(slots, stashes, leaf, n - 1);
            self.lemma_same_lanes(chains, s, t, leaf, self.z);
        }
    }

    proof fn lemma_same_closed(&self, chains: int, tree: Seq<u32>, leaf: int, slots: Seq<u32>)
        requires
            self.wf(),
            0 <= leaf < self.leaves(),
        ensures
            self.with_chains(chains).closed(tree, leaf, slots) == self.closed(tree, leaf, slots),
            self.with_chains(chains).opened(tree, leaf) == self.opened(tree, leaf),
    {
        let g = self.with_chains(chains);
        assert(g.opened(tree, leaf) =~= self.opened(tree, leaf));
        assert forall|t: int| 0 <= t < tree.len() implies g.closed(tree, leaf, slots)[t]
            == self.closed(tree, leaf, slots)[t] by {
            let node = t / self.w();
            if self.on_path(node, leaf) {
                let d = choose|d: int| #[trigger] self.on_path_at(node, leaf, d);
                assert(g.on_path_at(node, leaf, d));
                let e = choose|e: int| #[trigger] g.on_path_at(node, leaf, e);
                assert(self.on_path_at(node, leaf, e));
                self.lemma_on_path_at(node, leaf, leaf, d, e);
            }
            if g.on_path(node, leaf) {
                let d = choose|d: int| #[trigger] g.on_path_at(node, leaf, d);
                assert(self.on_path_at(node, leaf, d));
            }
        }
        assert(g.closed(tree, leaf, slots) =~= self.closed(tree, leaf, slots));
    }

    /// To evict a path with some chains and then again with some more is to evict it once
    /// with all of them.
    pub proof fn lemma_chains_add(
        &self,
        tree: Seq<u32>,
        stashes: Stashes,
        leaf: int,
        first: int,
        more: int,
    )
        requires
            self.wf(),
            self.rest(tree, stashes),
            0 <= leaf < self.leaves(),
            0 <= first,
            0 <= more,
        ensures
            ({
                let (s, t) = self.with_chains(first).evicted(tree, stashes, leaf);
                self.with_chains(first + more).evicted(tree, stashes, leaf) == self.with_chains(
                    more,
                ).evicted(s, t, leaf)
            }),
    {
        let slots = self.opened(tree, leaf);
        self.lemma_open(tree, stashes, leaf);
        self.lemma_passes(slots, stashes, leaf, first);
        let (s1, t1) = self.passes_run(slots, stashes, leaf, first);
        self.lemma_same_passes(first, slots, stashes, leaf, first);
        self.lemma_same_passes(first + more, slots, stashes, leaf, first + more);
        self.lemma_same_passes(more, s1, t1, leaf, more);
        self.lemma_same_closed(first, tree, leaf, s1);
        let after = self.closed(tree, leaf, s1);
        self.lemma_closed_opened(tree, leaf, s1);
        self.lemma_passes_add(slots, stashes, leaf, first, more);
        let (s2, t2) = self.passes_run(s1, t1, leaf, more);
        self.lemma_same_closed(more, after, leaf, s2);
        self.lemma_same_closed(first + more, tree, leaf, s2);
        self.lemma_closed_twice(tree, leaf, s1, s2);
    }

    proof fn lemma_passes_add(
        &self,
        slots: Seq<u32>,
        stashes: Stashes,
        leaf: int,
        first: int,
        more: int,
    )
        requires
            0 <= first,
            0 <= more,
        ensures
            ({
                let (s, t) = self.passes_run(slots, stashes, leaf, first);
                self.passes_run(slots, stashes, leaf, first + more) == self.passes_run(
                    s,
                    t,
                    leaf,
                    more,
                )
            }),
        decreases more,
    {
        if more > 0 {
            self.lemma_passes_add(slots, stashes, leaf, first, more - 1);
        }
    }
}

impl MinibucketLaneSimulator {
    /// The setup after an update of `key`.
    proof fn lemma_relabelled(&self, after: &Self, key: u32, new_pos: u32)
        requires
            after.same_frame(self),
            after.labels@ == self.labels@.update(key as int, new_pos),
        ensures
            after.setup() == self.setup().relabelled(key, new_pos),
    {
        let a = after.setup();
        let g = self.setup().relabelled(key, new_pos);
        assert(a.labels =~= g.labels);
    }

    /// A background path is evicted from what the update leaves without it. `a` is what an
    /// update leaves with the background paths `paths`, and `c` what it leaves with `path` as
    /// one more. Then every lane of the path to `path` makes progress from `a` on, no stash
    /// gets a key, and other buckets stay. Where the root is empty, a lane has an empty slot
    /// on the path, and a key in its stash has a label that lets it go there, fewer keys are
    /// left in the stashes.
    pub proof fn lemma_background_path(
        &self,
        a: &Self,
        c: &Self,
        old_pos: u32,
        new_pos: u32,
        key: u32,
        queue: int,
        evict_accessed_path: bool,
        paths: Seq<u32>,
        path: u32,
        ra: SimUpdate,
        rc: SimUpdate,
    )
        requires
            self.wf(),
            key < self.max_n,
            path < self.max_n,
            self.updated(a, old_pos, new_pos, key, queue, evict_accessed_path, paths, ra),
            self.updated(
                c,
                old_pos,
                new_pos,
                key,
                queue,
                evict_accessed_path,
                paths.push(path),
                rc,
            ),
            !ra.overflowed,
        ensures
            !rc.overflowed,
            rc.found == ra.found,
            rc.insertion_demand == ra.insertion_demand,
            c.labels@ == a.labels@,
            a.setup().path_progress(
                a.tree@,
                a.stash_keys(),
                c.tree@,
                c.stash_keys(),
                path as int,
            ),
            forall|lane: int, e: int, x: u32|
                #![trigger
                    a.setup().unit(lane, path as int).open(
                        a.setup().opened(a.tree@, path as int),
                        e,
                    ),
                    a.setup().unit(lane, path as int).waits(a.stash_keys(), x)
                ]
                a.setup().root_empty(a.tree@) && 0 <= lane < a.setup().units() && 1 <= e < a.height
                    && a.setup().unit(lane, path as int).open(
                    a.setup().opened(a.tree@, path as int),
                    e,
                ) && a.setup().unit(lane, path as int).waits(a.stash_keys(), x) && a.setup().unit(
                    lane,
                    path as int,
                ).may_reach(x, e) ==> rc.stash_after < ra.stash_after,
    {
        let g = self.setup().relabelled(key, new_pos);
        let n = paths.len() as int;
        let more = paths.push(path);
        let q = if self.random_queues {
            queue % self.z as int
        } else {
            0
        };
        self.lemma_relabelled(a, key, new_pos);
        self.lemma_relabelled(c, key, new_pos);
        a.lemma_setup();
        c.lemma_setup();
        let s1 = without_key(self.setup().opened(self.tree@, old_pos as int), key);
        let t1 = with_stashed(
            without_stashed(self.stash_keys(), key),
            q,
            new_pos as int,
            key,
        );
        let (s2, t2) = if evict_accessed_path {
            g.passes_run(s1, t1, old_pos as int, g.chains)
        } else {
            (s1, t1)
        };
        let first = g.closed(self.tree@, old_pos as int, s2);
        g.lemma_evicted_prefix(first, t2, paths, more, n);
        assert(more[n] == path);
        assert((c.tree@, c.stash_keys()) == g.evicted(a.tree@, a.stash_keys(), path as int));
        g.lemma_evicted_progress(a.tree@, a.stash_keys(), path as int);
    }

    /// To evict the accessed path with the access is the same as to leave it and evict it as
    /// the first background path.
    pub proof fn lemma_accessed_as_background(
        &self,
        a: &Self,
        c: &Self,
        old_pos: u32,
        new_pos: u32,
        key: u32,
        queue: int,
        paths: Seq<u32>,
        ra: SimUpdate,
        rc: SimUpdate,
    )
        requires
            self.wf(),
            key < self.max_n,
            old_pos < self.max_n,
            new_pos < self.max_n,
            self.updated(a, old_pos, new_pos, key, queue, true, paths, ra),
            self.updated(c, old_pos, new_pos, key, queue, false, seq![old_pos] + paths, rc),
        ensures
            rc == ra,
            c.labels@ == a.labels@,
            c.tree@ == a.tree@,
            c.stash_keys() == a.stash_keys(),
    {
        let f = self.setup();
        let g = f.relabelled(key, new_pos);
        let p = old_pos as int;
        let n = paths.len() as int;
        let q = if self.random_queues {
            queue % self.z as int
        } else {
            0
        };
        self.lemma_setup();
        let s1 = without_key(f.opened(self.tree@, p), key);
        let t1 = with_stashed(
            without_stashed(self.stash_keys(), key),
            q,
            new_pos as int,
            key,
        );
        assert(g.wf()) by {
            assert forall|k: int| 0 <= k < g.labels.len() implies #[trigger] g.labels[k]
                < g.leaves() by {
                if k != key {
                    assert(g.labels[k] == f.labels[k]);
                }
            }
        }
        let (s2, t2) = g.passes_run(s1, t1, p, g.chains);
        let open = g.closed(self.tree@, p, s1);
        assert(0 <= f.h * f.w()) by (nonlinear_arith)
            requires
                1 <= f.h,
                1 <= f.w(),
        ;
        g.lemma_closed_opened(self.tree@, p, s1);
        g.lemma_closed_twice(self.tree@, p, s1, s2);
        assert(g.evicted(open, t1, p) == (g.closed(self.tree@, p, s2), t2));
        g.lemma_evicted_first(open, t1, old_pos, paths, n);
        assert((seq![old_pos] + paths).len() == n + 1);
        if ra.overflowed {
            assert(a.stash_keys() == c.stash_keys());
        }
    }

    /// The accessed path makes progress as a background path does: from `m`, which the update
    /// leaves when no path is evicted, to `a`, which it leaves when the accessed path is.
    pub proof fn lemma_accessed_path(
        &self,
        m: &Self,
        a: &Self,
        old_pos: u32,
        new_pos: u32,
        key: u32,
        queue: int,
        rm: SimUpdate,
        ra: SimUpdate,
    )
        requires
            self.wf(),
            key < self.max_n,
            old_pos < self.max_n,
            new_pos < self.max_n,
            self.updated(m, old_pos, new_pos, key, queue, false, Seq::empty(), rm),
            self.updated(a, old_pos, new_pos, key, queue, true, Seq::empty(), ra),
            !rm.overflowed,
        ensures
            !ra.overflowed,
            m.setup().path_progress(
                m.tree@,
                m.stash_keys(),
                a.tree@,
                a.stash_keys(),
                old_pos as int,
            ),
    {
        let f = self.setup();
        let g = f.relabelled(key, new_pos);
        let p = old_pos as int;
        self.lemma_setup();
        self.lemma_relabelled(m, key, new_pos);
        m.lemma_setup();
        let q = if self.random_queues {
            queue % self.z as int
        } else {
            0
        };
        let s1 = without_key(f.opened(self.tree@, p), key);
        let t1 = with_stashed(
            without_stashed(self.stash_keys(), key),
            q,
            new_pos as int,
            key,
        );
        let (s2, t2) = g.passes_run(s1, t1, p, g.chains);
        assert(0 <= f.h * f.w()) by (nonlinear_arith)
            requires
                1 <= f.h,
                1 <= f.w(),
        ;
        g.lemma_closed_opened(self.tree@, p, s1);
        g.lemma_closed_twice(self.tree@, p, s1, s2);
        assert(g.evicted(m.tree@, m.stash_keys(), p) == (a.tree@, a.stash_keys()));
        g.lemma_evicted_progress(m.tree@, m.stash_keys(), p);
    }

    /// Where no path is evicted, the accessed key waits in the stash that the queue names,
    /// under its new label, and nowhere else; every other key is in the stash or in the slot
    /// in which it was.
    pub proof fn lemma_key_waits(
        &self,
        m: &Self,
        old_pos: u32,
        new_pos: u32,
        key: u32,
        queue: int,
        rm: SimUpdate,
    )
        requires
            self.wf(),
            key < self.max_n,
            old_pos < self.max_n,
            new_pos < self.max_n,
            self.initialized@[key as int] ==> self.labels@[key as int] == old_pos,
            self.updated(m, old_pos, new_pos, key, queue, false, Seq::empty(), rm),
            !rm.overflowed,
        ensures
            ({
                let q = if self.random_queues {
                    queue % self.z as int
                } else {
                    0
                };
                &&& m.stash_keys().len() == self.stash_keys().len()
                &&& m.stash_keys()[q][new_pos as int].contains(key)
                &&& forall|p: int, l: int, k: u32|
                    0 <= p < self.stash_keys().len() && 0 <= l < self.max_n && k != key
                        ==> #[trigger] m.stash_keys()[p][l].contains(k)
                        == self.stash_keys()[p][l].contains(k)
                &&& m.tree@.len() == self.tree@.len()
                &&& forall|t: int|
                    0 <= t < self.tree@.len() && self.tree@[t] != key ==> #[trigger] m.tree@[t]
                        == self.tree@[t]
                &&& forall|t: int| 0 <= t < m.tree@.len() ==> #[trigger] m.tree@[t] != key
            }),
    {
        let f = self.setup();
        let g = f.relabelled(key, new_pos);
        let p = old_pos as int;
        self.lemma_setup();
        m.lemma_setup();
        self.lemma_relabelled(m, key, new_pos);
        let q = if self.random_queues {
            queue % self.z as int
        } else {
            0
        };
        vstd::arithmetic::div_mod::lemma_mod_bound(queue, self.z as int);
        let stashes = self.stash_keys();
        let bare = without_stashed(stashes, key);
        let t1 = with_stashed(bare, q, new_pos as int, key);
        let s1 = without_key(f.opened(self.tree@, p), key);
        assert((m.tree@, m.stash_keys()) == (g.closed(self.tree@, p, s1), t1));
        assert(stashes[q].len() == f.leaves());
        assert(bare[q].len() == f.leaves());
        assert forall|e: int, l: int, k: u32|
            0 <= e < stashes.len() && 0 <= l < self.max_n && k != key implies
            #[trigger] m.stash_keys()[e][l].contains(k) == stashes[e][l].contains(k) by {
            assert(stashes[e].len() == f.leaves());
            assert(bare[e][l] == stashes[e][l].remove(key));
            if e == q && l == new_pos {
                assert(t1[e][l] == bare[e][l].insert(key));
            } else if e == q {
                assert(t1[e][l] == bare[e][l]);
            }
        }
        assert(t1[q][new_pos as int] == bare[q][new_pos as int].insert(key));
        let w = f.w();
        assert forall|t: int| 0 <= t < self.tree@.len() implies #[trigger] m.tree@[t] == (
        if g.on_path(t / w, p) && self.tree@[t] == key {
            EMPTY_KEY
        } else {
            self.tree@[t]
        }) by {
            if g.on_path(t / w, p) {
                let d = choose|d: int| #[trigger] g.on_path_at(t / w, p, d);
                assert(f.on_path_at(t / w, p, d));
                f.lemma_slot_of(p, t, d);
                let i = d * w + t % w;
                assert(f.opened(self.tree@, p)[i] == self.tree@[f.home(p, i)]);
                assert(s1[i] == (if self.tree@[t] == key {
                    EMPTY_KEY
                } else {
                    self.tree@[t]
                }));
            }
        }
        assert forall|t: int| 0 <= t < m.tree@.len() implies #[trigger] m.tree@[t] != key by {
            if m.tree@[t] == key {
                assert(m.wf());
                let mk = m.setup();
                assert(!stashed(m.stash_keys(), mk.labels, m.tree@[t]));
                assert(mk.labels[key as int] == new_pos);
                assert(m.stash_keys()[q][mk.labels[key as int] as int].contains(key));
            }
        }
    }
}

} // verus!
