//! Simulator for Circuit-style fixed lanes with Y-slot minibuckets.
//!
//! Each physical bucket is split into `Z` fixed lanes, each containing `Y` pooled slots.
//! Every lane performs one non-oblivious `EvictOnceSlow` chain: the shared stash and that
//! lane's root minibucket form level zero, and at most one block is carried down the lane
//! at a time. This is a metadata-only reference transition; payload bytes do not affect
//! placement.
use vstd::arithmetic::power::pow;
use vstd::arithmetic::power2::is_pow2;
use vstd::prelude::*;
use crate::arguments::is_power_of;
use crate::heap_tree::{full_width, lemma_full_width, lemma_full_width_grows};
use crate::minibucket_args::EvictionPolicy;
use crate::minibucket_chain::{stashed, stashes_ok, Chain, Stashes};
use crate::lane_oram::lemma_wide_level;
use crate::minibucket_store::{
    lemma_same_path, lemma_stash_set, live_slots, total_keys, with_stashed, without_key,
    without_stashed, Setup,
};
use crate::path_schedules::{digits_of, lemma_digits_of_power};
use crate::prelude::filled;
use crate::stash_index::{key_count, StashIndex, EMPTY_KEY};
use crate::wide_heap_tree::{
    count_shared_digits, full_nodes, lemma_full_nodes_grows, lemma_prefix_index_bounds,
    prefix_index, same_prefix, shared_digits,
};

verus! {

/// Outcome of one simulated update.
#[derive(Clone, Copy, Debug, PartialEq, Eq)]
pub struct SimUpdate {
    /// Whether the key was already present.
    pub found: bool,
    /// Stash capacity required at the transient insertion point.
    pub insertion_demand: usize,
    /// Stash occupancy after eviction.
    pub stash_after: usize,
    /// Whether the stash was too small.
    pub overflowed: bool,
}

/// A level of the tree.
#[derive(Clone, Copy, Debug, PartialEq, Eq)]
pub struct Level {
    /// The first node of the level.
    pub offset: usize,
    /// The number of leaves below a node of the level.
    pub subtree_span: usize,
}

/// Where the block of a chain comes from.
#[derive(Clone, Copy, Debug, PartialEq, Eq)]
pub enum Source {
    /// The stash.
    Stash { key: u32, depth: usize },
    /// A slot of the loaded path.
    Path { index: usize, level: usize, key: u32, depth: usize },
}

impl Source {
    /// The key of the block.
    pub open spec fn the_key(self) -> u32 {
        match self {
            Source::Stash { key, .. } => key,
            Source::Path { key, .. } => key,
        }
    }

    /// How deep the block may go.
    pub open spec fn the_depth(self) -> usize {
        match self {
            Source::Stash { depth, .. } => depth,
            Source::Path { depth, .. } => depth,
        }
    }

    /// The key of the block.
    pub fn key(self) -> (r: u32)
        ensures
            r == self.the_key(),
    {
        match self {
            Source::Stash { key, .. } => key,
            Source::Path { key, .. } => key,
        }
    }

    /// How deep the block may go.
    pub fn depth(self) -> (r: usize)
        ensures
            r == self.the_depth(),
    {
        match self {
            Source::Stash { depth, .. } => depth,
            Source::Path { depth, .. } => depth,
        }
    }

    /// Whether this block goes before another: it may go deeper, or as deep with a lower
    /// key.
    pub fn is_better_than(self, other: Option<Source>) -> (r: bool)
        ensures
            r == (match other {
                Some(o) => self.the_depth() > o.the_depth() || (self.the_depth() == o.the_depth()
                    && self.the_key() < o.the_key()),
                None => true,
            }),
    {
        match other {
            Some(o) => self.depth() > o.depth() || (self.depth() == o.depth() && self.key()
                < o.key()),
            None => true,
        }
    }
}

/// Metadata simulator for lanes of minibuckets.
#[derive(Debug)]
pub struct MinibucketLaneSimulator {
    /// Number of keys and of leaves.
    pub max_n: usize,
    /// Levels of the tree.
    pub height: usize,
    /// Lanes of a bucket.
    pub z: usize,
    /// Slots of a minibucket.
    pub y: usize,
    /// Branching factor.
    pub b: usize,
    /// Slots of a bucket.
    pub bucket_slots: usize,
    /// Room in the stash.
    pub stash_capacity: usize,
    /// The levels, from the root down.
    pub levels: Vec<Level>,
    /// The key in every slot of the tree.
    pub tree: Vec<u32>,
    /// The key in every slot of the loaded path.
    pub path: Vec<u32>,
    /// The stash, or one for each lane.
    pub stashes: Vec<StashIndex>,
    /// Whether each lane has a stash of its own.
    pub random_queues: bool,
    /// How a path is evicted.
    pub eviction_policy: EvictionPolicy,
    /// Passes for each path.
    pub eviction_chains: usize,
    /// The leaf of every key.
    pub labels: Vec<u32>,
    /// Whether a key was ever inserted.
    pub initialized: Vec<bool>,
}

impl MinibucketLaneSimulator {
    /// The keys in every stash.
    pub open spec fn stash_keys(&self) -> Stashes {
        Seq::new(self.stashes@.len(), |q: int| self.stashes@[q]@)
    }

    /// The chain over `cnt` slots from `off` on in each bucket, and stash `q`.
    pub open spec fn chain(&self, off: int, cnt: int, q: int, leaf: int) -> Chain {
        Chain {
            b: self.b as int,
            h: self.height as int,
            w: self.bucket_slots as int,
            off,
            cnt,
            q,
            leaf,
            labels: self.labels@,
        }
    }

    /// The sizes fit together.
    pub open spec fn sized(&self) -> bool {
        &&& 1 <= self.height <= i64::MAX
        &&& 2 <= self.b
        &&& 1 <= self.z
        &&& 1 <= self.y
        &&& self.bucket_slots == self.z * self.y
        &&& self.max_n == full_width(self.height - 1, self.b as int)
        &&& self.max_n <= 0xffff_ffff
        &&& is_pow2(self.max_n as int)
        &&& 2 * self.max_n <= usize::MAX
        &&& 1 <= self.stash_capacity
        &&& 1 <= self.eviction_chains
        &&& self.levels@.len() == self.height
        &&& forall|d: int|
            0 <= d < self.height ==> (#[trigger] self.levels@[d]).offset == full_nodes(
                self.b as int,
                d,
            ) && self.levels@[d].subtree_span == full_width(self.height - 1 - d, self.b as int)
        &&& self.tree@.len() == full_nodes(self.b as int, self.height as int) * self.bucket_slots
        &&& self.path@.len() == self.height * self.bucket_slots
        &&& self.stashes@.len() == (if self.random_queues {
            self.z
        } else {
            1
        })
        &&& forall|q: int|
            0 <= q < self.stashes@.len() ==> (#[trigger] self.stashes@[q]).wf()
                && self.stashes@[q]@.len() == self.max_n
        &&& self.labels@.len() == self.max_n
        &&& self.initialized@.len() == self.max_n
        &&& forall|k: int| 0 <= k < self.labels@.len() ==> #[trigger] self.labels@[k] < self.max_n
    }

    /// All but the slots and the stashes is the same.
    pub open spec fn same_frame(&self, other: &Self) -> bool {
        &&& self.max_n == other.max_n
        &&& self.height == other.height
        &&& self.z == other.z
        &&& self.y == other.y
        &&& self.b == other.b
        &&& self.bucket_slots == other.bucket_slots
        &&& self.stash_capacity == other.stash_capacity
        &&& self.levels == other.levels
        &&& self.random_queues == other.random_queues
        &&& self.eviction_policy == other.eviction_policy
        &&& self.eviction_chains == other.eviction_chains
    }

    /// How deep the block of `key` may go on the path to `path`.
    pub fn max_depth(&self, key: u32, path: u32) -> (r: usize)
        requires
            self.sized(),
            key < self.max_n,
            path < self.max_n,
        ensures
            r == shared_digits(
                self.b as int,
                self.height as int,
                self.height - 1,
                self.labels@[key as int] as int,
                path as int,
            ),
            r < self.height,
    {
        count_shared_digits(self.b, self.height, self.labels[key as usize], path) as usize
    }

    /// Where slot `slot` of lane `lane` at level `level` is in the loaded path.
    pub fn path_index(&self, level: usize, lane: usize, slot: usize) -> (r: usize)
        requires
            self.sized(),
            level < self.height,
            lane < self.z,
            slot < self.y,
        ensures
            r == level * self.bucket_slots + lane * self.y + slot,
            r < self.path@.len(),
    {
        proof {
            let y = self.y as int;
            let w = self.bucket_slots as int;
            assert(self.path@.len() == self.path.len());
            assert(lane * y + y <= self.z * y && 0 <= lane * y) by (nonlinear_arith)
                requires
                    0 <= lane,
                    lane + 1 <= self.z,
                    1 <= y,
            ;
            assert(level * w + w <= self.height * w && 0 <= level * w) by (nonlinear_arith)
                requires
                    0 <= level,
                    level + 1 <= self.height,
                    1 <= w,
            ;
        }
        level * self.bucket_slots + lane * self.y + slot
    }

    /// The best block of stash `q` that may go to `minimum_depth` or deeper.
    fn best_stash_source(&self, path: u32, q: usize, minimum_depth: usize) -> (r: Option<Source>)
        requires
            self.sized(),
            path < self.max_n,
            q < self.stashes@.len(),
            minimum_depth < self.height,
            stashes_ok(self.stash_keys(), self.labels@, self.max_n as int),
        ensures
            ({
                let c = self.chain(0, 1, q as int, path as int);
                match r {
                    Some(Source::Stash { key, depth }) => {
                        &&& c.waits(self.stash_keys(), key)
                        &&& depth == c.depth(key)
                        &&& depth >= minimum_depth
                        &&& forall|m: u32| #[trigger]
                            c.waits(self.stash_keys(), m) && c.depth(m) >= minimum_depth ==> m
                                == key || c.before(key, m)
                    },
                    Some(_) => false,
                    None => forall|m: u32| #[trigger]
                        c.waits(self.stash_keys(), m) ==> c.depth(m) < minimum_depth,
                }
            }),
    {
        let ghost keys = self.stash_keys();
        let ghost c = self.chain(0, 1, q as int, path as int);
        let ghost b = self.b as int;
        let ghost h = self.height as int;
        let mut depth: usize = self.height;
        proof {
            assert forall|m: u32| #[trigger] c.waits(keys, m) implies c.depth(m) < h by {
                crate::wide_heap_tree::lemma_shared_digits(
                    b,
                    h,
                    h - 1,
                    self.labels@[m as int] as int,
                    path as int,
                );
            }
        }
        while depth > minimum_depth
            invariant
                self.sized(),
                path < self.max_n,
                q < self.stashes@.len(),
                minimum_depth <= depth <= self.height,
                keys == self.stash_keys(),
                c == self.chain(0, 1, q as int, path as int),
                b == self.b,
                h == self.height,
                stashes_ok(keys, self.labels@, self.max_n as int),
                forall|m: u32| #[trigger] c.waits(keys, m) ==> c.depth(m) < depth,
            decreases depth,
        {
            depth -= 1;
            let span: usize = self.levels[depth].subtree_span;
            proof {
                lemma_full_width(h - 1 - depth, b);
                lemma_prefix_index_bounds(b, h, depth as int, path as int);
                let p = path as int / span as int;
                let wide = full_width(depth as int, b);
                vstd::arithmetic::power::lemma_pow_adds(b, depth as nat, (h - 1 - depth) as nat);
                assert(p * span + span <= wide * span && 0 <= p * span) by (nonlinear_arith)
                    requires
                        0 <= p,
                        p + 1 <= wide,
                        1 <= span,
                ;
                assert(p * span <= path) by (nonlinear_arith)
                    requires
                        p == path as int / span as int,
                        1 <= span,
                ;
            }
            let start: usize = (path as usize / span) * span;
            let ghost lo = start as int;
            let ghost hi = start + span;
            proof {
                assert forall|m: u32| #[trigger] c.waits(keys, m) implies (c.depth(m) >= depth
                    <==> lo <= self.labels@[m as int] < hi) by {
                    let l = self.labels@[m as int] as int;
                    assert(l < self.max_n);
                    crate::wide_heap_tree::lemma_shared_digits(b, h, h - 1, l, path as int);
                    assert(same_prefix(b, h, depth as int, l, path as int) <==> l / span as int
                        == path as int / span as int);
                    lemma_same_block(l, path as int, span as int);
                }
            }
            match self.stashes[q].minimum_key(start, start + span) {
                Some(key) => {
                    proof {
                        assert(keys[q as int] == self.stashes@[q as int]@);
                        let l = choose|l: int|
                            lo <= l < hi && #[trigger] self.stashes@[q as int]@[l].contains(key);
                        assert(keys[q as int][l].contains(key));
                        assert(c.waits(keys, key));
                        assert forall|m: u32| #[trigger]
                            c.waits(keys, m) && c.depth(m) >= minimum_depth implies m == key
                            || c.before(key, m) by {
                            let e = self.labels@[m as int] as int;
                            if c.depth(m) >= depth {
                                assert(self.stashes@[q as int]@[e].contains(m));
                            }
                        }
                    }
                    return Some(Source::Stash { key, depth });
                },
                None => {
                    proof {
                        assert forall|m: u32| #[trigger] c.waits(keys, m) implies c.depth(m)
                            < depth by {
                            let e = self.labels@[m as int] as int;
                            assert(keys[q as int] == self.stashes@[q as int]@);
                            assert(self.stashes@[q as int]@[e].contains(m));
                        }
                    }
                },
            }
        }
        None
    }
}

/// Slot `i` is one of the slots of the chain on the levels before `level`, or one of the
/// first `j` on `level`.
spec fn scanned(c: Chain, i: int, level: int, j: int) -> bool {
    exists|l: int, e: int|
        0 <= l <= level && 0 <= e < c.cnt && (l < level || e < j) && i == #[trigger] c.at(l, e)
}

/// The block of `k` waits, or stands in a slot that was scanned, and may go to `dest`.
spec fn considered(
    c: Chain,
    slots: Seq<u32>,
    stashes: Stashes,
    dest: int,
    level: int,
    j: int,
    k: u32,
) -> bool {
    &&& k != EMPTY_KEY
    &&& c.depth(k) >= dest
    &&& c.waits(stashes, k) || exists|i: int| scanned(c, i, level, j) && #[trigger] slots[i] == k
}

/// Source `best` is the best of the blocks considered so far.
spec fn leads(
    c: Chain,
    slots: Seq<u32>,
    stashes: Stashes,
    dest: int,
    level: int,
    j: int,
    best: Option<Source>,
) -> bool {
    match best {
        None => forall|m: u32| !#[trigger] considered(c, slots, stashes, dest, level, j, m),
        Some(source) => {
            &&& considered(c, slots, stashes, dest, level, j, source.the_key())
            &&& source.the_depth() == c.depth(source.the_key())
            &&& forall|m: u32| #[trigger]
                considered(c, slots, stashes, dest, level, j, m) ==> m == source.the_key()
                    || c.before(source.the_key(), m)
            &&& match source {
                Source::Stash { key, .. } => c.waits(stashes, key),
                Source::Path { index, level: l, key, .. } => index < slots.len() && slots[
                    index as int
                ] == key && l == index as int / c.w && scanned(c, index as int, level, j),
            }
        },
    }
}

impl MinibucketLaneSimulator {
    /// The best block above `destination` among `cnt` slots from `off` on in each bucket
    /// and those in stash `q`.
    fn best_source(
        &self,
        path: u32,
        off: usize,
        cnt: usize,
        q: usize,
        destination: usize,
    ) -> (r: Option<Source>)
        requires
            self.sized(),
            path < self.max_n,
            0 < destination < self.height,
            self.chain(off as int, cnt as int, q as int, path as int).wf(),
            self.chain(off as int, cnt as int, q as int, path as int).ok(
                self.path@,
                self.stash_keys(),
            ),
        ensures
            ({
                let c = self.chain(off as int, cnt as int, q as int, path as int);
                let d = destination as int;
                match r {
                    None => !c.any(self.path@, self.stash_keys(), d),
                    Some(source) => {
                        &&& c.is_best(self.path@, self.stash_keys(), d, source.the_key())
                        &&& match source {
                            Source::Stash { key, .. } => c.waits(self.stash_keys(), key),
                            Source::Path { index, level, key, .. } => index < self.path@.len()
                                && self.path@[index as int] == key && level == index as int / c.w
                                && c.is_above(index as int, d),
                        }
                    },
                }
            }),
    {
        let ghost c = self.chain(off as int, cnt as int, q as int, path as int);
        let ghost keys = self.stash_keys();
        let ghost dest = destination as int;
        let ghost slots = self.path@;
        let mut best: Option<Source> = self.best_stash_source(path, q, destination);
        proof {
            let c1 = self.chain(0, 1, q as int, path as int);
            assert forall|m: u32| c.waits(keys, m) == #[trigger] c1.waits(keys, m) by {}
            assert forall|m: u32| c.depth(m) == c1.depth(m) by {}
            assert forall|m: u32| #[trigger] considered(c, slots, keys, dest, 0, 0, m) implies
                c1.waits(keys, m) && c1.depth(m) >= destination by {
                assert(forall|i: int| !scanned(c, i, 0, 0));
            }
            assert forall|m: u32|
                c1.waits(keys, m) && c1.depth(m) >= destination implies #[trigger] considered(
                c,
                slots,
                keys,
                dest,
                0,
                0,
                m,
            ) by {
                assert(keys[q as int][self.labels@[m as int] as int].contains(m));
            }
            assert(leads(c, slots, keys, dest, 0, 0, best));
        }
        let mut level: usize = 0;
        while level < destination
            invariant
                self.sized(),
                path < self.max_n,
                c == self.chain(off as int, cnt as int, q as int, path as int),
                c.wf(),
                keys == self.stash_keys(),
                slots == self.path@,
                c.ok(slots, keys),
                dest == destination,
                level <= destination < self.height,
                leads(c, slots, keys, dest, level as int, 0, best),
            decreases destination - level,
        {
            let mut slot: usize = 0;
            while slot < cnt
                invariant
                    self.sized(),
                    path < self.max_n,
                    c == self.chain(off as int, cnt as int, q as int, path as int),
                    c.wf(),
                    keys == self.stash_keys(),
                    slots == self.path@,
                    c.ok(slots, keys),
                    dest == destination,
                    level < destination < self.height,
                    slot <= cnt,
                    leads(c, slots, keys, dest, level as int, slot as int, best),
                decreases cnt - slot,
            {
                proof {
                    c.lemma_at(level as int, slot as int);
                    assert(self.path@.len() == self.path.len());
                    assert(0 <= level * self.bucket_slots) by (nonlinear_arith);
                }
                let index: usize = level * self.bucket_slots + off + slot;
                let key: u32 = self.path[index];
                let ghost old_best = best;
                if key != EMPTY_KEY {
                    assert(slots[index as int] == key);
                    let depth: usize = self.max_depth(key, path);
                    if depth >= destination {
                        let source = Source::Path { index, level, key, depth };
                        if source.is_better_than(best) {
                            best = Some(source);
                        }
                    }
                }
                proof {
                    lemma_scan_step(
                        c,
                        slots,
                        keys,
                        dest,
                        level as int,
                        slot as int,
                        old_best,
                        best,
                    );
                }
                slot += 1;
            }
            proof {
                lemma_scan_level(c, slots, keys, dest, level as int, best);
            }
            level += 1;
        }
        proof {
            lemma_scan_all(c, slots, keys, dest, best);
        }
        best
    }

    /// One chain over `cnt` slots from `off` on in each bucket, and stash `q`.
    fn evict_chain(&mut self, path: u32, off: usize, cnt: usize, q: usize)
        requires
            old(self).sized(),
            path < old(self).max_n,
            old(self).chain(off as int, cnt as int, q as int, path as int).wf(),
            old(self).chain(off as int, cnt as int, q as int, path as int).ok(
                old(self).path@,
                old(self).stash_keys(),
            ),
        ensures
            final(self).sized(),
            final(self).same_frame(old(self)),
            final(self).tree == old(self).tree,
            final(self).labels == old(self).labels,
            final(self).initialized == old(self).initialized,
            (final(self).path@, final(self).stash_keys()) == old(self).chain(
                off as int,
                cnt as int,
                q as int,
                path as int,
            ).run(old(self).path@, old(self).stash_keys(), old(self).height - 1),
    {
        let ghost c = self.chain(off as int, cnt as int, q as int, path as int);
        let ghost goal = c.run(self.path@, self.stash_keys(), self.height - 1);
        let mut destination: usize = self.height - 1;
        while destination > 0
            invariant
                self.sized(),
                path < self.max_n,
                self.same_frame(old(self)),
                self.tree == old(self).tree,
                self.labels == old(self).labels,
                self.initialized == old(self).initialized,
                c == self.chain(off as int, cnt as int, q as int, path as int),
                c.wf(),
                c.ok(self.path@, self.stash_keys()),
                destination < self.height,
                goal == c.run(self.path@, self.stash_keys(), destination as int),
            decreases destination,
        {
            let ghost slots = self.path@;
            let ghost keys = self.stash_keys();
            let ghost dest = destination as int;
            let empty_slot: Option<usize> = self.find_vacancy(path, off, cnt, q, destination);
            let source: Option<Source> = self.best_source(path, off, cnt, q, destination);
            if let (Some(to), Some(from)) = (empty_slot, source) {
                let ghost k = from.the_key();
                proof {
                    c.lemma_vacancy(slots, dest, 0);
                    c.lemma_best_is_one(slots, keys, dest, k);
                    c.lemma_moved(slots, keys, dest, to as int, k);
                    assert(self.path@.len() == self.path.len());
                }
                let source_level: usize = match from {
                    Source::Stash { key, .. } => {
                        let label: u32 = self.labels[key as usize];
                        assert(keys[q as int] == self.stashes@[q as int]@);
                        self.stashes[q].remove(label, key);
                        self.path.set(to, key);
                        proof {
                            assert(self.stash_keys() =~= c.moved(slots, keys, dest, to as int, k).1);
                        }
                        0
                    },
                    Source::Path { index, level, key, .. } => {
                        proof {
                            let at = c.place(slots, dest, key);
                            assert(c.is_above(index as int, dest) && slots[index as int] == key);
                            assert(c.is_above(at, dest) && slots[at] == key);
                            c.lemma_above(at, dest);
                            c.lemma_above(index as int, dest);
                            if at < index {
                                assert(slots[at] != slots[index as int]);
                            } else if index < at {
                                assert(slots[index as int] != slots[at]);
                            }
                            if c.waits(keys, key) {
                                assert(keys[q as int][self.labels@[key as int] as int].contains(
                                    key,
                                ));
                                assert(stashed(keys, c.labels, key));
                            }
                        }
                        self.path.set(to, key);
                        self.path.set(index, EMPTY_KEY);
                        proof {
                            assert(self.stash_keys() =~= keys);
                        }
                        level
                    },
                };
                destination = source_level;
            } else {
                destination -= 1;
            }
        }
    }

    /// The first empty slot of the chain at `level`.
    fn find_vacancy(&self, path: u32, off: usize, cnt: usize, q: usize, level: usize) -> (r: Option<
        usize,
    >)
        requires
            self.sized(),
            level < self.height,
            self.chain(off as int, cnt as int, q as int, path as int).wf(),
        ensures
            ({
                let v = self.chain(off as int, cnt as int, q as int, path as int).vacancy(
                    self.path@,
                    level as int,
                    0,
                );
                match r {
                    Some(i) => v == i,
                    None => v < 0,
                }
            }),
    {
        let ghost c = self.chain(off as int, cnt as int, q as int, path as int);
        let mut slot: usize = 0;
        while slot < cnt
            invariant
                self.sized(),
                level < self.height,
                c == self.chain(off as int, cnt as int, q as int, path as int),
                c.wf(),
                slot <= cnt,
                c.vacancy(self.path@, level as int, 0) == c.vacancy(
                    self.path@,
                    level as int,
                    slot as int,
                ),
            decreases cnt - slot,
        {
            proof {
                c.lemma_at(level as int, slot as int);
                assert(self.path@.len() == self.path.len());
                assert(0 <= level * self.bucket_slots) by (nonlinear_arith);
            }
            let index: usize = level * self.bucket_slots + off + slot;
            if self.path[index] == EMPTY_KEY {
                return Some(index);
            }
            slot += 1;
        }
        None
    }
}

/// A slot that was just scanned leads where it is better.
proof fn lemma_scan_step(
    c: Chain,
    slots: Seq<u32>,
    keys: Stashes,
    dest: int,
    level: int,
    j: int,
    old_best: Option<Source>,
    best: Option<Source>,
)
    requires
        c.wf(),
        c.ok(slots, keys),
        0 <= level < c.h,
        0 <= j < c.cnt,
        leads(c, slots, keys, dest, level, j, old_best),
        ({
            let i = c.at(level, j);
            let key = slots[i];
            if key != EMPTY_KEY && c.depth(key) >= dest && (match old_best {
                Some(o) => c.depth(key) > o.the_depth() || (c.depth(key) == o.the_depth() && key
                    < o.the_key()),
                None => true,
            }) {
                best == Some(
                    Source::Path {
                        index: i as usize,
                        level: level as usize,
                        key,
                        depth: c.depth(key) as usize,
                    },
                ) && i <= usize::MAX && c.depth(key) <= usize::MAX && level <= usize::MAX
            } else {
                best == old_best
            }
        }),
    ensures
        leads(c, slots, keys, dest, level, j + 1, best),
{
    let i = c.at(level, j);
    let key = slots[i];
    c.lemma_at(level, j);
    assert(scanned(c, i, level, j + 1));
    assert forall|e: int| scanned(c, e, level, j + 1) implies e == i || scanned(
        c,
        e,
        level,
        j,
    ) by {
        let (l, f) = choose|l: int, f: int|
            0 <= l <= level && 0 <= f < c.cnt && (l < level || f < j + 1) && e == #[trigger] c.at(
                l,
                f,
            );
        if !(l == level && f == j) {
            assert(e == c.at(l, f));
        }
    }
    assert forall|e: int| scanned(c, e, level, j) implies scanned(c, e, level, j + 1) by {
        let (l, f) = choose|l: int, f: int|
            0 <= l <= level && 0 <= f < c.cnt && (l < level || f < j) && e == #[trigger] c.at(l, f);
        assert(e == c.at(l, f));
    }
    assert forall|m: u32| considered(c, slots, keys, dest, level, j, m) implies #[trigger] considered(
        c,
        slots,
        keys,
        dest,
        level,
        j + 1,
        m,
    ) by {
        if !c.waits(keys, m) {
            let e = choose|e: int| scanned(c, e, level, j) && #[trigger] slots[e] == m;
            assert(scanned(c, e, level, j + 1) && slots[e] == m);
        }
    }
    assert forall|m: u32| #[trigger] considered(c, slots, keys, dest, level, j + 1, m) implies m
        == key || considered(c, slots, keys, dest, level, j, m) by {
        if !c.waits(keys, m) {
            let e = choose|e: int| scanned(c, e, level, j + 1) && #[trigger] slots[e] == m;
            if e != i {
                assert(scanned(c, e, level, j) && slots[e] == m);
            }
        }
    }
    if key != EMPTY_KEY && c.depth(key) >= dest {
        assert(considered(c, slots, keys, dest, level, j + 1, key)) by {
            assert(scanned(c, i, level, j + 1) && slots[i] == key);
        }
    }
}

/// A scanned level leads to the next.
proof fn lemma_scan_level(
    c: Chain,
    slots: Seq<u32>,
    keys: Stashes,
    dest: int,
    level: int,
    best: Option<Source>,
)
    requires
        leads(c, slots, keys, dest, level, c.cnt, best),
        0 <= level,
    ensures
        leads(c, slots, keys, dest, level + 1, 0, best),
{
    assert forall|e: int| scanned(c, e, level, c.cnt) == scanned(c, e, level + 1, 0) by {
        if scanned(c, e, level, c.cnt) {
            let (l, f) = choose|l: int, f: int|
                0 <= l <= level && 0 <= f < c.cnt && (l < level || f < c.cnt) && e == #[trigger] c.at(
                    l,
                    f,
                );
            assert(e == c.at(l, f));
        }
        if scanned(c, e, level + 1, 0) {
            let (l, f) = choose|l: int, f: int|
                0 <= l <= level + 1 && 0 <= f < c.cnt && (l < level + 1 || f < 0) && e
                    == #[trigger] c.at(l, f);
            assert(e == c.at(l, f));
        }
    }
    assert forall|m: u32| considered(c, slots, keys, dest, level, c.cnt, m)
        == #[trigger] considered(c, slots, keys, dest, level + 1, 0, m) by {
        if exists|i: int| scanned(c, i, level, c.cnt) && #[trigger] slots[i] == m {
            let i = choose|i: int| scanned(c, i, level, c.cnt) && #[trigger] slots[i] == m;
            assert(scanned(c, i, level + 1, 0) && slots[i] == m);
        }
        if exists|i: int| scanned(c, i, level + 1, 0) && #[trigger] slots[i] == m {
            let i = choose|i: int| scanned(c, i, level + 1, 0) && #[trigger] slots[i] == m;
            assert(scanned(c, i, level, c.cnt) && slots[i] == m);
        }
    }
}

/// When all levels above `dest` were scanned, the leading block is the best.
proof fn lemma_scan_all(
    c: Chain,
    slots: Seq<u32>,
    keys: Stashes,
    dest: int,
    best: Option<Source>,
)
    requires
        leads(c, slots, keys, dest, dest, 0, best),
        0 <= dest,
    ensures
        match best {
            None => !c.any(slots, keys, dest),
            Some(source) => c.is_best(slots, keys, dest, source.the_key()),
        },
        best matches Some(Source::Path { index, .. }) ==> c.is_above(index as int, dest),
{
    assert forall|e: int| scanned(c, e, dest, 0) == c.is_above(e, dest) by {
        if scanned(c, e, dest, 0) {
            let (l, f) = choose|l: int, f: int|
                0 <= l <= dest && 0 <= f < c.cnt && (l < dest || f < 0) && e == #[trigger] c.at(l, f);
            assert(e == c.at(l, f));
        }
        if c.is_above(e, dest) {
            let (l, f) = choose|l: int, f: int|
                0 <= l < dest && 0 <= f < c.cnt && e == #[trigger] c.at(l, f);
            assert(e == c.at(l, f));
        }
    }
    assert forall|m: u32| #[trigger] c.candidate(slots, keys, dest, m) == considered(
        c,
        slots,
        keys,
        dest,
        dest,
        0,
        m,
    ) by {
        if exists|i: int| scanned(c, i, dest, 0) && #[trigger] slots[i] == m {
            let i = choose|i: int| scanned(c, i, dest, 0) && #[trigger] slots[i] == m;
            assert(c.is_above(i, dest) && slots[i] == m);
        }
        if exists|i: int| c.is_above(i, dest) && #[trigger] slots[i] == m {
            let i = choose|i: int| c.is_above(i, dest) && #[trigger] slots[i] == m;
            assert(scanned(c, i, dest, 0) && slots[i] == m);
        }
    }
    if best is None && c.any(slots, keys, dest) {
        let k = c.best(slots, keys, dest);
        assert(c.is_best(slots, keys, dest, k));
        assert(c.candidate(slots, keys, dest, k));
    }
}

/// The numbers with the same quotient as `p` are those of one block.
proof fn lemma_same_block(l: int, p: int, span: int)
    requires
        0 <= l,
        0 <= p,
        1 <= span,
    ensures
        l / span == p / span <==> (p / span) * span <= l < (p / span) * span + span,
{
    let a = p / span;
    vstd::arithmetic::div_mod::lemma_fundamental_div_mod(l, span);
    vstd::arithmetic::div_mod::lemma_mod_bound(l, span);
    let r = l % span;
    assert(span * (l / span) == (l / span) * span) by (nonlinear_arith);
    if a * span <= l < a * span + span {
        vstd::arithmetic::div_mod::lemma_fundamental_div_mod_converse(l, span, a, l - a * span);
    }
}

impl MinibucketLaneSimulator {
    /// What does not change when blocks move.
    pub open spec fn setup(&self) -> Setup {
        Setup {
            b: self.b as int,
            h: self.height as int,
            z: self.z as int,
            y: self.y as int,
            queues: self.random_queues,
            pooled: self.eviction_policy == EvictionPolicy::Pooled,
            chains: self.eviction_chains as int,
            labels: self.labels@,
        }
    }

    /// The keys in the tree and in the stashes.
    pub open spec fn stored_keys(&self) -> Set<u32> {
        self.setup().stored_keys(self.tree@, self.stash_keys())
    }

    /// The blocks are in order, and they are those of the keys that were inserted.
    pub open spec fn wf(&self) -> bool {
        &&& self.sized()
        &&& self.setup().rest(self.tree@, self.stash_keys())
        &&& forall|k: u32|
            k < self.max_n ==> (#[trigger] self.initialized@[k as int] <==> self.setup().stored(
                self.tree@,
                self.stash_keys(),
                k,
            ))
    }

    pub(crate) proof fn lemma_setup(&self)
        requires
            self.sized(),
        ensures
            self.setup().wf(),
            self.setup().w() == self.bucket_slots,
            1 <= self.bucket_slots,
            self.setup().leaves() == self.max_n,
            self.stash_keys().len() == self.setup().stash_count(),
            forall|q: int, l: int|
                0 <= q < self.stash_keys().len() && 0 <= l < self.max_n ==> (
                #[trigger] self.stash_keys()[q][l]).finite(),
            self.path@.len() == self.setup().h * self.setup().w(),
            self.path@.len() <= usize::MAX,
            self.tree@.len() == full_nodes(self.setup().b, self.setup().h) * self.setup().w(),
            self.tree@.len() <= usize::MAX,
    {
        assert(self.path@.len() == self.path.len());
        assert(self.tree@.len() == self.tree.len());
        assert(1 <= self.z * self.y) by (nonlinear_arith)
            requires
                1 <= self.z,
                1 <= self.y,
        ;
        assert forall|q: int, l: int| 0 <= q < self.stash_keys().len() && 0 <= l < self.max_n implies (
        #[trigger] self.stash_keys()[q][l]).finite() by {
            assert(self.stashes@[q].wf());
            self.stashes@[q].lemma_labels();
        }
    }

    /// Creates an empty simulator with one stash, one pass for each path and one chain for
    /// each lane.
    pub fn new(max_n: usize, z: usize, y: usize, b: usize, stash_capacity: usize) -> (r: Self)
        requires
            0 < max_n <= 0xffff_ffff,
            2 * max_n <= usize::MAX,
            is_pow2(max_n as int),
            0 < z,
            0 < y,
            0 < stash_capacity,
            2 <= b,
            is_pow2(b as int),
            is_power_of(max_n as int, b as int),
            z * y <= usize::MAX,
            full_nodes(b as int, digits_of(max_n as int, b as int) + 1) * (z * y) <= usize::MAX,
            (digits_of(max_n as int, b as int) + 1) * (z * y) <= usize::MAX,
        ensures
            r.wf(),
            r.max_n == max_n,
            r.z == z,
            r.y == y,
            r.b == b,
            r.stash_capacity == stash_capacity,
            r.height == digits_of(max_n as int, b as int) + 1,
            !r.random_queues,
            r.eviction_policy == EvictionPolicy::Fixed,
            r.eviction_chains == 1,
            r.stored_keys() == Set::<u32>::empty(),
            forall|k: int| 0 <= k < max_n ==> #[trigger] r.labels@[k] == 0,
            forall|k: int| 0 <= k < max_n ==> !#[trigger] r.initialized@[k],
            forall|i: int| 0 <= i < r.path@.len() ==> #[trigger] r.path@[i] == EMPTY_KEY,
            forall|i: int| 0 <= i < r.tree@.len() ==> #[trigger] r.tree@[i] == EMPTY_KEY,
            r.stash_keys().len() == 1,
            r.stash_keys()[0] == Seq::new(max_n as nat, |l: int| Set::<u32>::empty()),
    {
        let ghost f = b as int;
        let ghost k = choose|k: nat| #[trigger] pow(f, k) == max_n;
        proof {
            assert(full_width(k as int, f) == max_n);
            lemma_digits_of_power(k as int, f);
            lemma_wide_level(k as int, f);
            lemma_full_width(0, f);
        }
        let mut rounded_max_n: usize = 1;
        let mut height: usize = 1;
        while rounded_max_n < max_n
            invariant
                2 <= f == b,
                max_n <= 0xffff_ffff,
                full_width(k as int, f) == max_n,
                k < max_n,
                1 <= height <= k + 1,
                rounded_max_n == full_width(height - 1, f),
            decreases k + 1 - height,
        {
            proof {
                if height > k {
                    assert(height - 1 == k);
                }
                lemma_full_width(height - 1, f);
                lemma_full_width_grows(height as int, k as int, f);
            }
            rounded_max_n = rounded_max_n * b;
            height += 1;
        }
        proof {
            if height < k + 1 {
                lemma_full_width_grows(height as int, k as int, f);
                lemma_full_width(height - 1, f);
                let w = full_width(height - 1, f);
                assert(w * f > w) by (nonlinear_arith)
                    requires
                        w >= 1,
                        f >= 2,
                ;
            }
            assert(height == k + 1);
        }
        let bucket_slots: usize = z * y;
        proof {
            assert(1 <= z * y) by (nonlinear_arith)
                requires
                    1 <= z,
                    1 <= y,
            ;
        }
        let mut levels: Vec<Level> = Vec::new();
        let mut node_count: usize = 0;
        let mut level_width: usize = 1;
        let mut depth: usize = 0;
        let ghost all = full_nodes(f, height as int);
        proof {
            lemma_full_nodes_grows(f, 0, height as int);
            assert(all <= all * bucket_slots) by (nonlinear_arith)
                requires
                    0 <= all,
                    1 <= bucket_slots,
            ;
        }
        while depth < height
            invariant
                2 <= f == b,
                1 <= height,
                max_n == full_width(height - 1, f),
                depth <= height,
                all == full_nodes(f, height as int),
                all <= usize::MAX,
                node_count == full_nodes(f, depth as int),
                depth < height ==> level_width == full_width(depth as int, f),
                levels@.len() == depth,
                forall|d: int|
                    0 <= d < depth ==> (#[trigger] levels@[d]).offset == full_nodes(f, d)
                        && levels@[d].subtree_span == full_width(height - 1 - d, f),
            decreases height - depth,
        {
            proof {
                lemma_full_width(depth as int, f);
                vstd::arithmetic::power::lemma_pow_adds(
                    f,
                    depth as nat,
                    (height - 1 - depth) as nat,
                );
                let span = full_width(height - 1 - depth, f);
                vstd::arithmetic::div_mod::lemma_div_multiples_vanish(span, level_width as int);
                assert(level_width * span == span * level_width) by (nonlinear_arith);
                lemma_full_nodes_grows(f, depth + 1, height as int);
                if depth + 1 < height {
                    lemma_full_width_grows(depth + 1, height - 1, f);
                }
            }
            levels.push(Level { offset: node_count, subtree_span: max_n / level_width });
            node_count = node_count + level_width;
            if depth + 1 < height {
                level_width = level_width * b;
            }
            depth += 1;
        }
        let mut stashes: Vec<StashIndex> = Vec::new();
        stashes.push(StashIndex::new(max_n));
        let r = MinibucketLaneSimulator {
            max_n,
            height,
            z,
            y,
            b,
            bucket_slots,
            stash_capacity,
            levels,
            tree: filled(EMPTY_KEY, node_count * bucket_slots),
            path: filled(EMPTY_KEY, height * bucket_slots),
            stashes,
            random_queues: false,
            eviction_policy: EvictionPolicy::Fixed,
            eviction_chains: 1,
            labels: filled(0u32, max_n),
            initialized: filled(false, max_n),
        };
        proof {
            let keys = r.stash_keys();
            assert forall|q: int, l: int, m: u32|
                0 <= q < keys.len() && 0 <= l < max_n implies !#[trigger] keys[q][l].contains(m) by {
                assert(keys[q] == r.stashes@[0]@);
            }
            assert forall|q: int| 0 <= q < keys.len() implies (#[trigger] keys[q]).len() == max_n by {
                assert(keys[q] == r.stashes@[0]@);
            }
            assert forall|m: u32| !#[trigger] r.setup().stored(r.tree@, keys, m) by {
                if m < r.labels@.len() && stashed(keys, r.labels@, m) {
                    let q = choose|q: int|
                        0 <= q < keys.len() && #[trigger] keys[q][r.labels@[m as int] as int].contains(m);
                    assert(!keys[q][0].contains(m));
                }
            }
            assert(r.stored_keys() =~= Set::<u32>::empty());
        }
        r
    }

    /// Gives each lane an empty stash of its own. Blocks in the shared stash are gone.
    pub fn with_random_queues(self) -> (r: Self)
        requires
            self.sized(),
        ensures
            r.sized(),
            r.random_queues,
            r.tree == self.tree,
            r.path == self.path,
            r.labels == self.labels,
            r.initialized == self.initialized,
            r.max_n == self.max_n,
            r.height == self.height,
            r.z == self.z,
            r.y == self.y,
            r.b == self.b,
            r.stash_capacity == self.stash_capacity,
            r.eviction_policy == self.eviction_policy,
            r.eviction_chains == self.eviction_chains,
            r.stash_keys() == Seq::new(
                self.z as nat,
                |q: int| Seq::new(self.max_n as nat, |l: int| Set::<u32>::empty()),
            ),
            self.wf() && self.stored_keys() == Set::<u32>::empty() ==> r.wf() && r.stored_keys()
                == Set::<u32>::empty(),
    {
        let mut result = self;
        let mut stashes: Vec<StashIndex> = Vec::new();
        let mut lane: usize = 0;
        let ghost nothing = Seq::new(self.max_n as nat, |l: int| Set::<u32>::empty());
        proof {
            self.stashes@[0].lemma_labels();
        }
        while lane < result.z
            invariant
                lane <= result.z,
                1 <= result.max_n,
                is_pow2(result.max_n as int),
                2 * result.max_n <= usize::MAX,
                nothing == Seq::new(result.max_n as nat, |l: int| Set::<u32>::empty()),
                stashes@.len() == lane,
                forall|q: int|
                    0 <= q < lane ==> (#[trigger] stashes@[q]).wf() && stashes@[q]@ == nothing,
            decreases result.z - lane,
        {
            stashes.push(StashIndex::new(result.max_n));
            lane += 1;
        }
        result.stashes = stashes;
        result.random_queues = true;
        proof {
            let keys = result.stash_keys();
            assert(keys =~= Seq::new(self.z as nat, |q: int| nothing));
            if self.wf() && self.stored_keys() == Set::<u32>::empty() {
                assert forall|m: u32| !#[trigger] result.setup().stored(
                    result.tree@,
                    keys,
                    m,
                ) by {
                    if m < result.labels@.len() && stashed(keys, result.labels@, m) {
                        let q = choose|q: int|
                            0 <= q < keys.len() && #[trigger] keys[q][result.labels@[m as int] as int].contains(
                                m,
                            );
                        assert(keys[q] == nothing);
                    }
                    assert(!self.stored_keys().contains(m));
                    assert(!self.setup().stored(self.tree@, self.stash_keys(), m));
                }
                assert forall|t: int|
                    0 <= t < result.tree@.len() implies #[trigger] result.tree@[t] == EMPTY_KEY by {
                    if result.tree@[t] != EMPTY_KEY {
                        assert(result.tree@.contains(result.tree@[t]));
                        assert(result.setup().stored(result.tree@, keys, result.tree@[t]));
                    }
                }
                assert forall|k: u32| k < result.max_n implies !#[trigger] result.initialized@[
                    k as int
                ] by {
                    assert(!self.stored_keys().contains(k));
                }
                assert(result.stored_keys() =~= Set::<u32>::empty());
            }
        }
        result
    }

    /// Sets how paths are evicted.
    pub fn with_eviction_strategy(self, policy: EvictionPolicy, chains: usize) -> (r: Self)
        requires
            0 < chains,
        ensures
            r == (MinibucketLaneSimulator {
                eviction_policy: policy,
                eviction_chains: chains,
                ..self
            }),
            self.wf() ==> r.wf() && r.stored_keys() == self.stored_keys(),
    {
        let mut result = self;
        result.eviction_policy = policy;
        result.eviction_chains = chains;
        proof {
            let a = self.setup();
            let b = result.setup();
            assert(result.stash_keys() == self.stash_keys());
            if self.wf() {
                assert forall|t: int|
                    0 <= t < result.tree@.len() && #[trigger] result.tree@[t]
                        != EMPTY_KEY implies b.on_path(
                    t / b.w(),
                    b.labels[result.tree@[t] as int] as int,
                ) by {
                    lemma_same_path(a, b, t / b.w(), b.labels[result.tree@[t] as int] as int);
                }
                assert forall|k: u32|
                    a.stored(self.tree@, self.stash_keys(), k) == #[trigger] b.stored(
                        result.tree@,
                        result.stash_keys(),
                        k,
                    ) by {}
                assert(result.stored_keys() =~= self.stored_keys());
            }
        }
        result
    }

    /// The number of blocks in the stashes.
    pub fn stash_len(&self) -> (r: usize)
        requires
            self.sized(),
            stashes_ok(self.stash_keys(), self.labels@, self.max_n as int),
        ensures
            r == total_keys(self.stash_keys(), self.stash_keys().len() as int),
            r <= self.max_n,
    {
        let ghost keys = self.stash_keys();
        let mut sum: usize = 0;
        let mut q: usize = 0;
        proof {
            self.lemma_setup();
        }
        while q < self.stashes.len()
            invariant
                self.sized(),
                keys == self.stash_keys(),
                stashes_ok(keys, self.labels@, self.max_n as int),
                forall|p: int, l: int|
                    0 <= p < keys.len() && 0 <= l < self.max_n ==> (#[trigger] keys[p][l]).finite(),
                q <= self.stashes.len(),
                sum == total_keys(keys, q as int),
                sum <= self.max_n,
            decreases self.stashes.len() - q,
        {
            proof {
                lemma_stash_set(keys, self.labels@, self.max_n as int, q + 1);
                assert(keys[q as int] == self.stashes@[q as int]@);
            }
            sum = sum + self.stashes[q].len();
            q += 1;
        }
        sum
    }

    /// Number of keys and of leaves.
    pub fn max_n(&self) -> (r: usize)
        ensures
            r == self.max_n,
    {
        self.max_n
    }

    /// The node at `depth` on the path to `path`.
    fn node_index(&self, depth: usize, path: u32) -> (r: usize)
        requires
            self.sized(),
            depth < self.height,
            path < self.max_n,
        ensures
            r == prefix_index(self.b as int, self.height as int, depth as int, path as int),
            (r + 1) * self.bucket_slots <= self.tree@.len(),
            r * self.bucket_slots + self.bucket_slots == (r + 1) * self.bucket_slots,
            0 <= r * self.bucket_slots,
    {
        let level: Level = self.levels[depth];
        proof {
            self.lemma_setup();
            lemma_full_width(self.height - 1 - depth, self.b as int);
            lemma_prefix_index_bounds(
                self.b as int,
                self.height as int,
                depth as int,
                path as int,
            );
            lemma_full_nodes_grows(self.b as int, 0, depth as int);
            let p = prefix_index(self.b as int, self.height as int, depth as int, path as int);
            let n = full_nodes(self.b as int, self.height as int);
            let w = self.bucket_slots as int;
            assert((p + 1) * w <= n * w && p * w + w == (p + 1) * w && 0 <= p * w && n <= n * w)
                by (nonlinear_arith)
                requires
                    0 <= p,
                    p + 1 <= n,
                    1 <= w,
            ;
        }
        level.offset + path as usize / level.subtree_span
    }

    /// Copies the buckets on the path to `path`.
    fn read_path(&mut self, path: u32)
        requires
            old(self).sized(),
            path < old(self).max_n,
        ensures
            final(self).sized(),
            final(self).same_frame(old(self)),
            final(self).tree == old(self).tree,
            final(self).stashes == old(self).stashes,
            final(self).labels == old(self).labels,
            final(self).initialized == old(self).initialized,
            final(self).path@ == old(self).setup().opened(old(self).tree@, path as int),
    {
        let ghost goal = self.setup().opened(self.tree@, path as int);
        let ghost w = self.bucket_slots as int;
        proof {
            self.lemma_setup();
            assert(0 * w == 0);
        }
        let mut depth: usize = 0;
        while depth < self.height
            invariant
                self.sized(),
                path < self.max_n,
                depth <= self.height,
                w == self.bucket_slots,
                self.same_frame(old(self)),
                self.tree == old(self).tree,
                self.stashes == old(self).stashes,
                self.labels == old(self).labels,
                self.initialized == old(self).initialized,
                goal == self.setup().opened(self.tree@, path as int),
                forall|i: int| 0 <= i < depth * w ==> #[trigger] self.path@[i] == goal[i],
            decreases self.height - depth,
        {
            let node: usize = self.node_index(depth, path);
            proof {
                self.lemma_setup();
                assert((depth + 1) * w == depth * w + w && (depth + 1) * w <= self.height * w && 0
                    <= depth * w) by (nonlinear_arith)
                    requires
                        0 <= depth,
                        depth + 1 <= self.height,
                        1 <= w,
                ;
            }
            let source: usize = node * self.bucket_slots;
            let target: usize = depth * self.bucket_slots;
            let mut j: usize = 0;
            while j < self.bucket_slots
                invariant
                    self.sized(),
                    path < self.max_n,
                    depth < self.height,
                    j <= self.bucket_slots,
                    w == self.bucket_slots,
                    self.same_frame(old(self)),
                    self.tree == old(self).tree,
                    self.stashes == old(self).stashes,
                    self.labels == old(self).labels,
                    self.initialized == old(self).initialized,
                    goal == self.setup().opened(self.tree@, path as int),
                    node == prefix_index(
                        self.b as int,
                        self.height as int,
                        depth as int,
                        path as int,
                    ),
                    source == node * w,
                    target == depth * w,
                    source + w <= self.tree@.len() <= usize::MAX,
                    target + w <= self.path@.len() <= usize::MAX,
                    goal.len() == self.path@.len(),
                    self.setup().w() == w,
                    forall|i: int| 0 <= i < target + j ==> #[trigger] self.path@[i] == goal[i],
                decreases self.bucket_slots - j,
            {
                proof {
                    vstd::arithmetic::div_mod::lemma_fundamental_div_mod_converse(
                        target + j,
                        w,
                        depth as int,
                        j as int,
                    );
                }
                let key: u32 = self.tree[source + j];
                self.path.set(target + j, key);
                proof {
                    assert(goal[target + j] == key);
                }
                j += 1;
            }
            depth += 1;
        }
        proof {
            assert(self.path@ =~= goal);
        }
    }

    /// Puts the buckets on the path to `path` back.
    fn write_path(&mut self, path: u32)
        requires
            old(self).sized(),
            path < old(self).max_n,
        ensures
            final(self).sized(),
            final(self).same_frame(old(self)),
            final(self).path == old(self).path,
            final(self).stashes == old(self).stashes,
            final(self).labels == old(self).labels,
            final(self).initialized == old(self).initialized,
            final(self).tree@ == old(self).setup().closed(
                old(self).tree@,
                path as int,
                old(self).path@,
            ),
    {
        let ghost f = self.setup();
        let ghost before = self.tree@;
        let ghost slots = self.path@;
        let ghost goal = f.closed(before, path as int, slots);
        let ghost w = self.bucket_slots as int;
        let ghost leaf = path as int;
        proof {
            self.lemma_setup();
        }
        let mut depth: usize = 0;
        while depth < self.height
            invariant
                self.sized(),
                path < self.max_n,
                leaf == path,
                depth <= self.height,
                w == self.bucket_slots,
                self.same_frame(old(self)),
                self.path == old(self).path,
                self.stashes == old(self).stashes,
                self.labels == old(self).labels,
                self.initialized == old(self).initialized,
                f == self.setup(),
                slots == self.path@,
                goal == f.closed(before, leaf, slots),
                before.len() == self.tree@.len(),
                forall|t: int|
                    0 <= t < before.len() ==> #[trigger] self.tree@[t] == (if exists|d: int|
                        d < depth && #[trigger] f.on_path_at(t / w, leaf, d) {
                        goal[t]
                    } else {
                        before[t]
                    }),
            decreases self.height - depth,
        {
            let node: usize = self.node_index(depth, path);
            proof {
                self.lemma_setup();
                assert((depth + 1) * w == depth * w + w && (depth + 1) * w <= self.height * w && 0
                    <= depth * w) by (nonlinear_arith)
                    requires
                        0 <= depth,
                        depth + 1 <= self.height,
                        1 <= w,
                ;
            }
            let source: usize = depth * self.bucket_slots;
            let target: usize = node * self.bucket_slots;
            let ghost mid = self.tree@;
            let mut j: usize = 0;
            while j < self.bucket_slots
                invariant
                    self.sized(),
                    path < self.max_n,
                    leaf == path,
                    depth < self.height,
                    j <= self.bucket_slots,
                    w == self.bucket_slots,
                    self.same_frame(old(self)),
                    self.path == old(self).path,
                    self.stashes == old(self).stashes,
                    self.labels == old(self).labels,
                    self.initialized == old(self).initialized,
                    f == self.setup(),
                    slots == self.path@,
                    source == depth * w,
                    target == node * w,
                    source + w <= self.path@.len() <= usize::MAX,
                    target + w <= self.tree@.len() <= usize::MAX,
                    mid.len() == self.tree@.len() == before.len(),
                    forall|t: int|
                        0 <= t < mid.len() ==> #[trigger] self.tree@[t] == (if target <= t < target
                            + j {
                            slots[source + t - target]
                        } else {
                            mid[t]
                        }),
                decreases self.bucket_slots - j,
            {
                let key: u32 = self.path[source + j];
                self.tree.set(target + j, key);
                j += 1;
            }
            proof {
                assert forall|t: int| 0 <= t < before.len() implies #[trigger] self.tree@[t] == (
                if exists|d: int| d < depth + 1 && #[trigger] f.on_path_at(t / w, leaf, d) {
                    goal[t]
                } else {
                    before[t]
                }) by {
                    lemma_node_range(t, node as int, w);
                    if target <= t < target + w {
                        assert(f.on_path_at(t / w, leaf, depth as int));
                        let d = choose|d: int| #[trigger] f.on_path_at(t / w, leaf, d);
                        f.lemma_on_path_at(t / w, leaf, leaf, d, depth as int);
                        f.lemma_slot_of(leaf, t, depth as int);
                        assert(goal[t] == slots[depth * w + t % w]);
                    } else {
                        assert(!f.on_path_at(t / w, leaf, depth as int));
                        assert(self.tree@[t] == mid[t]);
                        if exists|d: int| d < depth + 1 && #[trigger] f.on_path_at(t / w, leaf, d) {
                            let d = choose|d: int|
                                d < depth + 1 && #[trigger] f.on_path_at(t / w, leaf, d);
                            assert(d < depth && f.on_path_at(t / w, leaf, d));
                        }
                        if exists|d: int| d < depth && #[trigger] f.on_path_at(t / w, leaf, d) {
                            let d = choose|d: int|
                                d < depth && #[trigger] f.on_path_at(t / w, leaf, d);
                            assert(d < depth + 1 && f.on_path_at(t / w, leaf, d));
                        }
                    }
                }
            }
            depth += 1;
        }
        proof {
            assert forall|t: int| 0 <= t < before.len() implies #[trigger] self.tree@[t]
                == goal[t] by {
                if f.on_path(t / w, leaf) {
                    let d = choose|d: int| #[trigger] f.on_path_at(t / w, leaf, d);
                    assert(d < depth && f.on_path_at(t / w, leaf, d));
                }
            }
            assert(self.tree@ =~= goal);
        }
    }
}

/// The slots of a node.
proof fn lemma_node_range(t: int, node: int, w: int)
    requires
        0 <= t,
        0 <= node,
        1 <= w,
    ensures
        t / w == node <==> node * w <= t < node * w + w,
        t / w == node ==> t % w == t - node * w,
{
    vstd::arithmetic::div_mod::lemma_fundamental_div_mod(t, w);
    vstd::arithmetic::div_mod::lemma_mod_bound(t, w);
    assert(w * (t / w) == (t / w) * w) by (nonlinear_arith);
    if node * w <= t < node * w + w {
        vstd::arithmetic::div_mod::lemma_fundamental_div_mod_converse(t, w, node, t - node * w);
    }
}

/// The tree and the stashes after an access, when `key` was taken from the path to
/// `old_pos`, put into stash `q` with label `new_pos`, and the paths were evicted.
pub open spec fn accessed(
    f: Setup,
    tree: Seq<u32>,
    stashes: Stashes,
    old_pos: u32,
    new_pos: u32,
    key: u32,
    q: int,
    evict_accessed_path: bool,
    background_paths: Seq<u32>,
) -> (Seq<u32>, Stashes) {
    let g = f.relabelled(key, new_pos);
    let s1 = without_key(f.opened(tree, old_pos as int), key);
    let t1 = with_stashed(without_stashed(stashes, key), q, new_pos as int, key);
    let (s2, t2) = if evict_accessed_path {
        g.passes_run(s1, t1, old_pos as int, g.chains)
    } else {
        (s1, t1)
    };
    g.all_evicted(
        g.closed(tree, old_pos as int, s2),
        t2,
        background_paths,
        background_paths.len() as int,
    )
}

impl MinibucketLaneSimulator {
    /// Takes `key` out of the stashes and out of the loaded path.
    fn remove_key(&mut self, key: u32, Ghost(leaf): Ghost<int>) -> (r: bool)
        requires
            old(self).sized(),
            key < old(self).max_n,
            old(self).setup().ok(old(self).path@, old(self).stash_keys(), leaf),
            stashed(old(self).stash_keys(), old(self).labels@, key) ==> old(self).initialized@[
                key as int
            ],
        ensures
            final(self).sized(),
            final(self).same_frame(old(self)),
            final(self).tree == old(self).tree,
            final(self).labels == old(self).labels,
            final(self).initialized == old(self).initialized,
            final(self).path@ == without_key(old(self).path@, key),
            final(self).stash_keys() == without_stashed(old(self).stash_keys(), key),
            r == old(self).setup().holds(old(self).path@, old(self).stash_keys(), key),
    {
        let ghost slots = self.path@;
        let ghost keys = self.stash_keys();
        let ghost n = self.max_n as int;
        let ghost c = self.setup().chain(0, 1, 0, leaf);
        let label: u32 = self.labels[key as usize];
        proof {
            self.lemma_setup();
            assert forall|q: int, l: int|
                0 <= q < keys.len() && 0 <= l < n && l != label implies !#[trigger] keys[q][l].contains(
                key,
            ) by {}
        }
        if self.initialized[key as usize] {
            let mut q: usize = 0;
            while q < self.stashes.len()
                invariant
                    *self == *old(self),
                    self.sized(),
                    key < self.max_n,
                    n == self.max_n,
                    label == self.labels@[key as int],
                    keys == self.stash_keys(),
                    slots == self.path@,
                    c == self.setup().chain(0, 1, 0, leaf),
                    c.ok(slots, keys),
                    self.setup().leaves() == n,
                    forall|p: int, l: int|
                        0 <= p < keys.len() && 0 <= l < n && l != label
                            ==> !#[trigger] keys[p][l].contains(key),
                    q <= self.stashes.len(),
                    forall|p: int| 0 <= p < q ==> !#[trigger] keys[p][label as int].contains(key),
                decreases self.stashes.len() - q,
            {
                proof {
                    assert(keys[q as int] == self.stashes@[q as int]@);
                }
                if self.stashes[q].contains(label, key) {
                    self.stashes[q].remove(label, key);
                    proof {
                        assert(keys[q as int][label as int].contains(key));
                        assert(stashed(keys, c.labels, key));
                        assert(self.path@ =~= without_key(slots, key));
                        lemma_one_removed(keys, n, q as int, label as int, key);
                        assert(self.stash_keys() =~= keys.update(
                            q as int,
                            keys[q as int].update(
                                label as int,
                                keys[q as int][label as int].remove(key),
                            ),
                        ));
                    }
                    return true;
                }
                q += 1;
            }
        }
        proof {
            assert(!stashed(keys, self.labels@, key)) by {
                if stashed(keys, self.labels@, key) {
                    let p = choose|p: int|
                        0 <= p < keys.len() && #[trigger] keys[p][label as int].contains(key);
                    assert(!keys[p][label as int].contains(key));
                }
            }
            assert forall|p: int, l: int| 0 <= p < keys.len() && 0 <= l < n implies
                !#[trigger] keys[p][l].contains(key) by {
                if keys[p][l].contains(key) {
                    assert(l == label);
                    assert(stashed(keys, self.labels@, key));
                }
            }
            assert(without_stashed(keys, key) =~= keys) by {
                assert forall|p: int| 0 <= p < keys.len() implies without_stashed(keys, key)[p]
                    =~= #[trigger] keys[p] by {
                    assert(keys[p].len() == n);
                    assert forall|l: int| 0 <= l < n implies keys[p][l].remove(key)
                        =~= #[trigger] keys[p][l] by {
                        assert(!keys[p][l].contains(key));
                    }
                }
            }
        }
        let mut found: bool = false;
        let mut i: usize = 0;
        while i < self.path.len()
            invariant
                i <= self.path.len(),
                self.path@.len() == slots.len(),
                self.same_frame(old(self)),
                self.sized(),
                key < self.max_n,
                self.max_n <= 0xffff_ffff,
                self.tree == old(self).tree,
                self.stashes == old(self).stashes,
                self.labels == old(self).labels,
                self.initialized == old(self).initialized,
                forall|j: int|
                    0 <= j < slots.len() ==> #[trigger] self.path@[j] == (if j < i {
                        without_key(slots, key)[j]
                    } else {
                        slots[j]
                    }),
                found == (exists|j: int| 0 <= j < i && #[trigger] slots[j] == key),
            decreases self.path.len() - i,
        {
            let candidate: u32 = self.path[i];
            assert(candidate == slots[i as int]);
            if candidate == key {
                self.path.set(i, EMPTY_KEY);
                found = true;
            }
            i += 1;
        }
        proof {
            assert(self.path@ =~= without_key(slots, key));
            assert(self.stash_keys() == keys);
            if slots.contains(key) {
                let j = choose|j: int| 0 <= j < slots.len() && slots[j] == key;
                assert(slots[j] == key);
            }
        }
        found
    }

    /// One chain for lane `lane` of the loaded path to `path`: Algorithm 1
    /// (`EvictOnceSlow`) from Circuit ORAM, restricted to one fixed lane whose buckets
    /// contain Y pooled slots. The stash plus this lane's root minibucket are level zero.
    pub fn evict_lane(&mut self, path: u32, lane: usize)
        requires
            old(self).sized(),
            path < old(self).max_n,
            lane < old(self).z,
            old(self).setup().ok(old(self).path@, old(self).stash_keys(), path as int),
        ensures
            final(self).sized(),
            final(self).same_frame(old(self)),
            final(self).tree == old(self).tree,
            final(self).labels == old(self).labels,
            final(self).initialized == old(self).initialized,
            (final(self).path@, final(self).stash_keys()) == old(self).setup().lane_chain(
                lane as int,
                path as int,
            ).run(old(self).path@, old(self).stash_keys(), old(self).height - 1),
            final(self).setup().ok(final(self).path@, final(self).stash_keys(), path as int),
    {
        proof {
            self.lemma_setup();
            self.setup().lemma_lane(self.path@, self.stash_keys(), path as int, lane as int);
            assert(0 <= lane * self.y && lane * self.y + self.y <= self.z * self.y)
                by (nonlinear_arith)
                requires
                    0 <= lane,
                    lane + 1 <= self.z,
                    1 <= self.y,
            ;
        }
        let q: usize = if self.random_queues {
            lane
        } else {
            0
        };
        self.evict_chain(path, lane * self.y, self.y, q);
    }

    /// One Circuit eviction chain over the entire pooled Z*Y-slot bucket.
    pub fn evict_pooled(&mut self, path: u32)
        requires
            old(self).sized(),
            path < old(self).max_n,
            old(self).setup().ok(old(self).path@, old(self).stash_keys(), path as int),
        ensures
            final(self).sized(),
            final(self).same_frame(old(self)),
            final(self).tree == old(self).tree,
            final(self).labels == old(self).labels,
            final(self).initialized == old(self).initialized,
            (final(self).path@, final(self).stash_keys()) == old(self).setup().chain(
                0,
                old(self).setup().w(),
                0,
                path as int,
            ).run(old(self).path@, old(self).stash_keys(), old(self).height - 1),
            final(self).setup().ok(final(self).path@, final(self).stash_keys(), path as int),
    {
        proof {
            self.lemma_setup();
            self.setup().lemma_pooled(self.path@, self.stash_keys(), path as int);
        }
        self.evict_chain(path, 0, self.bucket_slots, 0);
    }

    /// Evicts the loaded path to `path`.
    fn evict_loaded_path(&mut self, path: u32)
        requires
            old(self).sized(),
            path < old(self).max_n,
            old(self).setup().ok(old(self).path@, old(self).stash_keys(), path as int),
        ensures
            final(self).sized(),
            final(self).same_frame(old(self)),
            final(self).tree == old(self).tree,
            final(self).labels == old(self).labels,
            final(self).initialized == old(self).initialized,
            (final(self).path@, final(self).stash_keys()) == old(self).setup().passes_run(
                old(self).path@,
                old(self).stash_keys(),
                path as int,
                old(self).eviction_chains as int,
            ),
    {
        let ghost f = self.setup();
        let ghost slots = self.path@;
        let ghost keys = self.stash_keys();
        let mut pass: usize = 0;
        while pass < self.eviction_chains
            invariant
                pass <= self.eviction_chains,
                path < self.max_n,
                self.sized(),
                self.same_frame(old(self)),
                self.tree == old(self).tree,
                self.labels == old(self).labels,
                self.initialized == old(self).initialized,
                f == self.setup(),
                f.ok(self.path@, self.stash_keys(), path as int),
                (self.path@, self.stash_keys()) == f.passes_run(
                    slots,
                    keys,
                    path as int,
                    pass as int,
                ),
            decreases self.eviction_chains - pass,
        {
            let ghost s0 = self.path@;
            let ghost t0 = self.stash_keys();
            match self.eviction_policy {
                EvictionPolicy::Fixed => {
                    let mut lane: usize = 0;
                    while lane < self.z
                        invariant
                            lane <= self.z,
                            pass < self.eviction_chains,
                            path < self.max_n,
                            self.sized(),
                            self.same_frame(old(self)),
                            self.tree == old(self).tree,
                            self.labels == old(self).labels,
                            self.initialized == old(self).initialized,
                            f == self.setup(),
                            f.ok(self.path@, self.stash_keys(), path as int),
                            (self.path@, self.stash_keys()) == f.lanes_run(
                                s0,
                                t0,
                                path as int,
                                lane as int,
                            ),
                        decreases self.z - lane,
                    {
                        self.evict_lane(path, lane);
                        lane += 1;
                    }
                },
                EvictionPolicy::Pooled => {
                    self.evict_pooled(path);
                },
            }
            pass += 1;
        }
    }

    /// Evicts one more path.
    fn evict_background(&mut self, path: u32)
        requires
            old(self).sized(),
            path < old(self).max_n,
            old(self).setup().rest(old(self).tree@, old(self).stash_keys()),
        ensures
            final(self).sized(),
            final(self).same_frame(old(self)),
            final(self).labels == old(self).labels,
            final(self).initialized == old(self).initialized,
            (final(self).tree@, final(self).stash_keys()) == old(self).setup().evicted(
                old(self).tree@,
                old(self).stash_keys(),
                path as int,
            ),
            final(self).setup().rest(final(self).tree@, final(self).stash_keys()),
    {
        let ghost f = self.setup();
        proof {
            self.lemma_setup();
            f.lemma_open(self.tree@, self.stash_keys(), path as int);
            f.lemma_evicted(self.tree@, self.stash_keys(), path as int);
        }
        let ghost keys = self.stash_keys();
        self.read_path(path);
        assert(self.stash_keys() == keys);
        self.evict_loaded_path(path);
        let ghost moved = self.stash_keys();
        self.write_path(path);
        assert(self.stash_keys() == moved);
    }

    /// Simulates one update using the caller-provided old and fresh labels.
    pub fn update(&mut self, old_pos: u32, new_pos: u32, key: u32) -> (r: SimUpdate)
        requires
            old(self).wf(),
            old_pos < old(self).max_n,
            new_pos < old(self).max_n,
            key < old(self).max_n,
            old(self).initialized@[key as int] ==> old(self).labels@[key as int] == old_pos,
        ensures
            old(self).updated(final(self), old_pos, new_pos, key, 0, true, Seq::empty(), r),
    {
        self.update_in_queue(old_pos, new_pos, key, 0)
    }

    /// Simulates one update whose block waits in the stash of lane `queue`.
    pub fn update_in_queue(&mut self, old_pos: u32, new_pos: u32, key: u32, queue: usize) -> (r:
        SimUpdate)
        requires
            old(self).wf(),
            old_pos < old(self).max_n,
            new_pos < old(self).max_n,
            key < old(self).max_n,
            old(self).initialized@[key as int] ==> old(self).labels@[key as int] == old_pos,
        ensures
            old(self).updated(
                final(self),
                old_pos,
                new_pos,
                key,
                queue as int,
                true,
                Seq::empty(),
                r,
            ),
    {
        let none: Vec<u32> = Vec::new();
        self.update_with_schedule(old_pos, new_pos, key, queue, true, &none)
    }

    /// What an update does. Where the stash has no room the block is dropped and the path
    /// is not put back.
    pub open spec fn updated(
        &self,
        after: &Self,
        old_pos: u32,
        new_pos: u32,
        key: u32,
        queue: int,
        evict_accessed_path: bool,
        background_paths: Seq<u32>,
        r: SimUpdate,
    ) -> bool {
        let waiting = without_stashed(self.stash_keys(), key);
        let count = self.stash_keys().len() as int;
        let q = if self.random_queues {
            queue % self.z as int
        } else {
            0
        };
        &&& after.sized()
        &&& after.same_frame(self)
        &&& after.labels@ == self.labels@.update(key as int, new_pos)
        &&& after.initialized@ == self.initialized@.update(key as int, true)
        &&& r.found == self.initialized@[key as int]
        &&& r.insertion_demand == total_keys(waiting, count) + 1
        &&& r.overflowed == (r.insertion_demand > self.stash_capacity)
        &&& r.stash_after == total_keys(after.stash_keys(), count)
        &&& r.overflowed ==> after.tree == self.tree && after.stash_keys() == waiting
        &&& !r.overflowed ==> {
            &&& after.wf()
            &&& after.stored_keys() == self.stored_keys().insert(key)
            &&& (after.tree@, after.stash_keys()) == accessed(
                self.setup(),
                self.tree@,
                self.stash_keys(),
                old_pos,
                new_pos,
                key,
                q,
                evict_accessed_path,
                background_paths,
            )
        }
    }

    /// The stashes hold no more blocks than there are keys.
    pub proof fn lemma_load(&self)
        requires
            self.wf(),
        ensures
            total_keys(self.stash_keys(), self.stash_keys().len() as int) <= self.max_n,
    {
        self.lemma_setup();
        self.setup().lemma_stored_count(self.tree@, self.stash_keys());
    }

    /// Stashes with more capacity than there are keys always have room.
    pub proof fn lemma_roomy_stashes(&self, key: u32)
        requires
            self.wf(),
            self.max_n < self.stash_capacity,
        ensures
            total_keys(without_stashed(self.stash_keys(), key), self.stash_keys().len() as int) + 1
                <= self.stash_capacity,
    {
        self.lemma_setup();
        self.setup().lemma_stored_count(self.tree@, self.stash_keys());
        lemma_fewer_keys(self.stash_keys(), key, self.stash_keys().len() as int);
    }

    /// Simulates one update followed by evictions of `background_paths`. The accessed path
    /// itself is evicted if `evict_accessed_path`.
    pub fn update_with_schedule(
        &mut self,
        old_pos: u32,
        new_pos: u32,
        key: u32,
        queue: usize,
        evict_accessed_path: bool,
        background_paths: &[u32],
    ) -> (r: SimUpdate)
        requires
            old(self).wf(),
            old_pos < old(self).max_n,
            new_pos < old(self).max_n,
            key < old(self).max_n,
            old(self).initialized@[key as int] ==> old(self).labels@[key as int] == old_pos,
            forall|i: int|
                0 <= i < background_paths@.len() ==> #[trigger] background_paths@[i] < old(
                    self,
                ).max_n,
        ensures
            old(self).updated(
                final(self),
                old_pos,
                new_pos,
                key,
                queue as int,
                evict_accessed_path,
                background_paths@,
                r,
            ),
    {
        let ghost before = *self;
        let ghost f = self.setup();
        let ghost g = f.relabelled(key, new_pos);
        let ghost tree = self.tree@;
        let ghost keys = self.stash_keys();
        let ghost leaf = old_pos as int;
        let ghost slots = f.opened(tree, leaf);
        let ghost s1 = without_key(slots, key);
        let ghost t1 = without_stashed(keys, key);
        proof {
            self.lemma_setup();
            f.lemma_open(tree, keys, leaf);
            f.lemma_taken(tree, slots, keys, leaf, key);
            lemma_key_on_path(*self, old_pos, key);
        }
        self.read_path(old_pos);
        assert(self.stash_keys() == keys);
        let found: bool = self.remove_key(key, Ghost(leaf));
        let insertion_demand: usize = self.stash_len() + 1;
        self.labels.set(key as usize, new_pos);
        self.initialized.set(key as usize, true);
        assert(self.stash_keys() == t1);
        if insertion_demand > self.stash_capacity {
            let ghost count = keys.len() as int;
            assert(insertion_demand - 1 == total_keys(t1, count));
            return SimUpdate {
                found,
                insertion_demand,
                stash_after: insertion_demand - 1,
                overflowed: true,
            };
        }
        let q: usize = if self.random_queues {
            queue % self.z
        } else {
            0
        };
        let ghost t2 = with_stashed(t1, q as int, new_pos as int, key);
        proof {
            f.lemma_inserted(tree, s1, t1, leaf, key, new_pos, q as int);
            self.lemma_setup();
            lemma_stash_set(t1, f.labels, f.leaves(), t1.len() as int);
            lemma_one_stash(t1, q as int);
            assert(t1[q as int] == self.stashes@[q as int]@);
        }
        self.stashes[q].insert(new_pos, key);
        proof {
            assert(self.stash_keys() =~= t2);
            assert(self.setup() == g);
        }
        if evict_accessed_path {
            proof {
                g.lemma_passes(s1, t2, leaf, g.chains);
            }
            self.evict_loaded_path(old_pos);
        }
        let ghost s3 = self.path@;
        let ghost t3 = self.stash_keys();
        proof {
            assert(forall|k: u32| g.holds(s3, t3, k) == #[trigger] g.holds(s1, t2, k));
            g.lemma_off_ok(tree, s1, t2, s3, t3, leaf);
            g.lemma_close(tree, s3, t3, leaf);
        }
        self.write_path(old_pos);
        let ghost tree3 = self.tree@;
        assert(self.stash_keys() == t3);
        let mut i: usize = 0;
        while i < background_paths.len()
            invariant
                i <= background_paths.len(),
                self.sized(),
                self.same_frame(&before),
                self.setup() == g,
                g.wf(),
                self.labels@ == g.labels,
                self.initialized@ == before.initialized@.update(key as int, true),
                forall|j: int|
                    0 <= j < background_paths@.len() ==> #[trigger] background_paths@[j]
                        < before.max_n,
                g.rest(self.tree@, self.stash_keys()),
                (self.tree@, self.stash_keys()) == g.all_evicted(
                    tree3,
                    t3,
                    background_paths@,
                    i as int,
                ),
            decreases background_paths.len() - i,
        {
            self.evict_background(background_paths[i]);
            i += 1;
        }
        proof {
            self.lemma_setup();
            g.lemma_all_evicted(tree3, t3, background_paths@, background_paths@.len() as int);
            assert forall|k: u32|
                #![trigger g.stored(self.tree@, self.stash_keys(), k)]
                g.stored(self.tree@, self.stash_keys(), k) == (k == key || f.stored(
                    tree,
                    keys,
                    k,
                )) by {
                assert(g.stored(tree3, t3, k) == g.stored(self.tree@, self.stash_keys(), k));
                assert(g.holds(s3, t3, k) == g.holds(s1, t2, k));
                assert(f.holds(s1, t1, k) == (k != key && f.holds(slots, keys, k)));
                lemma_same_off(f, g, tree, leaf, k);
                assert(f.stored(tree, keys, k) == (f.holds(slots, keys, k) || (k != EMPTY_KEY
                    && f.off_path(tree, leaf, k))));
            }
            assert(self.stored_keys() =~= before.stored_keys().insert(key));
            assert forall|k: u32| k < self.max_n implies (#[trigger] self.initialized@[k as int]
                <==> self.setup().stored(self.tree@, self.stash_keys(), k)) by {
                assert(g.stored(self.tree@, self.stash_keys(), k) == (k == key || f.stored(
                    tree,
                    keys,
                    k,
                )));
                if k != key {
                    assert(self.initialized@[k as int] == before.initialized@[k as int]);
                }
            }
        }
        let stash_after: usize = self.stash_len();
        SimUpdate { found, insertion_demand, stash_after, overflowed: false }
    }

    /// The number of blocks in the tree and in the stashes.
    pub fn block_count(&self) -> (r: usize)
        requires
            self.wf(),
        ensures
            r == self.stored_keys().len(),
            self.stored_keys().finite(),
    {
        proof {
            self.lemma_setup();
            self.setup().lemma_stored_count(self.tree@, self.stash_keys());
        }
        let mut count: usize = 0;
        let mut i: usize = 0;
        while i < self.tree.len()
            invariant
                i <= self.tree.len(),
                count == live_slots(self.tree@.take(i as int)),
                count <= i,
            decreases self.tree.len() - i,
        {
            proof {
                assert(self.tree@.take(i + 1).drop_last() =~= self.tree@.take(i as int));
            }
            if self.tree[i] != EMPTY_KEY {
                count += 1;
            }
            i += 1;
        }
        proof {
            assert(self.tree@.take(i as int) =~= self.tree@);
        }
        self.stash_len() + count
    }
}

/// A key that is under one label of one stash alone is removed there.
proof fn lemma_one_removed(keys: Stashes, n: int, q: int, label: int, key: u32)
    requires
        0 <= q < keys.len(),
        0 <= label < n,
        keys[q][label].contains(key),
        forall|p: int| 0 <= p < keys.len() ==> (#[trigger] keys[p]).len() == n,
        forall|p: int, l: int|
            0 <= p < keys.len() && 0 <= l < n && l != label ==> !#[trigger] keys[p][l].contains(key),
        forall|p: int, r: int, l: int, k: u32|
            0 <= p < keys.len() && 0 <= r < keys.len() && 0 <= l < n
                && #[trigger] keys[p][l].contains(k) && #[trigger] keys[r][l].contains(k) ==> p
                == r,
    ensures
        without_stashed(keys, key) == keys.update(
            q,
            keys[q].update(label, keys[q][label].remove(key)),
        ),
{
    let a = without_stashed(keys, key);
    let b = keys.update(q, keys[q].update(label, keys[q][label].remove(key)));
    assert forall|p: int| 0 <= p < keys.len() implies #[trigger] a[p] =~= b[p] by {
        assert(keys[p].len() == n);
        assert forall|l: int| 0 <= l < n implies a[p][l] =~= #[trigger] b[p][l] by {
            if p != q && l == label && keys[p][label].contains(key) {
                assert(keys[p][label].contains(key) && keys[q][label].contains(key));
            }
        }
    }
    assert(a =~= b);
}

/// One stash holds no more keys than all of them.
proof fn lemma_one_stash(stashes: Stashes, q: int)
    requires
        0 <= q < stashes.len(),
    ensures
        key_count(stashes[q]) <= total_keys(stashes, stashes.len() as int),
{
    lemma_first_stashes(stashes, q, stashes.len() as int);
}

proof fn lemma_first_stashes(stashes: Stashes, q: int, n: int)
    requires
        0 <= q < n,
    ensures
        key_count(stashes[q]) <= total_keys(stashes, n),
    decreases n,
{
    if q < n - 1 {
        lemma_first_stashes(stashes, q, n - 1);
    }
}

/// Labels play no part in what is off a path.
proof fn lemma_same_off(f: Setup, g: Setup, tree: Seq<u32>, leaf: int, k: u32)
    requires
        f.b == g.b,
        f.h == g.h,
        f.w() == g.w(),
    ensures
        f.off_path(tree, leaf, k) == g.off_path(tree, leaf, k),
{
    if f.off_path(tree, leaf, k) {
        let t = choose|t: int|
            0 <= t < tree.len() && !f.on_path(t / f.w(), leaf) && #[trigger] tree[t] == k;
        lemma_same_path(f, g, t / f.w(), leaf);
        assert(tree[t] == k);
    }
    if g.off_path(tree, leaf, k) {
        let t = choose|t: int|
            0 <= t < tree.len() && !g.on_path(t / g.w(), leaf) && #[trigger] tree[t] == k;
        lemma_same_path(f, g, t / g.w(), leaf);
        assert(tree[t] == k);
    }
}

/// A key that was inserted is on the path to its label or in a stash, and one that was not
/// is nowhere.
proof fn lemma_key_on_path(sim: MinibucketLaneSimulator, old_pos: u32, key: u32)
    requires
        sim.wf(),
        key < sim.max_n,
        old_pos < sim.max_n,
        sim.initialized@[key as int] ==> sim.labels@[key as int] == old_pos,
    ensures
        !sim.setup().off_path(sim.tree@, old_pos as int, key),
        sim.setup().holds(
            sim.setup().opened(sim.tree@, old_pos as int),
            sim.stash_keys(),
            key,
        ) == sim.initialized@[key as int],
        stashed(sim.stash_keys(), sim.labels@, key) ==> sim.initialized@[key as int],
{
    let f = sim.setup();
    let leaf = old_pos as int;
    sim.lemma_setup();
    f.lemma_open(sim.tree@, sim.stash_keys(), leaf);
    let b = f.stored(sim.tree@, sim.stash_keys(), key);
    assert(b == sim.initialized@[key as int]);
    if f.off_path(sim.tree@, leaf, key) {
        let t = choose|t: int|
            0 <= t < sim.tree@.len() && !f.on_path(t / f.w(), leaf) && #[trigger] sim.tree@[t] == key;
        assert(sim.tree@.contains(key));
        assert(b);
        assert(sim.tree@[t] != EMPTY_KEY);
        assert(f.on_path(t / f.w(), f.labels[key as int] as int));
    }
}

/// Taking a key out leaves no more keys.
proof fn lemma_fewer_keys(stashes: Stashes, key: u32, n: int)
    requires
        n <= stashes.len(),
        forall|q: int, l: int|
            0 <= q < stashes.len() && 0 <= l < stashes[q].len() ==> (
            #[trigger] stashes[q][l]).finite(),
    ensures
        total_keys(without_stashed(stashes, key), n) <= total_keys(stashes, n),
    decreases n,
{
    if n > 0 {
        lemma_fewer_keys(stashes, key, n - 1);
        lemma_fewer_under_labels(stashes[n - 1], key);
        assert(without_stashed(stashes, key)[n - 1] =~= Seq::new(
            stashes[n - 1].len(),
            |l: int| stashes[n - 1][l].remove(key),
        ));
    }
}

proof fn lemma_fewer_under_labels(keys: Seq<Set<u32>>, key: u32)
    requires
        forall|l: int| 0 <= l < keys.len() ==> (#[trigger] keys[l]).finite(),
    ensures
        key_count(Seq::new(keys.len(), |l: int| keys[l].remove(key))) <= key_count(keys),
    decreases keys.len(),
{
    if keys.len() > 0 {
        let front = keys.drop_last();
        let taken = Seq::new(keys.len(), |l: int| keys[l].remove(key));
        assert forall|l: int| 0 <= l < front.len() implies (#[trigger] front[l]).finite() by {
            assert(front[l] == keys[l]);
        }
        lemma_fewer_under_labels(front, key);
        assert(taken.drop_last() =~= Seq::new(front.len(), |l: int| front[l].remove(key)));
        assert(keys[keys.len() - 1].finite());
    }
}

} // verus!
