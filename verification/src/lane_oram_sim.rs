//! Fast metadata-only simulator for lane ORAM.
//!
//! Each occupied slot stores only its key. The corresponding position is read from
//! `labels[key]`. This is equivalent to storing `(position, key)` because lane ORAM always
//! overwrites a block position with the fresh label supplied by the caller, and payload
//! bytes never affect placement.
use vstd::arithmetic::power2::is_pow2;
use vstd::prelude::*;
use crate::circuit::{lane_all, level_all};
use crate::heap_tree::{full_width, lemma_full_width, lemma_full_width_grows};
use crate::key_stash::{first_where, occupied, KeyStash};
use crate::lane_oram::{
    canonical, carried, depth_of, first_live, lane_column, lane_depths, lane_filled, lanes_filled,
    lemma_first_live, lemma_levels_from, lemma_next_part, lemma_wide_level, lemma_without_key,
    levels_for, moved, next_part, takes_part, wide_shape, without_key32, Block32, DUMMY_POS,
    EMPTY_BLOCK_DATA,
};
use crate::lane_transition::{
    evicted_work, finished, lane_store, lane_updated, lanes_passed, lemma_lane_updated,
    lemma_lanes_passed, lemma_loaded_store, parts, settled,
};
use crate::minibucket_sim::Level;
use crate::oblivious::ObliviousBlock;
use crate::path_access::{first_vacant, lemma_first_vacant, put_back, with_block};
use crate::path_store::{
    holds_key, keys, lemma_row_of, lemma_row_place, PathBlock, PathState,
};
use crate::prelude::filled;
use crate::stash_index::EMPTY_KEY;
use crate::wide_heap_tree::{
    count_shared_digits, full_nodes, lemma_full_nodes_grows, lemma_prefix_geometry,
    lemma_prefix_index_bounds, prefix_geometry, prefix_index,
};

verus! {

/// Outcome of one simulated lane ORAM update.
#[derive(Clone, Copy, Debug, PartialEq, Eq)]
pub struct SimUpdate {
    /// Whether the key was already present.
    pub found: bool,
    /// Stash capacity required at the transient insertion point.
    pub insertion_demand: usize,
    /// Stash occupancy after root admission and lane eviction.
    pub stash_after: usize,
    /// Whether the configured simulator stash was too small.
    pub overflowed: bool,
}

/// The block that a key in a slot stands for: its label is its position, and it has no
/// payload.
pub open spec fn block_of(labels: Seq<u32>, key: u32) -> Block32 {
    if key == EMPTY_KEY {
        Block32::blank()
    } else {
        Block32 { pos: labels[key as int], key, data: EMPTY_BLOCK_DATA }
    }
}

/// The blocks that keys in slots stand for.
pub open spec fn blocks(labels: Seq<u32>, slots: Seq<u32>) -> Seq<Block32> {
    Seq::new(slots.len(), |i: int| block_of(labels, slots[i]))
}

/// Every slot is empty or holds a key below `n`.
pub open spec fn known(slots: Seq<u32>, n: int) -> bool {
    forall|i: int| 0 <= i < slots.len() ==> #[trigger] slots[i] == EMPTY_KEY || slots[i] < n
}

/// Control-flow-equivalent metadata simulator for [`crate::lane_oram::LaneORAM`].
#[derive(Debug)]
pub struct LaneOramSimulator {
    /// Rounded number of leaf labels.
    pub max_n: usize,
    /// Levels of the tree.
    pub height: usize,
    /// Lanes of a bucket.
    pub z: usize,
    /// Branching factor.
    pub b: usize,
    /// The levels, from the root down.
    pub levels: Vec<Level>,
    /// The key in every slot of the tree.
    pub tree: Vec<u32>,
    /// The stash.
    pub stash: KeyStash,
    /// The label of every key.
    pub labels: Vec<u32>,
    /// Whether a key was ever inserted.
    pub initialized: Vec<bool>,
    /// The key in every slot of the loaded path.
    pub path: Vec<u32>,
    /// Which slots of the loaded path take part in a pass.
    pub masks: Vec<bool>,
}

impl LaneOramSimulator {
    /// The sizes fit together, and every key is known.
    pub open spec fn sized(&self) -> bool {
        &&& 1 <= self.height <= i64::MAX
        &&& 2 <= self.b
        &&& 1 <= self.z
        &&& self.max_n == full_width(self.height - 1, self.b as int)
        &&& self.max_n <= 0x1_0000_0000
        &&& self.levels@.len() == self.height
        &&& forall|d: int|
            0 <= d < self.height ==> (#[trigger] self.levels@[d]).offset == full_nodes(
                self.b as int,
                d,
            ) && self.levels@[d].subtree_span == full_width(self.height - 1 - d, self.b as int)
        &&& self.tree@.len() == full_nodes(self.b as int, self.height as int) * self.z
        &&& self.path@.len() == self.height * self.z
        &&& self.masks@.len() == self.height * self.z
        &&& self.labels@.len() <= 0xffff_ffff
        &&& self.initialized@.len() == self.labels@.len()
        &&& self.stash.wf()
        &&& self.stash@.len() < usize::MAX
        &&& self.stash.keys() == self.labels@.len()
        &&& known(self.tree@, self.labels@.len() as int)
        &&& known(self.path@, self.labels@.len() as int)
        &&& forall|k: int|
            0 <= k < self.labels@.len() ==> #[trigger] self.labels@[k] < self.max_n
                && self.labels@[k] != DUMMY_POS
    }

    /// All but the slots and the labels is the same.
    pub open spec fn same_frame(&self, other: &Self) -> bool {
        &&& self.max_n == other.max_n
        &&& self.height == other.height
        &&& self.z == other.z
        &&& self.b == other.b
        &&& self.levels == other.levels
        &&& self.stash@.len() == other.stash@.len()
        &&& self.labels@.len() == other.labels@.len()
    }

    /// The keys of the stash followed by those of the loaded path.
    pub open spec fn work_keys(&self) -> Seq<u32> {
        self.stash@ + self.path@
    }

    /// The blocks that the keys stand for, and where they are.
    pub open spec fn state(&self) -> PathState<Block32> {
        PathState {
            geo: prefix_geometry(self.b as int, self.height as int),
            s: self.stash@.len() as int,
            w: self.z as int,
            nodes: Seq::new(
                full_nodes(self.b as int, self.height as int) as nat,
                |k: int|
                    Seq::new(
                        self.z as nat,
                        |j: int| block_of(self.labels@, self.tree@[k * self.z + j]),
                    ),
            ),
            work: blocks(self.labels@, self.work_keys()),
        }
    }

    /// The blocks are in order, and they are those of the keys that were inserted.
    pub open spec fn wf(&self) -> bool {
        &&& self.sized()
        &&& self.state().at_rest()
        &&& forall|k: u32|
            k < self.labels@.len() ==> (#[trigger] self.initialized@[k as int]
                <==> self.state().stored().contains_key(k))
    }

    /// The sizes of the state are those of the simulator, and its slots are canonical.
    pub(crate) proof fn lemma_state(&self)
        requires
            self.sized(),
        ensures
            self.state().shape(),
            lane_store(self.state(), self.b as int),
            self.state().geo.h == self.height,
            self.state().geo.leaves == self.max_n,
            self.path@.len() <= usize::MAX,
            self.tree@.len() <= usize::MAX,
            1 <= self.stash@.len(),
            known(self.work_keys(), self.labels@.len() as int),
            forall|k: u32|
                k < self.labels@.len() ==> !(#[trigger] block_of(self.labels@, k)).vacant(),
    {
        let st = self.state();
        let b = self.b as int;
        let h = self.height as int;
        lemma_prefix_geometry(b, h);
        lemma_full_nodes_grows(b, 0, h);
        self.stash.lemma_stash();
        assert(self.path@.len() == self.path.len());
        assert(self.tree@.len() == self.tree.len());
        assert forall|i: int| 0 <= i < self.work_keys().len() implies #[trigger] self.work_keys()[i]
            == EMPTY_KEY || self.work_keys()[i] < self.labels@.len() by {
            if i < self.stash@.len() {
                assert(self.work_keys()[i] == self.stash@[i]);
            } else {
                assert(self.work_keys()[i] == self.path@[i - self.stash@.len()]);
            }
        }
        let kept = |c: Block32| canonical(c);
        assert(level_all(st.work, kept));
        assert(lane_all(st.nodes, kept)) by {
            assert forall|k: int| 0 <= k < st.nodes.len() implies level_all(
                #[trigger] st.nodes[k],
                kept,
            ) by {
                assert forall|j: int| 0 <= j < st.nodes[k].len() implies kept(
                    #[trigger] st.nodes[k][j],
                ) by {
                    lemma_row_place(k, j, self.z as int, st.nodes.len() as int);
                    assert(self.tree@[k * self.z + j] == EMPTY_KEY || self.tree@[k * self.z + j]
                        < self.labels@.len());
                }
            }
        }
    }

    /// Creates an empty simulator with the requested public configuration.
    pub fn new(max_n: usize, z: usize, b: usize, stash_capacity: usize) -> (r: Self)
        requires
            0 < max_n <= 0xffff_ffff,
            0 < z,
            2 <= b,
            is_pow2(b as int),
            0 < stash_capacity < usize::MAX,
            full_width(levels_for(max_n as int, b as int) - 1, b as int) <= 0x1_0000_0000,
            full_nodes(b as int, levels_for(max_n as int, b as int)) * z <= usize::MAX,
            levels_for(max_n as int, b as int) * z <= usize::MAX,
        ensures
            r.wf(),
            r.height == levels_for(max_n as int, b as int),
            r.max_n == full_width(r.height - 1, b as int),
            r.max_n >= max_n,
            r.z == z,
            r.b == b,
            r.labels@.len() == max_n,
            r.stash@ == Seq::new(stash_capacity as nat, |i: int| EMPTY_KEY),
            r.state().stored() == Map::<u32, Block32>::empty(),
            forall|k: int| 0 <= k < max_n ==> !#[trigger] r.initialized@[k],
            forall|k: int| 0 <= k < max_n ==> #[trigger] r.labels@[k] == 0,
            forall|i: int| 0 <= i < r.tree@.len() ==> #[trigger] r.tree@[i] == EMPTY_KEY,
            forall|i: int| 0 <= i < r.path@.len() ==> #[trigger] r.path@[i] == EMPTY_KEY,
            forall|i: int| 0 <= i < r.masks@.len() ==> !#[trigger] r.masks@[i],
    {
        let ghost f = b as int;
        let ghost h = levels_for(max_n as int, f);
        let ghost all = full_nodes(f, h);
        proof {
            lemma_levels_from(max_n as int, f, 1);
            lemma_full_nodes_grows(f, 0, h - 1);
            lemma_wide_level(h - 1, f);
            lemma_full_width(h - 1, f);
            assert(all <= all * z) by (nonlinear_arith)
                requires
                    0 <= all,
                    1 <= z,
            ;
        }
        let (rounded, height): (usize, usize) = wide_shape(max_n, b);
        let mut levels: Vec<Level> = Vec::new();
        let mut node_count: usize = 0;
        let mut level_width: usize = 1;
        let mut depth: usize = 0;
        proof {
            lemma_full_width(0, f);
        }
        while depth < height
            invariant
                2 <= f == b,
                1 <= height == h,
                rounded == full_width(height - 1, f),
                depth <= height,
                all == full_nodes(f, h),
                all <= usize::MAX,
                node_count == full_nodes(f, depth as int),
                depth < height ==> level_width == full_width(depth as int, f),
                levels@.len() == depth,
                forall|d: int|
                    0 <= d < depth ==> (#[trigger] levels@[d]).offset == full_nodes(f, d)
                        && levels@[d].subtree_span == full_width(height - 1 - d, f),
            decreases height - depth,
        {
            proof {
                lemma_full_width(depth as int, f);
                vstd::arithmetic::power::lemma_pow_adds(
                    f,
                    depth as nat,
                    (height - 1 - depth) as nat,
                );
                let span = full_width(height - 1 - depth, f);
                vstd::arithmetic::div_mod::lemma_div_multiples_vanish(span, level_width as int);
                assert(level_width * span == span * level_width) by (nonlinear_arith);
                lemma_full_nodes_grows(f, depth + 1, height as int);
                if depth + 1 < height {
                    lemma_full_width_grows(depth + 1, height - 1, f);
                }
            }
            levels.push(Level { offset: node_count, subtree_span: rounded / level_width });
            node_count = node_count + level_width;
            if depth + 1 < height {
                level_width = level_width * b;
            }
            depth += 1;
        }
        let r = LaneOramSimulator {
            max_n: rounded,
            height,
            z,
            b,
            levels,
            tree: filled(EMPTY_KEY, node_count * z),
            stash: KeyStash::new(stash_capacity, max_n),
            labels: filled(0u32, max_n),
            initialized: filled(false, max_n),
            path: filled(EMPTY_KEY, height * z),
            masks: filled(false, height * z),
        };
        proof {
            let st = r.state();
            r.lemma_state();
            assert forall|k: int, j: int|
                #![trigger st.nodes[k][j]]
                0 <= k < st.nodes.len() && 0 <= j < z implies st.nodes[k][j].vacant() by {
                lemma_row_place(k, j, z as int, st.nodes.len() as int);
                assert(r.tree@[k * z + j] == EMPTY_KEY);
            }
            assert forall|i: int| 0 <= i < st.work.len() implies (#[trigger] st.work[i]).vacant() by {
                assert(r.work_keys()[i] == EMPTY_KEY);
            }
            st.lemma_empty();
        }
        r
    }

    /// Rounded number of leaf labels used by this configuration.
    pub fn max_n(&self) -> (r: usize)
        ensures
            r == self.max_n,
    {
        self.max_n
    }

    /// Current post-eviction stash occupancy.
    pub fn stash_len(&self) -> (r: usize)
        requires
            self.stash.wf(),
        ensures
            r == occupied(self.stash@),
    {
        self.stash.len()
    }

    /// Ordered stash slots, with `u32::MAX` denoting an empty slot.
    pub fn stash_keys(&self) -> (r: &[u32])
        ensures
            r@ == self.stash@,
    {
        self.stash.slots()
    }

    /// Current label of `key`.
    pub fn label(&self, key: usize) -> (r: u32)
        requires
            key < self.labels@.len(),
        ensures
            r == self.labels@[key as int],
    {
        self.labels[key]
    }

    /// The key in slot `i` of the path to `leaf`.
    pub open spec fn path_key(&self, leaf: int, i: int) -> u32 {
        self.tree@[prefix_index(self.b as int, self.height as int, i / self.z as int, leaf)
            * self.z + i % self.z as int]
    }

    /// The keys on the path to `leaf`, bucket after bucket.
    pub open spec fn path_keys(&self, leaf: int) -> Seq<u32> {
        Seq::new((self.height * self.z) as nat, |i: int| self.path_key(leaf, i))
    }

    /// The number of leaves under the bucket that slot `i` of a path belongs to.
    pub open spec fn slot_span(&self, i: int) -> int {
        full_width(self.height - 1 - i / self.z as int, self.b as int)
    }

    /// A key on the path to `leaf` was inserted, its label lies under the same bucket as
    /// `leaf`, and it is in no other slot of the path and not in the stash.
    pub proof fn lemma_path_keys(&self, leaf: int, i: int)
        requires
            self.wf(),
            0 <= leaf < self.max_n,
            0 <= i < self.height * self.z,
            self.path_keys(leaf)[i] != EMPTY_KEY,
        ensures
            ({
                let k = self.path_keys(leaf)[i];
                &&& k < self.labels@.len()
                &&& self.initialized@[k as int]
                &&& self.labels@[k as int] as int / self.slot_span(i) == leaf / self.slot_span(i)
                &&& !self.stash@.contains(k)
                &&& forall|j: int|
                    0 <= j < self.height * self.z && #[trigger] self.path_keys(leaf)[j] == k ==> j
                        == i
            }),
    {
        let st = self.state();
        let w = self.z as int;
        let h = self.height as int;
        let k = self.path_keys(leaf)[i];
        let o = st.opened(leaf);
        let u = st.with_work(o);
        self.lemma_state();
        st.lemma_opened(leaf);
        st.lemma_one_slot_per_key(leaf);
        assert forall|j: int| 0 <= j < h * w implies #[trigger] o[st.s + j] == block_of(
            self.labels@,
            self.path_keys(leaf)[j],
        ) && (self.path_keys(leaf)[j] == EMPTY_KEY || self.path_keys(leaf)[j] < self.labels@.len()) by {
            lemma_home(*self, leaf, j);
            lemma_row_of(j, w, h);
            assert(u.slot(j / w, j % w) == o[st.s + j]);
        }
        let block = o[st.s + i];
        assert(block == block_of(self.labels@, k));
        assert(!block_of(self.labels@, k).vacant());
        st.lemma_visible_is_stored(leaf, st.s + i);
        lemma_row_of(i, w, h);
        let d = i / w;
        assert(u.slot(d, i % w) == st.nodes[(st.geo.index)(d, leaf)][i % w]);
        assert(u.slot(d, i % w) == block);
        assert(st.geo.allows(d, leaf, block.leaf_of()));
        assert((st.geo.index)(d, block.leaf_of()) == prefix_index(
            self.b as int,
            h,
            d,
            self.labels@[k as int] as int,
        ));
        assert((st.geo.index)(d, leaf) == prefix_index(self.b as int, h, d, leaf));
        assert forall|j: int| 0 <= j < h * w && #[trigger] self.path_keys(leaf)[j] == k implies j
            == i by {
            assert(o[st.s + j] == block_of(self.labels@, k));
        }
        if self.stash@.contains(k) {
            let j = choose|j: int| 0 <= j < self.stash@.len() && self.stash@[j] == k;
            assert(u.stash()[j] == o[j]);
            assert(st.stash()[j] == st.work[j]);
            assert(self.work_keys()[j] == k);
            assert(o[j] == block);
        }
    }

    /// Two leaves under one bucket have the same keys in it on their paths.
    pub proof fn lemma_shared_path_keys(&self, leaf: int, other: int, i: int)
        requires
            0 <= i < self.height * self.z,
            leaf / self.slot_span(i) == other / self.slot_span(i),
        ensures
            self.path_keys(leaf)[i] == self.path_keys(other)[i],
    {
    }

    /// The node at `depth` on the path to `path`.
    fn node_index(&self, depth: usize, path: u32) -> (r: usize)
        requires
            self.sized(),
            depth < self.height,
            path < self.max_n,
        ensures
            r == prefix_index(self.b as int, self.height as int, depth as int, path as int),
            (r + 1) * self.z <= self.tree@.len() <= usize::MAX,
            r * self.z + self.z == (r + 1) * self.z,
            0 <= r * self.z,
    {
        let level: Level = self.levels[depth];
        proof {
            self.lemma_state();
            lemma_full_width(self.height - 1 - depth, self.b as int);
            lemma_prefix_index_bounds(
                self.b as int,
                self.height as int,
                depth as int,
                path as int,
            );
            lemma_full_nodes_grows(self.b as int, 0, depth as int);
            let p = prefix_index(self.b as int, self.height as int, depth as int, path as int);
            let n = full_nodes(self.b as int, self.height as int);
            let w = self.z as int;
            assert((p + 1) * w <= n * w && p * w + w == (p + 1) * w && 0 <= p * w && n <= n * w)
                by (nonlinear_arith)
                requires
                    0 <= p,
                    p + 1 <= n,
                    1 <= w,
            ;
        }
        level.offset + path as usize / level.subtree_span
    }

    /// Copies keys on `path` into `out` in bucket-major order.
    pub fn read_path_keys(&self, path: u32, out: &mut Vec<u32>)
        requires
            self.sized(),
            path < self.max_n,
            old(out)@.len() == self.height * self.z,
        ensures
            final(out)@ == self.path_keys(path as int),
    {
        let ghost w = self.z as int;
        proof {
            self.lemma_state();
            assert(0 * w == 0);
        }
        let mut depth: usize = 0;
        while depth < self.height
            invariant
                self.sized(),
                path < self.max_n,
                depth <= self.height,
                w == self.z,
                out@.len() == self.height * w,
                forall|i: int|
                    0 <= i < depth * w ==> #[trigger] out@[i] == self.path_key(path as int, i),
            decreases self.height - depth,
        {
            let node: usize = self.node_index(depth, path);
            proof {
                assert((depth + 1) * w == depth * w + w && (depth + 1) * w <= self.height * w && 0
                    <= depth * w) by (nonlinear_arith)
                    requires
                        0 <= depth,
                        depth + 1 <= self.height,
                        1 <= w,
                ;
                assert(out@.len() == out.len());
            }
            let source: usize = node * self.z;
            let target: usize = depth * self.z;
            let mut j: usize = 0;
            while j < self.z
                invariant
                    self.sized(),
                    path < self.max_n,
                    depth < self.height,
                    j <= self.z,
                    w == self.z,
                    node == prefix_index(
                        self.b as int,
                        self.height as int,
                        depth as int,
                        path as int,
                    ),
                    source == node * w,
                    target == depth * w,
                    source + w <= self.tree@.len() <= usize::MAX,
                    target + w <= out@.len() <= usize::MAX,
                    out@.len() == self.height * w,
                    forall|i: int|
                        0 <= i < target + j ==> #[trigger] out@[i] == self.path_key(
                            path as int,
                            i,
                        ),
                decreases self.z - j,
            {
                proof {
                    vstd::arithmetic::div_mod::lemma_fundamental_div_mod_converse(
                        target + j,
                        w,
                        depth as int,
                        j as int,
                    );
                }
                let key: u32 = self.tree[source + j];
                out.set(target + j, key);
                j += 1;
            }
            depth += 1;
        }
        proof {
            assert(out@ =~= self.path_keys(path as int));
        }
    }

    /// Loads the path to `path`.
    fn read_path(&mut self, path: u32)
        requires
            old(self).sized(),
            path < old(self).max_n,
        ensures
            final(self).sized(),
            final(self).same_frame(old(self)),
            final(self).tree == old(self).tree,
            final(self).stash == old(self).stash,
            final(self).labels == old(self).labels,
            final(self).initialized == old(self).initialized,
            final(self).state() == old(self).state().with_work(
                old(self).state().opened(path as int),
            ),
    {
        let ghost before = *self;
        let mut loaded: Vec<u32> = filled(EMPTY_KEY, self.path.len());
        self.read_path_keys(path, &mut loaded);
        self.path = loaded;
        proof {
            before.lemma_state();
            let st = before.state();
            let p = path as int;
            let w = self.z as int;
            let h = self.height as int;
            st.lemma_opened(p);
            let o = st.opened(p);
            let u = st.with_work(o);
            assert forall|i: int| 0 <= i < self.path@.len() implies #[trigger] self.path@[i]
                == EMPTY_KEY || self.path@[i] < self.labels@.len() by {
                lemma_home(before, p, i);
                assert(self.path@[i] == before.path_key(p, i));
            }
            assert forall|i: int| 0 <= i < o.len() implies self.state().work[i] == #[trigger] o[i] by {
                if i < st.s {
                    assert(o[i] == st.work[i]);
                    assert(self.work_keys()[i] == before.work_keys()[i]);
                } else {
                    let n = i - st.s;
                    lemma_row_of(n, w, h);
                    lemma_home(before, p, n);
                    assert(u.slot(n / w, n % w) == st.nodes[(st.geo.index)(n / w, p)][n % w]);
                    assert(self.work_keys()[i] == self.path@[n]);
                }
            }
            assert(self.state().work =~= o);
            assert(self.state().nodes =~= st.nodes);
        }
    }

    /// Puts the loaded path back as the path to `path`.
    fn write_path(&mut self, path: u32)
        requires
            old(self).sized(),
            path < old(self).max_n,
        ensures
            final(self).sized(),
            final(self).same_frame(old(self)),
            final(self).path == old(self).path,
            final(self).stash == old(self).stash,
            final(self).labels == old(self).labels,
            final(self).initialized == old(self).initialized,
            final(self).state() == (PathState {
                nodes: put_back(old(self).state(), path as int),
                ..old(self).state()
            }),
    {
        let ghost before = *self;
        let ghost w = self.z as int;
        let ghost p = path as int;
        let ghost b = self.b as int;
        let ghost h = self.height as int;
        let ghost n = self.labels@.len() as int;
        proof {
            self.lemma_state();
        }
        let mut depth: usize = 0;
        while depth < self.height
            invariant
                self.sized(),
                path < self.max_n,
                p == path,
                b == self.b,
                h == self.height,
                depth <= self.height,
                w == self.z,
                self.same_frame(&before),
                self.path == before.path,
                self.stash == before.stash,
                self.labels == before.labels,
                self.initialized == before.initialized,
                before.sized(),
                self.tree@.len() == before.tree@.len(),
                forall|d: int, j: int|
                    0 <= d < depth && 0 <= j < w ==> self.tree@[#[trigger] node_slot(b, h, d, p, w, j)]
                        == self.path@[d * w + j],
                forall|t: int|
                    0 <= t < before.tree@.len() && (forall|d: int|
                        0 <= d < depth ==> t / w != #[trigger] prefix_index(b, h, d, p))
                        ==> #[trigger] self.tree@[t] == before.tree@[t],
            decreases self.height - depth,
        {
            let node: usize = self.node_index(depth, path);
            proof {
                self.lemma_state();
                lemma_row_place(depth as int, 0, w, h);
            }
            let source: usize = depth * self.z;
            let target: usize = node * self.z;
            let ghost mid = self.tree@;
            let mut j: usize = 0;
            while j < self.z
                invariant
                    self.sized(),
                    before.sized(),
                    path < self.max_n,
                    depth < self.height,
                    j <= self.z,
                    w == self.z,
                    self.same_frame(&before),
                    self.path == before.path,
                    self.stash == before.stash,
                    self.labels == before.labels,
                    self.initialized == before.initialized,
                    source == depth * w,
                    target == node * w,
                    source + w <= self.path@.len() <= usize::MAX,
                    target + w <= self.tree@.len() <= usize::MAX,
                    mid.len() == self.tree@.len(),
                    forall|t: int|
                        0 <= t < mid.len() ==> #[trigger] self.tree@[t] == (if target <= t < target
                            + j {
                            self.path@[source + t - target]
                        } else {
                            mid[t]
                        }),
                decreases self.z - j,
            {
                let key: u32 = self.path[source + j];
                self.tree.set(target + j, key);
                j += 1;
            }
            proof {
                assert forall|d: int, e: int| 0 <= d < depth + 1 && 0 <= e < w implies self.tree@[
                #[trigger] node_slot(b, h, d, p, w, e)] == self.path@[d * w + e] by {
                    lemma_node_slot(before, p, d, e);
                    if d < depth {
                        lemma_node_slot(before, p, depth as int, 0);
                        lemma_levels_apart(b, h, p, d, depth as int);
                        let m = prefix_index(b, h, d, p);
                        let t = node_slot(b, h, d, p, w, e);
                        if target <= t < target + w {
                            vstd::arithmetic::div_mod::lemma_fundamental_div_mod_converse(
                                t,
                                w,
                                node as int,
                                t - target,
                            );
                            assert(false);
                        }
                        assert(self.tree@[t] == mid[t]);
                    }
                }
                assert forall|t: int|
                    0 <= t < before.tree@.len() && (forall|d: int|
                        0 <= d < depth + 1 ==> t / w != #[trigger] prefix_index(
                            b,
                            h,
                            d,
                            p,
                        )) implies #[trigger] self.tree@[t] == before.tree@[t] by {
                    assert(t / w != prefix_index(b, h, depth as int, p));
                    if target <= t < target + w {
                        vstd::arithmetic::div_mod::lemma_fundamental_div_mod_converse(
                            t,
                            w,
                            node as int,
                            t - target,
                        );
                    }
                    assert(self.tree@[t] == mid[t]);
                }
            }
            depth += 1;
        }
        proof {
            let st = before.state();
            let goal = put_back(st, p);
            let nodes = self.state().nodes;
            before.lemma_state();
            assert forall|k: int| 0 <= k < nodes.len() implies #[trigger] nodes[k] =~= goal[k] by {
                assert forall|j: int| 0 <= j < w implies #[trigger] nodes[k][j] == goal[k][j] by {
                    lemma_row_place(k, j, w, nodes.len() as int);
                    let t = k * w + j;
                    vstd::arithmetic::div_mod::lemma_fundamental_div_mod_converse(t, w, k, j);
                    if st.geo.path(p).contains(k) {
                        let d = st.geo.path(p).index_of(k);
                        assert(0 <= d < h && st.geo.path(p)[d] == k);
                        assert(node_slot(b, h, d, p, w, j) == t);
                        lemma_row_place(d, j, w, h);
                        assert(self.tree@[node_slot(b, h, d, p, w, j)] == self.path@[d * w + j]);
                        assert(st.work[st.s + d * w + j] == block_of(
                            before.labels@,
                            before.work_keys()[st.s + d * w + j],
                        ));
                        assert(before.work_keys()[st.s + d * w + j] == before.path@[d * w + j]);
                        assert(goal[k][j] == st.slot(d, j));
                    } else {
                        assert forall|d: int| 0 <= d < h implies t / w != #[trigger] prefix_index(
                            b,
                            h,
                            d,
                            p,
                        ) by {
                            assert(st.geo.path(p)[d] == prefix_index(b, h, d, p));
                        }
                        assert(self.tree@[t] == before.tree@[t]);
                    }
                }
            }
            assert(nodes =~= goal);
            assert(self.state().work =~= st.work);
        }
    }
}

/// The slot `j` of the node at level `d` on the path to `p`.
pub open spec fn node_slot(b: int, h: int, d: int, p: int, w: int, j: int) -> int {
    prefix_index(b, h, d, p) * w + j
}

proof fn lemma_node_slot(sim: LaneOramSimulator, p: int, d: int, j: int)
    requires
        sim.sized(),
        0 <= p < sim.max_n,
        0 <= d < sim.height,
        0 <= j < sim.z,
    ensures
        0 <= node_slot(sim.b as int, sim.height as int, d, p, sim.z as int, j) < sim.tree@.len(),
        node_slot(sim.b as int, sim.height as int, d, p, sim.z as int, j) / sim.z as int
            == prefix_index(sim.b as int, sim.height as int, d, p),
{
    let (b, h, w) = (sim.b as int, sim.height as int, sim.z as int);
    lemma_prefix_index_bounds(b, h, d, p);
    lemma_full_nodes_grows(b, 0, d);
    let k = prefix_index(b, h, d, p);
    lemma_row_place(k, j, w, full_nodes(b, h));
    vstd::arithmetic::div_mod::lemma_fundamental_div_mod_converse(k * w + j, w, k, j);
}

proof fn lemma_levels_apart(b: int, h: int, p: int, d: int, e: int)
    requires
        2 <= b,
        0 <= d < e < h,
        0 <= p < full_width(h - 1, b),
    ensures
        prefix_index(b, h, d, p) < prefix_index(b, h, e, p),
{
    lemma_prefix_index_bounds(b, h, d, p);
    lemma_prefix_index_bounds(b, h, e, p);
    lemma_full_nodes_grows(b, d + 1, e);
}

/// A slot of a path has its place in the tree.
proof fn lemma_home(sim: LaneOramSimulator, p: int, i: int)
    requires
        sim.sized(),
        0 <= p < sim.max_n,
        0 <= i < sim.height * sim.z,
    ensures
        ({
            let t = prefix_index(sim.b as int, sim.height as int, i / sim.z as int, p) * sim.z + i
                % sim.z as int;
            &&& 0 <= t < sim.tree@.len()
            &&& sim.path_key(p, i) == sim.tree@[t]
            &&& sim.path_key(p, i) == EMPTY_KEY || sim.path_key(p, i) < sim.labels@.len()
            &&& block_of(sim.labels@, sim.path_key(p, i)) == sim.state().nodes[prefix_index(
                sim.b as int,
                sim.height as int,
                i / sim.z as int,
                p,
            )][i % sim.z as int]
        }),
{
    lemma_row_of(i, sim.z as int, sim.height as int);
    lemma_node_slot(sim, p, i / sim.z as int, i % sim.z as int);
    lemma_prefix_index_bounds(sim.b as int, sim.height as int, i / sim.z as int, p);
    lemma_full_nodes_grows(sim.b as int, 0, i / sim.z as int);
}

/// The first live block of the stash is that of its first occupied slot.
proof fn lemma_first_block(labels: Seq<u32>, slots: Seq<u32>, stash: Seq<u32>, i: int)
    requires
        stash.len() <= slots.len(),
        0 <= i <= stash.len(),
        forall|k: int| 0 <= k < stash.len() ==> slots[k] == #[trigger] stash[k],
        forall|k: int|
            0 <= k < stash.len() && #[trigger] stash[k] != EMPTY_KEY ==> !block_of(
                labels,
                stash[k],
            ).vacant(),
    ensures
        first_live(blocks(labels, slots), i, stash.len() as int) == first_where(stash, true, i),
        first_vacant(blocks(labels, slots), i, stash.len() as int) == first_where(stash, false, i),
    decreases stash.len() - i,
{
    if i < stash.len() {
        assert(slots[i] == stash[i]);
        lemma_first_block(labels, slots, stash, i + 1);
    }
}

impl LaneOramSimulator {
    /// Moves blocks from the stash to free root slots, one for each lane.
    fn move_from_stash_to_free_root_lanes(&mut self)
        requires
            old(self).sized(),
        ensures
            final(self).sized(),
            final(self).same_frame(old(self)),
            final(self).tree == old(self).tree,
            final(self).labels == old(self).labels,
            final(self).initialized == old(self).initialized,
            final(self).state() == old(self).state().with_work(
                lanes_filled(old(self).state().work, old(self).state().s, old(self).z as int),
            ),
    {
        let ghost before = *self;
        let ghost work0 = self.state().work;
        let ghost s = self.stash@.len() as int;
        let mut lane: usize = 0;
        while lane < self.z
            invariant
                lane <= self.z,
                self.sized(),
                self.same_frame(&before),
                self.tree == before.tree,
                self.labels == before.labels,
                self.initialized == before.initialized,
                s == self.stash@.len(),
                self.state().work == lanes_filled(work0, s, lane as int),
                self.state() == before.state().with_work(self.state().work),
            decreases self.z - lane,
        {
            let ghost now = *self;
            let ghost work = self.state().work;
            proof {
                self.lemma_state();
                self.stash.lemma_stash();
                lemma_row_place(0, lane as int, self.z as int, self.height as int);
                assert(0 * self.z == 0);
                assert(self.work_keys()[s + lane] == self.path@[lane as int]);
                assert forall|k: int| 0 <= k < s implies #[trigger] self.stash@[k]
                    == self.work_keys()[k] by {}
                assert forall|k: int|
                    0 <= k < s && #[trigger] self.stash@[k] != EMPTY_KEY implies !block_of(
                    self.labels@,
                    self.stash@[k],
                ).vacant() by {
                    assert(self.work_keys()[k] == self.stash@[k]);
                }
                lemma_first_block(self.labels@, self.work_keys(), self.stash@, 0);
                lemma_first_live(work, 0, s);
                assert(work[s + lane].vacant() == (self.path@[lane as int] == EMPTY_KEY));
            }
            if self.path[lane] == EMPTY_KEY {
                if let Some(slot) = self.stash.first_occupied() {
                    proof {
                        assert(!work[slot as int].vacant());
                        assert(self.work_keys()[slot as int] == self.stash@[slot as int]);
                    }
                    let key: u32 = self.stash.take(slot);
                    self.path.set(lane, key);
                    proof {
                        assert(self.work_keys() =~= now.work_keys().update(s + lane, key).update(
                            slot as int,
                            EMPTY_KEY,
                        ));
                        assert(self.state().work =~= lane_filled(work, s, lane as int));
                    }
                }
            }
            proof {
                assert(self.state().work =~= lane_filled(work, s, lane as int));
                assert(self.state().nodes =~= before.state().nodes);
            }
            lane += 1;
        }
    }

    /// Marks the slots of the loaded path that take part in a pass to `path`.
    fn calculate_masks(&mut self, path: u32)
        requires
            old(self).sized(),
            path < old(self).max_n,
        ensures
            final(self).sized(),
            final(self).same_frame(old(self)),
            final(self).tree == old(self).tree,
            final(self).stash == old(self).stash,
            final(self).path == old(self).path,
            final(self).labels == old(self).labels,
            final(self).initialized == old(self).initialized,
            forall|l: int, lane: int|
                #![trigger final(self).masks@[l * old(self).z + lane]]
                0 <= l < old(self).height && 0 <= lane < old(self).z ==> final(self).masks@[l
                    * old(self).z + lane] == takes_part(old(self).depths(lane, path), l),
    {
        let ghost before = *self;
        let ghost z = self.z as int;
        let ghost h = self.height as int;
        proof {
            self.lemma_state();
        }
        let mut lane: usize = 0;
        while lane < self.z
            invariant
                lane <= self.z,
                z == self.z,
                h == self.height,
                path < self.max_n,
                before.sized(),
                self.sized(),
                self.same_frame(&before),
                self.tree == before.tree,
                self.stash == before.stash,
                self.path == before.path,
                self.labels == before.labels,
                self.initialized == before.initialized,
                forall|l: int, e: int|
                    #![trigger self.masks@[l * z + e]]
                    0 <= l < h && 0 <= e < lane ==> self.masks@[l * z + e] == takes_part(
                        before.depths(e, path),
                        l,
                    ),
            decreases self.z - lane,
        {
            let ghost d = before.depths(lane as int, path);
            let mut target: usize = self.height;
            let mut level: usize = self.height;
            while level > 0
                invariant
                    level <= self.height,
                    lane < self.z,
                    z == self.z,
                    h == self.height,
                    path < self.max_n,
                    before.sized(),
                    self.sized(),
                    self.same_frame(&before),
                    self.tree == before.tree,
                    self.stash == before.stash,
                    self.path == before.path,
                    self.labels == before.labels,
                    self.initialized == before.initialized,
                    d == before.depths(lane as int, path),
                    target == next_part(d, level as int),
                    target <= h,
                    forall|l: int, e: int|
                        #![trigger self.masks@[l * z + e]]
                        0 <= l < h && 0 <= e < z && (e < lane || (e == lane && l >= level))
                            ==> self.masks@[l * z + e] == takes_part(before.depths(e, path), l),
                decreases level,
            {
                level -= 1;
                proof {
                    self.lemma_state();
                    lemma_row_place(level as int, lane as int, z, h);
                    assert(self.masks@.len() == self.masks.len());
                }
                let index: usize = level * self.z + lane;
                let key: u32 = self.path[index];
                let ghost work = before.state().work;
                let ghost s = before.stash@.len() as int;
                proof {
                    before.lemma_state();
                    assert(before.work_keys()[s + index] == before.path@[index as int]);
                    assert(work[s + index] == block_of(before.labels@, key));
                    assert(d[level as int] == depth_of(
                        work[s + level * z + lane],
                        path,
                        before.b as int,
                        h,
                    ));
                    lemma_next_part(d, level + 1);
                }
                let depth: i64 = if key == EMPTY_KEY {
                    -1
                } else {
                    count_shared_digits(self.b, self.height, self.labels[key as usize], path)
                };
                assert(d[level as int] == depth);
                let selected: bool = depth == -1 || (target < self.height && depth >= target as i64);
                let ghost masks = self.masks@;
                proof {
                    assert(target == next_part(d, level + 1));
                    assert(d.len() == h);
                    assert(selected == takes_part(d, level as int));
                }
                self.masks.set(index, selected);
                if selected {
                    target = level;
                }
                proof {
                    assert forall|l: int, e: int|
                        #![trigger self.masks@[l * z + e]]
                        0 <= l < h && 0 <= e < z && (e < lane || (e == lane && l >= level)) implies self.masks@[
                    l * z + e] == takes_part(before.depths(e, path), l) by {
                        vstd::arithmetic::div_mod::lemma_fundamental_div_mod_converse(
                            l * z + e,
                            z,
                            l,
                            e,
                        );
                        vstd::arithmetic::div_mod::lemma_fundamental_div_mod_converse(
                            index as int,
                            z,
                            level as int,
                            lane as int,
                        );
                        lemma_row_place(l, e, z, h);
                        if l * z + e != index {
                            assert(!(l == level && e == lane));
                            assert(masks[l * z + e] == takes_part(before.depths(e, path), l));
                        } else {
                            assert(l == level && e == lane);
                        }
                    }
                }
            }
            lane += 1;
        }
    }

    /// How deep the blocks of a lane of the loaded path may go.
    pub open spec fn depths(&self, lane: int, path: u32) -> Seq<i64> {
        lane_depths(
            self.state().work,
            self.stash@.len() as int,
            self.z as int,
            self.height as int,
            lane,
            path,
            self.b as int,
        )
    }

    /// Moves the marked blocks of every lane of the loaded path down.
    fn move_down_lanes(&mut self, path: u32)
        requires
            old(self).sized(),
            forall|l: int, lane: int|
                #![trigger old(self).masks@[l * old(self).z + lane]]
                0 <= l < old(self).height && 0 <= lane < old(self).z ==> old(self).masks@[l * old(
                    self,
                ).z + lane] == takes_part(old(self).depths(lane, path), l),
        ensures
            final(self).sized(),
            final(self).same_frame(old(self)),
            final(self).tree == old(self).tree,
            final(self).stash == old(self).stash,
            final(self).labels == old(self).labels,
            final(self).initialized == old(self).initialized,
            final(self).state() == old(self).state().with_work(
                settled(
                    old(self).state().work,
                    old(self).stash@.len() as int,
                    old(self).z as int,
                    old(self).height as int,
                    path,
                    old(self).b as int,
                ),
            ),
    {
        let ghost before = *self;
        let ghost z = self.z as int;
        let ghost h = self.height as int;
        let ghost s = self.stash@.len() as int;
        let ghost work = self.state().work;
        let ghost goal = settled(work, s, z, h, path, self.b as int);
        let ghost labels = self.labels@;
        let ghost n = labels.len() as int;
        proof {
            self.lemma_state();
            assert(self.path@.len() == self.path.len());
        }
        let mut lane: usize = 0;
        while lane < self.z
            invariant
                lane <= self.z,
                z == self.z,
                h == self.height,
                s == self.stash@.len(),
                labels == self.labels@,
                n == labels.len(),
                before.sized(),
                self.sized(),
                self.same_frame(&before),
                self.tree == before.tree,
                self.stash == before.stash,
                self.masks == before.masks,
                self.labels == before.labels,
                self.initialized == before.initialized,
                work == before.state().work,
                goal == settled(work, s, z, h, path, before.b as int),
                forall|l: int, e: int|
                    #![trigger before.masks@[l * z + e]]
                    0 <= l < h && 0 <= e < z ==> before.masks@[l * z + e] == takes_part(
                        before.depths(e, path),
                        l,
                    ),
                forall|l: int, e: int|
                    #![trigger self.path@[l * z + e]]
                    0 <= l < h && 0 <= e < z ==> (if e < lane {
                        block_of(labels, self.path@[l * z + e]) == goal[s + l * z + e]
                    } else {
                        self.path@[l * z + e] == before.path@[l * z + e]
                    }),
            decreases self.z - lane,
        {
            let ghost col = lane_column(work, s, z, h, lane as int);
            let ghost m = parts(before.depths(lane as int, path));
            let mut held: u32 = EMPTY_KEY;
            let mut level: usize = 0;
            while level < self.height
                invariant
                    level <= self.height,
                    lane < self.z,
                    z == self.z,
                    h == self.height,
                    s == self.stash@.len(),
                    labels == self.labels@,
                    n == labels.len(),
                    before.sized(),
                    self.sized(),
                    self.same_frame(&before),
                    self.tree == before.tree,
                    self.stash == before.stash,
                    self.masks == before.masks,
                    self.labels == before.labels,
                    self.initialized == before.initialized,
                    work == before.state().work,
                    goal == settled(work, s, z, h, path, before.b as int),
                    col == lane_column(work, s, z, h, lane as int),
                    m == parts(before.depths(lane as int, path)),
                    forall|l: int, e: int|
                        #![trigger before.masks@[l * z + e]]
                        0 <= l < h && 0 <= e < z ==> before.masks@[l * z + e] == takes_part(
                            before.depths(e, path),
                            l,
                        ),
                    held == EMPTY_KEY || held < n,
                    block_of(labels, held) == carried(col, m, level as int),
                    forall|l: int, e: int|
                        #![trigger self.path@[l * z + e]]
                        0 <= l < h && 0 <= e < z ==> (if e < lane || (e == lane && l < level) {
                            block_of(labels, self.path@[l * z + e]) == goal[s + l * z + e]
                        } else {
                            self.path@[l * z + e] == before.path@[l * z + e]
                        }),
                decreases self.height - level,
            {
                let ghost path0 = self.path@;
                proof {
                    before.lemma_state();
                    lemma_row_place(level as int, lane as int, z, h);
                    assert(self.path@.len() == self.path.len());
                }
                let index: usize = level * self.z + lane;
                proof {
                    vstd::arithmetic::div_mod::lemma_fundamental_div_mod_converse(
                        index as int,
                        z,
                        level as int,
                        lane as int,
                    );
                    assert(path0[level * z + lane] == before.path@[index as int]);
                    assert(before.work_keys()[s + index] == before.path@[index as int]);
                    assert(col[level as int] == block_of(labels, path0[index as int]));
                    assert(before.masks@[level * z + lane] == m[level as int]);
                    assert(goal[s + index] == moved(col, m, level as int));
                }
                if self.masks[index] {
                    let key: u32 = self.path[index];
                    self.path.set(index, held);
                    held = key;
                }
                proof {
                    assert forall|l: int, e: int|
                        #![trigger self.path@[l * z + e]]
                        0 <= l < h && 0 <= e < z implies (if e < lane || (e == lane && l < level
                        + 1) {
                        block_of(labels, self.path@[l * z + e]) == goal[s + l * z + e]
                    } else {
                        self.path@[l * z + e] == before.path@[l * z + e]
                    }) by {
                        vstd::arithmetic::div_mod::lemma_fundamental_div_mod_converse(
                            l * z + e,
                            z,
                            l,
                            e,
                        );
                        lemma_row_place(l, e, z, h);
                        assert(l * z + e == index <==> l == level && e == lane);
                        if l * z + e != index {
                            assert(self.path@[l * z + e] == path0[l * z + e]);
                        }
                    }
                }
                level += 1;
            }
            lane += 1;
        }
        proof {
            assert forall|i: int| 0 <= i < goal.len() implies self.state().work[i]
                == #[trigger] goal[i] by {
                if i < s {
                    assert(self.work_keys()[i] == before.work_keys()[i]);
                } else {
                    lemma_row_of(i - s, z, h);
                    let (l, e) = ((i - s) / z, (i - s) % z);
                    assert(self.path@[l * z + e] == self.path@[i - s]);
                    assert(self.work_keys()[i] == self.path@[i - s]);
                }
            }
            assert(self.state().work =~= goal);
            assert(self.state().nodes =~= before.state().nodes);
        }
    }

    /// Evicts the loaded path to `path` and puts it back.
    fn evict_and_write(&mut self, path: u32)
        requires
            old(self).sized(),
            path < old(self).max_n,
        ensures
            final(self).sized(),
            final(self).same_frame(old(self)),
            final(self).labels == old(self).labels,
            final(self).initialized == old(self).initialized,
            final(self).state() == finished(old(self).state(), path, old(self).b as int),
    {
        let ghost st = self.state();
        self.move_from_stash_to_free_root_lanes();
        let ghost st1 = self.state();
        let ghost now = *self;
        self.calculate_masks(path);
        proof {
            assert(self.state() == now.state());
            assert forall|l: int, lane: int|
                #![trigger self.masks@[l * self.z + lane]]
                0 <= l < self.height && 0 <= lane < self.z implies self.masks@[l * self.z + lane]
                == takes_part(self.depths(lane, path), l) by {
                assert(self.depths(lane, path) == now.depths(lane, path));
            }
        }
        self.move_down_lanes(path);
        proof {
            assert(self.state() == st.with_work(
                evicted_work(st.work, st.s, st.w, st.geo.h, path, self.b as int),
            ));
        }
        self.write_path(path);
    }

    /// Takes `key` out of the stash or the loaded path.
    fn remove_key(&mut self, key: u32) -> (r: bool)
        requires
            old(self).sized(),
            key < old(self).labels@.len(),
            old(self).stash@.contains(key) ==> !old(self).path@.contains(key),
        ensures
            final(self).sized(),
            final(self).same_frame(old(self)),
            final(self).tree == old(self).tree,
            final(self).labels == old(self).labels,
            final(self).initialized == old(self).initialized,
            !final(self).work_keys().contains(key),
            final(self).work_keys() == Seq::new(
                old(self).work_keys().len(),
                |i: int|
                    if old(self).work_keys()[i] == key {
                        EMPTY_KEY
                    } else {
                        old(self).work_keys()[i]
                    },
            ),
            r == old(self).work_keys().contains(key),
            occupied(final(self).stash@) == occupied(old(self).stash@) - (if old(
                self,
            ).stash@.contains(key) {
                1int
            } else {
                0
            }),
    {
        let ghost before = *self;
        let ghost goal = Seq::new(
            before.work_keys().len(),
            |i: int|
                if before.work_keys()[i] == key {
                    EMPTY_KEY
                } else {
                    before.work_keys()[i]
                },
        );
        let ghost s = before.stash@.len() as int;
        proof {
            self.stash.lemma_stash();
        }
        if let Some(slot) = self.stash.slot_of(key) {
            let taken: u32 = self.stash.take(slot);
            proof {
                assert(before.stash@.contains(key));
                assert forall|i: int| 0 <= i < goal.len() implies self.work_keys()[i]
                    == #[trigger] goal[i] by {
                    if i < s {
                        assert(before.work_keys()[i] == before.stash@[i]);
                        if i != slot && before.stash@[i] == key {
                            assert(before.stash@[slot as int] == key);
                            assert(false);
                        }
                    } else {
                        assert(before.work_keys()[i] == before.path@[i - s]);
                        assert(before.path@[i - s] != key);
                    }
                }
                assert(self.work_keys() =~= goal);
                assert(before.work_keys()[slot as int] == key);
                assert(!self.work_keys().contains(key));
            }
            return true;
        }
        let mut found: bool = false;
        let mut i: usize = 0;
        while i < self.path.len()
            invariant
                i <= self.path.len(),
                self.sized(),
                key < self.labels@.len(),
                self.same_frame(&before),
                self.tree == before.tree,
                self.stash == before.stash,
                self.labels == before.labels,
                self.initialized == before.initialized,
                self.path@.len() == before.path@.len(),
                forall|j: int|
                    0 <= j < self.path@.len() ==> #[trigger] self.path@[j] == (if j < i
                        && before.path@[j] == key {
                        EMPTY_KEY
                    } else {
                        before.path@[j]
                    }),
                found == exists|j: int| 0 <= j < i && #[trigger] before.path@[j] == key,
            decreases self.path.len() - i,
        {
            let candidate: u32 = self.path[i];
            assert(candidate == before.path@[i as int]);
            if candidate == key {
                self.path.set(i, EMPTY_KEY);
                found = true;
            }
            i += 1;
        }
        proof {
            assert forall|j: int| 0 <= j < goal.len() implies self.work_keys()[j]
                == #[trigger] goal[j] by {
                if j < s {
                    assert(before.work_keys()[j] == before.stash@[j]);
                    assert(before.stash@[j] != key);
                } else {
                    assert(before.work_keys()[j] == before.path@[j - s]);
                }
            }
            assert(self.work_keys() =~= goal);
            assert(!self.work_keys().contains(key));
            if before.work_keys().contains(key) {
                let j = choose|j: int|
                    0 <= j < before.work_keys().len() && before.work_keys()[j] == key;
                assert(j >= s);
                assert(before.path@[j - s] == key);
            }
            if found {
                let j = choose|j: int| 0 <= j < i && #[trigger] before.path@[j] == key;
                assert(before.work_keys()[s + j] == key);
            }
        }
        found
    }
}

/// What a path holds does not depend on the nodes that it is put back into.
proof fn lemma_finished_nodes(
    a: PathState<Block32>,
    c: PathState<Block32>,
    path: u32,
    b: int,
)
    requires
        a.geo == c.geo,
        a.s == c.s,
        a.w == c.w,
        a.work == c.work,
        a.nodes.len() == c.nodes.len(),
        forall|k: int|
            0 <= k < a.nodes.len() && !a.geo.path(path as int).contains(k)
                ==> #[trigger] a.nodes[k] == c.nodes[k],
    ensures
        finished(a, path, b) == finished(c, path, b),
{
    let w = evicted_work(a.work, a.s, a.w, a.geo.h, path, b);
    let p = path as int;
    assert(put_back(a.with_work(w), p) =~= put_back(c.with_work(w), p)) by {
        assert forall|k: int| 0 <= k < a.nodes.len() implies #[trigger] put_back(
            a.with_work(w),
            p,
        )[k] == put_back(c.with_work(w), p)[k] by {
            if a.geo.path(p).contains(k) {
                let d = a.geo.path(p).index_of(k);
                assert(a.with_work(w).row(d) =~= c.with_work(w).row(d));
            } else {
                assert(a.nodes[k] == c.nodes[k]);
            }
        }
    }
}

impl LaneOramSimulator {
    /// The block of a stored key carries its label.
    pub proof fn lemma_stored_label(&self, key: u32)
        requires
            self.wf(),
            self.state().stored().contains_key(key),
        ensures
            key < self.labels@.len(),
            self.state().stored()[key] == block_of(self.labels@, key),
            self.state().visible(self.labels@[key as int] as int, key),
    {
        let st = self.state();
        self.lemma_state();
        st.lemma_stored_is_visible(key);
        let leaf = st.stored()[key].leaf_of();
        let i = choose|i: int|
            0 <= i < st.opened(leaf).len() && holds_key(#[trigger] st.opened(leaf)[i], key);
        st.lemma_visible_is_stored(leaf, i);
        self.lemma_opened_blocks(leaf, i);
    }

    /// A slot of a loaded path stands for its key.
    pub(crate) proof fn lemma_opened_blocks(&self, p: int, i: int)
        requires
            self.sized(),
            0 <= p < self.max_n,
            0 <= i < self.state().opened(p).len(),
        ensures
            ({
                let o = self.state().opened(p)[i];
                let k = if i < self.stash@.len() {
                    self.stash@[i]
                } else {
                    self.path_key(p, i - self.stash@.len())
                };
                &&& o == block_of(self.labels@, k)
                &&& k == EMPTY_KEY || k < self.labels@.len()
                &&& o.vacant() == (k == EMPTY_KEY)
                &&& o.key == k
            }),
    {
        let st = self.state();
        self.lemma_state();
        st.lemma_opened(p);
        let u = st.with_work(st.opened(p));
        if i < st.s {
            assert(st.opened(p)[i] == st.work[i]);
            assert(self.work_keys()[i] == self.stash@[i]);
        } else {
            let n = i - st.s;
            let (w, h) = (self.z as int, self.height as int);
            lemma_row_of(n, w, h);
            lemma_home(*self, p, n);
            assert(u.slot(n / w, n % w) == st.nodes[(st.geo.index)(n / w, p)][n % w]);
        }
    }

    /// A key whose label is `p`, or that is not stored, is in no node off the path to `p`.
    proof fn lemma_not_off_path(&self, key: u32, p: int, k: int, j: int)
        requires
            self.wf(),
            key < self.labels@.len(),
            0 <= p < self.max_n,
            self.initialized@[key as int] ==> self.labels@[key as int] == p,
            0 <= k < self.state().nodes.len(),
            0 <= j < self.z,
            !self.state().geo.path(p).contains(k),
        ensures
            self.tree@[k * self.z + j] != key,
    {
        let st = self.state();
        self.lemma_state();
        let c = st.nodes[k][j];
        if self.tree@[k * self.z + j] == key {
            assert(c == block_of(self.labels@, key));
            assert(!c.vacant());
            assert(st.geo.reaches(k));
            let (d, q) = choose|d: int, q: int|
                0 <= d < st.geo.h && 0 <= q < st.geo.leaves && #[trigger] (st.geo.index)(d, q) == k;
            assert(st.nodes[(st.geo.index)(d, q)][j] == c);
            st.lemma_opened(q);
            let u = st.with_work(st.opened(q));
            assert(u.slot(d, j) == c);
            lemma_row_place(d, j, st.w, st.geo.h);
            st.lemma_visible_is_stored(q, st.s + d * st.w + j);
            assert(self.initialized@[key as int]);
            assert(st.geo.allows(d, q, c.leaf_of()));
            assert((st.geo.index)(d, p) == k);
            assert(st.geo.path(p)[d] == k);
        }
    }

    /// A stash with more slots than there are keys always has room.
    pub proof fn lemma_roomy_stash(&self, key: u32)
        requires
            self.wf(),
            self.labels@.len() < self.stash@.len(),
        ensures
            self.state().has_room(key),
    {
        self.stash.lemma_stash();
        self.lemma_state();
        let keys = self.stash@;
        if !self.state().has_room(key) {
            assert forall|i: int| 0 <= i < keys.len() implies #[trigger] keys[i] != EMPTY_KEY by {
                assert(self.work_keys()[i] == keys[i]);
                assert(!self.state().work[i].vacant());
            }
            lemma_distinct_below(keys, self.labels@.len() as int);
        }
    }

    /// An access asks for no more slots than there are keys.
    pub proof fn lemma_demand(&self)
        requires
            self.wf(),
            self.labels@.len() < self.stash@.len(),
        ensures
            occupied(self.stash@) + 1 <= self.stash@.len(),
    {
        self.stash.lemma_stash();
        self.lemma_roomy_stash(EMPTY_KEY);
        let i = choose|i: int|
            0 <= i < self.state().s && ((#[trigger] self.state().work[i]).vacant()
                || self.state().work[i].key_of() == EMPTY_KEY);
        self.lemma_state();
        assert(self.work_keys()[i] == self.stash@[i]);
        crate::key_stash::lemma_occupied_update(self.stash@, i, 0);
        crate::key_stash::lemma_occupied_update(self.stash@.update(i, 0), i, 0);
    }

    /// What an update does. Where the stash has no room the block is dropped and the path
    /// is not put back.
    pub open spec fn updated(
        &self,
        after: &Self,
        old_pos: u32,
        new_pos: u32,
        key: u32,
        background_paths: Seq<u32>,
        r: SimUpdate,
    ) -> bool {
        let block = Block32 { pos: new_pos, key, data: EMPTY_BLOCK_DATA };
        &&& after.sized()
        &&& after.same_frame(self)
        &&& after.labels@ == self.labels@.update(key as int, new_pos)
        &&& after.initialized@ == self.initialized@.update(key as int, true)
        &&& r.found == self.initialized@[key as int]
        &&& r.found == self.state().visible(old_pos as int, key)
        &&& r.overflowed == !self.state().has_room(key)
        &&& r.insertion_demand == occupied(self.stash@) + 1 - (if self.stash@.contains(key) {
            1int
        } else {
            0
        })
        &&& r.stash_after == occupied(after.stash@)
        &&& r.overflowed ==> after.tree == self.tree && after.stash@ == self.stash@ && r.stash_after
            + 1 == r.insertion_demand
        &&& !r.overflowed ==> {
            &&& after.wf()
            &&& after.state() == lanes_passed(
                lane_updated(self.state(), old_pos, block, self.b as int),
                background_paths,
                self.b as int,
                background_paths.len() as int,
            )
            &&& after.state().stored() == self.state().stored().insert(key, block)
        }
    }

    /// Simulates one update using the caller-provided old and fresh labels.
    pub fn update(&mut self, old_pos: u32, new_pos: u32, key: u32) -> (r: SimUpdate)
        requires
            old(self).wf(),
            old_pos < old(self).max_n,
            new_pos < old(self).max_n,
            new_pos != DUMMY_POS,
            key < old(self).labels@.len(),
            old(self).initialized@[key as int] ==> old(self).labels@[key as int] == old_pos,
        ensures
            old(self).updated(final(self), old_pos, new_pos, key, Seq::empty(), r),
    {
        let none: Vec<u32> = Vec::new();
        self.update_with_background_paths(old_pos, new_pos, key, &none)
    }

    /// Simulates one update followed by public, deterministic background-path evictions
    /// using the same root-admission and lane-propagation transition.
    pub fn update_with_background_paths(
        &mut self,
        old_pos: u32,
        new_pos: u32,
        key: u32,
        background_paths: &[u32],
    ) -> (r: SimUpdate)
        requires
            old(self).wf(),
            old_pos < old(self).max_n,
            new_pos < old(self).max_n,
            new_pos != DUMMY_POS,
            key < old(self).labels@.len(),
            old(self).initialized@[key as int] ==> old(self).labels@[key as int] == old_pos,
            forall|i: int|
                0 <= i < background_paths@.len() ==> #[trigger] background_paths@[i] < old(
                    self,
                ).max_n,
        ensures
            old(self).updated(final(self), old_pos, new_pos, key, background_paths@, r),
    {
        let ghost before = *self;
        let ghost st = self.state();
        let ghost p = old_pos as int;
        let ghost b = self.b as int;
        let ghost s = self.stash@.len() as int;
        let ghost block = Block32 { pos: new_pos, key, data: EMPTY_BLOCK_DATA };
        let ghost o = st.opened(p);
        let ghost taken = without_key32(o, key);
        proof {
            self.lemma_state();
            self.stash.lemma_stash();
            lemma_loaded_store(st, old_pos, b);
            st.lemma_one_slot_per_key(p);
            st.lemma_opened(p);
            if self.initialized@[key as int] {
                self.lemma_stored_label(key);
            }
            if st.visible(p, key) {
                let i = choose|i: int| 0 <= i < o.len() && holds_key(#[trigger] o[i], key);
                st.lemma_visible_is_stored(p, i);
            }
            lemma_without_key(st, p, key, block);
        }
        self.read_path(old_pos);
        let ghost loaded = *self;
        proof {
            assert forall|i: int| 0 <= i < o.len() implies (#[trigger] o[i]).key
                == loaded.work_keys()[i] && o[i] == block_of(loaded.labels@, loaded.work_keys()[i]) && (
            o[i].vacant() <==> loaded.work_keys()[i] == EMPTY_KEY) by {
                before.lemma_opened_blocks(p, i);
                loaded.lemma_state();
                assert(loaded.state().work[i] == block_of(
                    loaded.labels@,
                    loaded.work_keys()[i],
                ));
                assert(loaded.work_keys()[i] == EMPTY_KEY || loaded.work_keys()[i]
                    < loaded.labels@.len());
            }
            if loaded.stash@.contains(key) && loaded.path@.contains(key) {
                let i = choose|i: int| 0 <= i < loaded.stash@.len() && loaded.stash@[i] == key;
                let j = choose|j: int| 0 <= j < loaded.path@.len() && loaded.path@[j] == key;
                assert(loaded.work_keys()[i] == key && loaded.work_keys()[s + j] == key);
                assert(o[i].key == key && o[s + j].key == key);
            }
        }
        let found: bool = self.remove_key(key);
        proof {
            if loaded.work_keys().contains(key) {
                let i = choose|i: int|
                    0 <= i < loaded.work_keys().len() && loaded.work_keys()[i] == key;
                assert(holds_key(o[i], key));
            }
            if st.visible(p, key) {
                let i = choose|i: int| 0 <= i < o.len() && holds_key(#[trigger] o[i], key);
                assert(loaded.work_keys()[i] == key);
            }
            assert(self.state().work =~= taken) by {
                assert forall|i: int| 0 <= i < taken.len() implies self.state().work[i]
                    == #[trigger] taken[i] by {
                    assert(o[i].key == loaded.work_keys()[i]);
                }
            }
        }
        let ghost removed = *self;
        self.labels.set(key as usize, new_pos);
        self.initialized.set(key as usize, true);
        proof {
            assert forall|i: int| 0 <= i < self.work_keys().len() implies
                #[trigger] self.work_keys()[i] != key by {}
            assert(self.state().work =~= taken) by {
                assert forall|i: int| 0 <= i < taken.len() implies self.state().work[i]
                    == #[trigger] taken[i] by {
                    assert(self.work_keys()[i] == removed.work_keys()[i]);
                    assert(removed.state().work[i] == taken[i]);
                }
            }
            removed.stash.lemma_stash();
            removed.lemma_state();
            self.lemma_state();
            assert forall|k: int| 0 <= k < s && #[trigger] self.stash@[k] != EMPTY_KEY implies !block_of(
                self.labels@,
                self.stash@[k],
            ).vacant() by {
                assert(self.work_keys()[k] == self.stash@[k]);
            }
            assert forall|k: int| 0 <= k < s implies self.work_keys()[k] == #[trigger] self.stash@[k] by {}
            lemma_first_block(self.labels@, self.work_keys(), self.stash@, 0);
            lemma_first_vacant(taken, 0, s);
        }
        let insertion_demand: usize = self.stash.len() + 1;
        let slot: usize = match self.stash.first_empty() {
            Some(slot) => slot,
            None => {
                proof {
                    if st.has_room(key) {
                        let t = st.with_work(taken);
                        assert(t.has_vacancy());
                        let k = choose|k: int| 0 <= k < t.s && (#[trigger] t.work[k]).vacant();
                        assert(taken[k].vacant());
                    }
                    assert(self.stash@ =~= before.stash@);
                }
                return SimUpdate {
                    found,
                    insertion_demand,
                    stash_after: self.stash.len(),
                    overflowed: true,
                };
            },
        };
        let ghost ready = *self;
        proof {
            assert(taken[slot as int].vacant());
            assert(st.with_work(taken).has_vacancy());
            assert(st.has_room(key));
            assert(self.work_keys()[slot as int] == self.stash@[slot as int]);
            if self.stash@.contains(key) {
                let i = choose|i: int| 0 <= i < s && self.stash@[i] == key;
                assert(self.work_keys()[i] == key);
            }
        }
        self.stash.put(slot, key);
        let ghost full = *self;
        proof {
            assert(full.work_keys() =~= ready.work_keys().update(slot as int, key));
            assert(full.state().work =~= with_block(taken, s, block));
            assert forall|k: int|
                0 <= k < st.nodes.len() && !st.geo.path(p).contains(k) implies
                #[trigger] full.state().nodes[k] == st.nodes[k] by {
                assert forall|j: int| 0 <= j < self.z implies #[trigger] full.state().nodes[k][j]
                    == st.nodes[k][j] by {
                    before.lemma_not_off_path(key, p, k, j);
                    lemma_row_place(k, j, self.z as int, st.nodes.len() as int);
                    assert(before.tree@[k * self.z + j] == EMPTY_KEY || before.tree@[k * self.z + j]
                        < before.labels@.len());
                }
                assert(full.state().nodes[k] =~= st.nodes[k]);
            }
            lemma_finished_nodes(
                full.state(),
                st.with_work(with_block(taken, s, block)),
                old_pos,
                b,
            );
            lemma_lane_updated(st, old_pos, block, b);
        }
        self.evict_and_write(old_pos);
        let ghost first = self.state();
        assert(first == lane_updated(st, old_pos, block, b));
        let mut i: usize = 0;
        while i < background_paths.len()
            invariant
                i <= background_paths.len(),
                self.sized(),
                b == self.b,
                self.same_frame(&before),
                self.labels == full.labels,
                self.initialized == full.initialized,
                forall|j: int|
                    0 <= j < background_paths@.len() ==> #[trigger] background_paths@[j]
                        < before.max_n,
                self.state() == lanes_passed(first, background_paths@, b, i as int),
            decreases background_paths.len() - i,
        {
            let path: u32 = background_paths[i];
            self.read_path(path);
            self.evict_and_write(path);
            i += 1;
        }
        proof {
            lemma_lanes_passed(first, background_paths@, b, background_paths@.len() as int);
            assert(self.state().stored() == st.stored().insert(key, block));
            assert forall|k: u32| k < self.labels@.len() implies (#[trigger] self.initialized@[
                k as int
            ] <==> self.state().stored().contains_key(k)) by {
                if k != key {
                    assert(self.initialized@[k as int] == before.initialized@[k as int]);
                }
            }
        }
        SimUpdate { found, insertion_demand, stash_after: self.stash.len(), overflowed: false }
    }
}

/// There are at most `n` different keys below `n`.
proof fn lemma_distinct_below(keys: Seq<u32>, n: int)
    requires
        0 <= n,
        forall|i: int| 0 <= i < keys.len() ==> #[trigger] keys[i] < n,
        forall|i: int, j: int|
            0 <= i < j < keys.len() ==> #[trigger] keys[i] != #[trigger] keys[j],
    ensures
        keys.len() <= n,
{
    let s = keys.map_values(|k: u32| k as int);
    assert(s.no_duplicates()) by {
        assert forall|i: int, j: int| 0 <= i < s.len() && 0 <= j < s.len() && i != j implies s[i]
            != s[j] by {
            assert(keys[i] != keys[j]);
        }
    }
    s.unique_seq_to_set();
    vstd::set_lib::lemma_int_range(0, n);
    let below = vstd::set_lib::set_int_range(0, n);
    assert forall|x: int| #[trigger] s.to_set().contains(x) implies below.contains(x) by {
        let i = choose|i: int| 0 <= i < s.len() && s[i] == x;
        assert(keys[i] < n);
    }
    vstd::set_lib::lemma_len_subset(s.to_set(), below);
}

} // verus!
