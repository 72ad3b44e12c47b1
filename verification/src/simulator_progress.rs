//! What the background paths of the lane ORAM simulator achieve.
use vstd::prelude::*;
use crate::circuit_laws::{lemma_live_bounds, live};
use crate::heap_tree::{full_width, lemma_full_width};
use crate::key_stash::occupied;
use crate::lane_oram::{without_key32, Block32, EMPTY_BLOCK_DATA};
use crate::lane_oram_sim::{block_of, LaneOramSimulator, SimUpdate};
use crate::lane_path_laws::{
    free_lanes, lane_slot, lemma_live_blocks, lemma_passed_progress, lemma_updated_progress,
    may_reach, store_progress,
};
use crate::lane_transition::{lane_updated, lanes_passed};
use crate::oblivious::ObliviousBlock;
use crate::path_access::with_block;
use crate::path_store::{lemma_row_place, PathState};
use crate::stash_index::EMPTY_KEY;
use crate::wide_heap_tree::{full_nodes, prefix_index, same_prefix};

verus! {

/// Passes look at no more paths than they take.
proof fn lemma_passed_prefix(
    st: PathState<Block32>,
    paths: Seq<u32>,
    more: Seq<u32>,
    b: int,
    n: int,
)
    requires
        n <= paths.len(),
        n <= more.len(),
        forall|i: int| 0 <= i < n ==> #[trigger] paths[i] == more[i],
    ensures
        lanes_passed(st, paths, b, n) == lanes_passed(st, more, b, n),
    decreases n,
{
    if n > 0 {
        lemma_passed_prefix(st, paths, more, b, n - 1);
        assert(paths[n - 1] == more[n - 1]);
    }
}

/// As many slots hold a key as hold the block of one.
proof fn lemma_occupied_live(k: Seq<u32>, s: Seq<Block32>)
    requires
        k.len() == s.len(),
        forall|i: int| 0 <= i < k.len() ==> (#[trigger] k[i] == EMPTY_KEY <==> s[i].vacant()),
    ensures
        occupied(k) == live(s),
    decreases k.len(),
{
    if k.len() > 0 {
        let n = k.len() - 1;
        assert(k[n] == EMPTY_KEY <==> s[n].vacant());
        assert forall|i: int| 0 <= i < n implies (#[trigger] k.drop_last()[i] == EMPTY_KEY
            <==> s.drop_last()[i].vacant()) by {
            assert(k[i] == EMPTY_KEY <==> s[i].vacant());
        }
        lemma_occupied_live(k.drop_last(), s.drop_last());
    }
}

impl LaneOramSimulator {
    /// The key in the slot of a lane at level `l` of the path to `leaf`.
    pub open spec fn lane_key(&self, leaf: int, lane: int, l: int) -> u32 {
        self.path_keys(leaf)[l * self.z + lane]
    }

    /// The number of lanes that are free in the root.
    pub open spec fn free_root_lanes(&self) -> int {
        self.z - occupied(self.tree@.take(self.z as int))
    }

    proof fn lemma_path_slots(&self, leaf: int)
        requires
            self.sized(),
            0 <= leaf < self.max_n,
        ensures
            forall|lane: int, l: int|
                0 <= lane < self.z && 0 <= l < self.height ==> ({
                    let k = #[trigger] self.lane_key(leaf, lane, l);
                    let c = lane_slot(
                        self.state().opened(leaf),
                        self.state().s,
                        self.z as int,
                        lane,
                        l,
                    );
                    &&& c == block_of(self.labels@, k)
                    &&& c.vacant() <==> k == EMPTY_KEY
                    &&& c.key == k
                }),
            live(self.state().opened(leaf).take(self.state().s)) == occupied(self.stash@),
            free_lanes(self.state().opened(leaf), self.state().s, self.z as int)
                == self.free_root_lanes(),
    {
        let st = self.state();
        let s = st.s;
        let z = self.z as int;
        let h = self.height as int;
        let o = st.opened(leaf);
        self.lemma_state();
        st.lemma_opened(leaf);
        assert forall|lane: int, l: int| 0 <= lane < z && 0 <= l < h implies ({
            let k = #[trigger] self.lane_key(leaf, lane, l);
            let c = lane_slot(o, s, z, lane, l);
            &&& c == block_of(self.labels@, k)
            &&& c.vacant() <==> k == EMPTY_KEY
            &&& c.key == k
        }) by {
            lemma_row_place(l, lane, z, h);
            self.lemma_opened_blocks(leaf, s + l * z + lane);
        }
        assert forall|i: int| 0 <= i < s implies (#[trigger] self.stash@[i] == EMPTY_KEY
            <==> o.take(s)[i].vacant()) by {
            self.lemma_opened_blocks(leaf, i);
        }
        lemma_occupied_live(self.stash@, o.take(s));
        let root = self.tree@.take(z);
        lemma_full_width(h - 1, self.b as int);
        vstd::arithmetic::div_mod::lemma_basic_div(leaf, full_width(h - 1, self.b as int));
        assert(prefix_index(self.b as int, h, 0, leaf) == 0) by {
            assert(full_nodes(self.b as int, 0) == 0);
        }
        lemma_row_place(0, z - 1, z, h);
        crate::wide_heap_tree::lemma_full_nodes_grows(self.b as int, 0, h - 1);
        crate::wide_heap_tree::lemma_prefix_index_bounds(self.b as int, h, 0, leaf);
        lemma_row_place(0, z - 1, z, full_nodes(self.b as int, h));
        assert forall|j: int| 0 <= j < z implies (#[trigger] root[j] == EMPTY_KEY <==> o.subrange(
            s,
            s + z,
        )[j].vacant()) by {
            lemma_row_place(0, j, z, h);
            self.lemma_opened_blocks(leaf, s + j);
            vstd::arithmetic::div_mod::lemma_fundamental_div_mod_converse(j, z, 0, j);
            assert(self.path_key(leaf, j) == self.tree@[j]);
        }
        lemma_occupied_live(root, o.subrange(s, s + z));
    }

    /// A background path is evicted as an accessed one is. `a` is what an update leaves with
    /// the background paths `paths`, and `c` what it leaves with `path` as one more. Then the
    /// path to `path` is evicted from `a` on, and nothing else changes: the free lanes of the
    /// root take keys out of the stash, as many as there are of both, and a key with an empty
    /// slot below it in its lane, which its label lets it go to, gets deeper.
    pub proof fn lemma_background_path(
        &self,
        a: &Self,
        c: &Self,
        old_pos: u32,
        new_pos: u32,
        key: u32,
        paths: Seq<u32>,
        path: u32,
        ra: SimUpdate,
        rc: SimUpdate,
    )
        requires
            self.wf(),
            key < self.labels@.len(),
            path < self.max_n,
            self.updated(a, old_pos, new_pos, key, paths, ra),
            self.updated(c, old_pos, new_pos, key, paths.push(path), rc),
            !ra.overflowed,
        ensures
            !rc.overflowed,
            rc.found == ra.found,
            rc.insertion_demand == ra.insertion_demand,
            c.labels@ == a.labels@,
            store_progress(
                a.state(),
                a.state().opened(path as int),
                c.state(),
                path,
                self.b as int,
            ),
            rc.stash_after == (if ra.stash_after > a.free_root_lanes() {
                ra.stash_after - a.free_root_lanes()
            } else {
                0
            }),
            ra.stash_after > 0 && a.free_root_lanes() > 0 ==> rc.stash_after < ra.stash_after,
            forall|lane: int, e: int, l: int|
                #![trigger a.lane_key(path as int, lane, e), a.lane_key(path as int, lane, l)]
                0 <= lane < self.z && 0 <= e < l < self.height && a.lane_key(path as int, lane, e)
                    != EMPTY_KEY && same_prefix(
                    self.b as int,
                    self.height as int,
                    l,
                    a.labels@[a.lane_key(path as int, lane, e) as int] as int,
                    path as int,
                ) && a.lane_key(path as int, lane, l) == EMPTY_KEY ==> exists|k: int|
                    e < k <= l && #[trigger] c.lane_key(path as int, lane, k) == a.lane_key(
                        path as int,
                        lane,
                        e,
                    ),
    {
        let st = self.state();
        let b = self.b as int;
        let p = path as int;
        let n = paths.len() as int;
        let block = Block32 { pos: new_pos, key, data: EMPTY_BLOCK_DATA };
        let u = lane_updated(st, old_pos, block, b);
        let more = paths.push(path);
        lemma_passed_prefix(u, paths, more, b, n);
        assert(more[n] == path);
        a.lemma_state();
        c.lemma_state();
        lemma_passed_progress(a.state(), path, b);
        a.lemma_path_slots(p);
        c.lemma_path_slots(p);
        let x = a.state().opened(p);
        let y = c.state().opened(p);
        let s = a.state().s;
        let z = self.z as int;
        lemma_live_blocks(x.take(s));
        lemma_live_blocks(y.take(s));
        lemma_row_place(0, z - 1, z, self.height as int);
        lemma_live_bounds(x.subrange(s, s + z));
        assert forall|lane: int, e: int, l: int|
            #![trigger a.lane_key(path as int, lane, e), a.lane_key(path as int, lane, l)]
            0 <= lane < self.z && 0 <= e < l < self.height && a.lane_key(path as int, lane, e)
                != EMPTY_KEY && same_prefix(
                self.b as int,
                self.height as int,
                l,
                a.labels@[a.lane_key(path as int, lane, e) as int] as int,
                path as int,
            ) && a.lane_key(path as int, lane, l) == EMPTY_KEY implies exists|k: int|
            e < k <= l && #[trigger] c.lane_key(path as int, lane, k) == a.lane_key(
                path as int,
                lane,
                e,
            ) by {
            let from = lane_slot(x, s, z, lane, e);
            assert(may_reach(from, path, b, self.height as int, l));
            assert(lane_slot(x, s, z, lane, l).vacant());
            let k = choose|k: int| e < k <= l && #[trigger] lane_slot(y, s, z, lane, k) == from;
            assert(c.lane_key(p, lane, k) == a.lane_key(p, lane, e));
        }
    }

    /// The accessed path is evicted too, with the key in the stash under its new label.
    pub proof fn lemma_accessed_path(
        &self,
        after: &Self,
        old_pos: u32,
        new_pos: u32,
        key: u32,
        r: SimUpdate,
    )
        requires
            self.wf(),
            key < self.labels@.len(),
            old_pos < self.max_n,
            new_pos < self.max_n,
            new_pos != crate::lane_oram::DUMMY_POS,
            self.updated(after, old_pos, new_pos, key, Seq::empty(), r),
            !r.overflowed,
        ensures
            ({
                let block = Block32 { pos: new_pos, key, data: EMPTY_BLOCK_DATA };
                let st = self.state();
                store_progress(
                    st,
                    with_block(without_key32(st.opened(old_pos as int), key), st.s, block),
                    after.state(),
                    old_pos,
                    self.b as int,
                )
            }),
    {
        let block = Block32 { pos: new_pos, key, data: EMPTY_BLOCK_DATA };
        self.lemma_state();
        lemma_updated_progress(self.state(), old_pos, block, self.b as int);
    }
}

} // verus!
