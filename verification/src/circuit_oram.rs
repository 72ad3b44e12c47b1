//! Circuit ORAM for values of any plain type.
//!
//! The position map belongs to the caller: every access takes the current and the next
//! position of the block.
use vstd::prelude::*;
use crate::circuit::{column_fits, column_settled, column_size, evict_column, lasting, level_all};
use crate::heap_tree::{full_width, lemma_full_width, lemma_full_width_grows, HeapTree};
use crate::oblivious::{cmov_i64, cmov_u32, cmov_usize, ObliviousBlock, ObliviousValue};
use crate::path_access::{
    access, evictions, finishes, lemma_no_eviction, lemma_one_more_eviction, lemma_put_is_first,
    lemma_rows_put_back, lemma_taken, path_depths, put_back, settles, without_key,
};
use crate::path_store::{holds_key, keys, put_first, take_key, PathBlock, PathState};
use crate::prelude::{apply_update, binary_shape, ceil_pow2, filled, PositionType, DUMMY_POS, K};
use crate::suffix::{common_suffix_length, lemma_shared_bits, meets, shared_bits};
use crate::tally::{one_per_key, tally};

verus! {

/// Number of blocks in a bucket.
pub const Z: usize = 2;

/// Number of stash slots.
pub const S: usize = 20;

/// Evictions along public paths after every access.
pub const EVICTIONS_PER_OP: usize = 2;

/// A slot: the leaf, the key and the value of its block. Without a leaf it is vacant.
#[derive(Debug)]
pub struct Block<V: ObliviousValue> {
    /// The leaf that the block belongs to.
    pub pos: PositionType,
    /// The key of the block.
    pub key: K,
    /// The value of the block.
    pub value: V,
}

impl<V: ObliviousValue> Clone for Block<V> {
    fn clone(&self) -> (r: Self)
        ensures
            r == *self,
    {
        *self
    }
}

impl<V: ObliviousValue> Copy for Block<V> {

}

impl<V: ObliviousValue> Default for Block<V> {
    fn default() -> (r: Self)
        ensures
            r == Self::blank(),
    {
        Block { pos: DUMMY_POS, key: 0, value: V::zeroed() }
    }
}

impl<V: ObliviousValue> Block<V> {
    /// Whether the slot holds nothing.
    pub fn is_empty(&self) -> (r: bool)
        ensures
            r == self.vacant(),
    {
        self.pos == DUMMY_POS
    }
}

impl<V: ObliviousValue> ObliviousBlock for Block<V> {
    open spec fn vacant(self) -> bool {
        self.pos == DUMMY_POS
    }

    open spec fn vacated(self) -> Self {
        Block { pos: DUMMY_POS, ..self }
    }

    open spec fn blank() -> Self {
        Block { pos: DUMMY_POS, key: 0, value: V::zero() }
    }

    proof fn lemma_vacancy(self) {
    }

    fn is_vacant(&self) -> (r: bool) {
        self.is_empty()
    }

    fn fresh() -> (r: Self) {
        Block::default()
    }

    fn select(&mut self, other: &Self, choice: bool) {
        cmov_u32(&mut self.pos, other.pos, choice);
        cmov_usize(&mut self.key, other.key, choice);
        self.value.assign_if(&other.value, choice);
    }

    fn vacate(&mut self, choice: bool) {
        cmov_u32(&mut self.pos, DUMMY_POS, choice);
    }
}

impl<V: ObliviousValue> PathBlock for Block<V> {
    open spec fn key_of(self) -> u32 {
        self.key as u32
    }

    open spec fn leaf_of(self) -> int {
        self.pos as int
    }

    fn own_key(&self) -> (r: u32) {
        #[verifier::truncate]
        (self.key as u32)
    }
}

/// A node of the tree.
#[derive(Debug)]
pub struct Bucket<V: ObliviousValue>(pub [Block<V>; Z]);

impl<V: ObliviousValue> Clone for Bucket<V> {
    fn clone(&self) -> (r: Self)
        ensures
            r == *self,
    {
        *self
    }
}

impl<V: ObliviousValue> Copy for Bucket<V> {

}

/// The blocks of every bucket.
pub open spec fn bucket_rows<V: ObliviousValue>(t: Seq<Bucket<V>>) -> Seq<Seq<Block<V>>> {
    Seq::new(t.len(), |k: int| t[k].0@)
}

/// How deep a block may go on the path to `path`; vacant slots have depth -1.
pub open spec fn depth_of<V: ObliviousValue>(b: Block<V>, path: PositionType) -> i64 {
    if b.vacant() {
        (-1) as i64
    } else {
        shared_bits(b.pos as int, path as int, 32) as i64
    }
}

/// [`depth_of`] every slot.
pub open spec fn depths<V: ObliviousValue>(s: Seq<Block<V>>, path: PositionType) -> Seq<i64> {
    Seq::new(s.len(), |i: int| depth_of(s[i], path))
}

/// A pass over an open path that is then put back settles it.
proof fn lemma_settled<V: ObliviousValue>(
    st: PathState<Block<V>>,
    moved: PathState<Block<V>>,
    after: PathState<Block<V>>,
    pos: PositionType,
)
    requires
        st.s == S,
        st.w == 2,
        column_settled(st.work, depths(st.work, pos), moved.work, S + 2, 2, st.geo.h),
        moved == st.with_work(moved.work),
        after == (PathState { nodes: put_back(moved, pos as int), ..moved }),
    ensures
        settles(st, after, pos as int),
{
    assert(depths(st.work, pos) =~= path_depths(st.work, pos as int));
}

/// Circuit ORAM with values of type `V`.
#[derive(Debug)]
pub struct CircuitORAM<V: ObliviousValue> {
    /// Logical capacity, rounded up to a power of two.
    pub max_n: usize,
    /// Height of the tree.
    pub h: usize,
    /// The stash, followed by room for the blocks of one path.
    pub stash: Vec<Block<V>>,
    /// The tree.
    pub tree: HeapTree<Bucket<V>>,
    /// The next path of the deterministic evictions.
    pub evict_counter: PositionType,
}

impl<V: ObliviousValue> View for CircuitORAM<V> {
    type V = Map<u32, Block<V>>;

    /// The stored block of every stored key.
    open spec fn view(&self) -> Map<u32, Block<V>> {
        self.state().stored()
    }
}

impl<V: ObliviousValue> CircuitORAM<V> {
    /// The blocks and where they are.
    pub open spec fn state(&self) -> PathState<Block<V>> {
        PathState {
            geo: self.tree.geometry(),
            s: S as int,
            w: Z as int,
            nodes: bucket_rows(self.tree.tree@),
            work: self.stash@,
        }
    }

    /// The sizes fit together.
    pub open spec fn shape(&self) -> bool {
        &&& 2 <= self.h <= 32
        &&& self.max_n == full_width(self.h - 1, 2)
        &&& self.max_n <= 0x8000_0000
        &&& self.tree.wf()
        &&& self.tree.height == self.h
        &&& self.tree.branching_factor == 2
        &&& self.tree.leaf_count == self.max_n
        &&& self.stash.len() == S + 2 * self.h
        &&& self.evict_counter < self.max_n
    }

    /// The ORAM is at rest.
    pub open spec fn wf(&self) -> bool {
        &&& self.shape()
        &&& self.state().at_rest()
    }

    /// The path to `pos` is in the stash buffer.
    pub open spec fn open_at(&self, pos: PositionType) -> bool {
        &&& self.shape()
        &&& self.state().open_at(pos as int)
        &&& one_per_key(self.state().open_count(pos as int), keys())
    }

    /// What no access changes.
    pub open spec fn same_frame(&self, other: &Self) -> bool {
        &&& self.max_n == other.max_n
        &&& self.h == other.h
    }

    /// The value that an access to `key` starts from.
    pub open spec fn value_at(&self, key: K) -> V {
        if self@.contains_key(key as u32) {
            self@[key as u32].value
        } else {
            V::zero()
        }
    }

    /// The sizes of the state are those of the ORAM.
    pub(crate) proof fn lemma_state(&self)
        requires
            self.shape(),
        ensures
            self.state().shape(),
            self.state().geo.h == self.h,
            self.state().geo.leaves == self.max_n,
    {
        self.tree.lemma_geometry();
        let st = self.state();
        assert(st.geo.h * st.w == 2 * self.h) by (nonlinear_arith)
            requires
                st.w == 2,
                st.geo.h == self.h,
        ;
        assert forall|k: int| 0 <= k < st.nodes.len() implies (#[trigger] st.nodes[k]).len()
            == st.w by {}
    }

    /// An empty ORAM for `max_n` blocks that nothing has been done to.
    pub open spec fn is_new(&self, max_n: int) -> bool {
        &&& self.wf()
        &&& self@ == Map::<u32, Block<V>>::empty()
        &&& self.max_n == ceil_pow2(if max_n < 2 { 2 } else { max_n })
        &&& self.evict_counter == 0
        &&& self.vacant_from(0)
        &&& self.stash@ == Seq::new((S + self.h * Z) as nat, |i: int| Block::<V>::blank())
        &&& forall|i: int, j: int|
            0 <= i < self.tree.tree@.len() && 0 <= j < Z ==> (#[trigger] self.tree.tree@[i].0[j])
                == Block::<V>::blank()
    }

    /// Creates an ORAM for keys below `max_n` that stores nothing.
    pub fn new(max_n: usize) -> (r: Self)
        requires
            0 < max_n <= 0x8000_0000,
        ensures
            r.is_new(max_n as int),
            max_n <= r.max_n,
    {
        let wanted: usize = if max_n < 2 {
            2
        } else {
            max_n
        };
        let (rounded, h): (usize, usize) = binary_shape(wanted);
        let block: Block<V> = Block::default();
        let bucket: Bucket<V> = Bucket([block, block]);
        let r = CircuitORAM {
            max_n: rounded,
            h,
            stash: filled(block, S + h * Z),
            tree: HeapTree::new_with(h, bucket),
            evict_counter: 0,
        };
        proof {
            assert forall|k: int| 0 <= k < r.tree.tree.len() implies #[trigger] r.tree.tree@[k]
                == bucket by {
                assert(cloned(bucket, r.tree.tree[k]));
            }
            r.lemma_state();
            let st = r.state();
            assert forall|k: int, j: int|
                #![trigger st.nodes[k][j]]
                0 <= k < st.nodes.len() && 0 <= j < st.w implies st.nodes[k][j].vacant() by {
                assert(r.tree.tree@[k] == bucket);
                assert(j == 0 || j == 1);
            }
            st.lemma_empty();
        }
        r
    }

    /// The stash slots from `m` on are vacant.
    pub open spec fn vacant_from(&self, m: int) -> bool {
        forall|i: int| m <= i < S && 0 <= i ==> (#[trigger] self.stash@[i]).vacant()
    }

    /// Copies the path to `pos` behind the stash.
    pub fn read_path_and_get_nodes(&mut self, pos: PositionType)
        requires
            old(self).wf(),
            pos < old(self).max_n,
        ensures
            final(self).stash@ == old(self).state().opened(pos as int),
            final(self).tree == old(self).tree,
            final(self).same_frame(old(self)),
            final(self).evict_counter == old(self).evict_counter,
            final(self).open_at(pos),
            final(self).state().open_stored(pos as int) == old(self)@,
            final(self).state().stash_not_filled(old(self).state()),
    {
        let ghost before = *self;
        let ghost st = self.state();
        let ghost o = st.opened(pos as int);
        proof {
            self.lemma_state();
            st.lemma_opened(pos as int);
            st.lemma_open(pos as int);
        }
        let mut d: usize = 0;
        while d < self.h
            invariant
                d <= self.h,
                before.wf(),
                st == before.state(),
                pos < before.max_n,
                self.tree == before.tree,
                self.same_frame(&before),
                self.evict_counter == before.evict_counter,
                self.stash.len() == before.stash.len(),
                o == st.opened(pos as int),
                o.len() == self.stash.len(),
                st.with_work(o).stash() == st.stash(),
                forall|e: int, j: int|
                    #![trigger st.with_work(o).slot(e, j)]
                    0 <= e < st.geo.h && 0 <= j < st.w ==> st.with_work(o).slot(e, j)
                        == st.nodes[(st.geo.index)(e, pos as int)][j],
                forall|k: int| 0 <= k < S ==> #[trigger] self.stash@[k] == before.stash@[k],
                forall|k: int| S <= k < S + 2 * d ==> #[trigger] self.stash@[k] == o[k],
            decreases self.h - d,
        {
            let index: usize = self.tree.get_index(d, pos);
            let bucket: Bucket<V> = self.tree.tree[index];
            self.stash.set(S + 2 * d, bucket.0[0]);
            self.stash.set(S + 2 * d + 1, bucket.0[1]);
            proof {
                assert(st.s == S && st.w == 2);
                assert(d * st.w == 2 * d);
                assert(st.with_work(o).slot(d as int, 0) == o[S + 2 * d]);
                assert(st.with_work(o).slot(d as int, 1) == o[S + 2 * d + 1]);
                assert((st.geo.index)(d as int, pos as int) == index);
            }
            d += 1;
        }
        proof {
            assert forall|k: int| 0 <= k < S implies #[trigger] o[k] == before.stash@[k] by {
                assert(st.with_work(o).stash()[k] == st.stash()[k]);
            }
            assert(self.stash@ =~= o);
            assert(self.state() == st.with_work(o));
        }
    }

    /// Writes the path behind the stash back to the tree.
    pub fn write_back_path(&mut self, pos: PositionType)
        requires
            old(self).open_at(pos),
        ensures
            final(self).wf(),
            final(self)@ == old(self).state().open_stored(pos as int),
            final(self).stash == old(self).stash,
            final(self).same_frame(old(self)),
            final(self).evict_counter == old(self).evict_counter,
            final(self).tree.same_shape(&old(self).tree),
            forall|d: int, j: int|
                0 <= d < old(self).h && 0 <= j < Z ==> #[trigger] final(self).tree.node(
                    d,
                    pos as int,
                ).0@[j] == old(self).stash@[S + 2 * d + j],
            forall|k: int|
                0 <= k < old(self).tree.tree.len() && !old(self).tree.path_indices(
                    pos as int,
                ).contains(k) ==> #[trigger] final(self).tree.tree@[k] == old(self).tree.tree@[k],
            final(self).state().nodes == put_back(old(self).state(), pos as int),
    {
        let ghost before = *self;
        let ghost at = self.tree.path_indices(pos as int);
        proof {
            self.tree.lemma_path_indices(pos as int);
        }
        let mut d: usize = 0;
        while d < self.h
            invariant
                d <= self.h,
                before.open_at(pos),
                pos < before.max_n,
                self.stash == before.stash,
                self.same_frame(&before),
                self.evict_counter == before.evict_counter,
                self.tree.wf(),
                self.tree.same_shape(&before.tree),
                at == before.tree.path_indices(pos as int),
                forall|e: int| 0 <= e < self.h ==> 0 <= #[trigger] at[e] < self.tree.tree.len(),
                forall|e: int, f: int|
                    0 <= e < f < self.h ==> #[trigger] at[e] != #[trigger] at[f],
                forall|e: int|
                    0 <= e < d ==> (#[trigger] self.tree.tree@[at[e]]).0@ == seq![
                        before.stash@[S + 2 * e],
                        before.stash@[S + 2 * e + 1],
                    ],
                forall|k: int|
                    0 <= k < before.tree.tree.len() && !at.contains(k)
                        ==> #[trigger] self.tree.tree@[k] == before.tree.tree@[k],
            decreases self.h - d,
        {
            let index: usize = self.tree.get_index(d, pos);
            let bucket: Bucket<V> = Bucket([self.stash[S + 2 * d], self.stash[S + 2 * d + 1]]);
            assert(at[d as int] == index);
            assert(at.contains(index as int));
            self.tree.tree.set(index, bucket);
            assert(bucket.0@ =~= seq![
                before.stash@[S + 2 * d],
                before.stash@[S + 2 * d + 1],
            ]);
            d += 1;
        }
        proof {
            assert forall|e: int| 0 <= e < before.h implies (#[trigger] self.tree.node(
                e,
                pos as int,
            )).0@ == seq![before.stash@[S + 2 * e], before.stash@[S + 2 * e + 1]] by {
                assert(self.tree.node(e, pos as int) == self.tree.tree@[at[e]]);
            }
            before.lemma_stored(self, pos);
        }
    }

    /// With the path written back to the tree, the ORAM is at rest.
    proof fn lemma_stored(&self, after: &Self, pos: PositionType)
        requires
            self.open_at(pos),
            after.stash == self.stash,
            after.same_frame(self),
            after.evict_counter == self.evict_counter,
            after.tree.wf(),
            after.tree.same_shape(&self.tree),
            forall|d: int|
                0 <= d < self.h ==> (#[trigger] after.tree.node(d, pos as int)).0@ == seq![
                    self.stash@[S + 2 * d],
                    self.stash@[S + 2 * d + 1],
                ],
            forall|k: int|
                0 <= k < self.tree.tree.len() && !self.tree.path_indices(pos as int).contains(k)
                    ==> #[trigger] after.tree.tree@[k] == self.tree.tree@[k],
        ensures
            after.wf(),
            after@ == self.state().open_stored(pos as int),
            after.state().nodes == put_back(self.state(), pos as int),
    {
        let st = self.state();
        self.lemma_state();
        self.tree.lemma_geometry();
        let nodes = bucket_rows(after.tree.tree@);
        assert(st.geo.path(pos as int) == self.tree.path_indices(pos as int));
        assert forall|d: int| 0 <= d < st.geo.h implies nodes[#[trigger] (st.geo.index)(
            d,
            pos as int,
        )] == st.row(d) by {
            self.tree.lemma_index_in_tree(d, pos as int);
            assert(after.tree.node(d, pos as int).0@ == seq![
                self.stash@[S + 2 * d],
                self.stash@[S + 2 * d + 1],
            ]);
            assert(st.slot(d, 0) == self.stash@[S + 2 * d]);
            assert(st.slot(d, 1) == self.stash@[S + 2 * d + 1]);
            assert(nodes[(st.geo.index)(d, pos as int)] =~= st.row(d));
        }
        assert forall|k: int|
            0 <= k < nodes.len() && !st.geo.path(pos as int).contains(
                k,
            ) implies #[trigger] nodes[k] == st.nodes[k] by {
            assert(after.tree.tree@[k] == self.tree.tree@[k]);
        }
        st.lemma_close(pos as int, nodes);
        lemma_rows_put_back(st, nodes, pos as int);
        assert(after.state() == (PathState { nodes, ..st }));
    }

    /// Circuit ORAM's `EvictOnceFast` on the stash and the path behind it: blocks move
    /// down the path to `pos` as [`crate::circuit::column_settled`] says.
    pub fn evict_once_fast(&mut self, pos: PositionType)
        requires
            2 <= old(self).h <= 32,
            old(self).stash.len() == S + 2 * old(self).h,
        ensures
            column_settled(
                old(self).stash@,
                depths(old(self).stash@, pos),
                final(self).stash@,
                S + 2,
                2,
                old(self).h as int,
            ),
            forall|b: Block<V>| #[trigger]
                tally(final(self).stash@, b) == tally(old(self).stash@, b),
            final(self).stash.len() == old(self).stash.len(),
            final(self).tree == old(self).tree,
            final(self).same_frame(old(self)),
            final(self).evict_counter == old(self).evict_counter,
            old(self).open_at(pos) ==> final(self).open_at(pos) && final(self).state().open_stored(
                pos as int,
            ) == old(self).state().open_stored(pos as int) && final(self).state().stash_not_filled(
                old(self).state(),
            ),
    {
        let ghost before = *self;
        let ghost s0 = self.stash@;
        let n: usize = self.stash.len();
        let mut found: Vec<i64> = Vec::new();
        let mut i: usize = 0;
        while i < n
            invariant
                i <= n == s0.len(),
                s0 == self.stash@,
                found@ == depths(s0, pos).take(i as int),
            decreases n - i,
        {
            let shared: i64 = common_suffix_length(self.stash[i].pos, pos) as i64;
            let mut depth: i64 = -1;
            cmov_i64(&mut depth, shared, !self.stash[i].is_empty());
            found.push(depth);
            proof {
                assert(depths(s0, pos).take(i + 1) =~= depths(s0, pos).take(i as int).push(depth));
            }
            i += 1;
        }
        let ghost kept = |c: Block<V>| true;
        proof {
            assert(depths(s0, pos).take(n as int) =~= depths(s0, pos));
            assert(lasting(kept));
            assert(level_all(s0, kept));
            assert(column_fits(s0, found@, S + 2)) by {
                assert forall|k: int| 0 <= k < s0.len() implies {
                    &&& -1 <= #[trigger] found@[k]
                    &&& s0[k].vacant() ==> found@[k] == -1
                    &&& k >= S + 2 && !s0[k].vacant() ==> found@[k] != -1
                } by {
                    lemma_shared_bits(s0[k].pos as int, pos as int, 32);
                    assert(found@[k] == depths(s0, pos)[k]);
                }
            }
            assert(column_size(s0, S + 2, 2, self.h as int));
        }
        evict_column(&mut self.stash, &found, S + Z, Z, self.h, Ghost(kept));
        proof {
            if before.open_at(pos) {
                let st = before.state();
                before.lemma_state();
                assert forall|k: int, l: int|
                    0 <= k < st.work.len() && !st.work[k].vacant() && 0 <= l < st.geo.h && l
                        <= found@[k] implies #[trigger] st.geo.allows(
                    l,
                    pos as int,
                    st.work[k].leaf_of(),
                ) by {
                    let b = st.work[k];
                    before.lemma_slot_leaf(pos, k);
                    lemma_shared_bits(b.pos as int, pos as int, 32);
                    assert(found@[k] == depths(s0, pos)[k]);
                    assert(meets(b.pos as int, pos as int, l));
                }
                st.lemma_evicted(pos as int, found@, self.stash@);
                assert(self.state() == st.with_work(self.stash@));
            }
        }
    }

    /// A block in the open stash buffer belongs to a leaf.
    proof fn lemma_slot_leaf(&self, pos: PositionType, k: int)
        requires
            self.open_at(pos),
            0 <= k < self.stash.len(),
            !self.stash@[k].vacant(),
        ensures
            self.stash@[k].pos < self.max_n,
    {
        let st = self.state();
        if k >= S {
            let d = (k - S) / 2;
            let j = (k - S) % 2;
            assert(S + d * 2 + j == k);
            assert(st.slot(d, j) == self.stash@[k]);
        } else {
            assert(st.work[k] == self.stash@[k]);
        }
    }

    /// Evicts along the path to `pos`.
    fn perform_eviction(&mut self, pos: PositionType)
        requires
            old(self).wf(),
            pos < old(self).max_n,
        ensures
            final(self).wf(),
            final(self)@ == old(self)@,
            final(self).same_frame(old(self)),
            final(self).evict_counter == old(self).evict_counter,
            final(self).state().stash_not_filled(old(self).state()),
            settles(
                old(self).state().with_work(old(self).state().opened(pos as int)),
                final(self).state(),
                pos as int,
            ),
    {
        self.read_path_and_get_nodes(pos);
        let ghost open = self.state();
        self.evict_once_fast(pos);
        let ghost moved = self.state();
        self.write_back_path(pos);
        proof {
            lemma_settled(open, moved, self.state(), pos);
        }
    }

    /// Evicts along the next public paths.
    fn perform_deterministic_evictions(&mut self)
        requires
            old(self).wf(),
        ensures
            final(self).wf(),
            final(self)@ == old(self)@,
            final(self).same_frame(old(self)),
            final(self).evict_counter == (old(self).evict_counter + EVICTIONS_PER_OP)
                % old(self).max_n as int,
            final(self).state().stash_not_filled(old(self).state()),
            evictions(
                old(self).state(),
                final(self).state(),
                old(self).evict_counter as int,
                EVICTIONS_PER_OP as int,
            ),
    {
        let mut i: usize = 0;
        let ghost m = self.max_n as int;
        proof {
            lemma_no_eviction(self.state(), self.evict_counter as int);
            self.lemma_state();
            lemma_full_width_grows(1, self.h - 1, 2);
            lemma_full_width(0, 2);
            vstd::arithmetic::div_mod::lemma_small_mod(self.evict_counter as nat, m as nat);
        }
        while i < EVICTIONS_PER_OP
            invariant
                i <= EVICTIONS_PER_OP,
                self.wf(),
                self@ == old(self)@,
                self.same_frame(old(self)),
                m == self.max_n,
                m >= 2,
                self.evict_counter == (old(self).evict_counter + i) % m,
                self.state().stash_not_filled(old(self).state()),
                old(self).state().geo.leaves == m,
                evictions(
                    old(self).state(),
                    self.state(),
                    old(self).evict_counter as int,
                    i as int,
                ),
            decreases EVICTIONS_PER_OP - i,
        {
            let pos: PositionType = self.evict_counter;
            let ghost mid = self.state();
            self.perform_eviction(pos);
            let ghost before = *self;
            self.evict_counter = (self.evict_counter + 1) % self.max_n as PositionType;
            proof {
                assert(self.state() == before.state());
                lemma_one_more_eviction(
                    old(self).state(),
                    mid,
                    self.state(),
                    old(self).evict_counter as int,
                    i as int,
                );
                vstd::arithmetic::div_mod::lemma_add_mod_noop(old(self).evict_counter + i, 1, m);
                vstd::arithmetic::div_mod::lemma_small_mod(1, m as nat);
                vstd::arithmetic::div_mod::lemma_mod_bound(before.evict_counter + 1, m);
            }
            i += 1;
        }
    }

    /// An access to `key` must name the path of its block while that is stored.
    pub open spec fn may_access(&self, pos: PositionType, key: K) -> bool {
        &&& self.wf()
        &&& pos < self.max_n
        &&& key <= u32::MAX
        &&& self@.contains_key(key as u32) ==> self.state().visible(pos as int, key as u32)
    }

    /// Loads the path to `pos` and takes the block of `key` out of the stash buffer into
    /// `block`, which stays as it is when there is none.
    pub(crate) fn open_and_remove(&mut self, pos: PositionType, key: K, block: &mut Block<V>) -> (found:
        bool)
        requires
            old(self).may_access(pos, key),
        ensures
            final(self).open_at(pos),
            final(self).same_frame(old(self)),
            final(self).evict_counter == old(self).evict_counter,
            final(self).state().open_stored(pos as int) == old(self)@.remove(key as u32),
            final(self).state().has_vacancy() == old(self).state().has_room(key as u32),
            final(self).state().stash_not_filled(old(self).state()),
            found == old(self)@.contains_key(key as u32),
            *final(block) == (if found {
                old(self)@[key as u32]
            } else {
                *old(block)
            }),
            final(self).state() == old(self).state().with_work(
                without_key(old(self).state().opened(pos as int), key as u32),
            ),
    {
        let ghost before = *self;
        let ghost k32 = key as u32;
        self.read_path_and_get_nodes(pos);
        let ghost loaded = *self;
        let ghost o = before.state().opened(pos as int);
        proof {
            before.lemma_state();
            before.state().lemma_one_slot_per_key(pos as int);
            assert forall|i: int, j: int|
                0 <= i < self.stash.len() && 0 <= j < self.stash.len() && holds_key(
                    #[trigger] self.stash@[i],
                    k32,
                ) && holds_key(#[trigger] self.stash@[j], k32) implies i == j by {
                assert(o[i] == self.stash@[i] && o[j] == self.stash@[j]);
            }
        }
        let found: bool = take_key(&mut self.stash, key as u32, block);
        proof {
            let st = loaded.state();
            lemma_taken(o, k32, self.stash@, found);
            if found {
                let i = choose|i: int|
                    0 <= i < st.work.len() && holds_key(#[trigger] st.work[i], k32) && *block
                        == st.work[i] && self.stash@ == st.work.update(i, st.work[i].vacated());
                st.work[i].lemma_vacancy();
                st.lemma_take(pos as int, i, st.work[i].vacated());
                before.state().lemma_visible_is_stored(pos as int, i);
            } else {
                if before@.contains_key(k32) {
                    let i = choose|i: int| 0 <= i < o.len() && holds_key(#[trigger] o[i], k32);
                    assert(holds_key(loaded.stash@[i], k32));
                }
                assert(before@.remove(k32) =~= before@);
            }
            assert(self.state() == st.with_work(self.stash@));
            before.state().lemma_room(pos as int, k32, self.stash@, found);
            assert forall|i: int| 0 <= i < S && before.state().work[i].vacant() implies (
            #[trigger] self.state().work[i]).vacant() by {
                assert(loaded.state().work[i].vacant());
            }
        }
        found
    }

    /// Puts a block into the stash, evicts and writes the path back. Tells whether the
    /// stash had room for the block.
    pub(crate) fn place_and_finish(&mut self, pos: PositionType, block: &Block<V>) -> (written: bool)
        requires
            old(self).open_at(pos),
            !block.vacant() ==> block.pos < old(self).max_n,
            !block.vacant() ==> !old(self).state().open_stored(pos as int).contains_key(
                block.key_of(),
            ),
        ensures
            written == old(self).state().has_vacancy(),
            final(self).wf(),
            final(self).same_frame(old(self)),
            final(self).evict_counter == (old(self).evict_counter + EVICTIONS_PER_OP)
                % old(self).max_n as int,
            final(self)@ == (if !block.vacant() && old(self).state().has_vacancy() {
                old(self).state().open_stored(pos as int).insert(block.key_of(), *block)
            } else {
                old(self).state().open_stored(pos as int)
            }),
            forall|m: int| #[trigger]
                old(self).vacant_from(m) && 0 <= m ==> final(self).vacant_from(m + 1),
            finishes(
                old(self).state(),
                final(self).state(),
                pos as int,
                *block,
                old(self).evict_counter as int,
                EVICTIONS_PER_OP as int,
            ),
    {
        let ghost st = self.state();
        let ghost opened = *self;
        let written: bool = put_first(&mut self.stash, S, block);
        let ghost placed = *self;
        proof {
            if written {
                let i = choose|i: int|
                    0 <= i < S && (#[trigger] st.work[i]).vacant() && (forall|k: int|
                        0 <= k < i ==> !(#[trigger] st.work[k]).vacant()) && self.stash@
                        == st.work.update(i, *block);
                if block.vacant() {
                    st.lemma_put_nothing(pos as int, i, *block);
                } else {
                    st.lemma_put(pos as int, i, *block);
                }
            }
            assert(self.state() == st.with_work(self.stash@));
            lemma_put_is_first(st.work, S as int, *block, self.stash@, written);
        }
        self.evict_once_fast(pos);
        let ghost moved = self.state();
        self.write_back_path(pos);
        let ghost mid = self.state();
        self.perform_deterministic_evictions();
        proof {
            lemma_settled(placed.state(), moved, mid, pos);
            assert forall|m: int| #[trigger]
                opened.vacant_from(m) && 0 <= m implies self.vacant_from(m + 1) by {
                assert forall|i: int| m + 1 <= i < S && 0 <= i implies (
                #[trigger] self.stash@[i]).vacant() by {
                    assert(opened.stash@[i].vacant());
                    assert(opened.stash@[m].vacant());
                    assert(placed.stash@[i].vacant());
                    assert(placed.state().work[i].vacant());
                    assert(self.state().work[i].vacant());
                }
            }
        }
        written
    }

    /// Which slots the blocks are in after an access to `key` along the path to `pos` that
    /// leaves `block` behind.
    pub open spec fn moved(&self, before: &Self, pos: PositionType, key: K, block: Block<V>) -> bool {
        access(
            before.state(),
            self.state(),
            pos as int,
            key as u32,
            block,
            before.evict_counter as int,
            EVICTIONS_PER_OP as int,
        )
    }

    /// What an access to `key` does when it leaves `block` behind: the block is stored if
    /// it has a leaf and the stash has room for it, otherwise the key is gone.
    pub open spec fn accessed(&self, before: &Self, key: K, block: Block<V>) -> bool {
        &&& self.wf()
        &&& self.same_frame(before)
        &&& self.evict_counter == (before.evict_counter + EVICTIONS_PER_OP) % before.max_n as int
        &&& self@ == (if !block.vacant() && before.state().has_room(key as u32) {
            before@.insert(key as u32, block)
        } else {
            before@.remove(key as u32)
        })
        &&& forall|m: int| #[trigger]
            before.vacant_from(m) && 0 <= m ==> self.vacant_from(m + 1)
    }

    /// What an access along the path to `pos` does when it leaves `block` behind: what is
    /// stored then and in which slots.
    pub open spec fn left(&self, before: &Self, pos: PositionType, block: Block<V>) -> bool {
        &&& self.accessed(before, block.key, block)
        &&& self.moved(before, pos, block.key, block)
    }

    /// What an access along the path to `pos` does that moves the block of `key` to
    /// `new_pos`, if it is stored.
    pub open spec fn remapped(
        &self,
        before: &Self,
        pos: PositionType,
        new_pos: PositionType,
        key: K,
    ) -> bool {
        exists|block: Block<V>| #[trigger]
            self.left(before, pos, block) && block.key == key && (
            if before@.contains_key(key as u32) {
                block.pos == new_pos && block.value == before@[key as u32].value
            } else {
                block.vacant()
            })
    }

    /// Reads and remaps a block. `ret` is unchanged when the key is absent.
    pub fn read(&mut self, pos: PositionType, new_pos: PositionType, key: K, ret: &mut V) -> (found:
        bool)
        requires
            old(self).may_access(pos, key),
            new_pos < old(self).max_n,
        ensures
            found == old(self)@.contains_key(key as u32),
            *final(ret) == (if found {
                old(self)@[key as u32].value
            } else {
                *old(ret)
            }),
            ({
                let block = Block {
                    pos: if found {
                        new_pos
                    } else {
                        DUMMY_POS
                    },
                    key,
                    value: *final(ret),
                };
                final(self).accessed(old(self), key, block) && final(self).moved(
                    old(self),
                    pos,
                    key,
                    block,
                )
            }),
    {
        let mut block: Block<V> = Block { pos: DUMMY_POS, key, value: *ret };
        let found: bool = self.open_and_remove(pos, key, &mut block);
        *ret = block.value;
        cmov_u32(&mut block.pos, new_pos, found);
        block.key = key;
        let ghost opened = *self;
        let _written: bool = self.place_and_finish(pos, &block);
        proof {
            self.lemma_accessed(old(self), &opened, key, block);
        }
        found
    }

    /// Updates an existing block, without inserting it when absent.
    pub fn write(&mut self, pos: PositionType, new_pos: PositionType, key: K, val: V) -> (found: bool)
        requires
            old(self).may_access(pos, key),
            new_pos < old(self).max_n,
        ensures
            found == old(self)@.contains_key(key as u32),
            ({
                let block = Block {
                    pos: if found {
                        new_pos
                    } else {
                        DUMMY_POS
                    },
                    key,
                    value: val,
                };
                final(self).accessed(old(self), key, block) && final(self).moved(
                    old(self),
                    pos,
                    key,
                    block,
                )
            }),
    {
        let mut taken: Block<V> = Block::default();
        let found: bool = self.open_and_remove(pos, key, &mut taken);
        let mut block: Block<V> = Block { pos: DUMMY_POS, key, value: val };
        cmov_u32(&mut block.pos, new_pos, found);
        let ghost opened = *self;
        let _written: bool = self.place_and_finish(pos, &block);
        proof {
            self.lemma_accessed(old(self), &opened, key, block);
        }
        found
    }

    /// Updates a block or inserts it when absent.
    pub fn write_or_insert(&mut self, pos: PositionType, new_pos: PositionType, key: K, val: V) -> (found:
        bool)
        requires
            old(self).may_access(pos, key),
            new_pos < old(self).max_n,
        ensures
            found == old(self)@.contains_key(key as u32),
            final(self).accessed(old(self), key, Block { pos: new_pos, key, value: val }),
            final(self).moved(old(self), pos, key, Block { pos: new_pos, key, value: val }),
    {
        let mut taken: Block<V> = Block::default();
        let found: bool = self.open_and_remove(pos, key, &mut taken);
        let block: Block<V> = Block { pos: new_pos, key, value: val };
        let ghost opened = *self;
        let _written: bool = self.place_and_finish(pos, &block);
        proof {
            self.lemma_accessed(old(self), &opened, key, block);
        }
        found
    }

    /// Step `i` of filling an ORAM with the values of the keys from 0 on: key `i` is inserted
    /// along the path to `i`, and its block goes to `positions[i]`.
    pub open spec fn load_step(
        states: Seq<Self>,
        values: Seq<V>,
        positions: Seq<PositionType>,
        i: int,
    ) -> bool {
        let block = Block { pos: positions[i], key: i as usize, value: values[i] };
        &&& states[i + 1].accessed(&states[i], i as usize, block)
        &&& states[i + 1].moved(&states[i], i as PositionType, i as usize, block)
    }

    /// A new ORAM is filled with the values of the keys from 0 on, from state to state.
    pub open spec fn loads(states: Seq<Self>, values: Seq<V>, positions: Seq<PositionType>) -> bool {
        &&& states.len() == values.len() + 1
        &&& states[0].is_new(values.len() as int)
        &&& forall|i: int|
            0 <= i < values.len() ==> #[trigger] Self::load_step(states, values, positions, i)
    }

    /// Every insertion of a filling finds room.
    pub open spec fn all_fit(states: Seq<Self>) -> bool {
        forall|i: int|
            0 <= i < states.len() - 1 ==> (#[trigger] states[i]).state().has_room(i as u32)
    }

    /// Inserts a block of an absent key. Tells whether the stash had room for it.
    pub(crate) fn insert_absent(&mut self, pos: PositionType, new_pos: PositionType, key: K, val: V) -> (written:
        bool)
        requires
            old(self).wf(),
            pos < old(self).max_n,
            new_pos < old(self).max_n,
            key <= u32::MAX,
            !old(self)@.contains_key(key as u32),
        ensures
            written == old(self).state().has_room(key as u32),
            final(self).accessed(old(self), key, Block { pos: new_pos, key, value: val }),
            final(self).moved(old(self), pos, key, Block { pos: new_pos, key, value: val }),
    {
        let mut taken: Block<V> = Block::default();
        let _found: bool = self.open_and_remove(pos, key, &mut taken);
        let block: Block<V> = Block { pos: new_pos, key, value: val };
        let ghost opened = *self;
        let written: bool = self.place_and_finish(pos, &block);
        proof {
            self.lemma_accessed(old(self), &opened, key, block);
        }
        written
    }

    /// Reads or inserts a block, then applies `update_func` to its value. An absent block
    /// starts with the value of zeros.
    pub fn update<T, F: FnOnce(&mut V) -> T>(
        &mut self,
        pos: PositionType,
        new_pos: PositionType,
        key: K,
        update_func: F,
    ) -> (r: (bool, T))
        requires
            old(self).may_access(pos, key),
            new_pos < old(self).max_n,
            forall|d: &mut V|
                *d == old(self).value_at(key) ==> #[trigger] call_requires(update_func, (d,)),
        ensures
            r.0 == old(self)@.contains_key(key as u32),
            exists|d: &mut V| #[trigger]
                call_ensures(update_func, (d,), r.1) && *d == old(self).value_at(key)
                    && final(self).accessed(
                    old(self),
                    key,
                    Block { pos: new_pos, key, value: *final(d) },
                ) && final(self).moved(
                    old(self),
                    pos,
                    key,
                    Block { pos: new_pos, key, value: *final(d) },
                ),
    {
        let mut block: Block<V> = Block { pos: DUMMY_POS, key, value: V::zeroed() };
        let found: bool = self.open_and_remove(pos, key, &mut block);
        let mut value: V = block.value;
        assert(value == old(self).value_at(key));
        let result = apply_update(&mut value, update_func);
        let block: Block<V> = Block { pos: new_pos, key, value };
        let ghost opened = *self;
        let _written: bool = self.place_and_finish(pos, &block);
        proof {
            self.lemma_accessed(old(self), &opened, key, block);
            let d = choose|d: &mut V| #[trigger]
                call_ensures(update_func, (d,), result) && *d == old(self).value_at(key)
                    && *final(d) == value;
            assert(call_ensures(update_func, (d,), result));
            assert(block == (Block { pos: new_pos, key, value: *final(d) }));
        }
        let r = (found, result);
        assert(r.1 == result);
        r
    }

    /// What taking a block out and putting one in comes to.
    pub(crate) proof fn lemma_accessed(&self, before: &Self, opened: &Self, key: K, block: Block<V>)
        requires
            before.wf(),
            key <= u32::MAX,
            block.key == key,
            opened.shape(),
            opened.same_frame(before),
            opened.evict_counter == before.evict_counter,
            opened.state().has_vacancy() == before.state().has_room(key as u32),
            opened.state().stash_not_filled(before.state()),
            self.wf(),
            self.same_frame(opened),
            self.evict_counter == (opened.evict_counter + EVICTIONS_PER_OP) % opened.max_n as int,
            self@ == (if !block.vacant() && opened.state().has_vacancy() {
                before@.remove(key as u32).insert(block.key_of(), block)
            } else {
                before@.remove(key as u32)
            }),
            forall|m: int| #[trigger]
                opened.vacant_from(m) && 0 <= m ==> self.vacant_from(m + 1),
        ensures
            self.accessed(before, key, block),
    {
        let k = key as u32;
        assert(before@.remove(k).insert(k, block) =~= before@.insert(k, block));
        assert forall|m: int| #[trigger]
            before.vacant_from(m) && 0 <= m implies self.vacant_from(m + 1) by {
            assert forall|i: int| m <= i < S && 0 <= i implies (
            #[trigger] opened.stash@[i]).vacant() by {
                assert(before.stash@[i].vacant());
                assert(before.state().work[i].vacant());
                assert(opened.state().work[i].vacant());
            }
            assert(opened.vacant_from(m));
        }
    }

    /// With vacant stash slots there is room for any block.
    pub proof fn lemma_vacancy_is_room(&self, m: int, key: u32)
        requires
            self.shape(),
            self.vacant_from(m),
            0 <= m < S,
        ensures
            self.state().has_room(key),
    {
        assert(self.stash@[m].vacant());
        assert(self.state().work[m].vacant());
    }

    /// An ORAM of no more keys than its stash has slots never lacks room for one of them.
    pub proof fn lemma_few_keys_have_room(&self, n: int, key: u32)
        requires
            self.wf(),
            key < n <= S,
            forall|k: u32| #[trigger] self@.contains_key(k) ==> k < n,
        ensures
            self.state().has_room(key),
    {
        assert forall|k: u32| #[trigger] self.state().stored().contains_key(k) implies k < n by {
            assert(self@.contains_key(k));
        }
        self.state().lemma_few_keys_have_room(n, key);
    }

    /// A stored block is visible from its own position.
    pub proof fn lemma_stored_is_visible(&self, key: u32)
        requires
            self.wf(),
            self@.contains_key(key),
        ensures
            self@[key].key_of() == key,
            self@[key].pos < self.max_n,
            self.state().visible(self@[key].pos as int, key),
    {
        self.lemma_state();
        self.state().lemma_stored_is_visible(key);
    }

    /// What a write that found room wrote, the next access reads, from the position that
    /// the write gave it; and other blocks keep their values and positions.
    pub proof fn lemma_reads_what_was_written(&self, before: &Self, key: K, block: Block<V>, other: u32)
        requires
            before.wf(),
            key <= u32::MAX,
            block.key == key,
            !block.vacant(),
            before.state().has_room(key as u32),
            self.accessed(before, key, block),
            other != key,
        ensures
            self@.contains_key(key as u32),
            self.value_at(key) == block.value,
            self.may_access(block.pos, key),
            self@.contains_key(other) == before@.contains_key(other),
            self@.contains_key(other) ==> self@[other] == before@[other],
    {
        self.lemma_stored_is_visible(key as u32);
    }
}

} // verus!
