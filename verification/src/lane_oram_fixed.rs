//! Fixed-lane ORAM with `Y` pooled slots in every lane minibucket.
//!
//! A bucket is laid out as `[Z][Y]`. Slots within one minibucket share a tree depth; `Y`
//! is a storage width, not a number of tree levels. Each lane runs Circuit ORAM's
//! `EvictOnceFast` on every accessed path while all lanes share the stash.
use vstd::arithmetic::power2::is_pow2;
use vstd::prelude::*;
use crate::circuit::{
    column_fits, column_settled, column_size, evict_column, lane_all, lasting,
    lemma_column_origin, level_all,
};
use crate::heap_tree::full_width;
use crate::lane_oram::{
    bucket_slots, canonical, depth_of, legal_depth, lemma_depth_allows, lemma_levels_from,
    lemma_loaded, lemma_path_put_back, lemma_stored, lemma_wide_level, lemma_without_key,
    levels_for, read_and_remove_path32, wide_shape, without_key32, Block32, KeyType, PosType,
    SlotBucket, DUMMY_KEY, DUMMY_POS, EMPTY_BLOCK_DATA,
};
use crate::oblivious::ObliviousBlock;
use crate::path_access::{lemma_put_is_first, put_back, with_block};
use crate::path_store::{keys, lemma_row_of, lemma_row_place, put_first, PathBlock, PathState};
use crate::prelude::{apply_update, filled};
use crate::tally::{lemma_tally_scatter_slots, one_per_key, tally};
use crate::wide_heap_tree::{
    full_nodes, lemma_full_nodes_grows, lemma_prefix_geometry, prefix_geometry, WideHeapTree,
};

verus! {

/// Default number of fixed lanes.
pub const DEFAULT_Z: usize = 3;

/// Default pooled slots per lane minibucket.
pub const DEFAULT_Y: usize = 2;

/// Default stash capacity.
pub const DEFAULT_S: usize = 64;

/// Default branching factor.
pub const DEFAULT_B: usize = 2;

/// A bucket of `Z` fixed, `Y`-wide minibuckets.
#[derive(Clone, Copy, Debug)]
pub struct FixedBucket<const Z: usize, const Y: usize>(pub [[Block32; Y]; Z]);

impl<const Z: usize, const Y: usize> Default for FixedBucket<Z, Y> {
    fn default() -> (r: Self)
        ensures
            forall|lane: int, slot: int|
                0 <= lane < Z && 0 <= slot < Y ==> #[trigger] r.0@[lane]@[slot] == Block32::blank(),
    {
        let row: [Block32; Y] = [Block32::default(); Y];
        FixedBucket([row; Z])
    }
}

impl<const Z: usize, const Y: usize> SlotBucket for FixedBucket<Z, Y> {
    /// Lane after lane.
    open spec fn slots(self) -> Seq<Block32> {
        Seq::new((Z * Y) as nat, |i: int| self.0@[i / Y as int]@[i % Y as int])
    }

    open spec fn width() -> int {
        Z * Y
    }

    proof fn lemma_width(self) {
        assert(0 <= Z * Y) by (nonlinear_arith);
    }

    fn get_slot(&self, j: usize) -> (r: Block32) {
        proof {
            assert(Y > 0) by (nonlinear_arith)
                requires
                    0 <= j < Z * Y,
            ;
            lemma_row_of(j as int, Y as int, Z as int);
        }
        self.0[j / Y][j % Y]
    }

    fn set_slot(&mut self, j: usize, block: Block32) {
        proof {
            assert(Y > 0) by (nonlinear_arith)
                requires
                    0 <= j < Z * Y,
            ;
            lemma_row_of(j as int, Y as int, Z as int);
        }
        let ghost before = *self;
        self.0[j / Y][j % Y] = block;
        proof {
            assert forall|i: int| 0 <= i < Z * Y implies self.slots()[i] == before.slots().update(
                j as int,
                block,
            )[i] by {
                lemma_row_of(i, Y as int, Z as int);
            }
            assert(self.slots() =~= before.slots().update(j as int, block));
        }
    }
}

/// Where slot `k` of the column of lane `lane` stands in the working array: first the
/// stash, then the minibuckets of the lane from root to leaf.
pub open spec fn column_place(s: int, z: int, y: int, lane: int, k: int) -> int {
    if k < s {
        k
    } else {
        s + ((k - s) / y) * (z * y) + lane * y + (k - s) % y
    }
}

/// The places of the column of lane `lane`.
pub open spec fn column_places(s: int, z: int, y: int, h: int, lane: int) -> Seq<int> {
    Seq::new((s + h * y) as nat, |k: int| column_place(s, z, y, lane, k))
}

/// The column of lane `lane`.
pub open spec fn column_of(work: Seq<Block32>, s: int, z: int, y: int, h: int, lane: int) -> Seq<
    Block32,
> {
    column_places(s, z, y, h, lane).map_values(|i: int| work[i])
}

/// How deep the slots of the column may go.
pub open spec fn column_depths(col: Seq<Block32>, path: PosType, b: int, h: int) -> Seq<i64> {
    Seq::new(col.len(), |k: int| depth_of(col[k], path, b, h))
}

/// One pass over the column of lane `lane` of the path to `path` turns the working array
/// `work` into `after`.
pub open spec fn lane_pass(
    work: Seq<Block32>,
    after: Seq<Block32>,
    s: int,
    z: int,
    y: int,
    h: int,
    lane: int,
    path: PosType,
    b: int,
) -> bool {
    let col = column_of(work, s, z, y, h, lane);
    &&& after.len() == work.len()
    &&& column_settled(
        col,
        column_depths(col, path, b, h),
        column_of(after, s, z, y, h, lane),
        s + y,
        y,
        h,
    )
    &&& forall|i: int|
        0 <= i < work.len() && !column_places(s, z, y, h, lane).contains(i) ==> #[trigger] after[i]
            == work[i]
}

/// Step `i` of `steps` comes from the step before it by one pass, over the lanes in turn.
pub open spec fn lane_step(
    steps: Seq<Seq<Block32>>,
    i: int,
    s: int,
    z: int,
    y: int,
    h: int,
    path: PosType,
    b: int,
) -> bool {
    lane_pass(steps[i - 1], steps[i], s, z, y, h, (i - 1) % z, path, b)
}

/// `n` passes over the lanes of the path to `path`, from the first lane on and round again
/// behind the last one, turn the working array `work` into `after`.
pub open spec fn lane_passes(
    work: Seq<Block32>,
    after: Seq<Block32>,
    n: int,
    s: int,
    z: int,
    y: int,
    h: int,
    path: PosType,
    b: int,
) -> bool {
    exists|steps: Seq<Seq<Block32>>|
        #![trigger steps.first()]
        {
            &&& steps.len() == n + 1
            &&& steps.first() == work
            &&& steps.last() == after
            &&& forall|i: int| 1 <= i <= n ==> #[trigger] lane_step(steps, i, s, z, y, h, path, b)
        }
}

/// One more pass, over the lane whose turn it is.
proof fn lemma_one_more_pass(
    work: Seq<Block32>,
    mid: Seq<Block32>,
    after: Seq<Block32>,
    n: int,
    s: int,
    z: int,
    y: int,
    h: int,
    path: PosType,
    b: int,
)
    requires
        0 <= n,
        lane_passes(work, mid, n, s, z, y, h, path, b),
        lane_pass(mid, after, s, z, y, h, n % z, path, b),
    ensures
        lane_passes(work, after, n + 1, s, z, y, h, path, b),
{
    let steps = choose|steps: Seq<Seq<Block32>>|
        #![trigger steps.first()]
        {
            &&& steps.len() == n + 1
            &&& steps.first() == work
            &&& steps.last() == mid
            &&& forall|i: int| 1 <= i <= n ==> #[trigger] lane_step(steps, i, s, z, y, h, path, b)
        };
    let more = steps.push(after);
    assert(more.first() == work);
    assert forall|i: int| 1 <= i <= n + 1 implies #[trigger] lane_step(
        more,
        i,
        s,
        z,
        y,
        h,
        path,
        b,
    ) by {
        if i <= n {
            assert(lane_step(steps, i, s, z, y, h, path, b));
        }
    }
}

/// The places of a column are in the working array, and no two are the same.
pub(crate) proof fn lemma_column_place(s: int, z: int, y: int, h: int, lane: int, k: int)
    requires
        0 <= s,
        0 < z,
        0 < y,
        0 < h,
        0 <= lane < z,
        0 <= k < s + h * y,
    ensures
        0 <= column_place(s, z, y, lane, k) < s + h * (z * y),
        k < s ==> column_place(s, z, y, lane, k) == k,
        k >= s ==> {
            let d = (k - s) / y;
            let j = lane * y + (k - s) % y;
            &&& 0 <= d < h
            &&& 0 <= j < z * y
            &&& j / y == lane
            &&& column_place(s, z, y, lane, k) == s + d * (z * y) + j
        },
{
    if k >= s {
        let n = k - s;
        lemma_row_of(n, y, h);
        let d = n / y;
        let e = n % y;
        lemma_row_place(lane, e, y, z);
        let j = lane * y + e;
        lemma_row_place(d, j, z * y, h);
        vstd::arithmetic::div_mod::lemma_fundamental_div_mod_converse(j, y, lane, e);
    } else {
        assert(0 <= h * (z * y)) by (nonlinear_arith)
            requires
                h > 0,
                z > 0,
                y > 0,
        ;
    }
}

/// The places of a column lie apart.
proof fn lemma_column_apart(s: int, z: int, y: int, h: int, lane: int, k: int, m: int)
    requires
        0 <= s,
        0 < z,
        0 < y,
        0 < h,
        0 <= lane < z,
        0 <= k < m < s + h * y,
    ensures
        column_place(s, z, y, lane, k) < column_place(s, z, y, lane, m),
{
    lemma_column_place(s, z, y, h, lane, k);
    lemma_column_place(s, z, y, h, lane, m);
    if m >= s && k >= s {
        lemma_row_of(k - s, y, h);
        lemma_row_of(m - s, y, h);
        let (d, e) = ((k - s) / y, (m - s) / y);
        if d < e {
            let j = lane * y + (k - s) % y;
            lemma_row_place(d, j, z * y, e);
            lemma_row_place(lane, 0, y, z);
        } else if d > e {
            lemma_row_place(e, 0, y, d);
        }
    } else if m >= s {
        let e = (m - s) / y;
        lemma_row_of(m - s, y, h);
        let j = lane * y + (m - s) % y;
        lemma_row_place(e, j, z * y, h);
        lemma_row_place(lane, 0, y, z);
    }
}

/// A pass over the column of one lane keeps the store.
proof fn lemma_lane_evicted(
    st: PathState<Block32>,
    work: Seq<Block32>,
    path: PosType,
    lane: int,
    z: int,
    y: int,
    b: int,
)
    requires
        0 < z,
        0 < y,
        2 <= b,
        0 <= lane < z,
        st.w == z * y,
        st.geo.h <= i64::MAX,
        st.geo == prefix_geometry(b, st.geo.h),
        st.open_at(path as int),
        one_per_key(st.open_count(path as int), keys()),
        work.len() == st.work.len(),
        column_settled(
            column_of(st.work, st.s, z, y, st.geo.h, lane),
            column_depths(column_of(st.work, st.s, z, y, st.geo.h, lane), path, b, st.geo.h),
            column_of(work, st.s, z, y, st.geo.h, lane),
            st.s + y,
            y,
            st.geo.h,
        ),
        column_fits(
            column_of(st.work, st.s, z, y, st.geo.h, lane),
            column_depths(column_of(st.work, st.s, z, y, st.geo.h, lane), path, b, st.geo.h),
            st.s + y,
        ),
        forall|c: Block32| #[trigger]
            tally(column_of(work, st.s, z, y, st.geo.h, lane), c) == tally(
                column_of(st.work, st.s, z, y, st.geo.h, lane),
                c,
            ),
        forall|i: int|
            0 <= i < work.len() && !column_places(st.s, z, y, st.geo.h, lane).contains(i)
                ==> #[trigger] work[i] == st.work[i],
    ensures
        st.with_work(work).open_at(path as int),
        one_per_key(st.with_work(work).open_count(path as int), keys()),
        st.with_work(work).open_stored(path as int) == st.open_stored(path as int),
        st.with_work(work).stash_not_filled(st),
{
    let h = st.geo.h;
    let p = path as int;
    let at = column_places(st.s, z, y, h, lane);
    let col = column_of(st.work, st.s, z, y, h, lane);
    let d = column_depths(col, path, b, h);
    let after = column_of(work, st.s, z, y, h, lane);
    let n0 = st.s + y;
    let t = st.with_work(work);
    assert(0 <= h * y) by (nonlinear_arith)
        requires
            h >= 1,
            y >= 1,
    ;
    assert(n0 + (h - 1) * y == st.s + h * y) by (nonlinear_arith)
        requires
            n0 == st.s + y,
    ;
    assert(column_size(col, n0, y, h));
    assert forall|i: int| 0 <= i < at.len() implies 0 <= #[trigger] at[i] < st.work.len() by {
        lemma_column_place(st.s, z, y, h, lane, i);
    }
    assert forall|i: int, j: int| 0 <= i < j < at.len() implies #[trigger] at[i]
        != #[trigger] at[j] by {
        lemma_column_apart(st.s, z, y, h, lane, i, j);
    }
    assert forall|c: Block32| #[trigger] tally(work, c) == tally(st.work, c) by {
        lemma_tally_scatter_slots(st.work, work, at, c);
        assert(tally(after, c) == tally(col, c));
    }
    assert forall|i: int| 0 <= i < st.s && !(#[trigger] work[i]).vacant() implies work[i]
        == st.work[i] by {
        lemma_column_place(st.s, z, y, h, lane, i);
        assert(after[i] == work[i] && col[i] == st.work[i]);
        lemma_column_origin(col, d, after, n0, y, h, 0, i);
    }
    assert forall|l: int, j: int|
        0 <= l < h && 0 <= j < st.w && !(#[trigger] t.slot(l, j)).vacant() implies t.geo.allows(
        l,
        p,
        t.slot(l, j).leaf_of(),
    ) by {
        let i = st.s + l * st.w + j;
        lemma_row_place(l, j, st.w, h);
        if at.contains(i) {
            let k = choose|k: int| 0 <= k < at.len() && at[k] == i;
            lemma_column_place(st.s, z, y, h, lane, k);
            if k >= st.s {
                let e = (k - st.s) / y;
                let q = lane * y + (k - st.s) % y;
                vstd::arithmetic::div_mod::lemma_fundamental_div_mod_converse(
                    l * st.w + j,
                    st.w,
                    l,
                    j,
                );
                vstd::arithmetic::div_mod::lemma_fundamental_div_mod_converse(
                    e * st.w + q,
                    st.w,
                    e,
                    q,
                );
                assert(e == l && q == j);
                lemma_row_of(k - st.s, y, h);
                let level = l;
                assert(level > 0 ==> n0 + (level - 1) * y <= k < n0 + level * y) by {
                    assert((level - 1) * y == level * y - y) by (nonlinear_arith);
                }
                assert(level == 0 ==> 0 <= k < n0) by {
                    assert(0 * y == 0);
                }
                assert(after[k] == work[i] && col[k] == st.work[i]);
                lemma_column_origin(col, d, after, n0, y, h, level, k);
                if after[k] == col[k] {
                    assert(st.slot(l, j) == t.slot(l, j));
                } else {
                    let m = choose|m: int|
                        0 <= m < col.len() && after[k] == #[trigger] col[m] && d[m] >= level;
                    lemma_column_leaf(st, p, lane, z, y, m);
                    lemma_depth_allows(col[m], path, b, h, l);
                }
            }
        } else {
            assert(work[i] == st.work[i]);
            assert(st.slot(l, j) == t.slot(l, j));
        }
    }
    assert forall|i: int|
        0 <= i < t.s && !(#[trigger] t.work[i]).vacant() implies 0 <= t.work[i].leaf_of()
        < t.geo.leaves by {
        assert(work[i] == st.work[i]);
    }
    st.lemma_rearranged(p, work);
}

/// A block in a column belongs to a leaf.
proof fn lemma_column_leaf(st: PathState<Block32>, p: int, lane: int, z: int, y: int, k: int)
    requires
        0 < z,
        0 < y,
        0 <= lane < z,
        st.w == z * y,
        st.open_at(p),
        0 <= k < st.s + st.geo.h * y,
        !column_of(st.work, st.s, z, y, st.geo.h, lane)[k].vacant(),
    ensures
        0 <= column_of(st.work, st.s, z, y, st.geo.h, lane)[k].pos < st.geo.leaves,
{
    let h = st.geo.h;
    lemma_column_place(st.s, z, y, h, lane, k);
    let c = column_of(st.work, st.s, z, y, h, lane)[k];
    assert(column_places(st.s, z, y, h, lane)[k] == column_place(st.s, z, y, lane, k));
    assert(c == st.work[column_place(st.s, z, y, lane, k)]);
    if k >= st.s {
        let d = (k - st.s) / y;
        let j = lane * y + (k - st.s) % y;
        assert(st.slot(d, j) == c);
    } else {
        assert(st.work[k] == c);
    }
}

/// The number of slots that hold a block.
pub open spec fn live_count(s: Seq<Block32>) -> nat
    decreases s.len(),
{
    if s.len() == 0 {
        0
    } else {
        live_count(s.drop_last()) + (if s.last().vacant() {
            0nat
        } else {
            1nat
        })
    }
}

/// Cache-line lane ORAM with `Z` lanes of `Y` pooled slots, `S` stash slots, branching
/// factor `B` and `E` passes per update.
#[derive(Debug)]
pub struct LaneORAMFixed<
    const Z: usize,
    const Y: usize,
    const S: usize,
    const B: usize,
    const E: usize,
> {
    /// Logical capacity rounded up to a power of `B`.
    pub max_n: usize,
    /// Tree height, including the root.
    pub h: usize,
    /// Wide tree with `[lane][minibucket slot]` buckets.
    pub tree: WideHeapTree<FixedBucket<Z, Y>>,
    /// `[stash | path]` working array.
    pub stash_and_path: Vec<Block32>,
}

impl<
    const Z: usize,
    const Y: usize,
    const S: usize,
    const B: usize,
    const E: usize,
> View for LaneORAMFixed<Z, Y, S, B, E> {
    type V = Map<KeyType, Block32>;

    /// The stored block of every stored key.
    open spec fn view(&self) -> Map<KeyType, Block32> {
        self.state().stored()
    }
}

impl<
    const Z: usize,
    const Y: usize,
    const S: usize,
    const B: usize,
    const E: usize,
> LaneORAMFixed<Z, Y, S, B, E> {
    /// The blocks and where they are.
    pub open spec fn state(&self) -> PathState<Block32> {
        PathState {
            geo: prefix_geometry(B as int, self.h as int),
            s: S as int,
            w: Z * Y,
            nodes: bucket_slots(self.tree.tree@),
            work: self.stash_and_path@,
        }
    }

    /// The sizes fit together, and vacant slots are dummy blocks.
    pub open spec fn shape(&self) -> bool {
        &&& 2 <= self.h <= 64
        &&& 1 <= Z
        &&& 1 <= Y
        &&& 2 <= B
        &&& self.max_n == full_width(self.h - 1, B as int)
        &&& self.max_n <= 0x1_0000_0000
        &&& self.stash_and_path.len() == S + self.h * (Z * Y)
        &&& self.tree.wf()
        &&& self.tree.height == self.h
        &&& self.tree.branching_factor == B
        &&& level_all(self.stash_and_path@, |b: Block32| canonical(b))
        &&& lane_all(bucket_slots(self.tree.tree@), |b: Block32| canonical(b))
    }

    /// The ORAM is at rest.
    pub open spec fn wf(&self) -> bool {
        &&& self.shape()
        &&& self.state().at_rest()
    }

    /// The path to `pos` is in the working array.
    pub open spec fn open_at(&self, pos: PosType) -> bool {
        &&& self.shape()
        &&& self.state().open_at(pos as int)
        &&& one_per_key(self.state().open_count(pos as int), keys())
    }

    /// The block that an update of `key` starts from.
    pub open spec fn entry(&self, key: KeyType) -> Block32 {
        if self@.contains_key(key) {
            self@[key]
        } else {
            Block32 { pos: DUMMY_POS, key, data: EMPTY_BLOCK_DATA }
        }
    }

    /// The sizes of the state are those of the ORAM.
    pub(crate) proof fn lemma_state(&self)
        requires
            self.shape(),
        ensures
            self.state().shape(),
            self.state().geo.h == self.h,
            self.state().geo.leaves == self.max_n,
            1 <= Z * Y <= usize::MAX,
    {
        lemma_prefix_geometry(B as int, self.h as int);
        let st = self.state();
        assert(1 <= Z * Y) by (nonlinear_arith)
            requires
                Z >= 1,
                Y >= 1,
        ;
        lemma_row_place(0, 0, Z * Y, self.h as int);
        assert forall|k: int| 0 <= k < st.nodes.len() implies (#[trigger] st.nodes[k]).len()
            == st.w by {
            self.tree.tree@[k].lemma_width();
        }
    }

    /// Creates an empty fixed-lane ORAM.
    pub fn new(max_n: usize) -> (r: Self)
        requires
            1 < max_n,
            0 < Z,
            0 < Y,
            0 < E,
            2 <= B,
            is_pow2(B as int),
            levels_for(max_n as int, B as int) <= 64,
            full_width(levels_for(max_n as int, B as int) - 1, B as int) <= 0x1_0000_0000,
            full_nodes(B as int, levels_for(max_n as int, B as int)) <= usize::MAX,
            S + levels_for(max_n as int, B as int) * (Z * Y) <= usize::MAX,
        ensures
            r.wf(),
            r@ == Map::<KeyType, Block32>::empty(),
            r.h == levels_for(max_n as int, B as int),
            r.max_n == full_width(r.h - 1, B as int),
            r.max_n >= max_n,
            r.stash_and_path@ == Seq::new(
                (S + r.h * (Z * Y)) as nat,
                |i: int| Block32::blank(),
            ),
    {
        proof {
            let h = levels_for(max_n as int, B as int);
            lemma_levels_from(max_n as int, B as int, 1);
            lemma_full_nodes_grows(B as int, 0, h - 1);
            lemma_wide_level(h - 1, B as int);
            assert(1 <= Z * Y) by (nonlinear_arith)
                requires
                    Z >= 1,
                    Y >= 1,
            ;
            lemma_row_place(0, 0, Z * Y, h);
        }
        let (rounded, height): (usize, usize) = wide_shape(max_n, B);
        let width: usize = Z * Y;
        let bucket: FixedBucket<Z, Y> = FixedBucket::default();
        let blank: Block32 = Block32::default();
        let r = LaneORAMFixed {
            max_n: rounded,
            h: height,
            tree: WideHeapTree::new_with(height, B, bucket),
            stash_and_path: filled(blank, S + height * width),
        };
        proof {
            let st = r.state();
            assert forall|k: int, j: int|
                #![trigger st.nodes[k][j]]
                0 <= k < st.nodes.len() && 0 <= j < Z * Y implies st.nodes[k][j] == blank by {
                assert(cloned(bucket, r.tree.tree[k]));
                lemma_row_of(j, Y as int, Z as int);
                assert(bucket.0@[j / Y as int]@[j % Y as int] == blank);
            }
            let kept = |b: Block32| canonical(b);
            assert(lane_all(st.nodes, kept)) by {
                assert forall|k: int| 0 <= k < st.nodes.len() implies level_all(
                    #[trigger] st.nodes[k],
                    kept,
                ) by {
                    r.tree.tree@[k].lemma_width();
                    assert forall|j: int| 0 <= j < st.nodes[k].len() implies kept(
                        #[trigger] st.nodes[k][j],
                    ) by {
                        assert(st.nodes[k][j] == blank);
                    }
                }
            }
            r.lemma_state();
            st.lemma_empty();
        }
        r
    }

    /// Copies the path to `path` behind the stash.
    fn read_path(&mut self, path: PosType)
        requires
            old(self).wf(),
            path < old(self).max_n,
        ensures
            final(self).stash_and_path@ == old(self).state().opened(path as int),
            final(self).tree == old(self).tree,
            final(self).max_n == old(self).max_n,
            final(self).h == old(self).h,
            final(self).open_at(path),
            final(self).state().open_stored(path as int) == old(self)@,
    {
        let ghost before = *self;
        proof {
            before.lemma_state();
        }
        self.tree.read_path(path, &mut self.stash_and_path, S, Z * Y);
        proof {
            let st = before.state();
            st.lemma_open(path as int);
            lemma_loaded(st, self.stash_and_path@, path as int, &self.tree);
        }
    }

    /// Writes the path behind the stash back to the tree.
    fn write_path(&mut self, path: PosType)
        requires
            old(self).open_at(path),
        ensures
            final(self).wf(),
            final(self)@ == old(self).state().open_stored(path as int),
            final(self).stash_and_path == old(self).stash_and_path,
            final(self).max_n == old(self).max_n,
            final(self).h == old(self).h,
            final(self).state().nodes == put_back(old(self).state(), path as int),
    {
        let ghost before = *self;
        proof {
            before.lemma_state();
        }
        self.tree.write_path(path, &self.stash_and_path, S, Z * Y);
        proof {
            let st = before.state();
            lemma_stored(st, bucket_slots(self.tree.tree@), path as int, &before.tree, &self.tree);
            lemma_path_put_back(
                st,
                bucket_slots(self.tree.tree@),
                path as int,
                &before.tree,
                &self.tree,
            );
            assert(self.state() == (PathState { nodes: bucket_slots(self.tree.tree@), ..st }));
        }
    }

    /// Runs Circuit ORAM's `EvictOnceFast` for one fixed lane: the stash and the lane's
    /// minibuckets move blocks down the path to `path` as
    /// [`crate::circuit::column_settled`] says.
    fn evict_lane_fast(&mut self, path: PosType, lane: usize)
        requires
            old(self).open_at(path),
            lane < Z,
        ensures
            final(self).open_at(path),
            final(self).state().open_stored(path as int) == old(self).state().open_stored(
                path as int,
            ),
            final(self).state().stash_not_filled(old(self).state()),
            final(self).max_n == old(self).max_n,
            final(self).h == old(self).h,
            final(self).tree == old(self).tree,
            lane_pass(
                old(self).stash_and_path@,
                final(self).stash_and_path@,
                S as int,
                Z as int,
                Y as int,
                old(self).h as int,
                lane as int,
                path,
                B as int,
            ),
    {
        let ghost before = *self;
        let ghost st = self.state();
        let ghost work0 = self.stash_and_path@;
        let ghost h = self.h as int;
        let ghost z = Z as int;
        let ghost y = Y as int;
        let ghost e = lane as int;
        let ghost at = column_places(S as int, z, y, h, e);
        let ghost col0 = column_of(work0, S as int, z, y, h, e);
        let ghost d0 = column_depths(col0, path, B as int, h);
        proof {
            before.lemma_state();
            lemma_row_place(0, 0, y, h);
            assert(h * y <= h * (z * y)) by (nonlinear_arith)
                requires
                    h >= 1,
                    y >= 1,
                    z >= 1,
            ;
        }
        let n: usize = S + self.h * Y;
        let mut col: Vec<Block32> = Vec::new();
        let mut depths: Vec<i64> = Vec::new();
        let mut k: usize = 0;
        while k < n
            invariant
                k <= n == S + h * y == at.len(),
                self.h == h,
                z == Z,
                y == Y,
                e == lane,
                0 <= e < z,
                self.open_at(path),
                st == self.state(),
                work0 == self.stash_and_path@,
                at == column_places(S as int, z, y, h, e),
                col0 == column_of(work0, S as int, z, y, h, e),
                d0 == column_depths(col0, path, B as int, h),
                col@ == col0.take(k as int),
                depths@ == d0.take(k as int),
                forall|j: int| 0 <= j < k ==> -1 <= #[trigger] depths@[j],
                forall|j: int| 0 <= j < k ==> (#[trigger] depths@[j] == -1 <==> col@[j].vacant()),
            decreases n - k,
        {
            let place: usize = self.place_of(lane, k);
            let block: Block32 = self.stash_and_path[place];
            proof {
                assert(at[k as int] == place);
                assert(col0[k as int] == block);
                if !block.vacant() {
                    lemma_column_leaf(st, path as int, e, z, y, k as int);
                }
            }
            let depth: i64 = legal_depth(&block, path, B, self.h);
            col.push(block);
            depths.push(depth);
            proof {
                assert(d0[k as int] == depth);
                assert(col0.take(k + 1) =~= col0.take(k as int).push(block));
                assert(d0.take(k + 1) =~= d0.take(k as int).push(depth));
            }
            k += 1;
        }
        let ghost kept = |b: Block32| canonical(b);
        proof {
            assert(col0.take(n as int) =~= col0);
            assert(d0.take(n as int) =~= d0);
            assert(column_fits(col0, d0, S + y));
            assert(S + y + (h - 1) * y == S + h * y) by (nonlinear_arith);
            assert(column_size(col0, S + y, y, h));
            assert(lasting(kept)) by {
                assert forall|b: Block32| kept(b) implies kept(#[trigger] b.vacated()) by {}
            }
            assert forall|j: int| 0 <= j < col0.len() implies kept(#[trigger] col0[j]) by {
                lemma_column_place(S as int, z, y, h, e, j);
                assert(at[j] == column_place(S as int, z, y, e, j));
                assert(canonical(work0[at[j]]));
            }
        }
        evict_column(&mut col, &depths, S + Y, Y, self.h, Ghost(kept));
        let ghost after = col@;
        k = 0;
        while k < n
            invariant
                k <= n == S + h * y == at.len() == col.len(),
                after == col@,
                self.h == h,
                self.h == before.h,
                self.max_n == before.max_n,
                self.tree == before.tree,
                before.shape(),
                z == Z,
                y == Y,
                e == lane,
                0 <= e < z,
                2 <= h,
                1 <= z,
                1 <= y,
                self.stash_and_path.len() == work0.len() == S + h * (z * y),
                at == column_places(S as int, z, y, h, e),
                forall|j: int| 0 <= j < k ==> self.stash_and_path@[#[trigger] at[j]] == after[j],
                forall|i: int|
                    0 <= i < work0.len() && !at.contains(i) ==> #[trigger] self.stash_and_path@[i]
                        == work0[i],
            decreases n - k,
        {
            let place: usize = self.place_of(lane, k);
            let ghost held = self.stash_and_path@;
            self.stash_and_path.set(place, col[k]);
            proof {
                assert(at[k as int] == place);
                assert(at.contains(place as int));
                assert forall|j: int| 0 <= j < k + 1 implies self.stash_and_path@[#[trigger] at[j]]
                    == after[j] by {
                    lemma_column_place(S as int, z, y, h, e, j);
                    if j < k {
                        lemma_column_apart(S as int, z, y, h, e, j, k as int);
                        assert(held[at[j]] == after[j]);
                    }
                }
            }
            k += 1;
        }
        proof {
            let work = self.stash_and_path@;
            assert(column_of(work, S as int, z, y, h, e) =~= after) by {
                assert forall|j: int| 0 <= j < n implies column_of(
                    work,
                    S as int,
                    z,
                    y,
                    h,
                    e,
                )[j] == after[j] by {
                    assert(work[at[j]] == after[j]);
                }
            }
            lemma_lane_evicted(st, work, path, e, z, y, B as int);
            assert forall|i: int| 0 <= i < work.len() implies canonical(#[trigger] work[i]) by {
                if at.contains(i) {
                    let j = choose|j: int| 0 <= j < at.len() && at[j] == i;
                    assert(work[at[j]] == after[j]);
                    assert(kept(after[j]));
                } else {
                    assert(work[i] == work0[i]);
                }
            }
            assert(self.state() == st.with_work(work));
        }
    }

    /// Where slot `k` of the column of lane `lane` stands in the working array.
    fn place_of(&self, lane: usize, k: usize) -> (r: usize)
        requires
            lane < Z,
            1 <= self.h,
            1 <= Y,
            self.stash_and_path.len() == S + self.h * (Z * Y),
            k < S + self.h * Y,
        ensures
            r == column_place(S as int, Z as int, Y as int, lane as int, k as int),
            r < self.stash_and_path.len(),
    {
        proof {
            lemma_column_place(
                S as int,
                Z as int,
                Y as int,
                self.h as int,
                lane as int,
                k as int,
            );
        }
        if k < S {
            k
        } else {
            let level: usize = (k - S) / Y;
            let slot: usize = (k - S) % Y;
            proof {
                lemma_row_place(lane as int, slot as int, Y as int, Z as int);
                lemma_row_place(level as int, 0, Z * Y, self.h as int);
                lemma_row_place(0, 0, Z * Y, self.h as int);
            }
            S + level * (Z * Y) + lane * Y + slot
        }
    }

    /// Returns the number of occupied stash slots.
    pub fn stash_len(&self) -> (r: usize)
        requires
            S <= self.stash_and_path.len(),
        ensures
            r == live_count(self.stash_and_path@.take(S as int)),
    {
        let mut count: usize = 0;
        let mut i: usize = 0;
        let ghost s = self.stash_and_path@.take(S as int);
        while i < S
            invariant
                i <= S <= self.stash_and_path.len(),
                s == self.stash_and_path@.take(S as int),
                count == live_count(s.take(i as int)),
                count <= i,
            decreases S - i,
        {
            proof {
                assert(s.take(i + 1).drop_last() =~= s.take(i as int));
            }
            if !self.stash_and_path[i].is_empty() {
                count += 1;
            }
            i += 1;
        }
        proof {
            assert(s.take(S as int) =~= s);
        }
        count
    }

    /// Runs `E` passes over every lane of the path to `path`.
    fn evict(&mut self, path: PosType)
        requires
            old(self).open_at(path),
        ensures
            final(self).open_at(path),
            final(self).state().open_stored(path as int) == old(self).state().open_stored(
                path as int,
            ),
            final(self).state().stash_not_filled(old(self).state()),
            final(self).max_n == old(self).max_n,
            final(self).h == old(self).h,
            final(self).tree == old(self).tree,
            Self::passed(
                old(self).stash_and_path@,
                final(self).stash_and_path@,
                E * Z,
                old(self).h as int,
                path,
            ),
    {
        let ghost work0 = self.stash_and_path@;
        let mut pass: usize = 0;
        proof {
            let steps = seq![work0];
            assert(steps.first() == work0);
            assert(0 * Z == 0);
            assert(Self::passed(work0, work0, 0, self.h as int, path));
        }
        while pass < E
            invariant
                pass <= E,
                self.open_at(path),
                self.state().open_stored(path as int) == old(self).state().open_stored(
                    path as int,
                ),
                self.state().stash_not_filled(old(self).state()),
                self.max_n == old(self).max_n,
                self.h == old(self).h,
                self.tree == old(self).tree,
                work0 == old(self).stash_and_path@,
                Self::passed(work0, self.stash_and_path@, pass * Z, self.h as int, path),
            decreases E - pass,
        {
            let mut lane: usize = 0;
            while lane < Z
                invariant
                    lane <= Z,
                    pass < E,
                    self.open_at(path),
                    self.state().open_stored(path as int) == old(self).state().open_stored(
                        path as int,
                    ),
                    self.state().stash_not_filled(old(self).state()),
                    self.max_n == old(self).max_n,
                    self.h == old(self).h,
                    self.tree == old(self).tree,
                    work0 == old(self).stash_and_path@,
                    Self::passed(work0, self.stash_and_path@, pass * Z + lane, self.h as int, path),
                decreases Z - lane,
            {
                let ghost mid = self.stash_and_path@;
                self.evict_lane_fast(path, lane);
                proof {
                    let n = pass * Z + lane;
                    assert(0 <= pass * Z) by (nonlinear_arith)
                        requires
                            0 <= pass,
                            0 <= Z,
                    ;
                    vstd::arithmetic::div_mod::lemma_fundamental_div_mod_converse(
                        n,
                        Z as int,
                        pass as int,
                        lane as int,
                    );
                    lemma_one_more_pass(
                        work0,
                        mid,
                        self.stash_and_path@,
                        n,
                        S as int,
                        Z as int,
                        Y as int,
                        self.h as int,
                        path,
                        B as int,
                    );
                }
                lane += 1;
            }
            proof {
                assert((pass + 1) * Z == pass * Z + Z) by (nonlinear_arith);
            }
            pass += 1;
        }
    }

    /// [`lane_passes`] with the sizes of this ORAM.
    pub open spec fn passed(
        work: Seq<Block32>,
        after: Seq<Block32>,
        n: int,
        h: int,
        path: PosType,
    ) -> bool {
        lane_passes(work, after, n, S as int, Z as int, Y as int, h, path, B as int)
    }

    /// The slots are those of `before` after an access: the block of a key on the path to
    /// `pos` was replaced by `block` in the stash, `E` passes went over every lane, and the
    /// path was put back.
    pub open spec fn settled_from(&self, before: &Self, pos: PosType, block: Block32) -> bool {
        let st = before.state();
        let taken = without_key32(st.opened(pos as int), block.key);
        &&& Self::passed(
            with_block(taken, S as int, block),
            self.state().work,
            E * Z,
            before.h as int,
            pos,
        )
        &&& self.state().nodes == put_back(st.with_work(self.state().work), pos as int)
    }

    /// Updates or inserts a cache-line block and runs `E` passes over every lane. The
    /// closure may change the payload alone: position and key become `new_pos` and `key`.
    pub fn update<T, F: FnOnce(&mut Block32) -> T>(
        &mut self,
        pos: PosType,
        new_pos: PosType,
        key: KeyType,
        update_func: F,
    ) -> (r: (bool, T))
        requires
            old(self).wf(),
            pos < old(self).max_n,
            new_pos < old(self).max_n,
            new_pos != DUMMY_POS,
            key != DUMMY_KEY,
            old(self)@.contains_key(key) ==> old(self).state().visible(pos as int, key),
            old(self).state().has_room(key),
            forall|d: &mut Block32|
                *d == old(self).entry(key) ==> #[trigger] call_requires(update_func, (d,)),
        ensures
            final(self).wf(),
            final(self).max_n == old(self).max_n,
            final(self).h == old(self).h,
            r.0 == old(self)@.contains_key(key),
            exists|d: &mut Block32| #[trigger]
                call_ensures(update_func, (d,), r.1) && *d == old(self).entry(key) && final(self)@
                    == old(self)@.insert(key, Block32 { pos: new_pos, key, data: final(d).data })
                    && final(self).settled_from(
                    old(self),
                    pos,
                    Block32 { pos: new_pos, key, data: final(d).data },
                ),
    {
        let ghost before = *self;
        let ghost st0 = self.state();
        self.read_path(pos);
        let lookup = Block32 { pos: DUMMY_POS, key, data: EMPTY_BLOCK_DATA };
        proof {
            before.lemma_state();
            lemma_without_key(st0, pos as int, key, lookup);
        }
        let mut block: Block32 = read_and_remove_path32(&lookup, &mut self.stash_and_path);
        let found: bool = !block.is_empty();
        let ghost st1 = self.state();
        proof {
            assert(st1 == st0.with_work(self.stash_and_path@));
            assert(block == before.entry(key));
        }
        let result = apply_update(&mut block, update_func);
        let ghost changed = block;
        block.pos = new_pos;
        block.key = key;
        let written: bool = put_first(&mut self.stash_and_path, S, &block);
        proof {
            assert(st1.has_vacancy());
            assert(written);
            let i = choose|i: int|
                0 <= i < S && (#[trigger] st1.work[i]).vacant() && (forall|k: int|
                    0 <= k < i ==> !(#[trigger] st1.work[k]).vacant()) && self.stash_and_path@
                    == st1.work.update(i, block);
            st1.lemma_put(pos as int, i, block);
            assert forall|k: int| 0 <= k < self.stash_and_path.len() implies canonical(
                #[trigger] self.stash_and_path@[k],
            ) by {
                assert(canonical(st1.work[k]));
            }
            assert(before@.remove(key).insert(key, block) =~= before@.insert(key, block));
            assert(self.state() == st1.with_work(self.stash_and_path@));
            assert(self.open_at(pos));
            lemma_put_is_first(st1.work, S as int, block, self.stash_and_path@, written);
        }
        self.evict(pos);
        let ghost st2 = self.state();
        self.write_path(pos);
        proof {
            assert(st2 == st0.with_work(self.stash_and_path@));
            assert(self.settled_from(&before, pos, block));
            let d = choose|d: &mut Block32| #[trigger]
                call_ensures(update_func, (d,), result) && *d == before.entry(key) && *final(d)
                    == changed;
            assert(call_ensures(update_func, (d,), result));
            assert(block == (Block32 { pos: new_pos, key, data: final(d).data }));
        }
        let r = (found, result);
        assert(r.1 == result);
        r
    }

    /// A stored block is visible from its own position.
    pub proof fn lemma_stored_is_visible(&self, key: KeyType)
        requires
            self.wf(),
            self@.contains_key(key),
        ensures
            self@[key].key == key,
            self@[key].pos < self.max_n,
            self.state().visible(self@[key].pos as int, key),
    {
        self.lemma_state();
        self.state().lemma_stored_is_visible(key);
    }
}

} // verus!
