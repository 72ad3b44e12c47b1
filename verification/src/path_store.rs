//! What a tree-based oblivious RAM stores, and what an access may do to it.
//!
//! The store is a stash and a tree of nodes with a fixed number of slots each. An
//! access copies the nodes on one path of the tree behind the stash, into one working
//! array, moves blocks about in that array and writes the path back. A block may lie
//! in the stash or in any node on the path to its own leaf.
use vstd::prelude::*;
use crate::circuit::{
    column_fits, column_settled, column_size, flat, lemma_column_conserves, lemma_column_origin,
};
use crate::heap_tree::{lemma_node_index_injective, node_index, HeapTree};
use crate::oblivious::{both, cmov_bool, ObliviousBlock};
use crate::tally::{
    by_key, hit, lemma_by_key, lemma_by_key_insert, lemma_by_key_remove, lemma_by_key_same,
    lemma_one_place_per_key, lemma_tally_concat, lemma_tally_gather, lemma_tally_groups_positive,
    lemma_tally_positive, lemma_tally_scatter, lemma_tally_update, one_per_key, tally, tally_groups,
};

verus! {

/// A block that has a key and belongs to a leaf.
pub trait PathBlock: ObliviousBlock {
    /// The key of the block.
    spec fn key_of(self) -> u32;

    /// The leaf that the block belongs to.
    spec fn leaf_of(self) -> int;

    /// The key of the block.
    fn own_key(&self) -> (r: u32)
        ensures
            r == self.key_of(),
    ;
}

/// [`PathBlock::key_of`] as a function.
pub open spec fn keys<B: PathBlock>() -> spec_fn(B) -> u32 {
    |b: B| b.key_of()
}

/// Whether slot `b` holds the block of `key`.
pub open spec fn holds_key<B: PathBlock>(b: B, key: u32) -> bool {
    !b.vacant() && b.key_of() == key
}

/// The places of the nodes of a tree: `index(d, p)` is the node at depth `d` on the
/// path to leaf `p`.
pub struct Geometry {
    /// Number of levels.
    pub h: int,
    /// Number of leaves.
    pub leaves: int,
    /// Number of nodes.
    pub size: int,
    /// The node at a depth on the path to a leaf.
    pub index: spec_fn(int, int) -> int,
}

impl Geometry {
    /// Every path has one node at each depth, no node is at two depths, and every node
    /// lies on some path.
    pub open spec fn wf(self) -> bool {
        &&& 1 <= self.h
        &&& 1 <= self.leaves
        &&& forall|d: int, p: int|
            0 <= d < self.h && 0 <= p < self.leaves ==> 0 <= #[trigger] (self.index)(d, p)
                < self.size
        &&& forall|d: int, p: int, d2: int, p2: int|
            0 <= d < self.h && 0 <= p < self.leaves && 0 <= d2 < self.h && 0 <= p2 < self.leaves
                && #[trigger] (self.index)(d, p) == #[trigger] (self.index)(d2, p2) ==> d == d2
        &&& forall|k: int| 0 <= k < self.size ==> #[trigger] self.reaches(k)
    }

    /// Node `k` lies on some path.
    pub open spec fn reaches(self, k: int) -> bool {
        exists|d: int, p: int|
            0 <= d < self.h && 0 <= p < self.leaves && #[trigger] (self.index)(d, p) == k
    }

    /// The nodes on the path to leaf `p`.
    pub open spec fn path(self, p: int) -> Seq<int> {
        Seq::new(self.h as nat, |d: int| (self.index)(d, p))
    }

    /// A block that belongs to `leaf` may lie at depth `d` on the path to leaf `p`.
    pub open spec fn allows(self, d: int, p: int, leaf: int) -> bool {
        0 <= leaf < self.leaves && (self.index)(d, leaf) == (self.index)(d, p)
    }

    proof fn lemma_path(self, p: int)
        requires
            self.wf(),
            0 <= p < self.leaves,
        ensures
            self.path(p).len() == self.h,
            forall|i: int|
                0 <= i < self.path(p).len() ==> 0 <= #[trigger] self.path(p)[i] < self.size,
            forall|i: int, j: int|
                0 <= i < j < self.path(p).len() ==> #[trigger] self.path(p)[i]
                    != #[trigger] self.path(p)[j],
    {
        assert forall|i: int, j: int| 0 <= i < j < self.path(p).len() implies #[trigger] self.path(
            p,
        )[i] != #[trigger] self.path(p)[j] by {
            assert((self.index)(i, p) != (self.index)(j, p));
        }
    }
}

/// Rows of one width, one after another: slot `j` of row `d` stands at `d * w + j`.
pub proof fn lemma_flat_row<B>(g: Seq<Seq<B>>, w: int, d: int, j: int)
    requires
        w >= 0,
        forall|e: int| 0 <= e < g.len() ==> (#[trigger] g[e]).len() == w,
        0 <= d < g.len(),
        0 <= j < w,
    ensures
        0 <= d * w + j < flat(g).len(),
        flat(g)[d * w + j] == g[d][j],
    decreases g.len(),
{
    let front = g.drop_last();
    let n = front.len() as int;
    assert forall|e: int| 0 <= e < front.len() implies (#[trigger] front[e]).len() == w by {
        assert(front[e] == g[e]);
    }
    lemma_flat_len(front, w);
    if d < n {
        lemma_flat_row(front, w, d, j);
    } else {
        assert(0 <= n * w) by (nonlinear_arith)
            requires
                n >= 0,
                w >= 0,
        ;
        assert(g.last() == g[d]);
    }
}

/// The number of slots of rows of one width.
pub proof fn lemma_flat_len<B>(g: Seq<Seq<B>>, w: int)
    requires
        forall|e: int| 0 <= e < g.len() ==> (#[trigger] g[e]).len() == w,
    ensures
        flat(g).len() == g.len() * w,
    decreases g.len(),
{
    if g.len() == 0 {
        assert(0 * w == 0);
    } else {
        let front = g.drop_last();
        assert forall|e: int| 0 <= e < front.len() implies (#[trigger] front[e]).len() == w by {
            assert(front[e] == g[e]);
        }
        lemma_flat_len(front, w);
        let n = front.len() as int;
        assert(g.last() == g[n]);
        assert((n + 1) * w == n * w + w) by (nonlinear_arith);
    }
}

/// A slot of `h` rows of width `w` stands in one row, at one place of it.
pub proof fn lemma_row_of(i: int, w: int, h: int)
    requires
        0 <= i < h * w,
        w > 0,
    ensures
        0 <= i / w < h,
        0 <= i % w < w,
        i == (i / w) * w + i % w,
{
    vstd::arithmetic::div_mod::lemma_fundamental_div_mod(i, w);
    vstd::arithmetic::div_mod::lemma_mod_bound(i, w);
    vstd::arithmetic::div_mod::lemma_div_pos_is_pos(i, w);
    assert((i / w) * w == w * (i / w)) by (nonlinear_arith);
    assert(i / w < h) by (nonlinear_arith)
        requires
            i < h * w,
            i == (i / w) * w + i % w,
            i % w >= 0,
            w > 0,
    ;
}

/// The place of a slot in `h` rows of width `w`.
pub proof fn lemma_row_place(d: int, j: int, w: int, h: int)
    requires
        0 <= d < h,
        0 <= j < w,
    ensures
        0 <= d * w,
        d * w + w <= h * w,
{
    assert(0 <= d * w && d * w + w <= h * w) by (nonlinear_arith)
        requires
            0 <= d < h,
            0 < w,
    ;
}

/// The number of slots of rows that hold a block, counted over one run of slots.
pub proof fn lemma_tally_flat<B: ObliviousBlock>(g: Seq<Seq<B>>, b: B)
    ensures
        tally(flat(g), b) == tally_groups(g, b),
    decreases g.len(),
{
    if g.len() > 0 {
        lemma_tally_flat(g.drop_last(), b);
        lemma_tally_concat(flat(g.drop_last()), g.last(), b);
    }
}

/// A store with `s` stash slots and `w` slots in every node.
pub struct PathState<B> {
    /// The tree.
    pub geo: Geometry,
    /// Number of stash slots.
    pub s: int,
    /// Number of slots in a node.
    pub w: int,
    /// The slots of every node.
    pub nodes: Seq<Seq<B>>,
    /// The stash, followed by room for the slots of one path.
    pub work: Seq<B>,
}

impl<B: PathBlock> PathState<B> {
    /// The sizes fit together.
    pub open spec fn shape(self) -> bool {
        &&& self.geo.wf()
        &&& 0 <= self.s
        &&& 1 <= self.w
        &&& self.nodes.len() == self.geo.size
        &&& forall|k: int| 0 <= k < self.nodes.len() ==> (#[trigger] self.nodes[k]).len() == self.w
        &&& self.work.len() == self.s + self.geo.h * self.w
    }

    /// The stash.
    pub open spec fn stash(self) -> Seq<B> {
        self.work.take(self.s)
    }

    /// Slot `j` of the node at depth `d` in the working array.
    pub open spec fn slot(self, d: int, j: int) -> B {
        self.work[self.s + d * self.w + j]
    }

    /// The node at depth `d` in the working array.
    pub open spec fn row(self, d: int) -> Seq<B> {
        Seq::new(self.w as nat, |j: int| self.slot(d, j))
    }

    /// The path in the working array.
    pub open spec fn rows(self) -> Seq<Seq<B>> {
        Seq::new(self.geo.h as nat, |d: int| self.row(d))
    }

    /// The nodes on the path to leaf `p`.
    pub open spec fn path_rows(self, p: int) -> Seq<Seq<B>> {
        Seq::new(self.geo.h as nat, |d: int| self.nodes[(self.geo.index)(d, p)])
    }

    /// The stash followed by the path to leaf `p`.
    pub open spec fn opened(self, p: int) -> Seq<B> {
        self.stash() + flat(self.path_rows(p))
    }

    /// The number of slots of stash and tree that hold block `b`.
    pub open spec fn contents(self, b: B) -> int {
        tally(self.stash(), b) + tally_groups(self.nodes, b)
    }

    /// [`Self::contents`] as a function.
    pub open spec fn count(self) -> spec_fn(B) -> int {
        |b: B| self.contents(b)
    }

    /// The number of slots that hold block `b` while the path to leaf `p` is in the
    /// working array: there it stands for the path in the tree.
    pub open spec fn open_contents(self, p: int, b: B) -> int {
        tally(self.work, b) + tally_groups(self.nodes, b) - tally_groups(self.path_rows(p), b)
    }

    /// [`Self::open_contents`] as a function.
    pub open spec fn open_count(self, p: int) -> spec_fn(B) -> int {
        |b: B| self.open_contents(p, b)
    }

    /// Every block of the tree lies on the path to its leaf.
    pub open spec fn tree_legal(self) -> bool {
        forall|d: int, p: int, j: int|
            #![trigger self.nodes[(self.geo.index)(d, p)][j]]
            0 <= d < self.geo.h && 0 <= p < self.geo.leaves && 0 <= j < self.w && !self.nodes[(
            self.geo.index)(d, p)][j].vacant() ==> self.geo.allows(
                d,
                p,
                self.nodes[(self.geo.index)(d, p)][j].leaf_of(),
            )
    }

    /// Every block of the stash belongs to a leaf of the tree.
    pub open spec fn stash_legal(self) -> bool {
        forall|i: int|
            0 <= i < self.s && !(#[trigger] self.work[i]).vacant() ==> 0 <= self.work[i].leaf_of()
                < self.geo.leaves
    }

    /// The path in the working array holds blocks that may lie on the path to leaf `p`.
    pub open spec fn path_legal(self, p: int) -> bool {
        forall|d: int, j: int|
            0 <= d < self.geo.h && 0 <= j < self.w && !(#[trigger] self.slot(d, j)).vacant()
                ==> self.geo.allows(d, p, self.slot(d, j).leaf_of())
    }

    /// The store is at rest: blocks are where their leaves allow, and every key is
    /// stored once.
    pub open spec fn at_rest(self) -> bool {
        &&& self.shape()
        &&& self.tree_legal()
        &&& self.stash_legal()
        &&& one_per_key(self.count(), keys())
    }

    /// The path to leaf `p` is in the working array, and blocks are where they may be.
    pub open spec fn open_at(self, p: int) -> bool {
        &&& self.shape()
        &&& 0 <= p < self.geo.leaves
        &&& self.tree_legal()
        &&& self.stash_legal()
        &&& self.path_legal(p)
    }

    /// The stored block of every stored key.
    pub open spec fn stored(self) -> Map<u32, B> {
        by_key(self.count(), keys())
    }

    /// The stored block of every stored key while the path to leaf `p` is in the working
    /// array.
    pub open spec fn open_stored(self, p: int) -> Map<u32, B> {
        by_key(self.open_count(p), keys())
    }

    /// The block of `key` is in the stash or on the path to leaf `p`.
    pub open spec fn visible(self, p: int, key: u32) -> bool {
        exists|i: int|
            0 <= i < self.opened(p).len() && holds_key(#[trigger] self.opened(p)[i], key)
    }

    /// A stash slot is vacant, or holds the block of `key`.
    pub open spec fn has_room(self, key: u32) -> bool {
        exists|i: int|
            0 <= i < self.s && ((#[trigger] self.work[i]).vacant() || self.work[i].key_of() == key)
    }

    /// A stash slot is vacant.
    pub open spec fn has_vacancy(self) -> bool {
        exists|i: int| 0 <= i < self.s && (#[trigger] self.work[i]).vacant()
    }

    /// No stash slot was filled since `before`.
    pub open spec fn stash_not_filled(self, before: Self) -> bool {
        forall|i: int|
            0 <= i < self.s && before.work[i].vacant() ==> (#[trigger] self.work[i]).vacant()
    }

    /// The state with another working array.
    pub open spec fn with_work(self, work: Seq<B>) -> Self {
        PathState { work, ..self }
    }

    proof fn lemma_slot_place(self, d: int, j: int)
        requires
            self.shape(),
            0 <= d < self.geo.h,
            0 <= j < self.w,
        ensures
            self.s <= self.s + d * self.w + j < self.work.len(),
    {
        lemma_row_place(d, j, self.w, self.geo.h);
    }

    /// The working array is the stash followed by the rows of the path.
    proof fn lemma_work(self)
        requires
            self.shape(),
        ensures
            self.work == self.stash() + flat(self.rows()),
            forall|b: B| #[trigger]
                tally(self.work, b) == tally(self.stash(), b) + tally_groups(self.rows(), b),
    {
        let g = self.rows();
        assert forall|d: int| 0 <= d < g.len() implies (#[trigger] g[d]).len() == self.w by {}
        lemma_flat_len(g, self.w);
        let t = self.stash() + flat(g);
        assert forall|i: int| 0 <= i < self.work.len() implies self.work[i] == t[i] by {
            if i >= self.s {
                let k = i - self.s;
                lemma_row_of(k, self.w, self.geo.h);
                let d = k / self.w;
                let j = k % self.w;
                assert(g[d][j] == self.slot(d, j));
                lemma_flat_row(g, self.w, d, j);
            }
        }
        assert(self.work =~= t);
        assert forall|b: B| #[trigger]
            tally(self.work, b) == tally(self.stash(), b) + tally_groups(self.rows(), b) by {
            lemma_tally_concat(self.stash(), flat(g), b);
            lemma_tally_flat(g, b);
        }
    }

    /// The path to leaf `p`, as slots of [`Self::opened`].
    pub proof fn lemma_opened(self, p: int)
        requires
            self.shape(),
            0 <= p < self.geo.leaves,
        ensures
            self.opened(p).len() == self.work.len(),
            self.with_work(self.opened(p)).shape(),
            self.with_work(self.opened(p)).rows() == self.path_rows(p),
            self.with_work(self.opened(p)).stash() == self.stash(),
            forall|d: int, j: int|
                #![trigger self.with_work(self.opened(p)).slot(d, j)]
                0 <= d < self.geo.h && 0 <= j < self.w ==> self.with_work(self.opened(p)).slot(d, j)
                    == self.nodes[(self.geo.index)(d, p)][j],
    {
        let g = self.path_rows(p);
        self.geo.lemma_path(p);
        assert forall|d: int| 0 <= d < g.len() implies (#[trigger] g[d]).len() == self.w by {
            assert(g[d] == self.nodes[self.geo.path(p)[d]]);
        }
        lemma_flat_len(g, self.w);
        assert(0 <= self.geo.h * self.w) by (nonlinear_arith)
            requires
                self.geo.h >= 1,
                self.w >= 1,
        ;
        let o = self.with_work(self.opened(p));
        assert forall|d: int, j: int|
            #![trigger o.slot(d, j)]
            0 <= d < self.geo.h && 0 <= j < self.w implies o.slot(d, j) == self.nodes[(
        self.geo.index)(d, p)][j] by {
            assert(g[d][j] == self.nodes[(self.geo.index)(d, p)][j]);
            lemma_row_place(d, j, self.w, self.geo.h);
            lemma_flat_row(g, self.w, d, j);
        }
        assert(o.stash() =~= self.stash());
        assert forall|d: int| 0 <= d < self.geo.h implies o.rows()[d] == g[d] by {
            assert(o.row(d) =~= g[d]) by {
                assert forall|j: int| 0 <= j < self.w implies o.row(d)[j] == g[d][j] by {
                    assert(o.slot(d, j) == self.nodes[(self.geo.index)(d, p)][j]);
                }
            }
        }
        assert(o.rows() =~= g);
    }

    /// Copying a path into the working array opens the store at it.
    pub proof fn lemma_open(self, p: int)
        requires
            self.at_rest(),
            0 <= p < self.geo.leaves,
        ensures
            ({
                let o = self.with_work(self.opened(p));
                &&& o.open_at(p)
                &&& one_per_key(o.open_count(p), keys())
                &&& o.open_stored(p) == self.stored()
                &&& o.stash_not_filled(self)
                &&& forall|b: B| #[trigger] tally(o.work, b) <= self.contents(b)
            }),
    {
        let o = self.with_work(self.opened(p));
        self.lemma_opened(p);
        o.lemma_work();
        self.geo.lemma_path(p);
        let at = self.geo.path(p);
        assert(self.path_rows(p) =~= at.map_values(|k: int| self.nodes[k]));
        assert(o.path_rows(p) =~= self.path_rows(p));
        assert forall|b: B| #[trigger] o.open_count(p)(b) == self.count()(b) by {
            assert(tally(o.work, b) == tally(o.stash(), b) + tally_groups(o.rows(), b));
        }
        lemma_by_key_same(self.count(), o.open_count(p), keys());
        assert forall|b: B| #[trigger] tally(o.work, b) <= self.contents(b) by {
            lemma_tally_gather(self.nodes, at, b);
        }
        assert forall|i: int| 0 <= i < o.s implies #[trigger] o.work[i] == self.work[i] by {
            assert(o.stash()[i] == self.stash()[i]);
        }
        assert forall|d: int, j: int|
            0 <= d < o.geo.h && 0 <= j < o.w && !(#[trigger] o.slot(
                d,
                j,
            )).vacant() implies o.geo.allows(d, p, o.slot(d, j).leaf_of()) by {
            assert(o.slot(d, j) == self.nodes[(self.geo.index)(d, p)][j]);
        }
    }

    /// Writing the path in the working array back to the tree puts the store at rest.
    pub proof fn lemma_close(self, p: int, nodes: Seq<Seq<B>>)
        requires
            self.open_at(p),
            one_per_key(self.open_count(p), keys()),
            nodes.len() == self.nodes.len(),
            forall|d: int|
                0 <= d < self.geo.h ==> nodes[#[trigger] (self.geo.index)(d, p)] == self.row(d),
            forall|k: int|
                0 <= k < nodes.len() && !self.geo.path(p).contains(k) ==> #[trigger] nodes[k]
                    == self.nodes[k],
        ensures
            ({
                let c = PathState { nodes, ..self };
                &&& c.at_rest()
                &&& c.stored() == self.open_stored(p)
                &&& c.opened(p) == self.work
            }),
    {
        let c = PathState { nodes, ..self };
        let at = self.geo.path(p);
        self.geo.lemma_path(p);
        self.lemma_work();
        assert(self.path_rows(p) =~= at.map_values(|k: int| self.nodes[k]));
        assert(c.path_rows(p) =~= at.map_values(|k: int| nodes[k]));
        assert(c.path_rows(p) =~= self.rows()) by {
            assert forall|d: int| 0 <= d < self.geo.h implies c.path_rows(p)[d] == self.rows()[d] by {
                assert(nodes[(self.geo.index)(d, p)] == self.row(d));
            }
        }
        assert(c.opened(p) =~= self.work);
        assert forall|b: B| #[trigger] c.count()(b) == self.open_count(p)(b) by {
            lemma_tally_scatter(self.nodes, nodes, at, b);
            assert(tally(self.work, b) == tally(self.stash(), b) + tally_groups(self.rows(), b));
        }
        lemma_by_key_same(self.open_count(p), c.count(), keys());
        assert forall|k: int| 0 <= k < nodes.len() implies (#[trigger] nodes[k]).len() == self.w by {
            if at.contains(k) {
                let d = choose|d: int| 0 <= d < at.len() && at[d] == k;
                assert(nodes[(self.geo.index)(d, p)] == self.row(d));
            } else {
                assert(nodes[k] == self.nodes[k]);
            }
        }
        assert forall|d: int, q: int, j: int|
            #![trigger c.nodes[(c.geo.index)(d, q)][j]]
            0 <= d < c.geo.h && 0 <= q < c.geo.leaves && 0 <= j < c.w && !c.nodes[(c.geo.index)(
                d,
                q,
            )][j].vacant() implies c.geo.allows(
            d,
            q,
            c.nodes[(c.geo.index)(d, q)][j].leaf_of(),
        ) by {
            let k = (c.geo.index)(d, q);
            if at.contains(k) {
                let e = choose|e: int| 0 <= e < at.len() && at[e] == k;
                assert((self.geo.index)(e, p) == (self.geo.index)(d, q));
                assert(e == d);
                assert(nodes[(self.geo.index)(d, p)] == self.row(d));
                assert(nodes[k][j] == self.slot(d, j));
            } else {
                assert(nodes[k] == self.nodes[k]);
                assert(self.nodes[(self.geo.index)(d, q)][j] == nodes[k][j]);
            }
        }
    }

    /// A stored block is visible from the path to its leaf.
    pub proof fn lemma_stored_is_visible(self, key: u32)
        requires
            self.at_rest(),
            self.stored().contains_key(key),
        ensures
            0 <= self.stored()[key].leaf_of() < self.geo.leaves,
            self.stored()[key].key_of() == key,
            !self.stored()[key].vacant(),
            self.visible(self.stored()[key].leaf_of(), key),
    {
        let b = self.stored()[key];
        assert(self.count()(b) > 0 && keys::<B>()(b) == key);
        lemma_tally_positive(self.stash(), b);
        lemma_tally_groups_positive(self.nodes, b);
        if tally(self.stash(), b) > 0 {
            let i = choose|i: int| 0 <= i < self.stash().len() && self.stash()[i] == b;
            assert(self.work[i] == b);
            assert(self.opened(b.leaf_of())[i] == b);
        } else {
            let k = choose|k: int|
                0 <= k < self.nodes.len() && !b.vacant() && (#[trigger] self.nodes[k]).contains(b);
            let j = choose|j: int| 0 <= j < self.nodes[k].len() && self.nodes[k][j] == b;
            assert(self.geo.reaches(k));
            let (d, p) = choose|d: int, p: int|
                0 <= d < self.geo.h && 0 <= p < self.geo.leaves && #[trigger] (self.geo.index)(d, p)
                    == k;
            assert(self.nodes[(self.geo.index)(d, p)][j] == b);
            let leaf = b.leaf_of();
            assert(self.geo.allows(d, p, leaf));
            self.lemma_opened(leaf);
            let o = self.with_work(self.opened(leaf));
            assert(o.slot(d, j) == b);
            o.lemma_slot_place(d, j);
            assert(self.opened(leaf)[self.s + d * self.w + j] == b);
        }
    }

    /// A block that is not stored is not visible.
    pub proof fn lemma_visible_is_stored(self, p: int, i: int)
        requires
            self.at_rest(),
            0 <= p < self.geo.leaves,
            0 <= i < self.opened(p).len(),
            !self.opened(p)[i].vacant(),
        ensures
            self.stored().contains_key(self.opened(p)[i].key_of()),
            self.stored()[self.opened(p)[i].key_of()] == self.opened(p)[i],
    {
        let b = self.opened(p)[i];
        self.lemma_open(p);
        lemma_tally_positive(self.opened(p), b);
        assert(self.opened(p).contains(b));
        assert(tally(self.with_work(self.opened(p)).work, b) <= self.contents(b));
        assert(self.count()(b) > 0);
        lemma_by_key(self.count(), keys(), b);
    }

    /// No two slots of the stash and a path hold blocks of one key.
    pub proof fn lemma_one_slot_per_key(self, p: int)
        requires
            self.at_rest(),
            0 <= p < self.geo.leaves,
        ensures
            forall|i: int, j: int|
                0 <= i < self.opened(p).len() && 0 <= j < self.opened(p).len() && !(
                #[trigger] self.opened(p)[i]).vacant() && !(#[trigger] self.opened(p)[j]).vacant()
                    && self.opened(p)[i].key_of() == self.opened(p)[j].key_of() ==> i == j,
    {
        self.lemma_open(p);
        let o = self.opened(p);
        let g = seq![o];
        assert forall|b: B| #[trigger] tally_groups(g, b) <= self.count()(b) by {
            assert(g.drop_last() =~= Seq::empty());
            assert(tally_groups(g.drop_last(), b) == 0);
            assert(tally(self.with_work(o).work, b) <= self.contents(b));
        }
        lemma_one_place_per_key(g, self.count(), keys());
        assert forall|i: int, j: int|
            0 <= i < o.len() && 0 <= j < o.len() && !(#[trigger] o[i]).vacant() && !(
            #[trigger] o[j]).vacant() && o[i].key_of() == o[j].key_of() implies i == j by {
            assert(g[0][i] == o[i] && g[0][j] == o[j]);
            assert(keys::<B>()(g[0][i]) == keys::<B>()(g[0][j]));
        }
    }

    /// A stash with a slot for every key that is stored or comes in never lacks room.
    pub proof fn lemma_few_keys_have_room(self, n: int, key: u32)
        requires
            self.at_rest(),
            key < n <= self.s,
            forall|k: u32| #[trigger] self.stored().contains_key(k) ==> k < n,
        ensures
            self.has_room(key),
    {
        if !self.has_room(key) {
            let held = Seq::new(self.s as nat, |i: int| self.work[i].key_of() as int);
            let others = vstd::set_lib::set_int_range(0, n).remove(key as int);
            let o = self.opened(0);
            self.lemma_opened(0);
            self.lemma_one_slot_per_key(0);
            assert forall|i: int| 0 <= i < self.s implies !(#[trigger] o[i]).vacant()
                && o[i].key_of() == held[i] && held[i] != key by {
                assert(o[i] == self.stash()[i]);
                assert(!self.work[i].vacant());
            }
            assert forall|i: int| 0 <= i < held.len() implies others.contains(#[trigger] held[i]) by {
                assert(!o[i].vacant());
                self.lemma_visible_is_stored(0, i);
            }
            assert(held.no_duplicates()) by {
                assert forall|i: int, j: int|
                    0 <= i < held.len() && 0 <= j < held.len() && i != j implies held[i]
                    != held[j] by {
                    assert(!o[i].vacant() && !o[j].vacant());
                }
            }
            held.unique_seq_to_set();
            vstd::set_lib::lemma_int_range(0, n);
            assert(held.to_set().subset_of(others));
            vstd::set_lib::lemma_len_subset(held.to_set(), others);
        }
    }

    /// Taking a block out of the working array takes its key out of the store.
    pub proof fn lemma_take(self, p: int, i: int, c: B)
        requires
            self.open_at(p),
            one_per_key(self.open_count(p), keys()),
            0 <= i < self.work.len(),
            !self.work[i].vacant(),
            c.vacant(),
        ensures
            ({
                let t = self.with_work(self.work.update(i, c));
                &&& t.open_at(p)
                &&& one_per_key(t.open_count(p), keys())
                &&& self.open_stored(p).contains_key(self.work[i].key_of())
                &&& self.open_stored(p)[self.work[i].key_of()] == self.work[i]
                &&& t.open_stored(p) == self.open_stored(p).remove(self.work[i].key_of())
            }),
    {
        let t = self.with_work(self.work.update(i, c));
        let b0 = self.work[i];
        assert(t.path_rows(p) =~= self.path_rows(p));
        assert forall|b: B| #[trigger] t.open_count(p)(b) == self.open_count(p)(b) - hit(b0, b) by {
            lemma_tally_update(self.work, i, c, b);
        }
        assert(self.open_count(p)(b0) > 0) by {
            assert(self.open_count(p)(b0) >= hit(b0, b0)) by {
                lemma_tally_positive(self.work, b0);
                assert(self.work.contains(b0));
                self.geo.lemma_path(p);
                let at = self.geo.path(p);
                assert(self.path_rows(p) =~= at.map_values(|k: int| self.nodes[k]));
                lemma_tally_gather(self.nodes, at, b0);
            }
        }
        lemma_by_key(self.open_count(p), keys(), b0);
        lemma_by_key_remove(self.open_count(p), t.open_count(p), keys(), b0);
        assert forall|d: int, j: int|
            0 <= d < t.geo.h && 0 <= j < t.w && !(#[trigger] t.slot(
                d,
                j,
            )).vacant() implies t.geo.allows(d, p, t.slot(d, j).leaf_of()) by {
            self.lemma_slot_place(d, j);
            assert(t.slot(d, j) == self.slot(d, j));
        }
    }

    /// Putting a block of an absent key into a vacant stash slot puts its key into the
    /// store.
    pub proof fn lemma_put(self, p: int, i: int, block: B)
        requires
            self.open_at(p),
            one_per_key(self.open_count(p), keys()),
            0 <= i < self.s,
            self.work[i].vacant(),
            !block.vacant(),
            0 <= block.leaf_of() < self.geo.leaves,
            !self.open_stored(p).contains_key(block.key_of()),
        ensures
            ({
                let t = self.with_work(self.work.update(i, block));
                &&& t.open_at(p)
                &&& one_per_key(t.open_count(p), keys())
                &&& t.open_stored(p) == self.open_stored(p).insert(block.key_of(), block)
            }),
    {
        let t = self.with_work(self.work.update(i, block));
        assert(0 <= self.geo.h * self.w) by (nonlinear_arith)
            requires
                self.geo.h >= 1,
                self.w >= 1,
        ;
        assert(t.path_rows(p) =~= self.path_rows(p));
        assert forall|b: B| #[trigger] t.open_count(p)(b) == self.open_count(p)(b) + hit(
            block,
            b,
        ) by {
            lemma_tally_update(self.work, i, block, b);
        }
        lemma_by_key_insert(self.open_count(p), t.open_count(p), keys(), block);
        assert forall|d: int, j: int|
            0 <= d < t.geo.h && 0 <= j < t.w && !(#[trigger] t.slot(
                d,
                j,
            )).vacant() implies t.geo.allows(d, p, t.slot(d, j).leaf_of()) by {
            self.lemma_slot_place(d, j);
            assert(t.slot(d, j) == self.slot(d, j));
        }
    }

    /// Moving blocks about in the working array, to where they may be, keeps the store.
    pub proof fn lemma_rearranged(self, p: int, work: Seq<B>)
        requires
            self.open_at(p),
            one_per_key(self.open_count(p), keys()),
            work.len() == self.work.len(),
            forall|b: B| #[trigger] tally(work, b) == tally(self.work, b),
            self.with_work(work).stash_legal(),
            self.with_work(work).path_legal(p),
        ensures
            self.with_work(work).open_at(p),
            one_per_key(self.with_work(work).open_count(p), keys()),
            self.with_work(work).open_stored(p) == self.open_stored(p),
    {
        let t = self.with_work(work);
        assert(t.path_rows(p) =~= self.path_rows(p));
        assert forall|b: B| #[trigger] t.open_count(p)(b) == self.open_count(p)(b) by {
            assert(tally(work, b) == tally(self.work, b));
        }
        lemma_by_key_same(self.open_count(p), t.open_count(p), keys());
    }

    /// Replacing what a vacant stash slot holds by another vacant slot keeps the store.
    pub proof fn lemma_put_nothing(self, p: int, i: int, c: B)
        requires
            self.open_at(p),
            one_per_key(self.open_count(p), keys()),
            0 <= i < self.s,
            self.work[i].vacant(),
            c.vacant(),
        ensures
            ({
                let t = self.with_work(self.work.update(i, c));
                &&& t.open_at(p)
                &&& one_per_key(t.open_count(p), keys())
                &&& t.open_stored(p) == self.open_stored(p)
            }),
    {
        let work = self.work.update(i, c);
        let t = self.with_work(work);
        assert(0 <= self.geo.h * self.w) by (nonlinear_arith)
            requires
                self.geo.h >= 1,
                self.w >= 1,
        ;
        assert forall|b: B| #[trigger] tally(work, b) == tally(self.work, b) by {
            lemma_tally_update(self.work, i, c, b);
        }
        assert forall|d: int, j: int|
            0 <= d < t.geo.h && 0 <= j < t.w && !(#[trigger] t.slot(
                d,
                j,
            )).vacant() implies t.geo.allows(d, p, t.slot(d, j).leaf_of()) by {
            self.lemma_slot_place(d, j);
            assert(t.slot(d, j) == self.slot(d, j));
        }
        self.lemma_rearranged(p, work);
    }

    /// Once the block of `key` is taken out of the stash and the path to leaf `p`, a stash
    /// slot is vacant exactly when [`Self::has_room`] said so before.
    pub proof fn lemma_room(self, p: int, key: u32, taken: Seq<B>, found: bool)
        requires
            self.at_rest(),
            0 <= p < self.geo.leaves,
            found ==> exists|i: int|
                0 <= i < self.opened(p).len() && holds_key(#[trigger] self.opened(p)[i], key)
                    && taken == self.opened(p).update(i, self.opened(p)[i].vacated()),
            !found ==> taken == self.opened(p) && forall|i: int|
                0 <= i < self.opened(p).len() ==> !holds_key(#[trigger] self.opened(p)[i], key),
        ensures
            self.has_room(key) == self.with_work(taken).has_vacancy(),
    {
        let o = self.opened(p);
        let t = self.with_work(taken);
        self.lemma_opened(p);
        self.lemma_one_slot_per_key(p);
        assert(0 <= self.geo.h * self.w) by (nonlinear_arith)
            requires
                self.geo.h >= 1,
                self.w >= 1,
        ;
        assert forall|i: int| 0 <= i < self.s implies (#[trigger] taken[i]).vacant() == (
        self.work[i].vacant() || self.work[i].key_of() == key) by {
            assert(o[i] == self.stash()[i]);
            o[i].lemma_vacancy();
            if found {
                let k = choose|k: int|
                    0 <= k < o.len() && holds_key(#[trigger] o[k], key) && taken == o.update(
                        k,
                        o[k].vacated(),
                    );
                o[k].lemma_vacancy();
                if holds_key(o[i], key) {
                    assert(i == k);
                }
            } else {
                assert(!holds_key(o[i], key));
            }
        }
        if self.has_room(key) {
            let i = choose|i: int|
                0 <= i < self.s && ((#[trigger] self.work[i]).vacant() || self.work[i].key_of()
                    == key);
            assert(t.work[i].vacant());
        }
        if t.has_vacancy() {
            let i = choose|i: int| 0 <= i < t.s && (#[trigger] t.work[i]).vacant();
            assert(self.work[i].vacant() || self.work[i].key_of() == key);
        }
    }

    /// A store of vacant slots is at rest and stores nothing.
    pub proof fn lemma_empty(self)
        requires
            self.shape(),
            forall|i: int| 0 <= i < self.work.len() ==> (#[trigger] self.work[i]).vacant(),
            forall|k: int, j: int|
                #![trigger self.nodes[k][j]]
                0 <= k < self.nodes.len() && 0 <= j < self.w ==> self.nodes[k][j].vacant(),
        ensures
            self.at_rest(),
            self.stored() == Map::<u32, B>::empty(),
    {
        assert(0 <= self.geo.h * self.w) by (nonlinear_arith)
            requires
                self.geo.h >= 1,
                self.w >= 1,
        ;
        assert forall|b: B| #[trigger] self.count()(b) == 0 by {
            lemma_tally_positive(self.stash(), b);
            lemma_tally_groups_positive(self.nodes, b);
            if tally(self.stash(), b) > 0 {
                let i = choose|i: int| 0 <= i < self.stash().len() && self.stash()[i] == b;
                assert(self.work[i] == b);
            }
            if tally_groups(self.nodes, b) > 0 {
                let k = choose|k: int|
                    0 <= k < self.nodes.len() && !b.vacant() && (
                    #[trigger] self.nodes[k]).contains(b);
                let j = choose|j: int| 0 <= j < self.nodes[k].len() && self.nodes[k][j] == b;
                assert(self.nodes[k][j].vacant());
            }
        }
        assert forall|d: int, p: int, j: int|
            #![trigger self.nodes[(self.geo.index)(d, p)][j]]
            0 <= d < self.geo.h && 0 <= p < self.geo.leaves && 0 <= j < self.w implies self.nodes[(
        self.geo.index)(d, p)][j].vacant() by {
            assert(0 <= (self.geo.index)(d, p) < self.geo.size);
        }
        assert(self.stored() =~= Map::<u32, B>::empty());
    }

    /// A pass over the whole working array keeps the store, and fills no stash slot.
    pub proof fn lemma_evicted(self, p: int, depths: Seq<i64>, work: Seq<B>)
        requires
            self.open_at(p),
            one_per_key(self.open_count(p), keys()),
            column_fits(self.work, depths, self.s + self.w),
            column_settled(
                self.work,
                depths,
                work,
                self.s + self.w,
                self.w,
                self.geo.h,
            ),
            forall|i: int, l: int|
                0 <= i < self.work.len() && !self.work[i].vacant() && 0 <= l < self.geo.h && l
                    <= depths[i] ==> #[trigger] self.geo.allows(l, p, self.work[i].leaf_of()),
        ensures
            self.with_work(work).open_at(p),
            one_per_key(self.with_work(work).open_count(p), keys()),
            self.with_work(work).open_stored(p) == self.open_stored(p),
            self.with_work(work).stash_not_filled(self),
    {
        let t = self.with_work(work);
        let n0 = self.s + self.w;
        let h = self.geo.h;
        let w = self.w;
        assert(h * w == w + (h - 1) * w) by (nonlinear_arith);
        assert(column_size(self.work, n0, w, h)) by {
            assert(0 <= n0 && 0 <= w && 1 <= h);
        }
        assert forall|b: B| #[trigger] tally(work, b) == tally(self.work, b) by {
            lemma_column_conserves(self.work, depths, work, n0, w, h, b);
        }
        assert forall|i: int| 0 <= i < self.s && !(#[trigger] work[i]).vacant() implies work[i]
            == self.work[i] by {
            lemma_column_origin(self.work, depths, work, n0, w, h, 0, i);
        }
        assert forall|d: int, j: int|
            0 <= d < h && 0 <= j < w && !(#[trigger] t.slot(d, j)).vacant() implies t.geo.allows(
            d,
            p,
            t.slot(d, j).leaf_of(),
        ) by {
            let k = self.s + d * w + j;
            if d == 0 {
                assert(0 * w == 0);
                lemma_column_origin(self.work, depths, work, n0, w, h, 0, k);
            } else {
                assert(n0 + (d - 1) * w == self.s + d * w && n0 + d * w == self.s + d * w + w)
                    by (nonlinear_arith)
                    requires
                        n0 == self.s + w,
                ;
                lemma_column_origin(self.work, depths, work, n0, w, h, d, k);
            }
            if work[k] == self.work[k] {
                assert(self.slot(d, j) == t.slot(d, j));
            } else {
                let i = choose|i: int|
                    0 <= i < self.work.len() && work[k] == #[trigger] self.work[i] && depths[i]
                        >= d;
                assert(self.geo.allows(d, p, self.work[i].leaf_of()));
            }
        }
        assert forall|i: int|
            0 <= i < t.s && !(#[trigger] t.work[i]).vacant() implies 0 <= t.work[i].leaf_of()
            < t.geo.leaves by {
            assert(work[i] == self.work[i]);
        }
        self.lemma_rearranged(p, work);
    }
}

/// Takes the block of `key` out of the working array.
pub fn take_key<B: PathBlock>(work: &mut Vec<B>, key: u32, result: &mut B) -> (found: bool)
    requires
        forall|i: int, j: int|
            0 <= i < old(work).len() && 0 <= j < old(work).len() && holds_key(
                #[trigger] old(work)@[i],
                key,
            ) && holds_key(#[trigger] old(work)@[j], key) ==> i == j,
    ensures
        found == exists|i: int| 0 <= i < old(work).len() && holds_key(#[trigger] old(work)@[i], key),
        found ==> exists|i: int|
            0 <= i < old(work).len() && holds_key(#[trigger] old(work)@[i], key) && *final(result)
                == old(work)@[i] && final(work)@ == old(work)@.update(i, old(work)@[i].vacated()),
        !found ==> *final(result) == *old(result) && final(work)@ == old(work)@,
{
    let ghost s0 = work@;
    let mut found: bool = false;
    let mut i: usize = 0;
    let ghost mut at: int = 0;
    while i < work.len()
        invariant
            i <= work.len() == s0.len(),
            s0 == old(work)@,
            forall|k: int, j: int|
                0 <= k < s0.len() && 0 <= j < s0.len() && holds_key(#[trigger] s0[k], key)
                    && holds_key(#[trigger] s0[j], key) ==> k == j,
            found ==> 0 <= at < i && holds_key(s0[at], key) && *result == s0[at] && work@
                == s0.update(at, s0[at].vacated()),
            !found ==> *result == *old(result) && work@ == s0 && forall|k: int|
                0 <= k < i ==> !holds_key(#[trigger] s0[k], key),
        decreases work.len() - i,
    {
        let mut slot: B = work[i];
        let matched: bool = both(!slot.is_vacant(), slot.own_key() == key);
        proof {
            assert(found ==> work@[i as int] == s0[i as int]);
            if matched && found {
                assert(holds_key(s0[i as int], key) && holds_key(s0[at], key));
            }
            if matched {
                at = i as int;
            }
        }
        result.select(&slot, matched);
        slot.vacate(matched);
        work.set(i, slot);
        cmov_bool(&mut found, true, matched);
        proof {
            if !matched {
                if found {
                    assert(work@ =~= s0.update(at, s0[at].vacated()));
                } else {
                    assert(work@ =~= s0);
                }
            }
        }
        i += 1;
    }
    proof {
        if found {
            assert(holds_key(s0[at], key));
        }
    }
    found
}

/// Puts `block` into the first vacant one of the first `s` slots.
pub fn put_first<B: ObliviousBlock>(work: &mut Vec<B>, s: usize, block: &B) -> (written: bool)
    requires
        s <= old(work).len(),
    ensures
        written == exists|i: int| 0 <= i < s && (#[trigger] old(work)@[i]).vacant(),
        written ==> exists|i: int|
            0 <= i < s && (#[trigger] old(work)@[i]).vacant() && (forall|k: int|
                0 <= k < i ==> !(#[trigger] old(work)@[k]).vacant()) && final(work)@
                == old(work)@.update(i, *block),
        !written ==> final(work)@ == old(work)@,
{
    let ghost s0 = work@;
    let mut written: bool = false;
    let mut i: usize = 0;
    let ghost mut at: int = 0;
    while i < s
        invariant
            i <= s <= work.len() == s0.len(),
            s0 == old(work)@,
            written ==> 0 <= at < i && s0[at].vacant() && (forall|k: int|
                0 <= k < at ==> !(#[trigger] s0[k]).vacant()) && work@ == s0.update(at, *block),
            !written ==> work@ == s0 && forall|k: int| 0 <= k < i ==> !(#[trigger] s0[k]).vacant(),
        decreases s - i,
    {
        let mut slot: B = work[i];
        let put: bool = both(slot.is_vacant(), !written);
        proof {
            if put {
                at = i as int;
            }
        }
        slot.select(block, put);
        work.set(i, slot);
        cmov_bool(&mut written, true, put);
        proof {
            if !put {
                if written {
                    assert(work@ =~= s0.update(at, *block));
                } else {
                    assert(work@ =~= s0);
                }
            }
        }
        i += 1;
    }
    proof {
        if written {
            assert(s0[at].vacant());
        }
    }
    written
}

/// The places of the nodes of a heap tree of `size` nodes.
pub open spec fn heap_geometry(height: int, branching_factor: int, leaf_count: int, size: int) -> Geometry {
    Geometry {
        h: height,
        leaves: leaf_count,
        size,
        index: |d: int, p: int| node_index(d, p, branching_factor, leaf_count),
    }
}

impl<T> HeapTree<T> {
    /// The places of the nodes.
    pub open spec fn geometry(&self) -> Geometry {
        heap_geometry(
            self.height as int,
            self.branching_factor as int,
            self.leaf_count as int,
            self.tree.len() as int,
        )
    }

    /// The nodes of a heap tree are placed as a store needs them.
    pub proof fn lemma_geometry(&self)
        requires
            self.wf(),
        ensures
            self.geometry().wf(),
            forall|p: int|
                0 <= p < self.leaf_count ==> #[trigger] self.geometry().path(p)
                    == self.path_indices(p),
    {
        let g = self.geometry();
        let b = self.branching_factor as int;
        let n = self.leaf_count as int;
        assert forall|d: int, p: int| 0 <= d < g.h && 0 <= p < g.leaves implies 0
            <= #[trigger] (g.index)(d, p) < g.size by {
            self.lemma_index_in_tree(d, p);
        }
        assert forall|d: int, p: int, d2: int, p2: int|
            0 <= d < g.h && 0 <= p < g.leaves && 0 <= d2 < g.h && 0 <= p2 < g.leaves
                && #[trigger] (g.index)(d, p) == #[trigger] (g.index)(d2, p2) implies d == d2 by {
            lemma_node_index_injective(d, p, d2, p2, b, n);
        }
        assert forall|k: int| 0 <= k < g.size implies #[trigger] g.reaches(k) by {
            let (d, p) = self.lemma_node_has_path(k);
            assert((g.index)(d, p) == k);
        }
        assert forall|p: int| 0 <= p < self.leaf_count implies #[trigger] g.path(p)
            == self.path_indices(p) by {
            assert(g.path(p) =~= self.path_indices(p));
        }
    }
}

} // verus!
