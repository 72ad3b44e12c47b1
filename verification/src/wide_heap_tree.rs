//! A heap tree with a configurable branching factor.
//!
//! Like [`crate::heap_tree::HeapTree`], paths are stored in reverse
//! lexicographical order. At depth `d`, the lowest `d` base-`branching_factor`
//! digits of a path identify the node. Lane ORAM goes the other way: for
//! [`WideHeapTree::get_prefix_index`], and for `read_path` and `write_path` on a tree
//! of buckets, the highest `d` digits identify the node at depth `d`.
use vstd::prelude::*;
use crate::heap_tree::{full_level_width, full_width, lemma_full_width, lemma_full_width_grows};
use crate::heap_tree::{level_start, HeapTree};
use crate::oblivious::{both, cmov_bool, cmov_i64};
use crate::path_store::Geometry;
use crate::prelude::PositionType;

verus! {

/// The number of nodes in the first `terms` levels of a full tree.
pub open spec fn full_nodes(branching_factor: int, terms: int) -> int
    decreases terms,
{
    if terms <= 0 {
        0
    } else {
        full_nodes(branching_factor, terms - 1) + full_width(terms - 1, branching_factor)
    }
}

/// The array index of the node on `path` at `depth`.
pub open spec fn wide_index(branching_factor: int, depth: int, path: int) -> int {
    full_nodes(branching_factor, depth) + path % full_width(depth, branching_factor)
}

/// The array index of the node at `depth` that the highest `depth` digits of `path`
/// name, in a tree of height `height`.
pub open spec fn prefix_index(branching_factor: int, height: int, depth: int, path: int) -> int {
    full_nodes(branching_factor, depth) + path / full_width(height - 1 - depth, branching_factor)
}

/// A node that the highest digits of a path name lies inside its level.
pub proof fn lemma_prefix_index_bounds(branching_factor: int, height: int, depth: int, path: int)
    requires
        1 <= branching_factor,
        0 <= depth < height,
        0 <= path < full_width(height - 1, branching_factor),
    ensures
        0 <= path / full_width(height - 1 - depth, branching_factor) < full_width(
            depth,
            branching_factor,
        ),
        full_nodes(branching_factor, depth) <= prefix_index(branching_factor, height, depth, path)
            < full_nodes(branching_factor, depth + 1) <= full_nodes(branching_factor, height),
{
    let b = branching_factor;
    let low = full_width(height - 1 - depth, b);
    let high = full_width(depth, b);
    lemma_full_width(depth, b);
    lemma_full_width(height - 1 - depth, b);
    lemma_full_nodes_grows(b, 0, depth);
    lemma_full_nodes_grows(b, depth + 1, height);
    vstd::arithmetic::power::lemma_pow_adds(b, depth as nat, (height - 1 - depth) as nat);
    assert(high * low == full_width(height - 1, b));
    vstd::arithmetic::div_mod::lemma_div_pos_is_pos(path, low);
    vstd::arithmetic::div_mod::lemma_fundamental_div_mod(path, low);
    vstd::arithmetic::div_mod::lemma_mod_bound(path, low);
    assert(path / low < high) by (nonlinear_arith)
        requires
            path < high * low,
            path == low * (path / low) + path % low,
            path % low >= 0,
            low >= 1,
    ;
}

/// The places of the nodes of a full tree whose paths go by their highest digits.
pub open spec fn prefix_geometry(branching_factor: int, height: int) -> Geometry {
    Geometry {
        h: height,
        leaves: full_width(height - 1, branching_factor),
        size: full_nodes(branching_factor, height),
        index: |d: int, p: int| prefix_index(branching_factor, height, d, p),
    }
}

/// The nodes are placed as a store needs them.
pub proof fn lemma_prefix_geometry(branching_factor: int, height: int)
    requires
        1 <= branching_factor,
        1 <= height,
    ensures
        prefix_geometry(branching_factor, height).wf(),
{
    let b = branching_factor;
    let g = prefix_geometry(b, height);
    lemma_full_width(height - 1, b);
    assert forall|d: int, p: int| 0 <= d < g.h && 0 <= p < g.leaves implies 0
        <= #[trigger] (g.index)(d, p) < g.size by {
        lemma_prefix_index_bounds(b, height, d, p);
        lemma_full_nodes_grows(b, 0, d);
    }
    assert forall|d: int, p: int, d2: int, p2: int|
        0 <= d < g.h && 0 <= p < g.leaves && 0 <= d2 < g.h && 0 <= p2 < g.leaves
            && #[trigger] (g.index)(d, p) == #[trigger] (g.index)(d2, p2) implies d == d2 by {
        lemma_prefix_index_bounds(b, height, d, p);
        lemma_prefix_index_bounds(b, height, d2, p2);
        if d < d2 {
            lemma_full_nodes_grows(b, d + 1, d2);
        } else if d2 < d {
            lemma_full_nodes_grows(b, d2 + 1, d);
        }
    }
    assert forall|k: int| 0 <= k < g.size implies #[trigger] g.reaches(k) by {
        let (d, p) = lemma_prefix_reaches(b, height, height, k);
        assert((g.index)(d, p) == k);
    }
}

/// Every node of the first `levels` levels is named by the highest digits of some path.
proof fn lemma_prefix_reaches(branching_factor: int, height: int, levels: int, k: int) -> (r: (
    int,
    int,
))
    requires
        1 <= branching_factor,
        0 <= levels <= height,
        0 <= k < full_nodes(branching_factor, levels),
    ensures
        0 <= r.0 < height,
        0 <= r.1 < full_width(height - 1, branching_factor),
        prefix_index(branching_factor, height, r.0, r.1) == k,
    decreases levels,
{
    let b = branching_factor;
    let d = levels - 1;
    let start = full_nodes(b, d);
    if k < start {
        lemma_prefix_reaches(b, height, d, k)
    } else {
        let q = k - start;
        let low = full_width(height - 1 - d, b);
        let high = full_width(d, b);
        let p = q * low;
        lemma_full_width(height - 1 - d, b);
        vstd::arithmetic::power::lemma_pow_adds(b, d as nat, (height - 1 - d) as nat);
        assert(high * low == full_width(height - 1, b));
        assert(0 <= q < high);
        assert(0 <= p < high * low) by (nonlinear_arith)
            requires
                0 <= q < high,
                low >= 1,
                p == q * low,
        ;
        vstd::arithmetic::div_mod::lemma_div_multiples_vanish(q, low);
        assert(p == low * q) by (nonlinear_arith)
            requires
                p == q * low,
        ;
        (d, p)
    }
}

/// Whether the highest `depth` of the `height - 1` digits of two paths agree.
pub open spec fn same_prefix(branching_factor: int, height: int, depth: int, p: int, q: int) -> bool {
    p / full_width(height - 1 - depth, branching_factor) == q / full_width(
        height - 1 - depth,
        branching_factor,
    )
}

/// How many of their highest digits, up to `depth`, two paths share.
pub open spec fn shared_digits(branching_factor: int, height: int, depth: int, p: int, q: int) -> int
    decreases depth,
{
    if depth <= 0 {
        0
    } else if same_prefix(branching_factor, height, depth, p, q) {
        depth
    } else {
        shared_digits(branching_factor, height, depth - 1, p, q)
    }
}

/// Paths share their highest `l` digits exactly up to [`shared_digits`].
pub proof fn lemma_shared_digits(branching_factor: int, height: int, depth: int, p: int, q: int)
    requires
        1 <= branching_factor,
        0 <= depth < height,
        0 <= p < full_width(height - 1, branching_factor),
        0 <= q < full_width(height - 1, branching_factor),
    ensures
        0 <= shared_digits(branching_factor, height, depth, p, q) <= depth,
        forall|l: int|
            0 <= l <= depth ==> (l <= shared_digits(branching_factor, height, depth, p, q)
                <==> #[trigger] same_prefix(branching_factor, height, l, p, q)),
    decreases depth,
{
    let b = branching_factor;
    if depth == 0 {
        vstd::arithmetic::div_mod::lemma_basic_div(p, full_width(height - 1, b));
        vstd::arithmetic::div_mod::lemma_basic_div(q, full_width(height - 1, b));
    } else {
        lemma_shared_digits(b, height, depth - 1, p, q);
        if same_prefix(b, height, depth, p, q) {
            let w = full_width(height - 1 - depth, b);
            lemma_full_width(height - 1 - depth, b);
            vstd::arithmetic::div_mod::lemma_div_denominator(p, w, b);
            vstd::arithmetic::div_mod::lemma_div_denominator(q, w, b);
            assert(same_prefix(b, height, depth - 1, p, q)) by {
                assert(full_width(height - depth, b) == w * b) by (nonlinear_arith)
                    requires
                        full_width(height - depth, b) == b * w || full_width(height - depth, b)
                            == w * b,
                ;
            }
        }
    }
}

/// How many of their highest digits two paths of a tree of height `height` share.
pub fn count_shared_digits(
    branching_factor: usize,
    height: usize,
    p: PositionType,
    q: PositionType,
) -> (r: i64)
    requires
        2 <= branching_factor,
        1 <= height <= i64::MAX,
        p < full_width(height - 1, branching_factor as int),
        q < full_width(height - 1, branching_factor as int),
        full_width(height - 1, branching_factor as int) <= usize::MAX,
    ensures
        r == shared_digits(
            branching_factor as int,
            height as int,
            height - 1,
            p as int,
            q as int,
        ),
        0 <= r < height,
{
    let ghost b = branching_factor as int;
    let ghost h = height as int;
    let ghost all = shared_digits(b, h, h - 1, p as int, q as int);
    let mut r: i64 = 0;
    let mut found: bool = false;
    let mut depth: usize = height - 1;
    let mut width: usize = 1;
    proof {
        lemma_full_width(0, b);
        lemma_shared_digits(b, h, h - 1, p as int, q as int);
    }
    while depth > 0
        invariant
            2 <= branching_factor,
            b == branching_factor,
            h == height,
            1 <= h <= i64::MAX,
            depth < h,
            full_width(h - 1, b) <= usize::MAX,
            width == full_width(h - 1 - depth, b),
            width >= 1,
            found ==> r == all,
            !found ==> r == 0 && all == shared_digits(b, h, depth as int, p as int, q as int),
        decreases depth,
    {
        let same: bool = p as usize / width == q as usize / width;
        let hit: bool = both(same, !found);
        cmov_i64(&mut r, depth as i64, hit);
        cmov_bool(&mut found, true, same);
        proof {
            lemma_full_width(h - 1 - depth, b);
            lemma_full_width_grows(h - depth, h - 1, b);
        }
        width = width * branching_factor;
        depth -= 1;
    }
    r
}

/// The array index of child `j` of the node on `path` above `depth`.
pub open spec fn child_index(branching_factor: int, depth: int, path: int, j: int) -> int {
    full_nodes(branching_factor, depth) + path % full_width(depth - 1, branching_factor) + j
        * full_width(depth - 1, branching_factor)
}

/// Which child of its parent the node on `path` at `depth` is.
pub open spec fn child_number(branching_factor: int, depth: int, path: int) -> int {
    path % full_width(depth, branching_factor) / full_width(depth - 1, branching_factor)
}

/// More levels hold at least as many nodes.
pub proof fn lemma_full_nodes_grows(branching_factor: int, a: int, b: int)
    requires
        0 <= a <= b,
        1 <= branching_factor,
    ensures
        0 <= full_nodes(branching_factor, a) <= full_nodes(branching_factor, b),
    decreases b,
{
    if b > 0 {
        lemma_full_width(b - 1, branching_factor);
        if a < b {
            lemma_full_nodes_grows(branching_factor, a, b - 1);
        } else {
            lemma_full_nodes_grows(branching_factor, a - 1, b - 1);
        }
    }
}

/// The levels of a full tree start where the levels of a heap tree do.
pub proof fn lemma_full_nodes_is_level_start(branching_factor: int, terms: int, leaf_count: int)
    requires
        0 <= terms,
        1 <= branching_factor,
        terms == 0 || full_width(terms - 1, branching_factor) <= leaf_count,
    ensures
        full_nodes(branching_factor, terms) == level_start(terms, branching_factor, leaf_count),
    decreases terms,
{
    if terms > 0 {
        if terms > 1 {
            lemma_full_width_grows(terms - 2, terms - 1, branching_factor);
        }
        lemma_full_nodes_is_level_start(branching_factor, terms - 1, leaf_count);
    }
}

/// A node that a path names lies in a tree of greater height, inside its level.
pub proof fn lemma_wide_index_bounds(branching_factor: int, height: int, depth: int, path: int)
    requires
        1 <= branching_factor,
        0 <= depth < height,
        0 <= path,
    ensures
        0 <= full_nodes(branching_factor, depth) <= wide_index(branching_factor, depth, path)
            < full_nodes(branching_factor, depth + 1) <= full_nodes(branching_factor, height),
{
    lemma_full_width(depth, branching_factor);
    lemma_full_nodes_grows(branching_factor, 0, depth);
    lemma_full_nodes_grows(branching_factor, depth + 1, height);
    vstd::arithmetic::div_mod::lemma_mod_bound(path, full_width(depth, branching_factor));
}

/// The children of a node are the nodes that the paths through it name one level deeper:
/// child `j` is on the path that has `j` for its next digit. They lie inside their level,
/// and the node on a path is the child of the number that the path has there.
pub proof fn lemma_children(branching_factor: int, depth: int, path: int, j: int)
    requires
        2 <= branching_factor,
        0 < depth,
        0 <= path,
        0 <= j < branching_factor,
    ensures
        ({
            let up = full_width(depth - 1, branching_factor);
            let q = path % up + j * up;
            &&& 0 <= q < full_width(depth, branching_factor)
            &&& child_index(branching_factor, depth, path, j) == wide_index(
                branching_factor,
                depth,
                q,
            )
            &&& wide_index(branching_factor, depth - 1, q) == wide_index(
                branching_factor,
                depth - 1,
                path,
            )
        }),
        full_nodes(branching_factor, depth) <= child_index(branching_factor, depth, path, j)
            < full_nodes(branching_factor, depth + 1),
        0 <= child_number(branching_factor, depth, path) < branching_factor,
        wide_index(branching_factor, depth, path) == child_index(
            branching_factor,
            depth,
            path,
            child_number(branching_factor, depth, path),
        ),
{
    let b = branching_factor;
    let w = full_width(depth, b);
    let up = full_width(depth - 1, b);
    let low = path % up;
    let q = low + j * up;
    let k = path % w;
    let own = k / up;
    lemma_full_width(depth, b);
    lemma_full_width(depth - 1, b);
    vstd::arithmetic::div_mod::lemma_mod_bound(path, up);
    vstd::arithmetic::div_mod::lemma_mod_bound(path, w);
    assert(w == up * b && w == b * up) by (nonlinear_arith)
        requires
            w == up * b,
    ;
    assert(0 <= j * up && j * up + up <= w) by (nonlinear_arith)
        requires
            0 <= j < b,
            1 <= up,
            w == up * b,
    ;
    vstd::arithmetic::div_mod::lemma_small_mod(q as nat, w as nat);
    vstd::arithmetic::div_mod::lemma_fundamental_div_mod_converse(q, up, j, low);
    vstd::arithmetic::div_mod::lemma_mod_mod(path, up, b);
    vstd::arithmetic::div_mod::lemma_fundamental_div_mod(k, up);
    vstd::arithmetic::div_mod::lemma_div_pos_is_pos(k, up);
    assert(own < b) by (nonlinear_arith)
        requires
            up * own <= k,
            k < up * b,
            1 <= up,
    ;
    assert(up * own == own * up) by (nonlinear_arith);
}

/// The sum of the first `terms` level widths.
pub fn geometric_sum(branching_factor: usize, terms: usize) -> (r: usize)
    requires
        1 <= branching_factor,
        full_nodes(branching_factor as int, terms as int) <= usize::MAX,
    ensures
        r == full_nodes(branching_factor as int, terms as int),
{
    let mut sum: usize = 0;
    let mut width: usize = 1;
    let mut i: usize = 0;
    proof {
        lemma_full_width(0, branching_factor as int);
    }
    while i < terms
        invariant
            i <= terms,
            1 <= branching_factor,
            full_nodes(branching_factor as int, terms as int) <= usize::MAX,
            sum == full_nodes(branching_factor as int, i as int),
            i < terms ==> width == full_width(i as int, branching_factor as int),
        decreases terms - i,
    {
        proof {
            lemma_full_nodes_grows(branching_factor as int, i + 1, terms as int);
            lemma_full_nodes_grows(branching_factor as int, 0, i as int);
            lemma_full_width(i as int, branching_factor as int);
        }
        sum = sum + width;
        i += 1;
        if i < terms {
            proof {
                lemma_full_nodes_grows(branching_factor as int, i + 1, terms as int);
                lemma_full_nodes_grows(branching_factor as int, 0, i as int);
            }
            width = width * branching_factor;
        }
    }
    sum
}

/// An array-backed heap tree with a configurable branching factor.
#[derive(Debug)]
pub struct WideHeapTree<T> {
    /// Actual storage container.
    pub tree: Vec<T>,
    /// Height of the tree (a tree containing only its root has height 1).
    pub height: usize,
    /// Number of children of each non-leaf node.
    pub branching_factor: usize,
}

impl<T> WideHeapTree<T> {
    /// The array holds exactly the nodes of the full tree.
    pub open spec fn wf(&self) -> bool {
        &&& 0 < self.height
        &&& 2 <= self.branching_factor
        &&& self.tree.len() == full_nodes(self.branching_factor as int, self.height as int)
    }

    /// The array index of the node on `path` at `depth`.
    pub open spec fn index_of(&self, depth: int, path: int) -> int {
        wide_index(self.branching_factor as int, depth, path)
    }

    /// The node on `path` at `depth`.
    pub open spec fn node(&self, depth: int, path: int) -> T {
        self.tree@[self.index_of(depth, path)]
    }

    /// Levels fit the array, and a level above the last is smaller than the array.
    pub proof fn lemma_levels_fit(&self, depth: int)
        requires
            self.wf(),
            0 <= depth < self.height,
        ensures
            1 <= full_width(depth, self.branching_factor as int) <= usize::MAX,
            full_nodes(self.branching_factor as int, depth) <= usize::MAX,
    {
        let b = self.branching_factor as int;
        lemma_full_width(depth, b);
        lemma_full_nodes_grows(b, depth, self.height as int);
        lemma_full_nodes_grows(b, depth + 1, self.height as int);
        lemma_full_nodes_grows(b, 0, depth);
    }
}

impl<T: Default + Clone> WideHeapTree<T> {
    /// Initializes an empty tree of `height` with the requested branching factor.
    pub fn new(height: usize, branching_factor: usize) -> (r: Self)
        requires
            0 < height,
            2 <= branching_factor,
            full_nodes(branching_factor as int, height as int) <= usize::MAX,
        ensures
            r.wf(),
            r.height == height,
            r.branching_factor == branching_factor,
            exists|d: T|
                call_ensures(T::default, (), d) && forall|i: int|
                    0 <= i < r.tree.len() ==> cloned(d, #[trigger] r.tree[i]),
    {
        let value = T::default();
        let r = Self::new_with(height, branching_factor, value);
        assert(call_ensures(T::default, (), value));
        r
    }
}

impl<T: Clone> WideHeapTree<T> {
    /// Initializes a tree whose nodes are copies of `default`.
    pub fn new_with(height: usize, branching_factor: usize, default: T) -> (r: Self)
        requires
            0 < height,
            2 <= branching_factor,
            full_nodes(branching_factor as int, height as int) <= usize::MAX,
        ensures
            r.wf(),
            r.height == height,
            r.branching_factor == branching_factor,
            forall|i: int| 0 <= i < r.tree.len() ==> cloned(default, #[trigger] r.tree[i]),
    {
        let node_count: usize = geometric_sum(branching_factor, height);
        let tree = vec![default; node_count];
        Self { tree, height, branching_factor }
    }
}

impl<T> WideHeapTree<T> {
    /// Returns the array index of the node on `path` at `depth`.
    pub fn get_index(&self, depth: usize, path: PositionType) -> (r: usize)
        requires
            self.wf(),
            depth < self.height,
        ensures
            r == self.index_of(depth as int, path as int),
            r < self.tree.len(),
    {
        proof {
            self.lemma_levels_fit(depth as int);
            lemma_wide_index_bounds(
                self.branching_factor as int,
                self.height as int,
                depth as int,
                path as int,
            );
        }
        let level_width: usize = full_level_width(depth, self.branching_factor);
        let level_offset: usize = geometric_sum(self.branching_factor, depth);
        level_offset + path as usize % level_width
    }

    /// Returns the array index of the node at `depth` that the highest `depth` digits of
    /// `path` name.
    pub fn get_prefix_index(&self, depth: usize, path: PositionType) -> (r: usize)
        requires
            self.wf(),
            depth < self.height,
            path < full_width(self.height - 1, self.branching_factor as int),
        ensures
            r == prefix_index(
                self.branching_factor as int,
                self.height as int,
                depth as int,
                path as int,
            ),
            r < self.tree.len(),
    {
        proof {
            self.lemma_levels_fit(depth as int);
            self.lemma_levels_fit(self.height - 1 - depth);
            lemma_prefix_index_bounds(
                self.branching_factor as int,
                self.height as int,
                depth as int,
                path as int,
            );
        }
        let below: usize = full_level_width(self.height - 1 - depth, self.branching_factor);
        let level_offset: usize = geometric_sum(self.branching_factor, depth);
        level_offset + path as usize / below
    }

    /// Returns the node on `path` at `depth`.
    pub fn get_path_at_depth(&self, depth: usize, path: PositionType) -> (r: &T)
        requires
            self.wf(),
            depth < self.height,
        ensures
            *r == self.node(depth as int, path as int),
    {
        let index: usize = self.get_index(depth, path);
        &self.tree[index]
    }

    /// Returns the mutable node on `path` at `depth`.
    pub fn get_path_at_depth_mut(&mut self, depth: usize, path: PositionType) -> (r: &mut T)
        requires
            old(self).wf(),
            depth < old(self).height,
        ensures
            *r == old(self).node(depth as int, path as int),
            final(self).tree@ == old(self).tree@.update(
                old(self).index_of(depth as int, path as int),
                *final(r),
            ),
            final(self).height == old(self).height,
            final(self).branching_factor == old(self).branching_factor,
    {
        let index: usize = self.get_index(depth, path);
        &mut self.tree[index]
    }

    /// Returns the siblings before and after the node on `path` at `depth`: the other
    /// children of its parent, in order.
    ///
    /// The children of a node lie as far apart as the level above is wide, so the two lists
    /// hold references to them.
    pub fn get_siblings(&self, depth: usize, path: PositionType) -> (r: (Vec<&T>, Vec<&T>))
        requires
            self.wf(),
            0 < depth < self.height,
        ensures
            ({
                let b = self.branching_factor as int;
                let own = child_number(b, depth as int, path as int);
                &&& r.0@.len() == own
                &&& r.1@.len() == b - 1 - own
                &&& forall|j: int|
                    0 <= j < own ==> *(#[trigger] r.0@[j]) == self.tree@[child_index(
                        b,
                        depth as int,
                        path as int,
                        j,
                    )]
                &&& forall|i: int|
                    0 <= i < r.1@.len() ==> *(#[trigger] r.1@[i]) == self.tree@[child_index(
                        b,
                        depth as int,
                        path as int,
                        own + 1 + i,
                    )]
            }),
    {
        let ghost b = self.branching_factor as int;
        let ghost d = depth as int;
        let ghost own = child_number(b, d, path as int);
        let ghost up = full_width(d - 1, b);
        let index: usize = self.get_index(depth, path);
        proof {
            self.lemma_levels_fit(d);
            self.lemma_levels_fit(d - 1);
            lemma_wide_index_bounds(b, self.height as int, d, path as int);
            lemma_children(b, d, path as int, 0);
            lemma_full_width(d - 1, b);
            lemma_full_nodes_grows(b, d + 1, self.height as int);
        }
        let parents: usize = full_level_width(depth - 1, self.branching_factor);
        let level_offset: usize = geometric_sum(self.branching_factor, depth);
        let selected: usize = (index - level_offset) / parents;
        let mut at: usize = level_offset + path as usize % parents;
        let mut before: Vec<&T> = Vec::new();
        let mut after: Vec<&T> = Vec::new();
        let mut j: usize = 0;
        proof {
            assert(0 * up == 0);
        }
        while j < self.branching_factor
            invariant
                self.wf(),
                0 < d < self.height,
                b == self.branching_factor,
                b >= 2,
                d == depth,
                up == full_width(d - 1, b),
                parents == up,
                1 <= up,
                own == child_number(b, d, path as int),
                0 <= own < b,
                selected == own,
                j <= self.branching_factor,
                full_nodes(b, d + 1) <= self.tree.len(),
                j < b ==> at == child_index(b, d, path as int, j as int),
                before@.len() == (if j <= own {
                    j as int
                } else {
                    own
                }),
                after@.len() == (if j <= own {
                    0
                } else {
                    j - 1 - own
                }),
                forall|i: int|
                    0 <= i < before@.len() ==> *(#[trigger] before@[i]) == self.tree@[child_index(
                        b,
                        d,
                        path as int,
                        i,
                    )],
                forall|i: int|
                    0 <= i < after@.len() ==> *(#[trigger] after@[i]) == self.tree@[child_index(
                        b,
                        d,
                        path as int,
                        own + 1 + i,
                    )],
            decreases self.branching_factor - j,
        {
            proof {
                lemma_children(b, d, path as int, j as int);
            }
            if j < selected {
                before.push(&self.tree[at]);
            } else if j > selected {
                after.push(&self.tree[at]);
            }
            j += 1;
            if j < self.branching_factor {
                proof {
                    lemma_children(b, d, path as int, j as int);
                    assert(j * up == (j - 1) * up + up) by (nonlinear_arith);
                }
                at = at + parents;
            }
        }
        (before, after)
    }

    /// Returns the total number of nodes in the tree.
    pub fn len(&self) -> (r: usize)
        ensures
            r == self.tree.len(),
    {
        self.tree.len()
    }

    /// Returns whether the tree contains no nodes.
    pub fn is_empty(&self) -> (r: bool)
        ensures
            r == (self.tree.len() == 0),
    {
        self.tree.len() == 0
    }
}

/// A full wide tree and a heap tree of the same shape keep every path's node at the
/// same index.
pub proof fn lemma_wide_index_matches_heap_tree<T, U>(
    wide: &WideHeapTree<T>,
    heap: &HeapTree<U>,
    depth: int,
    path: int,
)
    requires
        wide.wf(),
        heap.wf(),
        wide.height == heap.height,
        wide.branching_factor == heap.branching_factor,
        heap.leaf_count == full_width(heap.height - 1, heap.branching_factor as int),
        0 <= depth < heap.height,
        0 <= path < heap.leaf_count,
    ensures
        wide.index_of(depth, path) == heap.index_of(depth, path),
        wide.tree.len() == heap.tree.len(),
{
    let b = heap.branching_factor as int;
    let h = heap.height as int;
    lemma_full_nodes_is_level_start(b, h, heap.leaf_count as int);
    if depth > 0 {
        lemma_full_width_grows(depth - 1, h - 1, b);
    }
    lemma_full_nodes_is_level_start(b, depth, heap.leaf_count as int);
}

} // verus!
