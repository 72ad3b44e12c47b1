//! A heap tree stored level by level in one array.
//!
//! Paths are stored in reverse lexicographical order. With the binary branching
//! factor the array indices of a tree of height three are:
//!
//! ```text
//!                            0
//!                     1             2
//!                3         5    4       6
//! Path:          0         2    1       3
//! ```
use vstd::arithmetic::power::pow;
use vstd::prelude::*;
use crate::prelude::PositionType;

verus! {

/// The number of nodes of a full level.
pub open spec fn full_width(depth: int, branching_factor: int) -> int {
    pow(branching_factor, depth as nat)
}

/// The number of nodes at `depth` in a tree with `leaf_count` leaves.
pub open spec fn width(depth: int, branching_factor: int, leaf_count: int) -> int {
    if full_width(depth, branching_factor) <= leaf_count {
        full_width(depth, branching_factor)
    } else {
        leaf_count
    }
}

/// The number of nodes above `depth`, which is where the level starts.
pub open spec fn level_start(depth: int, branching_factor: int, leaf_count: int) -> int
    decreases depth,
{
    if depth <= 0 {
        0
    } else {
        level_start(depth - 1, branching_factor, leaf_count) + width(
            depth - 1,
            branching_factor,
            leaf_count,
        )
    }
}

/// The array index of the node on `path` at `depth`: the lowest `depth` digits of
/// the path pick the node of the level.
pub open spec fn node_index(
    depth: int,
    path: int,
    branching_factor: int,
    leaf_count: int,
) -> int {
    level_start(depth, branching_factor, leaf_count) + path % full_width(depth, branching_factor)
}

/// The path that follows `path` but has `digit` as its `depth`-th digit.
pub open spec fn redirected(path: int, depth: int, branching_factor: int, digit: int) -> int {
    let scale = full_width(depth - 1, branching_factor);
    path + digit * scale - ((path / scale) % branching_factor) * scale
}

/// A full level has at least one node, and each level multiplies the last.
pub proof fn lemma_full_width(depth: int, branching_factor: int)
    requires
        0 <= depth,
        1 <= branching_factor,
    ensures
        full_width(depth, branching_factor) >= 1,
        full_width(0, branching_factor) == 1,
        full_width(depth + 1, branching_factor) == full_width(depth, branching_factor)
            * branching_factor,
        full_width(depth + 1, branching_factor) >= full_width(depth, branching_factor),
{
    let w = full_width(depth, branching_factor);
    vstd::arithmetic::power::lemma_pow0(branching_factor);
    vstd::arithmetic::power::lemma_pow_positive(branching_factor, depth as nat);
    vstd::arithmetic::power::lemma_pow1(branching_factor);
    vstd::arithmetic::power::lemma_pow_adds(branching_factor, depth as nat, 1);
    assert(w * branching_factor >= w) by (nonlinear_arith)
        requires
            w >= 1,
            branching_factor >= 1,
    ;
}

/// Deeper full levels are at least as wide.
pub proof fn lemma_full_width_grows(a: int, b: int, branching_factor: int)
    requires
        0 <= a <= b,
        1 <= branching_factor,
    ensures
        1 <= full_width(a, branching_factor) <= full_width(b, branching_factor),
    decreases b - a,
{
    lemma_full_width(a, branching_factor);
    if a < b {
        lemma_full_width_grows(a + 1, b, branching_factor);
    }
}

/// Levels start one after another.
pub proof fn lemma_level_start_grows(a: int, b: int, branching_factor: int, leaf_count: int)
    requires
        0 <= a <= b,
        1 <= branching_factor,
        1 <= leaf_count,
    ensures
        0 <= level_start(a, branching_factor, leaf_count) <= level_start(
            b,
            branching_factor,
            leaf_count,
        ),
    decreases b,
{
    if b > 0 {
        lemma_full_width(b - 1, branching_factor);
        if a < b {
            lemma_level_start_grows(a, b - 1, branching_factor, leaf_count);
        } else {
            lemma_level_start_grows(a - 1, b - 1, branching_factor, leaf_count);
        }
    }
}

/// A node lies inside its level.
pub proof fn lemma_node_index_in_level(
    depth: int,
    path: int,
    branching_factor: int,
    leaf_count: int,
)
    requires
        0 <= depth,
        1 <= branching_factor,
        0 <= path < leaf_count,
    ensures
        0 <= level_start(depth, branching_factor, leaf_count) <= node_index(
            depth,
            path,
            branching_factor,
            leaf_count,
        ) < level_start(depth + 1, branching_factor, leaf_count),
{
    let w = full_width(depth, branching_factor);
    lemma_full_width(depth, branching_factor);
    lemma_level_start_grows(0, depth, branching_factor, leaf_count);
    vstd::arithmetic::div_mod::lemma_mod_bound(path, w);
    vstd::arithmetic::div_mod::lemma_fundamental_div_mod(path, w);
    assert(path % w <= path) by (nonlinear_arith)
        requires
            path == w * (path / w) + path % w,
            w >= 1,
            path >= 0,
            path / w >= 0,
    {
        assert(w * (path / w) >= 0) by (nonlinear_arith)
            requires
                w >= 1,
                path / w >= 0,
        ;
    }
}

/// Nodes of two paths coincide only at the same depth, and then exactly when the
/// paths agree in their lowest digits.
pub proof fn lemma_node_index_injective(
    d1: int,
    p1: int,
    d2: int,
    p2: int,
    branching_factor: int,
    leaf_count: int,
)
    requires
        0 <= d1,
        0 <= d2,
        1 <= branching_factor,
        0 <= p1 < leaf_count,
        0 <= p2 < leaf_count,
        node_index(d1, p1, branching_factor, leaf_count) == node_index(
            d2,
            p2,
            branching_factor,
            leaf_count,
        ),
    ensures
        d1 == d2,
        p1 % full_width(d1, branching_factor) == p2 % full_width(d1, branching_factor),
{
    lemma_node_index_in_level(d1, p1, branching_factor, leaf_count);
    lemma_node_index_in_level(d2, p2, branching_factor, leaf_count);
    if d1 < d2 {
        lemma_level_start_grows(d1 + 1, d2, branching_factor, leaf_count);
    } else if d2 < d1 {
        lemma_level_start_grows(d2 + 1, d1, branching_factor, leaf_count);
    }
}

/// Every index below the end of a level is the node of some path.
pub proof fn lemma_index_has_path(
    i: int,
    height: int,
    branching_factor: int,
    leaf_count: int,
) -> (r: (int, int))
    requires
        1 <= branching_factor,
        1 <= leaf_count,
        0 <= height,
        0 <= i < level_start(height, branching_factor, leaf_count),
    ensures
        0 <= r.0 < height,
        0 <= r.1 < leaf_count,
        node_index(r.0, r.1, branching_factor, leaf_count) == i,
    decreases height,
{
    let start = level_start(height - 1, branching_factor, leaf_count);
    if i < start {
        lemma_index_has_path(i, height - 1, branching_factor, leaf_count)
    } else {
        let p = i - start;
        lemma_full_width(height - 1, branching_factor);
        vstd::arithmetic::div_mod::lemma_small_mod(
            p as nat,
            full_width(height - 1, branching_factor) as nat,
        );
        (height - 1, p)
    }
}

/// Two paths that meet at a depth also meet at every smaller depth.
pub proof fn lemma_paths_meet_above(p1: int, p2: int, depth: int, above: int, branching_factor: int)
    requires
        0 <= above <= depth,
        1 <= branching_factor,
        0 <= p1,
        0 <= p2,
        p1 % full_width(depth, branching_factor) == p2 % full_width(depth, branching_factor),
    ensures
        p1 % full_width(above, branching_factor) == p2 % full_width(above, branching_factor),
    decreases depth - above,
{
    if above < depth {
        let w = full_width(depth - 1, branching_factor);
        lemma_full_width(depth - 1, branching_factor);
        vstd::arithmetic::div_mod::lemma_mod_mod(p1, w, branching_factor);
        vstd::arithmetic::div_mod::lemma_mod_mod(p2, w, branching_factor);
        lemma_paths_meet_above(p1, p2, depth - 1, above, branching_factor);
    }
}

/// A full binary tree has one node less than twice its leaves.
pub proof fn lemma_binary_nodes(height: int)
    requires
        1 <= height,
    ensures
        level_start(height, 2, full_width(height - 1, 2)) == full_width(height, 2) - 1,
{
    lemma_binary_level_start(height, full_width(height - 1, 2));
}

/// A level of a full binary tree starts one node before its width.
pub proof fn lemma_binary_level_start(depth: int, leaf_count: int)
    requires
        0 <= depth,
        depth == 0 || full_width(depth - 1, 2) <= leaf_count,
    ensures
        level_start(depth, 2, leaf_count) == full_width(depth, 2) - 1,
    decreases depth,
{
    lemma_full_width(0, 2);
    if depth > 0 {
        lemma_full_width(depth - 1, 2);
        if depth > 1 {
            lemma_full_width_grows(depth - 2, depth - 1, 2);
        }
        lemma_binary_level_start(depth - 1, leaf_count);
    }
}

/// In a full binary tree the sibling of the node on `path` at `depth` is the node on the
/// path with bit `depth - 1` flipped. The two paths share the node above, part at `depth`,
/// and each leads to the sibling of the other.
pub proof fn lemma_sibling_path(path: PositionType, depth: int, height: int)
    requires
        1 <= depth < height,
        depth <= 32,
        path < full_width(height - 1, 2),
    ensures
        ({
            let scale = full_width(depth - 1, 2);
            let leaves = full_width(height - 1, 2);
            let flipped = path ^ (1u32 << ((depth - 1) as u32));
            &&& redirected(path as int, depth, 2, 1 - (path as int / scale) % 2) == flipped
            &&& redirected(flipped as int, depth, 2, 1 - (flipped as int / scale) % 2) == path
            &&& flipped < leaves
            &&& node_index(depth, flipped as int, 2, leaves) != node_index(
                depth,
                path as int,
                2,
                leaves,
            )
            &&& node_index(depth - 1, flipped as int, 2, leaves) == node_index(
                depth - 1,
                path as int,
                2,
                leaves,
            )
        }),
{
    let k = (depth - 1) as u32;
    let one = 1u32 << k;
    let q = path ^ one;
    let scale = full_width(depth - 1, 2);
    let leaves = full_width(height - 1, 2);
    let p = path as int;
    let a = p / scale;
    lemma_full_width(depth - 1, 2);
    vstd::arithmetic::power2::lemma_pow2(k as nat);
    vstd::arithmetic::power2::lemma_pow2_adds(k as nat, (height - depth) as nat);
    vstd::arithmetic::power2::lemma_pow2((height - 1) as nat);
    assert(scale <= u32::MAX) by {
        vstd::arithmetic::power2::lemma2_to64();
        if k < 31 {
            vstd::arithmetic::power2::lemma_pow2_strictly_increases(k as nat, 31);
        }
    }
    vstd::bits::lemma_u32_shl_is_mul(1, k);
    assert(one == scale);
    vstd::bits::lemma_u32_shr_is_div(path, k);
    vstd::bits::lemma_u32_shr_is_div(q, k);
    assert((path >> k) % 2 == 1 ==> q + one == path && (q >> k) % 2 == 0) by (bit_vector)
        requires
            k < 32,
            one == 1u32 << k,
            q == path ^ one,
    ;
    assert((path >> k) % 2 == 0 ==> q == path + one && (q >> k) % 2 == 1) by (bit_vector)
        requires
            k < 32,
            one == 1u32 << k,
            q == path ^ one,
    ;
    assert((path >> k) as int == a);
    assert(1 * scale == scale && 0 * scale == 0);
    vstd::arithmetic::div_mod::lemma_mod_breakdown(p, scale, 2);
    vstd::arithmetic::div_mod::lemma_mod_breakdown(q as int, scale, 2);
    vstd::arithmetic::div_mod::lemma_mod_add_multiples_vanish(p, scale);
    vstd::arithmetic::div_mod::lemma_mod_add_multiples_vanish(q as int, scale);
    assert(scale * 2 == full_width(depth, 2));
    assert(scale * 0 == 0 && scale * 1 == scale);
    let blocks = full_width(height - 1 - depth, 2);
    lemma_full_width(height - 1 - depth, 2);
    vstd::arithmetic::power::lemma_pow_adds(2, depth as nat, (height - 1 - depth) as nat);
    assert(leaves == (scale * 2) * blocks);
    let low = p % (scale * 2);
    let high = p / (scale * 2);
    vstd::arithmetic::div_mod::lemma_fundamental_div_mod(p, scale * 2);
    vstd::arithmetic::div_mod::lemma_mod_bound(p, scale);
    vstd::arithmetic::div_mod::lemma_mod_bound(p, scale * 2);
    assert(high < blocks && (scale * 2) * high + scale * 2 <= leaves) by (nonlinear_arith)
        requires
            p == (scale * 2) * high + low,
            0 <= low < scale * 2,
            p < leaves,
            leaves == (scale * 2) * blocks,
            scale >= 1,
    ;
}

/// The number of nodes of a full level.
pub fn full_level_width(depth: usize, branching_factor: usize) -> (r: usize)
    requires
        1 <= branching_factor,
        full_width(depth as int, branching_factor as int) <= usize::MAX,
    ensures
        r == full_width(depth as int, branching_factor as int),
{
    let mut r: usize = 1;
    let mut i: usize = 0;
    proof {
        lemma_full_width(0, branching_factor as int);
    }
    while i < depth
        invariant
            i <= depth,
            1 <= branching_factor,
            full_width(depth as int, branching_factor as int) <= usize::MAX,
            r == full_width(i as int, branching_factor as int),
        decreases depth - i,
    {
        proof {
            lemma_full_width(i as int, branching_factor as int);
            lemma_full_width_grows(i + 1, depth as int, branching_factor as int);
        }
        r = r * branching_factor;
        i += 1;
    }
    r
}

/// The number of nodes in the first `height` levels of a tree with `leaf_count`
/// leaves.
pub fn node_count(height: usize, branching_factor: usize, leaf_count: usize) -> (r: usize)
    requires
        1 <= branching_factor,
        1 <= leaf_count,
        height > 0 ==> full_width(height - 1, branching_factor as int) <= usize::MAX,
        level_start(height as int, branching_factor as int, leaf_count as int) <= usize::MAX,
    ensures
        r == level_start(height as int, branching_factor as int, leaf_count as int),
{
    let mut r: usize = 0;
    let mut depth: usize = 0;
    while depth < height
        invariant
            depth <= height,
            1 <= branching_factor,
            1 <= leaf_count,
            height > 0 ==> full_width(height - 1, branching_factor as int) <= usize::MAX,
            level_start(height as int, branching_factor as int, leaf_count as int) <= usize::MAX,
            r == level_start(depth as int, branching_factor as int, leaf_count as int),
        decreases height - depth,
    {
        proof {
            lemma_full_width_grows(depth as int, height - 1, branching_factor as int);
            lemma_level_start_grows(
                depth + 1,
                height as int,
                branching_factor as int,
                leaf_count as int,
            );
        }
        let full: usize = full_level_width(depth, branching_factor);
        r = r + if full <= leaf_count { full } else { leaf_count };
        depth += 1;
    }
    r
}

/// Represents a heap tree structure.
#[derive(Debug)]
pub struct HeapTree<T> {
    /// Actual storage container.
    pub tree: Vec<T>,
    /// Height of the tree (a tree with a single element has height 1).
    pub height: usize,
    /// Number of children of each internal node.
    pub branching_factor: usize,
    /// Number of leaves in the tree.
    pub leaf_count: usize,
}

/// Whether a tree of this shape can be made: the last level is needed and the
/// nodes can be numbered.
pub open spec fn shape_ok(height: int, branching_factor: int, leaf_count: int) -> bool {
    &&& 2 <= branching_factor
    &&& 0 < height
    &&& 0 < leaf_count <= full_width(height - 1, branching_factor) <= usize::MAX
    &&& height == 1 || full_width(height - 2, branching_factor) < leaf_count
    &&& level_start(height, branching_factor, leaf_count) <= usize::MAX
}

impl<T> HeapTree<T> {
    /// The array holds exactly the nodes of the shape.
    pub open spec fn wf(&self) -> bool {
        &&& shape_ok(self.height as int, self.branching_factor as int, self.leaf_count as int)
        &&& self.tree.len() == level_start(
            self.height as int,
            self.branching_factor as int,
            self.leaf_count as int,
        )
    }

    /// The array index of the node on `path` at `depth`.
    pub open spec fn index_of(&self, depth: int, path: int) -> int {
        node_index(depth, path, self.branching_factor as int, self.leaf_count as int)
    }

    /// The node on `path` at `depth`.
    pub open spec fn node(&self, depth: int, path: int) -> T {
        self.tree@[self.index_of(depth, path)]
    }

    /// The two trees have the same shape.
    pub open spec fn same_shape(&self, other: &Self) -> bool {
        &&& self.height == other.height
        &&& self.branching_factor == other.branching_factor
        &&& self.leaf_count == other.leaf_count
        &&& self.tree.len() == other.tree.len()
    }

    /// The array indices of the nodes on `path`, root first.
    pub open spec fn path_indices(&self, path: int) -> Seq<int> {
        Seq::new(self.height as nat, |d: int| self.index_of(d, path))
    }

    /// The nodes on a path are in the array and lie apart, and a node of another path
    /// is one of them exactly where the two paths meet.
    pub proof fn lemma_path_indices(&self, path: int)
        requires
            self.wf(),
            0 <= path < self.leaf_count,
        ensures
            forall|d: int|
                0 <= d < self.height ==> 0 <= #[trigger] self.path_indices(path)[d]
                    < self.tree.len(),
            forall|d: int, e: int|
                0 <= d < e < self.height ==> #[trigger] self.path_indices(path)[d]
                    != #[trigger] self.path_indices(path)[e],
            forall|d: int, other: int|
                #![trigger self.index_of(d, other)]
                0 <= d < self.height && 0 <= other < self.leaf_count ==> {
                    if other % full_width(d, self.branching_factor as int) == path % full_width(
                        d,
                        self.branching_factor as int,
                    ) {
                        self.index_of(d, other) == self.index_of(d, path)
                    } else {
                        !self.path_indices(path).contains(self.index_of(d, other))
                    }
                },
    {
        let b = self.branching_factor as int;
        let n = self.leaf_count as int;
        assert forall|d: int| 0 <= d < self.height implies 0 <= #[trigger] self.path_indices(
            path,
        )[d] < self.tree.len() by {
            self.lemma_index_in_tree(d, path);
        }
        assert forall|d: int, e: int|
            0 <= d < e < self.height implies #[trigger] self.path_indices(path)[d]
            != #[trigger] self.path_indices(path)[e] by {
            if self.path_indices(path)[d] == self.path_indices(path)[e] {
                lemma_node_index_injective(d, path, e, path, b, n);
            }
        }
        assert forall|d: int, other: int|
            #![trigger self.index_of(d, other)]
            0 <= d < self.height && 0 <= other < self.leaf_count implies {
            if other % full_width(d, b) == path % full_width(d, b) {
                self.index_of(d, other) == self.index_of(d, path)
            } else {
                !self.path_indices(path).contains(self.index_of(d, other))
            }
        } by {
            if other % full_width(d, b) != path % full_width(d, b) {
                let at = self.path_indices(path);
                if at.contains(self.index_of(d, other)) {
                    let e = choose|e: int| 0 <= e < at.len() && at[e] == self.index_of(d, other);
                    lemma_node_index_injective(d, other, e, path, b, n);
                }
            }
        }
    }

    /// Every node lies on some path.
    pub proof fn lemma_node_has_path(&self, i: int) -> (r: (int, int))
        requires
            self.wf(),
            0 <= i < self.tree.len(),
        ensures
            0 <= r.0 < self.height,
            0 <= r.1 < self.leaf_count,
            self.index_of(r.0, r.1) == i,
    {
        lemma_index_has_path(
            i,
            self.height as int,
            self.branching_factor as int,
            self.leaf_count as int,
        )
    }

    /// A node that a path names is in the array.
    pub proof fn lemma_index_in_tree(&self, depth: int, path: int)
        requires
            self.wf(),
            0 <= depth < self.height,
            0 <= path < self.leaf_count,
        ensures
            0 <= self.index_of(depth, path) < self.tree.len(),
    {
        lemma_node_index_in_level(
            depth,
            path,
            self.branching_factor as int,
            self.leaf_count as int,
        );
        lemma_level_start_grows(
            depth + 1,
            self.height as int,
            self.branching_factor as int,
            self.leaf_count as int,
        );
    }
}

impl<T: Default + Clone> HeapTree<T> {
    /// Initializes a new binary heap tree with a certain height.
    pub fn new(height: usize) -> (r: Self)
        requires
            0 < height,
            full_width(height - 1, 2) <= usize::MAX,
            level_start(height as int, 2, full_width(height - 1, 2)) <= usize::MAX,
        ensures
            r.wf(),
            r.height == height,
            r.branching_factor == 2,
            r.leaf_count == full_width(height - 1, 2),
            exists|d: T|
                call_ensures(T::default, (), d) && forall|i: int|
                    0 <= i < r.tree.len() ==> cloned(d, #[trigger] r.tree[i]),
    {
        Self::new_with_branching_factor(height, 2)
    }

    /// Initializes a new heap tree with a certain height and branching factor.
    pub fn new_with_branching_factor(height: usize, branching_factor: usize) -> (r: Self)
        requires
            0 < height,
            2 <= branching_factor,
            full_width(height - 1, branching_factor as int) <= usize::MAX,
            level_start(
                height as int,
                branching_factor as int,
                full_width(height - 1, branching_factor as int),
            ) <= usize::MAX,
        ensures
            r.wf(),
            r.height == height,
            r.branching_factor == branching_factor,
            r.leaf_count == full_width(height - 1, branching_factor as int),
            exists|d: T|
                call_ensures(T::default, (), d) && forall|i: int|
                    0 <= i < r.tree.len() ==> cloned(d, #[trigger] r.tree[i]),
    {
        let value = T::default();
        let r = Self::new_with_branching_factor_and_value(height, branching_factor, value);
        assert(call_ensures(T::default, (), value));
        r
    }
}

impl<T: Clone> HeapTree<T> {
    /// Initializes a new binary heap tree with a certain height and a default value.
    pub fn new_with(height: usize, default: T) -> (r: Self)
        requires
            0 < height,
            full_width(height - 1, 2) <= usize::MAX,
            level_start(height as int, 2, full_width(height - 1, 2)) <= usize::MAX,
        ensures
            r.wf(),
            r.height == height,
            r.branching_factor == 2,
            r.leaf_count == full_width(height - 1, 2),
            forall|i: int| 0 <= i < r.tree.len() ==> cloned(default, #[trigger] r.tree[i]),
    {
        Self::new_with_branching_factor_and_value(height, 2, default)
    }

    /// Initializes a new heap tree with a certain height, branching factor, and default value.
    pub fn new_with_branching_factor_and_value(
        height: usize,
        branching_factor: usize,
        default: T,
    ) -> (r: Self)
        requires
            0 < height,
            2 <= branching_factor,
            full_width(height - 1, branching_factor as int) <= usize::MAX,
            level_start(
                height as int,
                branching_factor as int,
                full_width(height - 1, branching_factor as int),
            ) <= usize::MAX,
        ensures
            r.wf(),
            r.height == height,
            r.branching_factor == branching_factor,
            r.leaf_count == full_width(height - 1, branching_factor as int),
            forall|i: int| 0 <= i < r.tree.len() ==> cloned(default, #[trigger] r.tree[i]),
    {
        let leaf_count: usize = full_level_width(height - 1, branching_factor);
        proof {
            lemma_full_width_grows(0, height - 1, branching_factor as int);
            if height > 1 {
                let w = full_width(height - 2, branching_factor as int);
                lemma_full_width(height - 2, branching_factor as int);
                assert(w < w * branching_factor) by (nonlinear_arith)
                    requires
                        w >= 1,
                        branching_factor >= 2,
                ;
            }
        }
        Self::new_with_leaf_count_and_value(height, branching_factor, leaf_count, default)
    }

    /// Initializes a new heap tree with a certain height, branching factor, leaf count, and
    /// default value.
    pub fn new_with_leaf_count_and_value(
        height: usize,
        branching_factor: usize,
        leaf_count: usize,
        default: T,
    ) -> (r: Self)
        requires
            shape_ok(height as int, branching_factor as int, leaf_count as int),
        ensures
            r.wf(),
            r.height == height,
            r.branching_factor == branching_factor,
            r.leaf_count == leaf_count,
            forall|i: int| 0 <= i < r.tree.len() ==> cloned(default, #[trigger] r.tree[i]),
    {
        let count: usize = node_count(height, branching_factor, leaf_count);
        let tree = vec![default; count];
        Self { tree, height, branching_factor, leaf_count }
    }
}

impl<T> HeapTree<T> {
    /// Returns the number of nodes at `depth`.
    pub fn level_width(&self, depth: usize) -> (r: usize)
        requires
            self.wf(),
            depth < self.height,
        ensures
            r == width(depth as int, self.branching_factor as int, self.leaf_count as int),
    {
        proof {
            lemma_full_width_grows(depth as int, self.height - 1, self.branching_factor as int);
        }
        let full: usize = full_level_width(depth, self.branching_factor);
        if full <= self.leaf_count {
            full
        } else {
            self.leaf_count
        }
    }

    /// Returns the number of leaves in the tree.
    pub fn leaf_count(&self) -> (r: usize)
        ensures
            r == self.leaf_count,
    {
        self.leaf_count
    }

    /// Get the index of a node at a certain depth and path.
    pub fn get_index(&self, depth: usize, path: PositionType) -> (r: usize)
        requires
            self.wf(),
            depth < self.height,
            path < self.leaf_count,
        ensures
            r == self.index_of(depth as int, path as int),
            r < self.tree.len(),
    {
        proof {
            self.lemma_index_in_tree(depth as int, path as int);
            lemma_node_index_in_level(
                depth as int,
                path as int,
                self.branching_factor as int,
                self.leaf_count as int,
            );
            lemma_full_width_grows(depth as int, self.height - 1, self.branching_factor as int);
            if depth > 0 {
                lemma_full_width_grows(
                    depth - 1,
                    self.height - 1,
                    self.branching_factor as int,
                );
            }
        }
        let full: usize = full_level_width(depth, self.branching_factor);
        let start: usize = node_count(depth, self.branching_factor, self.leaf_count);
        start + path as usize % full
    }

    /// Get a node of a certain path at a certain depth.
    /// Reveals depth and path.
    pub fn get_path_at_depth(&self, depth: usize, path: PositionType) -> (r: &T)
        requires
            self.wf(),
            depth < self.height,
            path < self.leaf_count,
        ensures
            *r == self.node(depth as int, path as int),
    {
        let index: usize = self.get_index(depth, path);
        &self.tree[index]
    }

    /// Get a node of a certain path at a certain depth.
    /// Reveals depth and path.
    pub fn get_path_at_depth_mut(&mut self, depth: usize, path: PositionType) -> (r: &mut T)
        requires
            old(self).wf(),
            depth < old(self).height,
            path < old(self).leaf_count,
        ensures
            *r == old(self).node(depth as int, path as int),
            final(self).tree@ == old(self).tree@.update(
                old(self).index_of(depth as int, path as int),
                *final(r),
            ),
            final(self).height == old(self).height,
            final(self).branching_factor == old(self).branching_factor,
            final(self).leaf_count == old(self).leaf_count,
    {
        let index: usize = self.get_index(depth, path);
        &mut self.tree[index]
    }

    /// Given a path and a node at certain depth, return the other child of that node's parent.
    pub fn get_sibling(&self, depth: usize, path: PositionType) -> (r: &T)
        requires
            self.wf(),
            self.branching_factor == 2,
            0 < depth < self.height,
            path < self.leaf_count,
            redirected(
                path as int,
                depth as int,
                2,
                1 - (path as int / full_width(depth - 1, 2)) % 2,
            ) < self.leaf_count,
            redirected(
                path as int,
                depth as int,
                2,
                1 - (path as int / full_width(depth - 1, 2)) % 2,
            ) <= PositionType::MAX,
        ensures
            *r == self.node(
                depth as int,
                redirected(
                    path as int,
                    depth as int,
                    2,
                    1 - (path as int / full_width(depth - 1, 2)) % 2,
                ),
            ),
    {
        proof {
            lemma_full_width_grows(depth - 1, self.height - 1, 2);
        }
        let scale: usize = full_level_width(depth - 1, 2);
        let digit: usize = (path as usize / scale) % 2;
        self.get_sibling_at(depth, path, 1 - digit)
    }

    /// Given a path and a node at certain depth, return a selected child of that node's parent.
    pub fn get_sibling_at(&self, depth: usize, path: PositionType, sibling: usize) -> (r: &T)
        requires
            self.wf(),
            0 < depth < self.height,
            sibling < self.branching_factor,
            path < self.leaf_count,
            redirected(
                path as int,
                depth as int,
                self.branching_factor as int,
                sibling as int,
            ) < self.leaf_count,
            redirected(
                path as int,
                depth as int,
                self.branching_factor as int,
                sibling as int,
            ) <= PositionType::MAX,
        ensures
            *r == self.node(
                depth as int,
                redirected(
                    path as int,
                    depth as int,
                    self.branching_factor as int,
                    sibling as int,
                ),
            ),
    {
        proof {
            lemma_full_width_grows(depth - 1, self.height - 1, self.branching_factor as int);
        }
        let scale: usize = full_level_width(depth - 1, self.branching_factor);
        let digit: usize = (path as usize / scale) % self.branching_factor;
        proof {
            let p = path as int;
            let s = scale as int;
            let b = self.branching_factor as int;
            let q = p / s;
            vstd::arithmetic::div_mod::lemma_fundamental_div_mod(p, s);
            vstd::arithmetic::div_mod::lemma_fundamental_div_mod(q, b);
            vstd::arithmetic::div_mod::lemma_mod_bound(p, s);
            assert(digit * s <= p) by (nonlinear_arith)
                requires
                    p == s * q + p % s,
                    p % s >= 0,
                    s >= 1,
                    q == b * (q / b) + q % b,
                    q / b >= 0,
                    b >= 2,
                    digit == q % b,
                    digit >= 0,
            {
                assert(q >= digit) by (nonlinear_arith)
                    requires
                        q == b * (q / b) + digit,
                        q / b >= 0,
                        b >= 2,
                ;
                assert(s * q >= s * digit) by (nonlinear_arith)
                    requires
                        q >= digit,
                        s >= 1,
                ;
            }
            assert(0 <= sibling * s) by (nonlinear_arith)
                requires
                    sibling >= 0,
                    s >= 1,
            ;
            assert(0 <= digit * s) by (nonlinear_arith)
                requires
                    digit >= 0,
                    s >= 1,
            ;
            let w = full_width(depth - 1, b);
            assert(sibling * s < s * b) by (nonlinear_arith)
                requires
                    sibling < b,
                    s >= 1,
            ;
            lemma_full_width(depth - 1, b);
            lemma_full_width_grows(depth as int, self.height - 1, b);
        }
        let kept: usize = path as usize - digit * scale;
        let other: usize = kept + sibling * scale;
        self.get_path_at_depth(depth, other as PositionType)
    }
}

} // verus!
