//! A static B+ tree whose nodes live in oblivious RAMs.
use vstd::prelude::*;
use vstd::slice::slice_subrange;
use crate::b_tree_components::{
    among, ascending, at_most, branch_of, found_at, lemma_at_most, BpTreeNode, BpValueNode,
    OrderedKey, EXACT_MATCH,
};
use crate::circuit_oram::{Block, CircuitORAM, S};
use crate::linear_oram::OOption;
use crate::oblivious::{both, ObliviousValue};
use crate::prelude::{PositionType, DUMMY_POS};
use crate::random::random_below;

verus! {

/// The key of the trees that the experiments build.
pub type KeyType = u64;

/// Keys and values side by side.
pub open spec fn pairs<T, V>(keys: Seq<T>, values: Seq<V>) -> Seq<(T, V)> {
    Seq::new(keys.len(), |i: int| (keys[i], values[i]))
}

/// Keys that can be sorted together with values.
pub trait SortsWith<V: ObliviousValue>: OrderedKey {
    /// Sorts the keys and moves each value along with its key.
    fn sort_pairs(keys: &mut [Self], values: &mut [V])
        requires
            old(keys)@.len() == old(values)@.len(),
        ensures
            final(keys)@.len() == old(keys)@.len(),
            final(values)@.len() == old(values)@.len(),
            ascending(final(keys)@),
            pairs(final(keys)@, final(values)@).to_multiset() == pairs(
                old(keys)@,
                old(values)@,
            ).to_multiset(),
    ;
}

/// `rostl_sort::bitonic::bitonic_payload_sort` on slices of `u64`: the keys come out in
/// ascending order and every value stays with its key. It panics on slices of different
/// lengths. Nothing is said of the order of values with equal keys.
#[verifier::external_body]
fn sort_words(keys: &mut [u64], values: &mut [u64])
    requires
        old(keys)@.len() == old(values)@.len(),
    ensures
        final(keys)@.len() == old(keys)@.len(),
        final(values)@.len() == old(values)@.len(),
        forall|i: int, j: int|
            0 <= i <= j < final(keys)@.len() ==> final(keys)@[i] <= final(keys)@[j],
        pairs(final(keys)@, final(values)@).to_multiset() == pairs(
            old(keys)@,
            old(values)@,
        ).to_multiset(),
{
    rostl_sort::bitonic::bitonic_payload_sort(keys, values)
}

impl SortsWith<u64> for u64 {
    fn sort_pairs(keys: &mut [u64], values: &mut [u64]) {
        sort_words(keys, values);
    }
}

/// The number of value nodes for `n` pairs, `vb` to a node.
pub open spec fn block_count(n: int, vb: int) -> int {
    (n - 1) / vb + 1
}

/// The keys that the level above level `l` of the tree separates its nodes by, where
/// level 0 is that of the value nodes: the first key of every value node but the first,
/// and further up every `b`-th key of the level below.
pub open spec fn level_keys<T>(keys: Seq<T>, vb: int, b: int, l: int) -> Seq<T>
    decreases l,
{
    if l <= 0 {
        Seq::new((block_count(keys.len() as int, vb) - 1) as nat, |i: int| keys[(i + 1) * vb])
    } else {
        let below = level_keys(keys, vb, b, l - 1);
        Seq::new((below.len() / b as nat), |i: int| below[(i + 1) * b - 1])
    }
}

/// The end of the keys of node `i` among the keys `s` of its level.
pub open spec fn node_end(len: int, b: int, i: int) -> int {
    if len < (i + 1) * b - 1 {
        len
    } else {
        (i + 1) * b - 1
    }
}

/// The keys of node `i` among the keys `s` of its level.
pub open spec fn node_keys<T>(s: Seq<T>, b: int, i: int) -> Seq<T> {
    s.subrange(i * b, node_end(s.len() as int, b, i))
}

/// The end of the pairs of value node `i`.
pub open spec fn block_end(n: int, vb: int, i: int) -> int {
    if n < (i + 1) * vb {
        n
    } else {
        (i + 1) * vb
    }
}

/// The number of separators of level `l` of a tree over `n` pairs.
pub open spec fn separator_count(n: int, vb: int, b: int, l: int) -> int
    decreases l,
{
    if l <= 0 {
        block_count(n, vb) - 1
    } else {
        separator_count(n, vb, b, l - 1) / b
    }
}

/// Whether `k` separators take another level of inner nodes: their nodes are more than the
/// first level branches to, or the first level has no space for the separators.
pub open spec fn needs_level(k: int, b: int, fb: int, fbm1: int) -> bool {
    k / b + 1 > fb || k > fbm1
}

/// The number of levels between the first level and the value nodes, over `k` separators.
pub open spec fn inner_levels(k: int, b: int, fb: int, fbm1: int) -> nat
    decreases k,
{
    if k > 0 && b >= 2 && needs_level(k, b, fb, fbm1) {
        proof {
            vstd::arithmetic::div_mod::lemma_div_decreases(k, b);
        }
        inner_levels(k / b, b, fb, fbm1) + 1
    } else {
        0
    }
}

/// Positions for the nodes of every level of a tree over `n` pairs, from the value nodes up:
/// each below the number of nodes of its level.
pub open spec fn drawn(
    positions: Seq<Seq<PositionType>>,
    n: int,
    vb: int,
    b: int,
    fb: int,
    fbm1: int,
) -> bool {
    &&& positions.len() == inner_levels(block_count(n, vb) - 1, b, fb, fbm1) + 1
    &&& forall|l: int|
        0 <= l < positions.len() ==> drawn_level(
            #[trigger] positions[l],
            separator_count(n, vb, b, l) + 1,
        )
}

/// Positions for the `count` nodes of one level.
pub open spec fn drawn_level(positions: Seq<PositionType>, count: int) -> bool {
    &&& positions.len() == count
    &&& forall|i: int| 0 <= i < count ==> #[trigger] positions[i] < count
}

/// The contents of the vectors of a vector.
pub open spec fn contents<T>(rows: Seq<Vec<T>>) -> Seq<Seq<T>> {
    Seq::new(rows.len(), |l: int| rows[l]@)
}

/// What the tree holds for `key`: the value of the last key up to it, if that is the key.
pub open spec fn lookup<T: OrderedKey, V>(keys: Seq<T>, values: Seq<V>, key: T) -> Option<V> {
    let c = at_most(keys, key, keys.len() as int);
    if c >= 1 && keys[c - 1] == key {
        Some(values[c - 1])
    } else {
        None
    }
}

/// A lookup succeeds exactly for the keys of the tree, with a value of the key.
pub proof fn lemma_lookup<T: OrderedKey, V>(keys: Seq<T>, values: Seq<V>, key: T)
    requires
        ascending(keys),
        keys.len() == values.len(),
    ensures
        lookup(keys, values, key) is Some <==> keys.contains(key),
        lookup(keys, values, key) matches Some(v) ==> exists|i: int|
            0 <= i < keys.len() && #[trigger] keys[i] == key && values[i] == v,
{
    let n = keys.len() as int;
    let c = at_most(keys, key, n);
    lemma_at_most(keys, key, n);
    if keys.contains(key) {
        let i = choose|i: int| 0 <= i < n && keys[i] == key;
        assert(keys[i].rank() <= key.rank());
        assert(keys[i].rank() <= keys[c - 1].rank());
        assert(keys[c - 1].rank() <= key.rank());
        keys[c - 1].lemma_rank(key);
    }
    if c >= 1 && keys[c - 1] == key {
        assert(keys.contains(key));
    }
}

/// Node sizes and places.
proof fn lemma_node_span(len: int, b: int, i: int)
    requires
        0 <= len,
        2 <= b,
        0 <= i <= len / b,
    ensures
        0 <= i * b <= node_end(len, b, i) <= len,
        node_end(len, b, i) - i * b <= b - 1,
        (i + 1) * b == i * b + b,
        i < len / b ==> node_end(len, b, i) == (i + 1) * b - 1 && (i + 1) * b <= len,
        i == len / b ==> node_end(len, b, i) == len,
{
    vstd::arithmetic::div_mod::lemma_fundamental_div_mod(len, b);
    assert((i + 1) * b == i * b + b) by (nonlinear_arith);
    assert(0 <= i * b <= (len / b) * b) by (nonlinear_arith)
        requires
            0 <= i <= len / b,
            2 <= b,
    ;
    assert((len / b) * b == b * (len / b)) by (nonlinear_arith);
    if i < len / b {
        assert((i + 1) * b <= (len / b) * b) by (nonlinear_arith)
            requires
                i + 1 <= len / b,
                2 <= b,
        ;
    }
}

/// Value node sizes and places.
proof fn lemma_block_span(n: int, vb: int, i: int)
    requires
        1 <= n,
        1 <= vb,
        0 <= i < block_count(n, vb),
    ensures
        0 <= i * vb < block_end(n, vb, i) <= n,
        block_end(n, vb, i) - i * vb <= vb,
        (i + 1) * vb == i * vb + vb,
        i + 1 < block_count(n, vb) ==> (i + 1) * vb < n && block_end(n, vb, i) == (i + 1) * vb,
        i + 1 == block_count(n, vb) ==> block_end(n, vb, i) == n,
{
    vstd::arithmetic::div_mod::lemma_fundamental_div_mod(n - 1, vb);
    let q = (n - 1) / vb;
    assert((i + 1) * vb == i * vb + vb) by (nonlinear_arith);
    assert(0 <= i * vb <= q * vb) by (nonlinear_arith)
        requires
            0 <= i <= q,
            1 <= vb,
    ;
    assert(q * vb == vb * q) by (nonlinear_arith);
    if i < q {
        assert((i + 1) * vb <= q * vb) by (nonlinear_arith)
            requires
                i + 1 <= q,
                1 <= vb,
        ;
    }
}

/// The keys of every level never fall where the keys of the tree never fall.
proof fn lemma_levels_ascend<T: OrderedKey>(keys: Seq<T>, vb: int, b: int, l: int)
    requires
        ascending(keys),
        1 <= keys.len(),
        1 <= vb,
        2 <= b,
    ensures
        ascending(level_keys(keys, vb, b, l)),
        l <= 0 ==> level_keys(keys, vb, b, l).len() == block_count(keys.len() as int, vb) - 1,
    decreases l,
{
    let s = level_keys(keys, vb, b, l);
    if l <= 0 {
        let n = keys.len() as int;
        vstd::arithmetic::div_mod::lemma_div_pos_is_pos(n - 1, vb);
        assert forall|i: int, j: int| 0 <= i <= j < s.len() implies (#[trigger] s[i]).rank() <= (
        #[trigger] s[j]).rank() by {
            lemma_block_span(n, vb, i);
            lemma_block_span(n, vb, j);
            assert((i + 1) * vb <= (j + 1) * vb) by (nonlinear_arith)
                requires
                    i <= j,
                    1 <= vb,
            ;
        }
    } else {
        lemma_levels_ascend(keys, vb, b, l - 1);
        let below = level_keys(keys, vb, b, l - 1);
        assert forall|i: int, j: int| 0 <= i <= j < s.len() implies (#[trigger] s[i]).rank() <= (
        #[trigger] s[j]).rank() by {
            lemma_node_span(below.len() as int, b, i);
            lemma_node_span(below.len() as int, b, j);
            assert((i + 1) * b <= (j + 1) * b) by (nonlinear_arith)
                requires
                    i <= j,
                    2 <= b,
            ;
        }
    }
}

/// A search that goes down to node `q` of a level goes on inside it.
proof fn lemma_descend<T: OrderedKey>(s: Seq<T>, b: int, key: T)
    requires
        ascending(s),
        2 <= b,
    ensures
        ({
            let up = Seq::new((s.len() / b as nat), |i: int| s[(i + 1) * b - 1]);
            let q = at_most(up, key, up.len() as int);
            let node = node_keys(s, b, q);
            &&& 0 <= q <= s.len() / b as nat
            &&& 0 <= at_most(node, key, node.len() as int) <= node.len()
            &&& at_most(s, key, s.len() as int) == q * b + at_most(node, key, node.len() as int)
        }),
{
    let n = s.len() as int;
    let up = Seq::new((s.len() / b as nat), |i: int| s[(i + 1) * b - 1]);
    let q = at_most(up, key, up.len() as int);
    vstd::arithmetic::div_mod::lemma_div_pos_is_pos(n, b);
    assert(ascending(up)) by {
        assert forall|i: int, j: int| 0 <= i <= j < up.len() implies (#[trigger] up[i]).rank() <= (
        #[trigger] up[j]).rank() by {
            lemma_node_span(n, b, i);
            lemma_node_span(n, b, j);
            assert((i + 1) * b <= (j + 1) * b) by (nonlinear_arith)
                requires
                    i <= j,
                    2 <= b,
            ;
        }
    }
    lemma_at_most(up, key, up.len() as int);
    lemma_at_most(s, key, n);
    lemma_node_span(n, b, q);
    let c = at_most(s, key, n);
    let node = node_keys(s, b, q);
    let d = at_most(node, key, node.len() as int);
    assert(ascending(node));
    lemma_at_most(node, key, node.len() as int);
    if q > 0 {
        lemma_node_span(n, b, q - 1);
        assert(up[q - 1].rank() <= key.rank());
        assert(s[q * b - 1].rank() <= key.rank());
    }
    if q < up.len() {
        assert(up[q].rank() > key.rank());
        assert(s[(q + 1) * b - 1].rank() > key.rank());
    }
    assert(q * b <= c <= node_end(n, b, q));
    if d < c - q * b {
        assert(node[d] == s[q * b + d]);
    }
    if d > c - q * b {
        assert(node[c - q * b] == s[c]);
    }
}

/// The value node that a search goes down to holds what the tree holds for the key.
proof fn lemma_arrive<T: OrderedKey, V>(keys: Seq<T>, values: Seq<V>, vb: int, b: int, key: T)
    requires
        ascending(keys),
        1 <= keys.len(),
        keys.len() == values.len(),
        1 <= vb,
        2 <= b,
    ensures
        ({
            let n = keys.len() as int;
            let up = level_keys(keys, vb, b, 0);
            let q = at_most(up, key, up.len() as int);
            let node = keys.subrange(q * vb, block_end(n, vb, q));
            &&& 0 <= q < block_count(n, vb)
            &&& lookup(keys, values, key) == (match found_at(node, key, EXACT_MATCH) {
                Some(i) => Some(values[q * vb + i]),
                None => None,
            })
            &&& found_at(node, key, EXACT_MATCH) matches Some(i) ==> 0 <= i < node.len()
        }),
{
    let n = keys.len() as int;
    let up = level_keys(keys, vb, b, 0);
    let q = at_most(up, key, up.len() as int);
    vstd::arithmetic::div_mod::lemma_div_pos_is_pos(n - 1, vb);
    lemma_levels_ascend(keys, vb, b, 0);
    lemma_at_most(up, key, up.len() as int);
    lemma_at_most(keys, key, n);
    lemma_block_span(n, vb, q);
    let c = at_most(keys, key, n);
    let node = keys.subrange(q * vb, block_end(n, vb, q));
    let m = node.len() as int;
    let d = at_most(node, key, m);
    assert(ascending(node));
    lemma_at_most(node, key, m);
    if q > 0 {
        assert(up[q - 1].rank() <= key.rank());
        assert(keys[q * vb].rank() <= key.rank());
    }
    if q < up.len() {
        assert(up[q].rank() > key.rank());
        assert(keys[(q + 1) * vb].rank() > key.rank());
    }
    assert(q * vb <= c <= block_end(n, vb, q));
    if d < c - q * vb {
        assert(node[d] == keys[q * vb + d]);
    }
    if d > c - q * vb {
        assert(node[c - q * vb] == keys[c]);
    }
    if among(node, key, m) {
        let i = choose|i: int| 0 <= i < m && #[trigger] node[i] == key;
        assert(node[i].rank() <= node[d - 1].rank());
        assert(node[d - 1].rank() <= key.rank());
        node[d - 1].lemma_rank(key);
        assert(keys[c - 1] == node[d - 1]);
    } else if c >= 1 && keys[c - 1] == key {
        if q > 0 {
            assert(c > q * vb);
        }
        assert(node[c - 1 - q * vb] == key);
    }
}

/// The position of node `c` of level `l`, where the inner levels come from the top down.
pub open spec fn node_pos<
    T: OrderedKey,
    V: ObliviousValue,
    const BM1: usize,
    const B: usize,
    const VB: usize,
>(
    inner: Seq<CircuitORAM<BpTreeNode<T, BM1, B>>>,
    last: CircuitORAM<BpValueNode<T, V, VB>>,
    l: int,
    c: int,
) -> PositionType {
    if l <= 0 {
        last@[c as u32].pos
    } else {
        inner[inner.len() - l]@[c as u32].pos
    }
}

/// Node `i` of inner level `l` is stored, with the keys that separate its children out of
/// `below` and the positions of its children.
pub open spec fn inner_node_ok<
    T: OrderedKey,
    V: ObliviousValue,
    const BM1: usize,
    const B: usize,
    const VB: usize,
>(
    inner: Seq<CircuitORAM<BpTreeNode<T, BM1, B>>>,
    last: CircuitORAM<BpValueNode<T, V, VB>>,
    below: Seq<T>,
    l: int,
    i: int,
) -> bool {
    let stored = inner[inner.len() - l]@;
    let node = stored[i as u32].value;
    &&& stored.contains_key(i as u32)
    &&& node.wf()
    &&& node.live_keys() == node_keys(below, B as int, i)
    &&& forall|j: int|
        0 <= j <= node.len ==> #[trigger] node.ptrs.data@[j] == node_pos(
            inner,
            last,
            l - 1,
            i * B + j,
        )
}

/// Every node of inner level `l` is stored as it should be.
pub open spec fn inner_level_ok<
    T: OrderedKey,
    V: ObliviousValue,
    const BM1: usize,
    const B: usize,
    const VB: usize,
>(
    inner: Seq<CircuitORAM<BpTreeNode<T, BM1, B>>>,
    last: CircuitORAM<BpValueNode<T, V, VB>>,
    keys: Seq<T>,
    l: int,
) -> bool {
    forall|i: int|
        0 <= i <= level_keys(keys, VB as int, B as int, l).len() ==> #[trigger] inner_node_ok(
            inner,
            last,
            level_keys(keys, VB as int, B as int, l - 1),
            l,
            i,
        )
}

/// Value node `i` has its share of the pairs.
pub open spec fn holds_pairs<T: OrderedKey, V: ObliviousValue, const VB: usize>(
    node: BpValueNode<T, V, VB>,
    keys: Seq<T>,
    values: Seq<V>,
    i: int,
) -> bool {
    let start = i * VB;
    &&& node.wf()
    &&& node.live_keys() == keys.subrange(start, block_end(keys.len() as int, VB as int, i))
    &&& forall|j: int| 0 <= j < node.len ==> #[trigger] node.values.data@[j] == values[start + j]
}

/// Value node `i` is stored, with its share of the pairs.
pub open spec fn value_node_ok<T: OrderedKey, V: ObliviousValue, const VB: usize>(
    last: CircuitORAM<BpValueNode<T, V, VB>>,
    keys: Seq<T>,
    values: Seq<V>,
    i: int,
) -> bool {
    &&& last@.contains_key(i as u32)
    &&& holds_pairs(last@[i as u32].value, keys, values, i)
}

/// The value nodes were put into a new ORAM one after another, each at its position, and
/// `fits` tells whether each found room.
pub open spec fn value_level_built<T: OrderedKey, V: ObliviousValue, const VB: usize>(
    level: CircuitORAM<BpValueNode<T, V, VB>>,
    keys: Seq<T>,
    values: Seq<V>,
    positions: Seq<PositionType>,
    fits: bool,
) -> bool {
    exists|states: Seq<CircuitORAM<BpValueNode<T, V, VB>>>, nodes: Seq<BpValueNode<T, V, VB>>| #[trigger]
        CircuitORAM::loads(states, nodes, positions) && {
            &&& nodes.len() == block_count(keys.len() as int, VB as int)
            &&& forall|i: int| 0 <= i < nodes.len() ==> holds_pairs(#[trigger] nodes[i], keys, values, i)
            &&& states.last() == level
            &&& fits == CircuitORAM::all_fit(states)
        }
}

/// The nodes of an inner level, over the separators `keys` and the positions `children` of
/// the level below, were put into a new ORAM one after another, each at its position, and
/// `fits` tells whether each found room.
pub open spec fn inner_level_built<T: OrderedKey, const BM1: usize, const B: usize>(
    level: CircuitORAM<BpTreeNode<T, BM1, B>>,
    keys: Seq<T>,
    children: Seq<PositionType>,
    positions: Seq<PositionType>,
    fits: bool,
) -> bool {
    exists|states: Seq<CircuitORAM<BpTreeNode<T, BM1, B>>>, nodes: Seq<BpTreeNode<T, BM1, B>>| #[trigger]
        CircuitORAM::loads(states, nodes, positions) && {
            &&& nodes.len() == keys.len() / B as nat + 1
            &&& forall|i: int|
                0 <= i < nodes.len() ==> holds_children(#[trigger] nodes[i], keys, children, i)
            &&& states.last() == level
            &&& fits == CircuitORAM::all_fit(states)
        }
}

/// Inner level `l`, where the levels come from the top down, was built over the level below.
pub open spec fn level_built<T: OrderedKey, const BM1: usize, const B: usize>(
    inner: Seq<CircuitORAM<BpTreeNode<T, BM1, B>>>,
    below: Seq<T>,
    positions: Seq<Seq<PositionType>>,
    fits: Seq<bool>,
    l: int,
) -> bool {
    inner_level_built(inner[inner.len() - l], below, positions[l - 1], positions[l], fits[l])
}

/// What an access to node `q` of an inner level does if the stash has room for the node:
/// the node moves to `pos`, and its child `child` is said to be at `child_pos`.
pub open spec fn node_moved<T: OrderedKey, const BM1: usize, const B: usize>(
    before: CircuitORAM<BpTreeNode<T, BM1, B>>,
    after: CircuitORAM<BpTreeNode<T, BM1, B>>,
    q: int,
    pos: PositionType,
    child: int,
    child_pos: PositionType,
) -> bool {
    let k = q as u32;
    &&& after.wf()
    &&& after.same_frame(&before)
    &&& forall|c: u32| #[trigger] after@.contains_key(c) ==> before@.contains_key(c) || c == k
    &&& before.state().has_room(k) ==> {
        &&& after@ == before@.insert(k, after@[k])
        &&& after@[k].pos == pos
        &&& after@[k].value.keys == before@[k].value.keys
        &&& after@[k].value.len == before@[k].value.len
        &&& after@[k].value.ptrs.data@ == before@[k].value.ptrs.data@.update(child, child_pos)
    }
}

/// Puts the sorted pairs into value nodes at their positions. Gives the nodes, the first
/// keys of all of them but the first, and whether the stash had room for all of them.
fn build_value_level<T: OrderedKey, V: ObliviousValue, const VB: usize>(
    keys: &[T],
    values: &[V],
    positions: &Vec<PositionType>,
) -> (r: (CircuitORAM<BpValueNode<T, V, VB>>, Vec<T>, bool))
    requires
        1 <= keys@.len() == values@.len(),
        1 <= VB < usize::MAX,
        block_count(keys@.len() as int, VB as int) <= 0x8000_0000,
        drawn_level(positions@, block_count(keys@.len() as int, VB as int)),
    ensures
        r.0.wf(),
        r.1@ == level_keys(keys@, VB as int, 2, 0),
        forall|k: u32| #[trigger] r.0@.contains_key(k) ==> k < positions@.len(),
        value_level_built(r.0, keys@, values@, positions@, r.2),
        r.2 ==> forall|i: int|
            0 <= i < positions@.len() ==> #[trigger] value_node_ok(r.0, keys@, values@, i),
        r.2 ==> forall|i: int|
            0 <= i < positions@.len() ==> r.0@[i as u32].pos == #[trigger] positions@[i],
        positions@.len() <= S ==> r.2,
{
    let n: usize = keys.len();
    proof {
        vstd::arithmetic::div_mod::lemma_div_pos_is_pos(n - 1, VB as int);
    }
    let blocks: usize = (n - 1) / VB + 1;
    let mut level: CircuitORAM<BpValueNode<T, V, VB>> = CircuitORAM::new(blocks);
    let ghost mut states = seq![level];
    let ghost mut nodes: Seq<BpValueNode<T, V, VB>> = Seq::empty();
    let mut promoted: Vec<T> = Vec::new();
    let mut intact: bool = true;
    let mut start: usize = 0;
    let mut i: usize = 0;
    while i < blocks
        invariant
            i <= blocks,
            n == keys@.len() == values@.len(),
            1 <= n,
            1 <= VB < usize::MAX,
            blocks == block_count(n as int, VB as int),
            1 <= blocks <= 0x8000_0000,
            i < blocks ==> start == i * VB,
            level.wf(),
            blocks <= level.max_n,
            drawn_level(positions@, blocks as int),
            states.len() == i + 1,
            nodes.len() == i,
            states[0].is_new(blocks as int),
            states.last() == level,
            forall|k: int|
                0 <= k < i ==> #[trigger] CircuitORAM::load_step(states, nodes, positions@, k),
            forall|k: int| 0 <= k < i ==> holds_pairs(#[trigger] nodes[k], keys@, values@, k),
            intact == CircuitORAM::all_fit(states),
            promoted@ == Seq::new(
                (if i == 0 {
                    0int
                } else {
                    i - 1
                }) as nat,
                |k: int| keys@[(k + 1) * VB],
            ),
            forall|k: u32| #[trigger] level@.contains_key(k) ==> k < i,
            i <= S ==> intact && level.vacant_from(i as int),
            intact ==> forall|k: int|
                0 <= k < i ==> #[trigger] value_node_ok(level, keys@, values@, k),
            intact ==> forall|k: int|
                0 <= k < i ==> level@[k as u32].pos == #[trigger] positions@[k],
        decreases blocks - i,
    {
        proof {
            lemma_block_span(n as int, VB as int, i as int);
        }
        let end: usize = if n - start < VB {
            n
        } else {
            start + VB
        };
        let pos: PositionType = positions[i];
        let ghost before = level;
        let block: BpValueNode<T, V, VB> = BpValueNode::new(
            slice_subrange(keys, start, end),
            slice_subrange(values, start, end),
            end - start,
        );
        let written: bool = level.insert_absent(i as PositionType, pos, i, block);
        if i > 0 {
            promoted.push(keys[start]);
        }
        let was_intact: bool = intact;
        intact = both(was_intact, written);
        proof {
            let more = states.push(level);
            let filled = nodes.push(block);
            assert forall|k: int| 0 <= k < i + 1 implies #[trigger] CircuitORAM::load_step(
                more,
                filled,
                positions@,
                k,
            ) by {
                if k < i {
                    assert(CircuitORAM::load_step(states, nodes, positions@, k));
                }
            }
            assert(intact == CircuitORAM::all_fit(more)) by {
                assert(more[i as int].state().has_room(i as u32) == written);
                if was_intact {
                    assert forall|k: int| 0 <= k < i implies (
                    #[trigger] more[k]).state().has_room(k as u32) by {
                        assert(states[k].state().has_room(k as u32));
                    }
                } else {
                    let k = choose|k: int|
                        0 <= k < states.len() - 1 && !(#[trigger] states[k]).state().has_room(
                            k as u32,
                        );
                    assert(!more[k].state().has_room(k as u32));
                }
            }
            if i < S {
                before.lemma_vacancy_is_room(i as int, i as u32);
                assert(level.vacant_from(i + 1));
            }
            assert(block.live_keys() =~= keys@.subrange(start as int, end as int));
            if intact {
                assert forall|k: int| 0 <= k < i + 1 implies #[trigger] value_node_ok(
                    level,
                    keys@,
                    values@,
                    k,
                ) by {
                    if k < i {
                        assert(value_node_ok(before, keys@, values@, k));
                    }
                }
                assert forall|k: int| 0 <= k < i + 1 implies level@[k as u32].pos
                    == #[trigger] positions@[k] by {
                    if k < i {
                        assert(before@[k as u32].pos == positions@[k]);
                    }
                }
            }
            assert(promoted@ =~= Seq::new(i as nat, |k: int| keys@[(k + 1) * VB]));
        }
        proof {
            let more = states.push(level);
            let filled = nodes.push(block);
            assert forall|k: int| 0 <= k < i + 1 implies holds_pairs(#[trigger] filled[k], keys@, values@, k) by {
                if k < i {
                    assert(holds_pairs(nodes[k], keys@, values@, k));
                }
            }
            states = more;
            nodes = filled;
        }
        start = end;
        i += 1;
    }
    proof {
        assert(CircuitORAM::loads(states, nodes, positions@));
    }
    (level, promoted, intact)
}

/// Puts separators and child positions into the nodes of one inner level, at their
/// positions. Gives the nodes, the keys between them, and whether the stash had room for
/// all of them.
fn build_inner_level<T: OrderedKey, const BM1: usize, const B: usize>(
    keys: &Vec<T>,
    children: &Vec<PositionType>,
    positions: &Vec<PositionType>,
) -> (r: (CircuitORAM<BpTreeNode<T, BM1, B>>, Vec<T>, bool))
    requires
        children@.len() == keys@.len() + 1,
        keys@.len() < 0x8000_0000,
        2 <= B,
        B - 1 <= BM1 < usize::MAX,
        drawn_level(positions@, keys@.len() as int / B as int + 1),
    ensures
        r.0.wf(),
        r.1@ == Seq::new((keys@.len() / B as nat), |i: int| keys@[(i + 1) * B - 1]),
        forall|k: u32| #[trigger] r.0@.contains_key(k) ==> k < positions@.len(),
        inner_level_built(r.0, keys@, children@, positions@, r.2),
        r.2 ==> forall|i: int|
            0 <= i < positions@.len() ==> #[trigger] node_built(r.0, keys@, children@, i),
        r.2 ==> forall|i: int|
            0 <= i < positions@.len() ==> r.0@[i as u32].pos == #[trigger] positions@[i],
        positions@.len() <= S ==> r.2,
{
    let n: usize = keys.len();
    proof {
        vstd::arithmetic::div_mod::lemma_div_pos_is_pos(n as int, B as int);
        vstd::arithmetic::div_mod::lemma_div_is_ordered_by_denominator(n as int, 1, B as int);
        vstd::arithmetic::div_mod::lemma_div_basics(n as int);
    }
    let blocks: usize = n / B + 1;
    let mut level: CircuitORAM<BpTreeNode<T, BM1, B>> = CircuitORAM::new(blocks);
    let ghost mut states = seq![level];
    let ghost mut nodes: Seq<BpTreeNode<T, BM1, B>> = Seq::empty();
    let mut promoted: Vec<T> = Vec::new();
    let mut intact: bool = true;
    let mut start: usize = 0;
    let mut i: usize = 0;
    while i < blocks
        invariant
            i <= blocks,
            n == keys@.len(),
            children@.len() == n + 1,
            n < 0x8000_0000,
            2 <= B,
            B - 1 <= BM1 < usize::MAX,
            blocks == n as int / B as int + 1,
            1 <= blocks <= 0x8000_0000,
            i < blocks ==> start == i * B,
            level.wf(),
            blocks <= level.max_n,
            drawn_level(positions@, blocks as int),
            states.len() == i + 1,
            nodes.len() == i,
            states[0].is_new(blocks as int),
            states.last() == level,
            forall|k: int|
                0 <= k < i ==> #[trigger] CircuitORAM::load_step(states, nodes, positions@, k),
            forall|k: int| 0 <= k < i ==> holds_children(#[trigger] nodes[k], keys@, children@, k),
            intact == CircuitORAM::all_fit(states),
            promoted@ == Seq::new(
                (if i < blocks {
                    i as int
                } else {
                    blocks - 1
                }) as nat,
                |k: int| keys@[(k + 1) * B - 1],
            ),
            forall|k: u32| #[trigger] level@.contains_key(k) ==> k < i,
            i <= S ==> intact && level.vacant_from(i as int),
            intact ==> forall|k: int|
                0 <= k < i ==> #[trigger] node_built(level, keys@, children@, k),
            intact ==> forall|k: int|
                0 <= k < i ==> level@[k as u32].pos == #[trigger] positions@[k],
        decreases blocks - i,
    {
        proof {
            lemma_node_span(n as int, B as int, i as int);
        }
        let end: usize = if n - start < B - 1 {
            n
        } else {
            start + (B - 1)
        };
        let pos: PositionType = positions[i];
        let ghost before = level;
        let block: BpTreeNode<T, BM1, B> = BpTreeNode::new(
            slice_subrange(keys.as_slice(), start, end),
            slice_subrange(children.as_slice(), start, end + 1),
            end - start,
        );
        let written: bool = level.insert_absent(i as PositionType, pos, i, block);
        if i + 1 < blocks {
            promoted.push(keys[end]);
        }
        let was_intact: bool = intact;
        intact = both(was_intact, written);
        proof {
            let more = states.push(level);
            let filled = nodes.push(block);
            assert forall|k: int| 0 <= k < i + 1 implies #[trigger] CircuitORAM::load_step(
                more,
                filled,
                positions@,
                k,
            ) by {
                if k < i {
                    assert(CircuitORAM::load_step(states, nodes, positions@, k));
                }
            }
            assert(intact == CircuitORAM::all_fit(more)) by {
                assert(more[i as int].state().has_room(i as u32) == written);
                if was_intact {
                    assert forall|k: int| 0 <= k < i implies (
                    #[trigger] more[k]).state().has_room(k as u32) by {
                        assert(states[k].state().has_room(k as u32));
                    }
                } else {
                    let k = choose|k: int|
                        0 <= k < states.len() - 1 && !(#[trigger] states[k]).state().has_room(
                            k as u32,
                        );
                    assert(!more[k].state().has_room(k as u32));
                }
            }
            if i < S {
                before.lemma_vacancy_is_room(i as int, i as u32);
                assert(level.vacant_from(i + 1));
            }
            assert(block.live_keys() =~= node_keys(keys@, B as int, i as int));
            if intact {
                assert forall|k: int| 0 <= k < i + 1 implies #[trigger] node_built(
                    level,
                    keys@,
                    children@,
                    k,
                ) by {
                    if k < i {
                        assert(node_built(before, keys@, children@, k));
                    }
                }
                assert forall|k: int| 0 <= k < i + 1 implies level@[k as u32].pos
                    == #[trigger] positions@[k] by {
                    if k < i {
                        assert(before@[k as u32].pos == positions@[k]);
                    }
                }
            }
            assert(promoted@ =~= Seq::new(
                (if i + 1 < blocks {
                    i + 1
                } else {
                    blocks - 1
                }) as nat,
                |k: int| keys@[(k + 1) * B - 1],
            ));
        }
        proof {
            let more = states.push(level);
            let filled = nodes.push(block);
            assert forall|k: int| 0 <= k < i + 1 implies holds_children(#[trigger] filled[k], keys@, children@, k) by {
                if k < i {
                    assert(holds_children(nodes[k], keys@, children@, k));
                }
            }
            states = more;
            nodes = filled;
        }
        if i + 1 < blocks {
            start = start + B;
        }
        i += 1;
    }
    proof {
        assert(CircuitORAM::loads(states, nodes, positions@));
    }
    (level, promoted, intact)
}

/// Node `i` has its share of the separators and of the child positions.
pub open spec fn holds_children<T: OrderedKey, const BM1: usize, const B: usize>(
    node: BpTreeNode<T, BM1, B>,
    keys: Seq<T>,
    children: Seq<PositionType>,
    i: int,
) -> bool {
    &&& node.wf()
    &&& node.live_keys() == node_keys(keys, B as int, i)
    &&& forall|j: int| 0 <= j <= node.len ==> #[trigger] node.ptrs.data@[j] == children[i * B + j]
}

/// Node `i` is stored, with its share of the separators and of the child positions.
pub open spec fn node_built<T: OrderedKey, const BM1: usize, const B: usize>(
    level: CircuitORAM<BpTreeNode<T, BM1, B>>,
    keys: Seq<T>,
    children: Seq<PositionType>,
    i: int,
) -> bool {
    &&& level@.contains_key(i as u32)
    &&& holds_children(level@[i as u32].value, keys, children, i)
}

/// A B+ tree. Big in the sense that it has at least two levels.
/// Inline in the sense that values are stored inline with the keys at the last level.
/// T is key type.
/// V is value type.
/// FB is the first level branching factor, FBM1 is FB-1.
/// B is the branching factor for all subsequent levels, BM1 is B-1.
/// VB is the number of K-V pairs to put in a node at the bottom level.
pub struct BigInlineBpTree<
    T: OrderedKey,
    V: ObliviousValue,
    const FBM1: usize,
    const FB: usize,
    const BM1: usize,
    const B: usize,
    const VB: usize,
> {
    /// The node at the top.
    pub first_level: BpTreeNode<T, FBM1, FB>,
    /// The levels of inner nodes, from the top down.
    pub recursive_orams: Vec<CircuitORAM<BpTreeNode<T, BM1, B>>>,
    /// The value nodes.
    pub final_level: CircuitORAM<BpValueNode<T, V, VB>>,
    /// The number of pairs.
    pub n: usize,
    /// Whether every stash had room for every node so far.
    pub intact: bool,
    /// The keys in order.
    pub keys: Ghost<Seq<T>>,
    /// The values of the keys.
    pub values: Ghost<Seq<V>>,
}

impl<
    T: OrderedKey,
    V: ObliviousValue,
    const FBM1: usize,
    const FB: usize,
    const BM1: usize,
    const B: usize,
    const VB: usize,
> BigInlineBpTree<T, V, FBM1, FB, BM1, B, VB> {
    /// The keys that separate the nodes of level `l`.
    pub open spec fn separators(&self, l: int) -> Seq<T> {
        level_keys(self.keys@, VB as int, B as int, l)
    }

    /// The node of level `l` that a search for `key` goes through.
    pub open spec fn node_for(&self, key: T, l: int) -> int {
        at_most(self.separators(l), key, self.separators(l).len() as int)
    }

    /// The position of node `c` of level `l`.
    pub open spec fn pos_of(&self, l: int, c: int) -> PositionType {
        node_pos(self.recursive_orams@, self.final_level, l, c)
    }

    /// The number of inner levels.
    pub open spec fn depth(&self) -> int {
        self.recursive_orams@.len() as int
    }

    /// Whether the first level has a pointer for the child that `key` is under.
    pub open spec fn covers(&self, key: T) -> bool {
        self.node_for(key, self.depth()) < FB
    }

    /// Whether every stash on the way to `key` has room for its node.
    pub open spec fn has_room_for(&self, key: T) -> bool {
        &&& self.final_level.state().has_room(self.node_for(key, 0) as u32)
        &&& forall|i: int|
            0 <= i < self.depth() ==> (#[trigger] self.recursive_orams@[i]).state().has_room(
                self.node_for(key, self.depth() - i) as u32,
            )
    }

    /// Every node is stored as it should be.
    pub open spec fn complete(&self) -> bool {
        &&& self.first_level.live_keys() == self.separators(self.depth())
        &&& forall|j: int|
            0 <= j <= self.first_level.len && j < FB ==> #[trigger] self.first_level.ptrs.data@[j]
                == self.pos_of(self.depth(), j)
        &&& forall|l: int|
            1 <= l <= self.depth() ==> #[trigger] inner_level_ok(
                self.recursive_orams@,
                self.final_level,
                self.keys@,
                l,
            )
        &&& forall|i: int|
            0 <= i < block_count(self.n as int, VB as int) ==> #[trigger] value_node_ok(
                self.final_level,
                self.keys@,
                self.values@,
                i,
            )
    }

    /// The sizes fit together, and every node is stored as it should be unless a stash
    /// lacked room.
    pub open spec fn wf(&self) -> bool {
        &&& 1 <= VB < usize::MAX
        &&& 2 <= B
        &&& B - 1 <= BM1 < usize::MAX
        &&& self.n == self.keys@.len()
        &&& self.n == self.values@.len()
        &&& 1 <= self.n
        &&& ascending(self.keys@)
        &&& block_count(self.n as int, VB as int) <= 0x8000_0000
        &&& self.first_level.wf()
        &&& self.final_level.wf()
        &&& forall|i: int| 0 <= i < self.depth() ==> (#[trigger] self.recursive_orams@[i]).wf()
        &&& self.nodes_only()
        &&& self.intact ==> self.complete()
    }

    /// The levels store nothing but their nodes.
    pub open spec fn nodes_only(&self) -> bool {
        &&& forall|k: u32| #[trigger]
            self.final_level@.contains_key(k) ==> k < block_count(self.n as int, VB as int)
        &&& forall|i: int, k: u32|
            0 <= i < self.depth() && #[trigger] self.recursive_orams@[i]@.contains_key(k) ==> k
                <= self.separators(self.depth() - i).len()
    }

    /// With no more value nodes than a stash has slots, no stash ever lacks room.
    pub proof fn lemma_few_nodes_have_room(&self, key: T)
        requires
            self.wf(),
            block_count(self.n as int, VB as int) <= S,
        ensures
            self.has_room_for(key),
    {
        let r = self.depth();
        let all = block_count(self.n as int, VB as int);
        lemma_levels_ascend(self.keys@, VB as int, B as int, 0);
        self.lemma_way(key, 0);
        self.lemma_level_size(0);
        self.final_level.lemma_few_keys_have_room(all, self.node_for(key, 0) as u32);
        assert forall|i: int| 0 <= i < r implies (
        #[trigger] self.recursive_orams@[i]).state().has_room(self.node_for(key, r - i) as u32) by {
            self.lemma_way(key, r - i);
            self.lemma_level_size(r - i);
            self.recursive_orams@[i].lemma_few_keys_have_room(
                all,
                self.node_for(key, r - i) as u32,
            );
        }
    }

    /// The tree was built with the nodes of every level at the given positions, from the
    /// value nodes up; `fits` tells of which levels every node found room, and the tree is
    /// intact exactly if that is all of them.
    pub open spec fn built_from(&self, positions: Seq<Seq<PositionType>>, fits: Seq<bool>) -> bool {
        let r = self.depth();
        &&& fits.len() == r + 1
        &&& value_level_built(
            self.final_level,
            self.keys@,
            self.values@,
            positions[0],
            fits[0],
        )
        &&& forall|l: int|
            1 <= l <= r ==> #[trigger] level_built(
                self.recursive_orams@,
                self.separators(l - 1),
                positions,
                fits,
                l,
            )
        &&& self.first_level.live_keys() == self.separators(r)
        &&& forall|j: int|
            0 <= j <= self.first_level.len && j < FB ==> #[trigger] self.first_level.ptrs.data@[j]
                == positions[r][j]
        &&& self.intact == forall|l: int| 0 <= l <= r ==> #[trigger] fits[l]
    }

    /// Where the first level has a pointer more than it has keys, as the names of its two
    /// sizes promise, every key is under a child that it points to.
    pub proof fn lemma_covers_all(&self, key: T)
        requires
            self.wf(),
            self.intact,
            FBM1 < FB,
        ensures
            self.covers(key),
    {
        assert(self.first_level.live_keys().len() == self.first_level.len);
        lemma_at_most(self.separators(self.depth()), key, self.first_level.len as int);
    }

    /// The number of nodes of a level.
    proof fn lemma_level_size(&self, l: int)
        requires
            self.wf(),
            0 <= l,
        ensures
            self.separators(l).len() < block_count(self.n as int, VB as int),
        decreases l,
    {
        lemma_levels_ascend(self.keys@, VB as int, B as int, 0);
        if l > 0 {
            self.lemma_level_size(l - 1);
            let k = self.separators(l - 1).len() as int;
            vstd::arithmetic::div_mod::lemma_div_is_ordered_by_denominator(k, 1, B as int);
            vstd::arithmetic::div_mod::lemma_div_basics(k);
        } else {
            vstd::arithmetic::div_mod::lemma_div_pos_is_pos(self.n - 1, VB as int);
        }
    }

    /// The way to a key: where the search goes at every level.
    proof fn lemma_way(&self, key: T, l: int)
        requires
            self.wf(),
            0 <= l,
        ensures
            0 <= self.node_for(key, l) <= self.separators(l).len(),
            self.node_for(key, l) < 0x8000_0000,
            l >= 1 ==> ({
                let node = node_keys(self.separators(l - 1), B as int, self.node_for(key, l));
                &&& self.node_for(key, l - 1) == self.node_for(key, l) * B + at_most(
                    node,
                    key,
                    node.len() as int,
                )
                &&& 0 <= at_most(node, key, node.len() as int) <= node.len() < B
            }),
    {
        self.lemma_level_size(l);
        lemma_at_most(self.separators(l), key, self.separators(l).len() as int);
        if l >= 1 {
            let s = self.separators(l - 1);
            lemma_levels_ascend(self.keys@, VB as int, B as int, l - 1);
            lemma_descend(s, B as int, key);
            assert(self.separators(l) == Seq::new(
                (s.len() / B as nat),
                |i: int| s[(i + 1) * B - 1],
            ));
            lemma_node_span(s.len() as int, B as int, self.node_for(key, l));
        }
    }

    /// After the nodes on the way to a key moved, every node is still stored as it should
    /// be.
    proof fn lemma_moved(&self, after: &Self, key: T, moved_to: Seq<PositionType>)
        requires
            self.wf(),
            self.intact,
            self.covers(key),
            self.has_room_for(key),
            after.keys == self.keys,
            after.values == self.values,
            after.n == self.n,
            after.depth() == self.depth(),
            moved_to.len() == self.depth() + 1,
            after.first_level.keys == self.first_level.keys,
            after.first_level.len == self.first_level.len,
            after.first_level.ptrs.data@ == self.first_level.ptrs.data@.update(
                self.node_for(key, self.depth()),
                moved_to[0],
            ),
            forall|i: int|
                0 <= i < self.depth() ==> node_moved(
                    self.recursive_orams@[i],
                    #[trigger] after.recursive_orams@[i],
                    self.node_for(key, self.depth() - i),
                    moved_to[i],
                    self.node_for(key, self.depth() - i - 1) - self.node_for(
                        key,
                        self.depth() - i,
                    ) * B,
                    moved_to[i + 1],
                ),
            ({
                let q = self.node_for(key, 0) as u32;
                &&& after.final_level@ == self.final_level@.insert(q, after.final_level@[q])
                &&& after.final_level@[q].pos == moved_to[self.depth()]
                &&& after.final_level@[q].value == self.final_level@[q].value
            }),
        ensures
            after.complete(),
    {
        let r = self.depth();
        let b = B as int;
        assert forall|l: int, c: int|
            0 <= l <= r && 0 <= c <= self.separators(l).len() implies #[trigger] after.pos_of(l, c)
            == (if c == self.node_for(key, l) {
            moved_to[r - l]
        } else {
            self.pos_of(l, c)
        }) by {
            self.lemma_level_size(l);
            self.lemma_way(key, l);
            if l >= 1 {
                let i = r - l;
                assert(node_moved(
                    self.recursive_orams@[i],
                    after.recursive_orams@[i],
                    self.node_for(key, r - i),
                    moved_to[i],
                    self.node_for(key, r - i - 1) - self.node_for(key, r - i) * B,
                    moved_to[i + 1],
                ));
                assert(self.recursive_orams@[i].state().has_room(self.node_for(key, r - i) as u32));
            }
        }
        assert(after.separators(r) == self.separators(r));
        self.lemma_way(key, r);
        assert(after.first_level.live_keys() =~= self.first_level.live_keys());
        assert forall|j: int|
            0 <= j <= after.first_level.len && j
                < FB implies #[trigger] after.first_level.ptrs.data@[j] == after.pos_of(r, j) by {
            assert(self.first_level.live_keys().len() == self.first_level.len);
            assert(self.first_level.ptrs.data@[j] == self.pos_of(r, j));
        }
        assert forall|l: int| 1 <= l <= r implies #[trigger] inner_level_ok(
            after.recursive_orams@,
            after.final_level,
            after.keys@,
            l,
        ) by {
            let i = r - l;
            let q = self.node_for(key, l);
            let child = self.node_for(key, l - 1) - q * B;
            let below = self.separators(l - 1);
            let old_map = self.recursive_orams@[i]@;
            let new_map = after.recursive_orams@[i]@;
            self.lemma_way(key, l);
            self.lemma_level_size(l);
            self.lemma_level_size(l - 1);
            lemma_levels_ascend(self.keys@, VB as int, b, l - 1);
            assert(node_moved(
                self.recursive_orams@[i],
                after.recursive_orams@[i],
                self.node_for(key, r - i),
                moved_to[i],
                self.node_for(key, r - i - 1) - self.node_for(key, r - i) * B,
                moved_to[i + 1],
            ));
            assert(self.recursive_orams@[i].state().has_room(self.node_for(key, r - i) as u32));
            assert(inner_level_ok(self.recursive_orams@, self.final_level, self.keys@, l));
            assert forall|k: int| 0 <= k <= self.separators(l).len() implies #[trigger]
            inner_node_ok(after.recursive_orams@, after.final_level, below, l, k) by {
                assert(inner_node_ok(self.recursive_orams@, self.final_level, below, l, k));
                let node = old_map[k as u32].value;
                let moved = new_map[k as u32].value;
                lemma_node_span(below.len() as int, b, k);
                assert(node.live_keys().len() == node.len);
                if k == q {
                    assert(moved.live_keys() =~= node.live_keys());
                } else {
                    assert(k as u32 != q as u32);
                    assert(moved == node);
                }
                assert forall|j: int| 0 <= j <= moved.len implies #[trigger] moved.ptrs.data@[j]
                    == node_pos(after.recursive_orams@, after.final_level, l - 1, k * B + j) by {
                    assert(node.ptrs.data@[j] == self.pos_of(l - 1, k * B + j));
                    assert(0 <= k * B + j <= below.len());
                    assert(after.pos_of(l - 1, k * B + j) == (if k * B + j == self.node_for(
                        key,
                        l - 1,
                    ) {
                        moved_to[r - (l - 1)]
                    } else {
                        self.pos_of(l - 1, k * B + j)
                    }));
                    if k != q {
                        assert(k * B + j != q * B + child) by (nonlinear_arith)
                            requires
                                k != q,
                                0 <= j < B,
                                0 <= child < B,
                        ;
                    }
                }
            }
        }
        assert forall|i: int|
            0 <= i < block_count(after.n as int, VB as int) implies #[trigger] value_node_ok(
            after.final_level,
            after.keys@,
            after.values@,
            i,
        ) by {
            self.lemma_way(key, 0);
            assert(value_node_ok(self.final_level, self.keys@, self.values@, i));
        }
    }

    /// Whether the first level has a pointer for the child that `key` is under. A first
    /// level with no more pointers than keys may have more children than pointers, and the
    /// keys under its last children are then out of reach.
    pub fn reaches(&self, key: T) -> (r: bool)
        requires
            self.wf(),
            self.intact,
        ensures
            r == self.covers(key),
    {
        let mut node: BpTreeNode<T, FBM1, FB> = self.first_level;
        let (index, _ptr): (usize, PositionType) = node.search_update_index(
            key,
            DUMMY_POS,
            EXACT_MATCH,
        );
        index < FB
    }

    /// Returns Some value corresponding to key if key is there, otherwise returns None
    pub fn point_lookup(&mut self, key: T) -> (r: OOption<V>)
        requires
            old(self).wf(),
            old(self).intact,
            FBM1 < FB || old(self).covers(key),
        ensures
            r@ == lookup(old(self).keys@, old(self).values@, key),
            final(self).wf(),
            final(self).keys == old(self).keys,
            final(self).values == old(self).values,
            final(self).n == old(self).n,
            final(self).depth() == old(self).depth(),
            final(self).intact == old(self).has_room_for(key),
            block_count(old(self).n as int, VB as int) <= S ==> final(self).intact,
    {
        let ghost before = *self;
        let ghost r = self.depth();
        let levels: usize = self.recursive_orams.len();
        let first_child_max_n: usize = if levels == 0 {
            self.final_level.max_n
        } else {
            self.recursive_orams[0].max_n
        };
        proof {
            if FBM1 < FB {
                before.lemma_covers_all(key);
            }
            before.lemma_way(key, r);
            before.lemma_positions();
        }
        let mut current_new_pos: PositionType = random_below(first_child_max_n) as PositionType;
        let (first_index, first_pos): (usize, PositionType) = self.first_level.search_update_index(
            key,
            current_new_pos,
            EXACT_MATCH,
        );
        let mut current_index: usize = first_index;
        let mut current_pos: PositionType = first_pos;
        let mut intact: bool = true;
        let ghost mut moved_to: Seq<PositionType> = seq![current_new_pos];
        let ghost first = self.first_level;
        let mut i: usize = 0;
        proof {
            assert(before.first_level.live_keys().len() == before.first_level.len);
            assert(before.first_level.ptrs.data@[first_index as int] == before.pos_of(
                r,
                first_index as int,
            ));
        }
        while i < levels
            invariant
                i <= levels == r,
                before.wf(),
                before.intact,
                before.covers(key),
                r == before.depth(),
                self.recursive_orams@.len() == r,
                self.first_level == first,
                self.final_level == before.final_level,
                self.n == before.n,
                self.keys == before.keys,
                self.values == before.values,
                moved_to.len() == i + 1,
                moved_to[i as int] == current_new_pos,
                first.ptrs.data@ == before.first_level.ptrs.data@.update(
                    before.node_for(key, r),
                    moved_to[0],
                ),
                current_index == before.node_for(key, r - i),
                current_pos == before.pos_of(r - i, current_index as int),
                current_new_pos < (if i < levels {
                    before.recursive_orams@[i as int].max_n
                } else {
                    before.final_level.max_n
                }),
                forall|k: int|
                    i <= k < r ==> #[trigger] self.recursive_orams@[k]
                        == before.recursive_orams@[k],
                forall|k: int|
                    0 <= k < i ==> node_moved(
                        before.recursive_orams@[k],
                        #[trigger] self.recursive_orams@[k],
                        before.node_for(key, r - k),
                        moved_to[k],
                        before.node_for(key, r - k - 1) - before.node_for(key, r - k) * B,
                        moved_to[k + 1],
                    ),
                intact == forall|k: int|
                    0 <= k < i ==> (#[trigger] before.recursive_orams@[k]).state().has_room(
                        before.node_for(key, r - k) as u32,
                    ),
            decreases levels - i,
        {
            let ghost l = r - i;
            let ghost q = current_index as int;
            let next_level_max_n: usize = if i + 1 == levels {
                self.final_level.max_n
            } else {
                self.recursive_orams[i + 1].max_n
            };
            proof {
                before.lemma_way(key, l);
                before.lemma_way(key, l - 1);
                before.lemma_positions();
                before.lemma_inner_node(key, l);
            }
            let next_new_pos: PositionType = random_below(next_level_max_n) as PositionType;
            let ghost here = self.recursive_orams@[i as int];
            let mut block: Block<BpTreeNode<T, BM1, B>> = Block::default();
            let _found: bool = self.recursive_orams[i].open_and_remove(
                current_pos,
                current_index,
                &mut block,
            );
            let ghost opened = self.recursive_orams@[i as int];
            let mut node: BpTreeNode<T, BM1, B> = block.value;
            let (child_index, next_pos): (usize, PositionType) = node.search_update_index(
                key,
                next_new_pos,
                EXACT_MATCH,
            );
            let moved: Block<BpTreeNode<T, BM1, B>> = Block {
                pos: current_new_pos,
                key: current_index,
                value: node,
            };
            let written: bool = self.recursive_orams[i].place_and_finish(current_pos, &moved);
            proof {
                let after = self.recursive_orams@[i as int];
                after.lemma_accessed(&here, &opened, current_index, moved);
                assert(node_moved(
                    before.recursive_orams@[i as int],
                    after,
                    before.node_for(key, r - i),
                    moved_to[i as int],
                    before.node_for(key, r - i - 1) - before.node_for(key, r - i) * B,
                    next_new_pos,
                ));
            }
            let was_intact: bool = intact;
            intact = both(was_intact, written);
            proof {
                let rooms = forall|k: int|
                    0 <= k < i + 1 ==> (#[trigger] before.recursive_orams@[k]).state().has_room(
                        before.node_for(key, r - k) as u32,
                    );
                if rooms {
                    assert(before.recursive_orams@[i as int].state().has_room(q as u32));
                }
                moved_to = moved_to.push(next_new_pos);
            }
            current_index = current_index * B + child_index;
            current_pos = next_pos;
            current_new_pos = next_new_pos;
            i += 1;
        }
        proof {
            before.lemma_way(key, 0);
            before.lemma_value_node(key);
        }
        let ghost here = self.final_level;
        let mut block: Block<BpValueNode<T, V, VB>> = Block::default();
        let _found: bool = self.final_level.open_and_remove(current_pos, current_index, &mut block);
        let ghost opened = self.final_level;
        let mut node: BpValueNode<T, V, VB> = block.value;
        let ret: OOption<V> = node.search(key, EXACT_MATCH);
        let moved: Block<BpValueNode<T, V, VB>> = Block {
            pos: current_new_pos,
            key: current_index,
            value: node,
        };
        let written: bool = self.final_level.place_and_finish(current_pos, &moved);
        self.intact = both(intact, written);
        proof {
            self.final_level.lemma_accessed(&here, &opened, current_index, moved);
            if before.has_room_for(key) {
                before.lemma_moved(self, key, moved_to);
            }
            if block_count(before.n as int, VB as int) <= S {
                before.lemma_few_nodes_have_room(key);
            }
            assert(self.nodes_only()) by {
                before.lemma_level_size(0);
                assert forall|i: int, k: u32|
                    0 <= i < r && #[trigger] self.recursive_orams@[i]@.contains_key(k) implies k
                    <= self.separators(r - i).len() by {
                    before.lemma_way(key, r - i);
                    assert(node_moved(
                        before.recursive_orams@[i],
                        self.recursive_orams@[i],
                        before.node_for(key, r - i),
                        moved_to[i],
                        before.node_for(key, r - i - 1) - before.node_for(key, r - i) * B,
                        moved_to[i + 1],
                    ));
                }
            }
        }
        ret
    }

    /// Positions are below the sizes of their levels.
    proof fn lemma_positions(&self)
        requires
            self.wf(),
        ensures
            1 <= self.final_level.max_n <= 0x8000_0000,
            forall|i: int|
                0 <= i < self.depth() ==> 1 <= (#[trigger] self.recursive_orams@[i]).max_n
                    <= 0x8000_0000,
    {
        crate::heap_tree::lemma_full_width(self.final_level.h - 1, 2);
        assert forall|i: int| 0 <= i < self.depth() implies 1 <= (
        #[trigger] self.recursive_orams@[i]).max_n <= 0x8000_0000 by {
            crate::heap_tree::lemma_full_width(self.recursive_orams@[i].h - 1, 2);
        }
    }

    /// The node of inner level `l` on the way to a key.
    proof fn lemma_inner_node(&self, key: T, l: int)
        requires
            self.wf(),
            self.intact,
            1 <= l <= self.depth(),
        ensures
            ({
                let q = self.node_for(key, l);
                let inner = self.recursive_orams@[self.depth() - l];
                let node = inner@[q as u32].value;
                let child = branch_of(node.live_keys(), key, EXACT_MATCH);
                &&& inner.may_access(self.pos_of(l, q), q as usize)
                &&& inner@.contains_key(q as u32)
                &&& node.wf()
                &&& 0 <= child < B
                &&& q * B + child == self.node_for(key, l - 1)
                &&& node.ptrs.data@[child] == self.pos_of(l - 1, q * B + child)
            }),
    {
        let q = self.node_for(key, l);
        let inner = self.recursive_orams@[self.depth() - l];
        self.lemma_way(key, l);
        assert(inner_level_ok(self.recursive_orams@, self.final_level, self.keys@, l));
        assert(inner_node_ok(
            self.recursive_orams@,
            self.final_level,
            self.separators(l - 1),
            l,
            q,
        ));
        inner.lemma_stored_is_visible(q as u32);
        let node = inner@[q as u32].value;
        assert(node.live_keys().len() == node.len);
        let child = branch_of(node.live_keys(), key, EXACT_MATCH);
        assert(0 <= child <= node.len);
        assert(node.ptrs.data@[child] == self.pos_of(l - 1, q * B + child));
    }

    /// The value node on the way to a key.
    proof fn lemma_value_node(&self, key: T)
        requires
            self.wf(),
            self.intact,
        ensures
            ({
                let q = self.node_for(key, 0);
                let node = self.final_level@[q as u32].value;
                &&& self.final_level.may_access(self.pos_of(0, q), q as usize)
                &&& self.final_level@.contains_key(q as u32)
                &&& node.wf()
                &&& node.value_found(key, EXACT_MATCH) == lookup(self.keys@, self.values@, key)
            }),
    {
        let q = self.node_for(key, 0);
        self.lemma_way(key, 0);
        lemma_arrive(self.keys@, self.values@, VB as int, B as int, key);
        assert(value_node_ok(self.final_level, self.keys@, self.values@, q));
        self.final_level.lemma_stored_is_visible(q as u32);
        let node = self.final_level@[q as u32].value;
        assert(node.live_keys().len() == node.len);
        if let Some(i) = found_at(node.live_keys(), key, EXACT_MATCH) {
            assert(node.values.data@[i] == self.values@[q * VB + i]);
        }
    }
}

/// A level on top changes nothing about the levels below it.
proof fn lemma_level_added<
    T: OrderedKey,
    V: ObliviousValue,
    const BM1: usize,
    const B: usize,
    const VB: usize,
>(
    inner: Seq<CircuitORAM<BpTreeNode<T, BM1, B>>>,
    top: CircuitORAM<BpTreeNode<T, BM1, B>>,
    last: CircuitORAM<BpValueNode<T, V, VB>>,
    keys: Seq<T>,
    positions: Seq<PositionType>,
)
    requires
        1 <= keys.len(),
        1 <= VB,
        2 <= B,
        ascending(keys),
        forall|l: int|
            1 <= l <= inner.len() ==> #[trigger] inner_level_ok(inner, last, keys, l),
        positions.len() == level_keys(keys, VB as int, B as int, inner.len() as int).len() + 1,
        forall|c: int|
            0 <= c < positions.len() ==> node_pos(inner, last, inner.len() as int, c)
                == #[trigger] positions[c],
        forall|i: int|
            0 <= i <= level_keys(keys, VB as int, B as int, inner.len() as int).len() / B as nat
                ==> #[trigger] node_built(
                top,
                level_keys(keys, VB as int, B as int, inner.len() as int),
                positions,
                i,
            ),
    ensures
        forall|l: int|
            1 <= l <= inner.len() + 1 ==> #[trigger] inner_level_ok(
                inner.insert(0, top),
                last,
                keys,
                l,
            ),
{
    let more = inner.insert(0, top);
    let b = B as int;
    assert forall|l: int, c: int| 0 <= l <= inner.len() implies #[trigger] node_pos(
        more,
        last,
        l,
        c,
    ) == node_pos(inner, last, l, c) by {
        if l >= 1 {
            assert(more[more.len() - l] == inner[inner.len() - l]);
        }
    }
    assert forall|l: int| 1 <= l <= inner.len() + 1 implies #[trigger] inner_level_ok(
        more,
        last,
        keys,
        l,
    ) by {
        let below = level_keys(keys, VB as int, b, l - 1);
        assert forall|i: int|
            0 <= i <= level_keys(keys, VB as int, b, l).len() implies #[trigger] inner_node_ok(
            more,
            last,
            below,
            l,
            i,
        ) by {
            if l <= inner.len() {
                assert(more[more.len() - l] == inner[inner.len() - l]);
                assert(inner_level_ok(inner, last, keys, l));
                assert(inner_node_ok(inner, last, below, l, i));
                let node = inner[inner.len() - l]@[i as u32].value;
                assert forall|j: int| 0 <= j <= node.len implies #[trigger] node.ptrs.data@[j]
                    == node_pos(more, last, l - 1, i * B + j) by {
                    assert(node.ptrs.data@[j] == node_pos(inner, last, l - 1, i * B + j));
                }
            } else {
                assert(more[more.len() - l] == top);
                assert(node_built(top, below, positions, i));
                let node = top@[i as u32].value;
                lemma_node_span(below.len() as int, b, i);
                assert(node.live_keys().len() == node.len);
                assert forall|j: int| 0 <= j <= node.len implies #[trigger] node.ptrs.data@[j]
                    == node_pos(more, last, l - 1, i * B + j) by {
                    assert(node.ptrs.data@[j] == positions[i * B + j]);
                    assert(node_pos(inner, last, inner.len() as int, i * B + j)
                        == positions[i * B + j]);
                    assert(node_pos(more, last, l - 1, i * B + j) == node_pos(
                        inner,
                        last,
                        l - 1,
                        i * B + j,
                    ));
                }
            }
        }
    }
}

/// Leaves everything as it is.
pub fn populate_level<T: OrderedKey, V: ObliviousValue, const B: usize>(
    _data: &mut [T],
    _index: usize,
    _ret: &mut T,
    _value: T,
)
    ensures
        final(_data)@ == old(_data)@,
        *final(_ret) == *old(_ret),
{
}

impl<
    T: SortsWith<V>,
    V: ObliviousValue,
    const FBM1: usize,
    const FB: usize,
    const BM1: usize,
    const B: usize,
    const VB: usize,
> BigInlineBpTree<T, V, FBM1, FB, BM1, B, VB> {
    /// Draws a position for every node of every level of a tree over `n` pairs.
    fn draw_positions(n: usize) -> (r: Vec<Vec<PositionType>>)
        requires
            1 <= n,
            1 <= VB,
            2 <= B,
            1 <= FB,
            block_count(n as int, VB as int) <= 0x8000_0000,
        ensures
            drawn(contents(r@), n as int, VB as int, B as int, FB as int, FBM1 as int),
    {
        let ghost vb = VB as int;
        let ghost b = B as int;
        proof {
            vstd::arithmetic::div_mod::lemma_div_pos_is_pos(n - 1, vb);
        }
        let mut k: usize = (n - 1) / VB;
        let mut r: Vec<Vec<PositionType>> = Vec::new();
        r.push(draw_level(k + 1));
        while k / B + 1 > FB || k > FBM1
            invariant
                2 <= B,
                1 <= FB,
                vb == VB,
                b == B,
                k < 0x8000_0000,
                1 <= r@.len(),
                k == separator_count(n as int, vb, b, r@.len() - 1),
                inner_levels(k as int, b, FB as int, FBM1 as int) + r@.len() == inner_levels(
                    block_count(n as int, vb) - 1,
                    b,
                    FB as int,
                    FBM1 as int,
                ) + 1,
                forall|l: int|
                    0 <= l < r@.len() ==> drawn_level(
                        (#[trigger] r@[l])@,
                        separator_count(n as int, vb, b, l) + 1,
                    ),
            decreases k,
        {
            proof {
                if k == 0 {
                    vstd::arithmetic::div_mod::lemma_div_basics(b);
                }
                vstd::arithmetic::div_mod::lemma_div_pos_is_pos(k as int, b);
                vstd::arithmetic::div_mod::lemma_div_decreases(k as int, b);
            }
            k = k / B;
            r.push(draw_level(k + 1));
        }
        r
    }

    /// Builds the tree with the nodes of every level at the given positions, which come
    /// from the value nodes up.
    pub fn from_positions(
        keys: &mut [T],
        initial_values: &mut [V],
        positions: &Vec<Vec<PositionType>>,
    ) -> (r: Self)
        requires
            1 <= old(keys)@.len() == old(initial_values)@.len(),
            1 <= VB < usize::MAX,
            2 <= B,
            B - 1 <= BM1 < usize::MAX,
            1 <= FB,
            FBM1 < usize::MAX,
            block_count(old(keys)@.len() as int, VB as int) <= 0x8000_0000,
            drawn(
                contents(positions@),
                old(keys)@.len() as int,
                VB as int,
                B as int,
                FB as int,
                FBM1 as int,
            ),
        ensures
            r.wf(),
            r.n == old(keys)@.len(),
            r.keys@ == final(keys)@,
            r.values@ == final(initial_values)@,
            final(keys)@.len() == old(keys)@.len(),
            final(initial_values)@.len() == old(initial_values)@.len(),
            ascending(final(keys)@),
            pairs(final(keys)@, final(initial_values)@).to_multiset() == pairs(
                old(keys)@,
                old(initial_values)@,
            ).to_multiset(),
            r.depth() == positions@.len() - 1,
            exists|fits: Seq<bool>| #[trigger] r.built_from(contents(positions@), fits),
            block_count(r.n as int, VB as int) <= S ==> r.intact,
    {
        let n: usize = keys.len();
        T::sort_pairs(keys, initial_values);
        let ghost sorted = keys@;
        let ghost vb = VB as int;
        let ghost b = B as int;
        let ghost spots = contents(positions@);
        proof {
            vstd::arithmetic::div_mod::lemma_div_pos_is_pos(n - 1, vb);
            lemma_levels_ascend(sorted, vb, b, 0);
            assert(drawn_level(spots[0], separator_count(n as int, vb, b, 0) + 1));
        }
        let (final_level, promoted_keys, built): (
            CircuitORAM<BpValueNode<T, V, VB>>,
            Vec<T>,
            bool,
        ) = build_value_level(keys, initial_values, &positions[0]);
        let mut recursive_orams: Vec<CircuitORAM<BpTreeNode<T, BM1, B>>> = Vec::new();
        let mut current_keys: Vec<T> = promoted_keys;
        let mut level: usize = 0;
        let mut intact: bool = built;
        let ghost mut fits: Seq<bool> = seq![built];
        proof {
            assert(current_keys@ =~= level_keys(sorted, vb, b, 0));
            assert(fits[0] == built);
        }
        let levels: usize = positions.len();
        while current_keys.len() / B + 1 > FB || current_keys.len() > FBM1
            invariant
                n == sorted.len() == keys@.len(),
                sorted == keys@,
                ascending(sorted),
                1 <= n,
                vb == VB,
                b == B,
                1 <= VB < usize::MAX,
                2 <= B,
                B - 1 <= BM1 < usize::MAX,
                1 <= FB,
                level == recursive_orams@.len(),
                level < levels == positions@.len(),
                spots == contents(positions@),
                drawn(spots, n as int, vb, b, FB as int, FBM1 as int),
                current_keys@ == level_keys(sorted, vb, b, level as int),
                current_keys@.len() == separator_count(n as int, vb, b, level as int),
                current_keys@.len() < block_count(n as int, vb) <= 0x8000_0000,
                inner_levels(current_keys@.len() as int, b, FB as int, FBM1 as int) + level
                    == inner_levels(block_count(n as int, vb) - 1, b, FB as int, FBM1 as int),
                final_level.wf(),
                forall|k: int|
                    0 <= k < recursive_orams@.len() ==> (#[trigger] recursive_orams@[k]).wf(),
                forall|k: u32| #[trigger]
                    final_level@.contains_key(k) ==> k < block_count(n as int, vb),
                forall|i: int, k: u32|
                    0 <= i < level && #[trigger] recursive_orams@[i]@.contains_key(k) ==> k
                        <= level_keys(sorted, vb, b, level - i).len(),
                fits.len() == level + 1,
                value_level_built(final_level, sorted, initial_values@, spots[0], fits[0]),
                forall|l: int|
                    1 <= l <= level ==> #[trigger] level_built(
                        recursive_orams@,
                        level_keys(sorted, vb, b, l - 1),
                        spots,
                        fits,
                        l,
                    ),
                intact == forall|l: int| 0 <= l <= level ==> #[trigger] fits[l],
                intact ==> forall|i: int|
                    0 <= i < block_count(n as int, vb) ==> #[trigger] value_node_ok(
                        final_level,
                        sorted,
                        initial_values@,
                        i,
                    ),
                intact ==> forall|l: int|
                    1 <= l <= level ==> #[trigger] inner_level_ok(
                        recursive_orams@,
                        final_level,
                        sorted,
                        l,
                    ),
                intact ==> forall|c: int|
                    0 <= c < spots[level as int].len() ==> node_pos(
                        recursive_orams@,
                        final_level,
                        level as int,
                        c,
                    ) == #[trigger] spots[level as int][c],
                block_count(n as int, vb) <= S ==> intact,
            decreases current_keys@.len(),
        {
            let ghost inner = recursive_orams@;
            let ghost k = current_keys@.len() as int;
            proof {
                if k == 0 {
                    vstd::arithmetic::div_mod::lemma_div_basics(b);
                }
                vstd::arithmetic::div_mod::lemma_div_decreases(k, b);
                assert(needs_level(k, b, FB as int, FBM1 as int));
                assert(level + 1 < levels);
                assert(drawn_level(
                    spots[level as int],
                    separator_count(n as int, vb, b, level as int) + 1,
                ));
                assert(drawn_level(
                    spots[level + 1],
                    separator_count(n as int, vb, b, level + 1) + 1,
                ));
            }
            let (current_level, promoted, had_room): (
                CircuitORAM<BpTreeNode<T, BM1, B>>,
                Vec<T>,
                bool,
            ) = build_inner_level(&current_keys, &positions[level], &positions[level + 1]);
            let was_intact: bool = intact;
            intact = both(was_intact, had_room);
            proof {
                let more = inner.insert(0, current_level);
                let told = fits.push(had_room);
                assert forall|l: int| 1 <= l <= level + 1 implies #[trigger] level_built(
                    more,
                    level_keys(sorted, vb, b, l - 1),
                    spots,
                    told,
                    l,
                ) by {
                    if l <= level {
                        assert(more[more.len() - l] == inner[inner.len() - l]);
                        assert(level_built(
                            inner,
                            level_keys(sorted, vb, b, l - 1),
                            spots,
                            fits,
                            l,
                        ));
                    } else {
                        assert(more[more.len() - l] == current_level);
                    }
                }
                assert(intact == forall|l: int| 0 <= l <= level + 1 ==> #[trigger] told[l]) by {
                    assert(told[level + 1] == had_room);
                    if was_intact {
                        assert forall|l: int| 0 <= l <= level implies #[trigger] told[l] by {
                            assert(fits[l]);
                        }
                    } else {
                        let l = choose|l: int| 0 <= l <= level && !#[trigger] fits[l];
                        assert(!told[l]);
                    }
                }
                if intact {
                    lemma_level_added(
                        inner,
                        current_level,
                        final_level,
                        sorted,
                        spots[level as int],
                    );
                    assert forall|c: int| 0 <= c < spots[level + 1].len() implies node_pos(
                        more,
                        final_level,
                        level + 1,
                        c,
                    ) == #[trigger] spots[level + 1][c] by {
                        assert(more[0] == current_level);
                    }
                }
                assert(promoted@ =~= level_keys(sorted, vb, b, level + 1));
                assert forall|i: int, k: u32|
                    0 <= i < level + 1 && #[trigger] more[i]@.contains_key(k) implies k
                    <= level_keys(sorted, vb, b, level + 1 - i).len() by {
                    if i > 0 {
                        assert(more[i] == inner[i - 1]);
                        assert(inner[i - 1]@.contains_key(k));
                    } else {
                        assert(more[0] == current_level);
                    }
                }
                fits = told;
            }
            recursive_orams.insert(0, current_level);
            level += 1;
            current_keys = promoted;
        }
        let len: usize = current_keys.len();
        proof {
            assert(drawn_level(
                spots[level as int],
                separator_count(n as int, vb, b, level as int) + 1,
            ));
        }
        let first_level: BpTreeNode<T, FBM1, FB> = BpTreeNode::new(
            current_keys.as_slice(),
            positions[level].as_slice(),
            len,
        );
        let r = BigInlineBpTree {
            first_level,
            recursive_orams,
            final_level,
            n,
            intact,
            keys: Ghost(sorted),
            values: Ghost(initial_values@),
        };
        proof {
            assert(r.first_level.live_keys() =~= r.separators(r.depth()));
            assert forall|j: int|
                0 <= j <= r.first_level.len && j
                    < FB implies #[trigger] r.first_level.ptrs.data@[j] == spots[level as int][j] by {}
            if intact {
                assert forall|j: int|
                    0 <= j <= r.first_level.len && j
                        < FB implies #[trigger] r.first_level.ptrs.data@[j] == r.pos_of(
                    r.depth(),
                    j,
                ) by {
                    assert(r.first_level.ptrs.data@[j] == spots[level as int][j]);
                }
            }
            assert(r.built_from(spots, fits));
        }
        r
    }

    /// Creates a new static Path ORAM b tree. Leaks the number of keys
    pub fn new(keys: &mut [T], initial_values: &mut [V]) -> (r: Self)
        requires
            1 <= old(keys)@.len() == old(initial_values)@.len(),
            1 <= VB < usize::MAX,
            2 <= B,
            B - 1 <= BM1 < usize::MAX,
            1 <= FB,
            FBM1 < usize::MAX,
            block_count(old(keys)@.len() as int, VB as int) <= 0x8000_0000,
        ensures
            r.wf(),
            r.n == old(keys)@.len(),
            r.keys@ == final(keys)@,
            r.values@ == final(initial_values)@,
            final(keys)@.len() == old(keys)@.len(),
            final(initial_values)@.len() == old(initial_values)@.len(),
            ascending(final(keys)@),
            pairs(final(keys)@, final(initial_values)@).to_multiset() == pairs(
                old(keys)@,
                old(initial_values)@,
            ).to_multiset(),
            r.depth() == inner_levels(
                block_count(r.n as int, VB as int) - 1,
                B as int,
                FB as int,
                FBM1 as int,
            ),
            exists|positions: Seq<Seq<PositionType>>, fits: Seq<bool>| #[trigger]
                r.built_from(positions, fits) && drawn(
                    positions,
                    r.n as int,
                    VB as int,
                    B as int,
                    FB as int,
                    FBM1 as int,
                ),
            block_count(r.n as int, VB as int) <= S ==> r.intact,
    {
        let positions: Vec<Vec<PositionType>> = Self::draw_positions(keys.len());
        Self::from_positions(keys, initial_values, &positions)
    }
}

/// Draws a position for each of the `count` nodes of a level.
fn draw_level(count: usize) -> (r: Vec<PositionType>)
    requires
        1 <= count <= 0x8000_0000,
    ensures
        drawn_level(r@, count as int),
{
    let mut r: Vec<PositionType> = Vec::new();
    while r.len() < count
        invariant
            1 <= count <= 0x8000_0000,
            r@.len() <= count,
            forall|i: int| 0 <= i < r@.len() ==> #[trigger] r@[i] < count,
        decreases count - r@.len(),
    {
        let pos: usize = random_below(count);
        r.push(pos as PositionType);
    }
    r
}

} // verus!
