//! A mock lane ORAM used to prototype tree/queue eviction policies.
//!
//! This module is intentionally not an oblivious implementation. It is a small
//! simulation surface for experimenting with a perfect B-ary tree whose leaf level is
//! `levels`, whose bottom level has `branching_factor.pow(levels)` nodes, and whose
//! nodes each contain `slots_per_node` slots. Keys are in
//! `0..keys_per_leaf * branching_factor.pow(levels)`, where
//! `keys_per_leaf <= slots_per_node`. A queue temporarily holds blocks removed from the
//! tree.
//!
//! A lane is evicted from its deepest vacant slot up: the slot takes the block nearest
//! above it that may go there, and the chain goes on with the slot that gave it. Where no
//! block reaches a slot the chain goes on with the slot above, whose own block is
//! replaced if another one may go there.
use std::collections::{BTreeMap, VecDeque};
use vstd::prelude::*;
use crate::heap_tree::{full_width, lemma_full_width, lemma_full_width_grows};
use crate::prelude::{filled, K};
use crate::test_lane_progress::{lemma_root_takes, root_after, taken};
use crate::random::random_below;
use crate::wide_heap_tree::{
    full_nodes, lemma_full_nodes_grows, lemma_prefix_index_bounds, prefix_index, same_prefix,
};

verus! {

/// A mock block stored in the test lane ORAM.
#[derive(Debug, Clone, Copy, PartialEq, Eq)]
pub struct TestLaneBlock {
    /// Logical key used by the simulation to find a block.
    pub key: K,
    /// Leaf index assigned to this block.
    pub pos: usize,
}

impl TestLaneBlock {
    /// Creates a new mock block.
    pub fn new(key: K, pos: usize) -> (r: Self)
        ensures
            r == (TestLaneBlock { key, pos }),
    {
        TestLaneBlock { key, pos }
    }
}

/// One slot inside a tree node.
#[derive(Debug, Clone, PartialEq, Eq)]
pub enum Slot<T> {
    /// The slot does not currently hold a block.
    Empty,
    /// The slot currently holds a block.
    Full(T),
}

impl<T> Default for Slot<T> {
    fn default() -> (r: Self)
        ensures
            r == Slot::<T>::Empty,
    {
        Slot::Empty
    }
}

impl<T> Slot<T> {
    /// Returns true when the slot is empty.
    pub fn is_empty(&self) -> (r: bool)
        ensures
            r == (*self is Empty),
    {
        matches!(self, Slot::Empty)
    }

    /// Returns true when the slot holds a block.
    pub fn is_full(&self) -> (r: bool)
        ensures
            r == (*self is Full),
    {
        matches!(self, Slot::Full(_))
    }

    /// Returns the item in this slot, if it is full.
    pub fn as_ref(&self) -> (r: Option<&T>)
        ensures
            r == (match *self {
                Slot::Empty => None,
                Slot::Full(item) => Some(&item),
            }),
    {
        match self {
            Slot::Empty => None,
            Slot::Full(item) => Some(item),
        }
    }
}

/// The first slot from `i` on that is full (`full`) or empty, or the number of slots.
pub open spec fn first_slot<T>(s: Seq<Slot<T>>, full: bool, i: int) -> int
    decreases s.len() - i,
{
    if i >= s.len() || full == (s[i] is Full) {
        i
    } else {
        first_slot(s, full, i + 1)
    }
}

/// The number of full slots.
pub open spec fn full_count<T>(s: Seq<Slot<T>>) -> nat
    decreases s.len(),
{
    if s.len() == 0 {
        0
    } else {
        full_count(s.drop_last()) + (if s.last() is Full {
            1nat
        } else {
            0nat
        })
    }
}

proof fn lemma_first_slot<T>(s: Seq<Slot<T>>, full: bool, i: int)
    requires
        0 <= i <= s.len(),
    ensures
        i <= first_slot(s, full, i) <= s.len(),
        first_slot(s, full, i) < s.len() ==> full == (s[first_slot(s, full, i)] is Full),
        forall|k: int| i <= k < first_slot(s, full, i) ==> full != (#[trigger] s[k] is Full),
    decreases s.len() - i,
{
    if i < s.len() && full != (s[i] is Full) {
        lemma_first_slot(s, full, i + 1);
    }
}

/// All slots are full exactly when their number is the number of full ones.
pub proof fn lemma_full_count<T>(s: Seq<Slot<T>>)
    ensures
        full_count(s) <= s.len(),
        full_count(s) == s.len() <==> (forall|i: int| 0 <= i < s.len() ==> #[trigger] s[i] is Full),
    decreases s.len(),
{
    if s.len() > 0 {
        let t = s.drop_last();
        lemma_full_count(t);
        assert(forall|i: int| 0 <= i < t.len() ==> t[i] == #[trigger] s[i]);
        if full_count(s) == s.len() {
            assert forall|i: int| 0 <= i < s.len() implies #[trigger] s[i] is Full by {
                if i < t.len() {
                    assert(t[i] is Full);
                }
            }
        } else if forall|i: int| 0 <= i < s.len() ==> #[trigger] s[i] is Full {
            assert(s[s.len() - 1] is Full);
        }
    }
}

/// What `predicate` said of the full slots before slot `i`: none of them matched.
pub open spec fn none_matched<T, F: Fn(&T) -> bool>(s: Seq<Slot<T>>, predicate: F, i: int) -> bool {
    forall|k: int|
        0 <= k < i && s[k] is Full ==> call_ensures(
            predicate,
            (&(#[trigger] s[k])->Full_0,),
            false,
        )
}

/// `predicate` may be asked about every item.
pub open spec fn askable<T, F: Fn(&T) -> bool>(s: Seq<Slot<T>>, predicate: F) -> bool {
    forall|k: int|
        0 <= k < s.len() && s[k] is Full ==> call_requires(
            predicate,
            (&(#[trigger] s[k])->Full_0,),
        )
}

/// Takes the item out of slot `i`.
fn take_slot<T>(slots: &mut Vec<Slot<T>>, i: usize) -> (r: Slot<T>)
    requires
        i < old(slots).len(),
    ensures
        r == old(slots)@[i as int],
        final(slots)@ == old(slots)@.update(i as int, Slot::Empty),
{
    let mut taken: Slot<T> = Slot::Empty;
    slots.set_and_swap(i, &mut taken);
    taken
}

/// The index of the first slot that is full (`full`) or empty.
fn find_slot<T>(slots: &Vec<Slot<T>>, full: bool) -> (r: usize)
    ensures
        r == first_slot(slots@, full, 0),
        r <= slots.len(),
{
    let mut i: usize = 0;
    while i < slots.len() && slots[i].is_full() != full
        invariant
            i <= slots.len(),
            first_slot(slots@, full, 0) == first_slot(slots@, full, i as int),
        decreases slots.len() - i,
    {
        i += 1;
    }
    i
}

/// The index of the first full slot whose item matches, or the number of slots.
fn find_matching<T, F: Fn(&T) -> bool>(slots: &Vec<Slot<T>>, predicate: &F) -> (r: usize)
    requires
        askable(slots@, *predicate),
    ensures
        r <= slots.len(),
        none_matched(slots@, *predicate, r as int),
        r < slots.len() ==> slots@[r as int] is Full && call_ensures(
            *predicate,
            (&slots@[r as int]->Full_0,),
            true,
        ),
{
    let mut i: usize = 0;
    while i < slots.len()
        invariant
            i <= slots.len(),
            askable(slots@, *predicate),
            none_matched(slots@, *predicate, i as int),
        decreases slots.len() - i,
    {
        if let Slot::Full(item) = &slots[i] {
            assert(call_requires(*predicate, (&slots@[i as int]->Full_0,)));
            if predicate(item) {
                return i;
            }
        }
        i += 1;
    }
    i
}

/// Counts full slots.
fn count_full<T>(slots: &Vec<Slot<T>>) -> (r: usize)
    ensures
        r == full_count(slots@),
{
    let mut count: usize = 0;
    let mut i: usize = 0;
    while i < slots.len()
        invariant
            i <= slots.len(),
            count == full_count(slots@.take(i as int)),
            count <= i,
        decreases slots.len() - i,
    {
        proof {
            assert(slots@.take(i + 1).drop_last() =~= slots@.take(i as int));
        }
        if slots[i].is_full() {
            count += 1;
        }
        i += 1;
    }
    proof {
        assert(slots@.take(i as int) =~= slots@);
    }
    count
}

/// `n` empty slots.
fn empty_slots<T>(n: usize) -> (r: Vec<Slot<T>>)
    ensures
        r@ == Seq::new(n as nat, |i: int| Slot::<T>::Empty),
{
    let mut slots: Vec<Slot<T>> = Vec::new();
    let mut i: usize = 0;
    while i < n
        invariant
            i <= n,
            slots@ == Seq::new(i as nat, |j: int| Slot::<T>::Empty),
        decreases n - i,
    {
        slots.push(Slot::Empty);
        i += 1;
    }
    slots
}

/// A node in the mock B-ary tree.
#[derive(Debug, Clone, PartialEq, Eq)]
pub struct Node<T> {
    slots: Vec<Slot<T>>,
}

impl<T> View for Node<T> {
    type V = Seq<Slot<T>>;

    /// The slots of the node.
    closed spec fn view(&self) -> Seq<Slot<T>> {
        self.slots@
    }
}

impl<T> Node<T> {
    /// Creates an empty node with `slot_count` slots.
    pub fn new(slot_count: usize) -> (r: Self)
        ensures
            r@ == Seq::new(slot_count as nat, |i: int| Slot::<T>::Empty),
    {
        Node { slots: empty_slots(slot_count) }
    }

    /// Returns all slots in this node.
    pub fn slots(&self) -> (r: &[Slot<T>])
        ensures
            r@ == self@,
    {
        self.slots.as_slice()
    }

    /// Returns all slots in this node mutably.
    pub fn slots_mut(&mut self) -> (r: &mut [Slot<T>])
        ensures
            r@ == old(self)@,
            final(r)@ == final(self)@,
    {
        self.slots.as_mut_slice()
    }

    /// Returns the index of the first empty slot in this node.
    pub fn first_empty_slot_index(&self) -> (r: Option<usize>)
        ensures
            r == (if first_slot(self@, false, 0) < self@.len() {
                Some(first_slot(self@, false, 0) as usize)
            } else {
                None
            }),
    {
        let i: usize = find_slot(&self.slots, false);
        if i < self.slots.len() {
            Some(i)
        } else {
            None
        }
    }

    /// Returns true when every slot in this node is full.
    pub fn is_full(&self) -> (r: bool)
        ensures
            r == (forall|i: int| 0 <= i < self@.len() ==> #[trigger] self@[i] is Full),
    {
        proof {
            lemma_first_slot(self@, false, 0);
        }
        self.first_empty_slot_index().is_none()
    }

    /// Removes and returns the first full slot in this node.
    pub fn take_first_full(&mut self) -> (r: Option<(usize, T)>)
        ensures
            first_slot(old(self)@, true, 0) >= old(self)@.len() ==> r is None && final(self)@
                == old(self)@,
            first_slot(old(self)@, true, 0) < old(self)@.len() ==> (r matches Some((i, item)) && i
                == first_slot(old(self)@, true, 0) && old(self)@[i as int] == Slot::Full(item)
                && final(self)@ == old(self)@.update(i as int, Slot::Empty)),
    {
        proof {
            lemma_first_slot(self@, true, 0);
        }
        let i: usize = find_slot(&self.slots, true);
        if i < self.slots.len() {
            match take_slot(&mut self.slots, i) {
                Slot::Full(item) => Some((i, item)),
                Slot::Empty => None,
            }
        } else {
            None
        }
    }

    /// Removes and returns the first slot whose item matches `predicate`.
    pub fn take_first_matching<F: Fn(&T) -> bool>(&mut self, predicate: F) -> (r: Option<(usize, T)>)
        requires
            askable(old(self)@, predicate),
        ensures
            match r {
                None => final(self)@ == old(self)@ && none_matched(
                    old(self)@,
                    predicate,
                    old(self)@.len() as int,
                ),
                Some((i, item)) => i < old(self)@.len() && old(self)@[i as int] == Slot::Full(item)
                    && call_ensures(predicate, (&item,), true) && none_matched(
                    old(self)@,
                    predicate,
                    i as int,
                ) && final(self)@ == old(self)@.update(i as int, Slot::Empty),
            },
    {
        let i: usize = find_matching(&self.slots, &predicate);
        if i < self.slots.len() {
            match take_slot(&mut self.slots, i) {
                Slot::Full(item) => Some((i, item)),
                Slot::Empty => None,
            }
        } else {
            None
        }
    }

    /// Counts full slots in this node.
    pub fn occupied_slot_count(&self) -> (r: usize)
        ensures
            r == full_count(self@),
    {
        count_full(&self.slots)
    }
}

/// A concrete slot location in the level-order tree layout.
#[derive(Debug, Clone, Copy, PartialEq, Eq)]
pub struct SlotLocation {
    /// Index of the node in level-order storage.
    pub node_index: usize,
    /// Index of the slot inside the node.
    pub slot_index: usize,
}

/// Summary of one mock insert operation.
#[derive(Debug, Clone, Copy, PartialEq, Eq)]
pub struct InsertResult {
    /// Previous leaf position read from the position map.
    pub old_pos: usize,
    /// Newly assigned leaf position for this key.
    pub new_pos: usize,
    /// Slot removed from the old path, if the key was already present there.
    pub removed_from: Option<SlotLocation>,
    /// Queue length after the insert and path eviction complete.
    pub queue_len: usize,
}

/// The deepest level, from `level` on, down to which the paths to two leaves of a tree
/// with leaf level `levels` run together.
pub open spec fn common_depth(branching_factor: int, levels: int, a: int, b: int, level: int) -> int
    decreases levels - level,
{
    if level >= levels || !same_prefix(branching_factor, levels + 1, level + 1, a, b) {
        level
    } else {
        common_depth(branching_factor, levels, a, b, level + 1)
    }
}

/// Paths that run together down to a level run together above it.
proof fn lemma_same_prefix_above(branching_factor: int, levels: int, level: int, a: int, b: int)
    requires
        1 <= branching_factor,
        0 < level <= levels,
        0 <= a,
        0 <= b,
        same_prefix(branching_factor, levels + 1, level, a, b),
    ensures
        same_prefix(branching_factor, levels + 1, level - 1, a, b),
{
    let w = full_width(levels - level, branching_factor);
    lemma_full_width(levels - level, branching_factor);
    vstd::arithmetic::div_mod::lemma_div_denominator(a, w, branching_factor);
    vstd::arithmetic::div_mod::lemma_div_denominator(b, w, branching_factor);
}

/// Down to [`common_depth`] two paths run together, and below it they do not.
proof fn lemma_common_depth_from(branching_factor: int, levels: int, a: int, b: int, level: int)
    requires
        1 <= branching_factor,
        0 <= level <= levels,
        0 <= a,
        0 <= b,
        same_prefix(branching_factor, levels + 1, level, a, b),
    ensures
        level <= common_depth(branching_factor, levels, a, b, level) <= levels,
        forall|l: int|
            level <= l <= levels ==> (#[trigger] same_prefix(branching_factor, levels + 1, l, a, b)
                <==> l <= common_depth(branching_factor, levels, a, b, level)),
    decreases levels - level,
{
    if level < levels && same_prefix(branching_factor, levels + 1, level + 1, a, b) {
        lemma_common_depth_from(branching_factor, levels, a, b, level + 1);
    } else {
        assert forall|l: int| level < l <= levels implies !#[trigger] same_prefix(
            branching_factor,
            levels + 1,
            l,
            a,
            b,
        ) by {
            if same_prefix(branching_factor, levels + 1, l, a, b) {
                lemma_same_prefix_up_to(branching_factor, levels, level + 1, l, a, b);
            }
        }
    }
}

proof fn lemma_same_prefix_up_to(
    branching_factor: int,
    levels: int,
    above: int,
    level: int,
    a: int,
    b: int,
)
    requires
        1 <= branching_factor,
        0 <= above <= level <= levels,
        0 <= a,
        0 <= b,
        same_prefix(branching_factor, levels + 1, level, a, b),
    ensures
        same_prefix(branching_factor, levels + 1, above, a, b),
    decreases level - above,
{
    if above < level {
        lemma_same_prefix_above(branching_factor, levels, level, a, b);
        lemma_same_prefix_up_to(branching_factor, levels, above, level - 1, a, b);
    }
}

/// Which of two leaves comes first makes no difference.
proof fn lemma_common_depth_symmetric(
    branching_factor: int,
    levels: int,
    a: int,
    b: int,
    level: int,
)
    ensures
        common_depth(branching_factor, levels, a, b, level) == common_depth(
            branching_factor,
            levels,
            b,
            a,
            level,
        ),
    decreases levels - level,
{
    if level < levels {
        lemma_common_depth_symmetric(branching_factor, levels, a, b, level + 1);
    }
}

/// The nodes of a full tree, level after level, are the root and the children of all
/// nodes above the last level.
proof fn lemma_full_nodes_children(branching_factor: int, levels: int)
    requires
        1 <= branching_factor,
        0 <= levels,
    ensures
        full_nodes(branching_factor, levels + 1) == 1 + branching_factor * full_nodes(
            branching_factor,
            levels,
        ),
    decreases levels,
{
    let b = branching_factor;
    lemma_full_width(0, b);
    if levels > 0 {
        lemma_full_nodes_children(b, levels - 1);
        lemma_full_width(levels - 1, b);
        let n = full_nodes(b, levels - 1);
        let w = full_width(levels - 1, b);
        assert(b * (n + w) == b * n + w * b) by (nonlinear_arith);
    } else {
        assert(full_nodes(b, 0) == 0);
        assert(full_nodes(b, 1) == full_nodes(b, 0) + full_width(0, b));
        assert(b * 0 == 0);
    }
}

/// Offsets and widths of the levels of a B-ary tree, and the number of its nodes.
fn checked_tree_shape(levels: usize, branching_factor: usize) -> (r: (Vec<usize>, Vec<usize>, usize))
    requires
        0 < branching_factor,
        levels < usize::MAX,
        full_nodes(branching_factor as int, levels + 1) <= usize::MAX,
    ensures
        r.0@.len() == levels + 1,
        r.1@.len() == levels + 1,
        forall|l: int| 0 <= l <= levels ==> #[trigger] r.0@[l] == full_nodes(branching_factor as int, l),
        forall|l: int| 0 <= l <= levels ==> #[trigger] r.1@[l] == full_width(l, branching_factor as int),
        r.2 == full_nodes(branching_factor as int, levels + 1),
{
    let ghost b = branching_factor as int;
    let mut level_offsets: Vec<usize> = Vec::new();
    let mut level_widths: Vec<usize> = Vec::new();
    let mut width: usize = 1;
    let mut node_count: usize = 0;
    let mut level: usize = 0;
    proof {
        lemma_full_width(0, b);
    }
    while level <= levels
        invariant
            b == branching_factor,
            1 <= b,
            level <= levels + 1,
            levels < usize::MAX,
            full_nodes(b, levels + 1) <= usize::MAX,
            level_offsets@.len() == level,
            level_widths@.len() == level,
            forall|l: int| 0 <= l < level ==> #[trigger] level_offsets@[l] == full_nodes(b, l),
            forall|l: int| 0 <= l < level ==> #[trigger] level_widths@[l] == full_width(l, b),
            node_count == full_nodes(b, level as int),
            level <= levels ==> width == full_width(level as int, b),
        decreases levels + 1 - level,
    {
        proof {
            lemma_full_nodes_grows(b, level + 1, levels + 1);
            lemma_full_width(level as int, b);
        }
        level_offsets.push(node_count);
        level_widths.push(width);
        node_count = node_count + width;
        if level < levels {
            proof {
                lemma_full_nodes_grows(b, level + 2, levels + 1);
                lemma_full_nodes_grows(b, 0, level + 1);
            }
            width = width * branching_factor;
        }
        level += 1;
    }
    (level_offsets, level_widths, node_count)
}

/// The number of nodes on a level.
fn checked_level_width(level: usize, branching_factor: usize) -> (r: usize)
    requires
        0 < branching_factor,
        full_width(level as int, branching_factor as int) <= usize::MAX,
    ensures
        r == full_width(level as int, branching_factor as int),
{
    let ghost b = branching_factor as int;
    let mut width: usize = 1;
    let mut l: usize = 0;
    proof {
        lemma_full_width(0, b);
    }
    while l < level
        invariant
            b == branching_factor,
            1 <= b,
            l <= level,
            full_width(level as int, b) <= usize::MAX,
            width == full_width(l as int, b),
        decreases level - l,
    {
        proof {
            lemma_full_width(l as int, b);
            lemma_full_width_grows(l + 1, level as int, b);
        }
        width = width * branching_factor;
        l += 1;
    }
    width
}

/// How far the paths to `a` and `b` run together.
fn common_prefix_depth(a: usize, b: usize, levels: usize, branching_factor: usize) -> (r: usize)
    requires
        0 < branching_factor,
        full_width(levels as int, branching_factor as int) <= usize::MAX,
    ensures
        r == common_depth(branching_factor as int, levels as int, a as int, b as int, 0),
        r <= levels,
{
    let ghost f = branching_factor as int;
    let mut common: usize = 0;
    let mut divisor: usize = checked_level_width(levels, branching_factor);
    while common < levels
        invariant
            f == branching_factor,
            1 <= f,
            common <= levels,
            divisor == full_width(levels - common, f),
            common_depth(f, levels as int, a as int, b as int, 0) == common_depth(
                f,
                levels as int,
                a as int,
                b as int,
                common as int,
            ),
        decreases levels - common,
    {
        proof {
            lemma_full_width(levels - common - 1, f);
            let w = full_width(levels - common - 1, f);
            vstd::arithmetic::div_mod::lemma_div_multiples_vanish(w, f);
            assert(w * f == f * w) by (nonlinear_arith);
        }
        divisor = divisor / branching_factor;
        if a / divisor != b / divisor {
            assert(!same_prefix(f, levels + 1, common + 1, a as int, b as int));
            return common;
        }
        assert(same_prefix(f, levels + 1, common + 1, a as int, b as int));
        common += 1;
    }
    common
}

/// A perfect B-ary tree with a fixed number of slots per node.
///
/// The root is level 0 and `levels` is the leaf level, so the bottom level has
/// `branching_factor.pow(levels)` nodes.
#[derive(Debug, Clone, PartialEq, Eq)]
pub struct PerfectBaryTree<T> {
    slots: Vec<Slot<T>>,
    levels: usize,
    branching_factor: usize,
    slots_per_node: usize,
    level_offsets: Vec<usize>,
    level_widths: Vec<usize>,
}

impl<T> View for PerfectBaryTree<T> {
    type V = Seq<Slot<T>>;

    /// The slots, node after node in level order.
    closed spec fn view(&self) -> Seq<Slot<T>> {
        self.slots@
    }
}

impl<T> PerfectBaryTree<T> {
    /// The leaf level.
    pub closed spec fn depth(&self) -> int {
        self.levels as int
    }

    /// The branching factor.
    pub closed spec fn fanout(&self) -> int {
        self.branching_factor as int
    }

    /// The number of slots in each node.
    pub closed spec fn node_size(&self) -> int {
        self.slots_per_node as int
    }

    /// The number of nodes.
    pub open spec fn nodes(&self) -> int {
        full_nodes(self.fanout(), self.depth() + 1)
    }

    /// The number of leaves.
    pub open spec fn leaves(&self) -> int {
        full_width(self.depth(), self.fanout())
    }

    /// The index of the node at `level` on the path to `leaf`.
    pub open spec fn node_on_path(&self, level: int, leaf: int) -> int {
        prefix_index(self.fanout(), self.depth() + 1, level, leaf)
    }

    /// The indices of the nodes on the path to `leaf`.
    pub open spec fn path(&self, leaf: int) -> Seq<usize> {
        Seq::new((self.depth() + 1) as nat, |l: int| self.node_on_path(l, leaf) as usize)
    }

    /// The tables describe a perfect tree, and every node has its slots.
    pub closed spec fn wf(&self) -> bool {
        &&& 0 < self.branching_factor
        &&& 0 < self.slots_per_node
        &&& self.levels < usize::MAX
        &&& self.slots@.len() == self.nodes() * self.slots_per_node
        &&& self.nodes() <= usize::MAX
        &&& self.level_offsets@.len() == self.levels + 1
        &&& self.level_widths@.len() == self.levels + 1
        &&& forall|l: int|
            0 <= l <= self.levels ==> #[trigger] self.level_offsets@[l] == full_nodes(
                self.branching_factor as int,
                l,
            )
        &&& forall|l: int|
            0 <= l <= self.levels ==> #[trigger] self.level_widths@[l] == full_width(
                l,
                self.branching_factor as int,
            )
    }

    /// Two trees have the same shape.
    pub open spec fn same_shape(&self, other: &Self) -> bool {
        &&& self.depth() == other.depth()
        &&& self.fanout() == other.fanout()
        &&& self.node_size() == other.node_size()
    }

    /// The sizes of a tree.
    pub proof fn lemma_shape(&self)
        requires
            self.wf(),
        ensures
            0 <= self.depth() < usize::MAX,
            1 <= self.fanout() <= usize::MAX,
            1 <= self.node_size() <= usize::MAX,
            1 <= self.leaves() <= self.nodes() <= usize::MAX,
            self@.len() == self.nodes() * self.node_size(),
            self@.len() <= usize::MAX,
    {
        lemma_full_width(self.depth(), self.fanout());
        lemma_full_nodes_grows(self.fanout(), 0, self.depth());
        assert(self.slots.len() <= usize::MAX);
    }

    /// The node at `level` on the path to a leaf is a node of the tree.
    pub proof fn lemma_on_path(&self, level: int, leaf: int)
        requires
            self.wf(),
            0 <= level <= self.depth(),
            0 <= leaf < self.leaves(),
        ensures
            0 <= self.node_on_path(level, leaf) < self.nodes(),
            0 <= leaf / full_width(self.depth() - level, self.fanout()) < full_width(
                level,
                self.fanout(),
            ),
            leaf / full_width(self.depth() - level, self.fanout()) <= usize::MAX,
    {
        self.lemma_shape();
        lemma_prefix_index_bounds(self.fanout(), self.depth() + 1, level, leaf);
        lemma_full_nodes_grows(self.fanout(), 0, level);
        lemma_full_nodes_grows(self.fanout(), level + 1, self.depth() + 1);
    }

    /// The nodes on a path are distinct: each lies after the one above.
    pub proof fn lemma_path_descends(&self, above: int, level: int, leaf: int)
        requires
            self.wf(),
            0 <= above < level <= self.depth(),
            0 <= leaf < self.leaves(),
        ensures
            self.node_on_path(above, leaf) < self.node_on_path(level, leaf),
    {
        self.lemma_shape();
        let b = self.fanout();
        let h = self.depth() + 1;
        lemma_prefix_index_bounds(b, h, above, leaf);
        lemma_prefix_index_bounds(b, h, level, leaf);
        lemma_full_nodes_grows(b, above + 1, level);
    }

    /// The common prefix depth of two leaves is the greatest level at which their paths have
    /// the same node, and the paths share every node above it. It is the same either way
    /// round, and it is the leaf level for equal leaves only.
    pub proof fn lemma_common_prefix(&self, a: int, b: int)
        requires
            self.wf(),
            0 <= a < self.leaves(),
            0 <= b < self.leaves(),
        ensures
            ({
                let d = common_depth(self.fanout(), self.depth(), a, b, 0);
                &&& 0 <= d <= self.depth()
                &&& forall|l: int|
                    0 <= l <= self.depth() ==> (#[trigger] self.node_on_path(l, a)
                        == self.node_on_path(l, b) <==> l <= d)
                &&& d == common_depth(self.fanout(), self.depth(), b, a, 0)
                &&& d == self.depth() <==> a == b
            }),
    {
        self.lemma_shape();
        let f = self.fanout();
        let n = self.depth();
        vstd::arithmetic::div_mod::lemma_basic_div(a, self.leaves());
        vstd::arithmetic::div_mod::lemma_basic_div(b, self.leaves());
        lemma_common_depth_from(f, n, a, b, 0);
        lemma_common_depth_symmetric(f, n, a, b, 0);
        assert forall|l: int| 0 <= l <= n implies (#[trigger] self.node_on_path(l, a)
            == self.node_on_path(l, b) <==> l <= common_depth(f, n, a, b, 0)) by {
            assert(same_prefix(f, n + 1, l, a, b) <==> l <= common_depth(f, n, a, b, 0));
        }
        lemma_full_width(0, f);
        assert(same_prefix(f, n + 1, n, a, b) <==> n <= common_depth(f, n, a, b, 0));
        vstd::arithmetic::div_mod::lemma_div_basics(a);
        vstd::arithmetic::div_mod::lemma_div_basics(b);
    }

    /// Climbing from a node to its parent stays on the path.
    pub proof fn lemma_path_climbs(&self, level: int, leaf: int)
        requires
            self.wf(),
            0 < level <= self.depth(),
            0 <= leaf < self.leaves(),
        ensures
            (self.node_on_path(level, leaf) - 1) / self.fanout() == self.node_on_path(
                level - 1,
                leaf,
            ),
    {
        self.lemma_shape();
        let b = self.fanout();
        let w = full_width(self.depth() - level, b);
        lemma_full_width(self.depth() - level, b);
        lemma_full_nodes_children(b, level - 1);
        let n = full_nodes(b, level - 1);
        let q = leaf / w;
        vstd::arithmetic::div_mod::lemma_div_denominator(leaf, w, b);
        vstd::arithmetic::div_mod::lemma_div_multiples_vanish_fancy(n, 0, b);
        vstd::arithmetic::div_mod::lemma_hoist_over_denominator(q, n, b as nat);
        assert(b * n == n * b) by (nonlinear_arith);
    }

    /// Creates an empty perfect B-ary tree.
    pub fn new(levels: usize, branching_factor: usize, slots_per_node: usize) -> (r: Self)
        requires
            0 < branching_factor,
            0 < slots_per_node,
            levels < usize::MAX,
            full_nodes(branching_factor as int, levels + 1) * slots_per_node <= usize::MAX,
        ensures
            r.wf(),
            r.depth() == levels,
            r.fanout() == branching_factor,
            r.node_size() == slots_per_node,
            forall|i: int| 0 <= i < r@.len() ==> #[trigger] r@[i] is Empty,
    {
        proof {
            let n = full_nodes(branching_factor as int, levels + 1);
            lemma_full_nodes_grows(branching_factor as int, 0, levels + 1);
            assert(n <= n * slots_per_node) by (nonlinear_arith)
                requires
                    0 <= n,
                    1 <= slots_per_node,
            ;
        }
        let (level_offsets, level_widths, node_count): (Vec<usize>, Vec<usize>, usize) =
            checked_tree_shape(levels, branching_factor);
        let slots: Vec<Slot<T>> = empty_slots(node_count * slots_per_node);
        PerfectBaryTree {
            slots,
            levels,
            branching_factor,
            slots_per_node,
            level_offsets,
            level_widths,
        }
    }

    /// Returns the leaf level `l`.
    pub fn levels(&self) -> (r: usize)
        ensures
            r == self.depth(),
    {
        self.levels
    }

    /// Returns the branching factor `B`.
    pub fn branching_factor(&self) -> (r: usize)
        ensures
            r == self.fanout(),
    {
        self.branching_factor
    }

    /// Returns the number of slots `Z` in each node.
    pub fn slots_per_node(&self) -> (r: usize)
        ensures
            r == self.node_size(),
    {
        self.slots_per_node
    }

    /// Returns the number of nodes in the tree.
    pub fn node_count(&self) -> (r: usize)
        requires
            self.wf(),
        ensures
            r == self.nodes(),
    {
        proof {
            self.lemma_shape();
            vstd::arithmetic::div_mod::lemma_div_by_multiple(
                self.nodes(),
                self.slots_per_node as int,
            );
        }
        self.slots.len() / self.slots_per_node
    }

    /// Returns the number of nodes on the bottom level, `B^l`.
    pub fn leaf_count(&self) -> (r: usize)
        requires
            self.wf(),
        ensures
            r == self.leaves(),
    {
        self.level_widths[self.levels]
    }

    /// Returns the number of slots in the whole tree.
    pub fn capacity(&self) -> (r: usize)
        requires
            self.wf(),
        ensures
            r == self@.len(),
    {
        proof {
            self.lemma_shape();
        }
        self.node_count() * self.slots_per_node
    }

    /// Returns all slots in level-order node/slot order.
    pub fn all_slots(&self) -> (r: &[Slot<T>])
        ensures
            r@ == self@,
    {
        self.slots.as_slice()
    }

    /// Returns the number of nodes at `level`, if the level exists.
    pub fn level_width(&self, level: usize) -> (r: Option<usize>)
        requires
            self.wf(),
        ensures
            r == (if level <= self.depth() {
                Some(full_width(level as int, self.fanout()) as usize)
            } else {
                None
            }),
    {
        if level < self.level_widths.len() {
            Some(self.level_widths[level])
        } else {
            None
        }
    }

    /// Returns the node index for a `(level, offset_in_level)` pair.
    pub fn node_index(&self, level: usize, offset_in_level: usize) -> (r: Option<usize>)
        requires
            self.wf(),
        ensures
            r == (if level <= self.depth() && offset_in_level < full_width(
                level as int,
                self.fanout(),
            ) {
                Some((full_nodes(self.fanout(), level as int) + offset_in_level) as usize)
            } else {
                None
            }),
    {
        if level >= self.level_widths.len() {
            return None;
        }
        if offset_in_level >= self.level_widths[level] {
            return None;
        }
        proof {
            lemma_full_nodes_grows(self.fanout(), level + 1, self.depth() + 1);
        }
        Some(self.level_offsets[level] + offset_in_level)
    }

    /// Returns the offset at `level` on the root-to-leaf path for `leaf_pos`.
    pub fn path_offset_at_level(&self, level: usize, leaf_pos: usize) -> (r: Option<usize>)
        requires
            self.wf(),
        ensures
            r == (if level <= self.depth() && leaf_pos < self.leaves() {
                Some((leaf_pos as int / full_width(self.depth() - level, self.fanout())) as usize)
            } else {
                None
            }),
    {
        if level > self.levels || leaf_pos >= self.leaf_count() {
            return None;
        }
        proof {
            lemma_full_width(self.depth() - level, self.fanout());
        }
        let divisor: usize = self.level_widths[self.levels - level];
        Some(leaf_pos / divisor)
    }

    /// Returns the node index at `level` on the root-to-leaf path for `leaf_pos`.
    pub fn path_node_index(&self, level: usize, leaf_pos: usize) -> (r: Option<usize>)
        requires
            self.wf(),
        ensures
            r == (if level <= self.depth() && leaf_pos < self.leaves() {
                Some(self.node_on_path(level as int, leaf_pos as int) as usize)
            } else {
                None
            }),
    {
        match self.path_offset_at_level(level, leaf_pos) {
            Some(offset) => {
                proof {
                    self.lemma_on_path(level as int, leaf_pos as int);
                    self.lemma_shape();
                }
                self.node_index(level, offset)
            },
            None => None,
        }
    }

    /// Returns all node indices on the root-to-leaf path for `leaf_pos`.
    pub fn path_node_indices(&self, leaf_pos: usize) -> (r: Option<Vec<usize>>)
        requires
            self.wf(),
        ensures
            r is Some <==> leaf_pos < self.leaves(),
            r matches Some(path) ==> path@ == self.path(leaf_pos as int),
    {
        let mut path: Vec<usize> = Vec::new();
        if self.path_node_indices_into(leaf_pos, &mut path) {
            Some(path)
        } else {
            None
        }
    }

    /// Writes all node indices on the root-to-leaf path for `leaf_pos` into `out`.
    pub fn path_node_indices_into(&self, leaf_pos: usize, out: &mut Vec<usize>) -> (r: bool)
        requires
            self.wf(),
        ensures
            r == (leaf_pos < self.leaves()),
            final(out)@ == (if r {
                self.path(leaf_pos as int)
            } else {
                old(out)@
            }),
    {
        if leaf_pos >= self.leaf_count() {
            return false;
        }
        out.clear();
        let mut level: usize = 0;
        while level <= self.levels
            invariant
                self.wf(),
                leaf_pos < self.leaves(),
                level <= self.levels + 1,
                out@ == self.path(leaf_pos as int).take(level as int),
            decreases self.levels + 1 - level,
        {
            proof {
                self.lemma_on_path(level as int, leaf_pos as int);
                self.lemma_shape();
                lemma_full_width(self.depth() - level, self.fanout());
                assert(self.path(leaf_pos as int).take(level + 1) =~= self.path(
                    leaf_pos as int,
                ).take(level as int).push(self.node_on_path(level as int, leaf_pos as int) as usize));
            }
            let offset: usize = leaf_pos / self.level_widths[self.levels - level];
            out.push(self.level_offsets[level] + offset);
            level += 1;
        }
        proof {
            assert(self.path(leaf_pos as int).take(level as int) =~= self.path(leaf_pos as int));
        }
        true
    }

    /// Returns the longest common base-B prefix length of two leaf positions.
    pub fn common_prefix_depth(&self, a: usize, b: usize) -> (r: Option<usize>)
        requires
            self.wf(),
        ensures
            r == (if a < self.leaves() && b < self.leaves() {
                Some(common_depth(self.fanout(), self.depth(), a as int, b as int, 0) as usize)
            } else {
                None
            }),
    {
        if a >= self.leaf_count() || b >= self.leaf_count() {
            return None;
        }
        proof {
            self.lemma_shape();
        }
        Some(common_prefix_depth(a, b, self.levels, self.branching_factor))
    }

    /// Returns the parent node index, or `None` for the root/out-of-bounds nodes.
    pub fn parent_index(&self, node_index: usize) -> (r: Option<usize>)
        requires
            self.wf(),
        ensures
            r == (if 0 < node_index < self.nodes() {
                Some(((node_index - 1) / self.fanout()) as usize)
            } else {
                None
            }),
    {
        if node_index == 0 || node_index >= self.node_count() {
            None
        } else {
            Some((node_index - 1) / self.branching_factor)
        }
    }

    /// Returns child node indices for an internal node.
    pub fn children_indices(&self, node_index: usize) -> (r: Option<Vec<usize>>)
        requires
            self.wf(),
        ensures
            r is Some <==> node_index < full_nodes(self.fanout(), self.depth()),
            r matches Some(children) ==> children@.len() == self.fanout() && forall|i: int|
                0 <= i < self.fanout() ==> #[trigger] children@[i] == node_index * self.fanout() + 1
                    + i,
    {
        let ghost b = self.fanout();
        let ghost inner = full_nodes(b, self.depth());
        proof {
            self.lemma_shape();
            lemma_full_nodes_children(b, self.depth());
            lemma_full_nodes_grows(b, self.depth(), self.depth() + 1);
            if node_index < inner {
                assert(node_index * b + b <= b * inner) by (nonlinear_arith)
                    requires
                        node_index + 1 <= inner,
                        1 <= b,
                ;
            } else {
                assert(node_index * b >= b * inner) by (nonlinear_arith)
                    requires
                        node_index >= inner,
                        1 <= b,
                ;
            }
        }
        if node_index >= self.node_count() {
            return None;
        }
        let product: Option<usize> = node_index.checked_mul(self.branching_factor);
        let first_child: usize = match product {
            Some(p) => match p.checked_add(1) {
                Some(first) => first,
                None => {
                    return None;
                },
            },
            None => {
                return None;
            },
        };
        if first_child >= self.node_count() {
            return None;
        }
        let mut children: Vec<usize> = Vec::new();
        let mut i: usize = 0;
        while i < self.branching_factor
            invariant
                i <= self.branching_factor,
                b == self.branching_factor,
                first_child + b <= usize::MAX,
                children@.len() == i,
                forall|j: int| 0 <= j < i ==> #[trigger] children@[j] == first_child + j,
            decreases self.branching_factor - i,
        {
            children.push(first_child + i);
            i += 1;
        }
        Some(children)
    }

    /// A child's parent is the node that it is a child of.
    pub proof fn lemma_parent_of_child(&self, node: int, i: int)
        requires
            self.wf(),
            0 <= node,
            0 <= i < self.fanout(),
        ensures
            (node * self.fanout() + 1 + i - 1) / self.fanout() == node,
    {
        self.lemma_shape();
        vstd::arithmetic::div_mod::lemma_fundamental_div_mod_converse(
            node * self.fanout() + i,
            self.fanout(),
            node,
            i,
        );
    }

    /// Where slot `i` of the level-order layout is.
    fn location(&self, i: usize) -> (r: SlotLocation)
        requires
            0 < self.slots_per_node,
        ensures
            r.node_index == i as int / self.node_size(),
            r.slot_index == i as int % self.node_size(),
    {
        SlotLocation { node_index: i / self.slots_per_node, slot_index: i % self.slots_per_node }
    }

    /// Removes and returns the first full slot in level-order.
    pub fn take_first_full(&mut self) -> (r: Option<(SlotLocation, T)>)
        requires
            old(self).wf(),
        ensures
            final(self).wf(),
            final(self).same_shape(old(self)),
            first_slot(old(self)@, true, 0) >= old(self)@.len() ==> r is None && final(self)@
                == old(self)@,
            first_slot(old(self)@, true, 0) < old(self)@.len() ==> ({
                let i = first_slot(old(self)@, true, 0);
                r matches Some((at, item)) && at.node_index == i / old(self).node_size()
                    && at.slot_index == i % old(self).node_size() && old(self)@[i] == Slot::Full(item)
                    && final(self)@ == old(self)@.update(i, Slot::Empty)
            }),
    {
        proof {
            lemma_first_slot(self@, true, 0);
        }
        let i: usize = find_slot(&self.slots, true);
        if i < self.slots.len() {
            let at: SlotLocation = self.location(i);
            match take_slot(&mut self.slots, i) {
                Slot::Full(item) => Some((at, item)),
                Slot::Empty => None,
            }
        } else {
            None
        }
    }

    /// Removes and returns the first item matching `predicate` in level-order.
    pub fn take_first_matching<F: Fn(&T) -> bool>(&mut self, predicate: F) -> (r: Option<
        (SlotLocation, T),
    >)
        requires
            old(self).wf(),
            askable(old(self)@, predicate),
        ensures
            final(self).wf(),
            final(self).same_shape(old(self)),
            match r {
                None => final(self)@ == old(self)@ && none_matched(
                    old(self)@,
                    predicate,
                    old(self)@.len() as int,
                ),
                Some((at, item)) => ({
                    let i = at.node_index * old(self).node_size() + at.slot_index;
                    at.slot_index < old(self).node_size() && i < old(self)@.len() && old(self)@[i]
                        == Slot::Full(item) && call_ensures(predicate, (&item,), true)
                        && none_matched(old(self)@, predicate, i) && final(self)@
                        == old(self)@.update(i, Slot::Empty)
                }),
            },
    {
        let i: usize = find_matching(&self.slots, &predicate);
        if i < self.slots.len() {
            let at: SlotLocation = self.location(i);
            proof {
                vstd::arithmetic::div_mod::lemma_fundamental_div_mod(
                    i as int,
                    self.slots_per_node as int,
                );
                assert(self.slots_per_node * (i as int / self.slots_per_node as int) == (i as int
                    / self.slots_per_node as int) * self.slots_per_node) by (nonlinear_arith);
            }
            match take_slot(&mut self.slots, i) {
                Slot::Full(item) => Some((at, item)),
                Slot::Empty => None,
            }
        } else {
            None
        }
    }

    /// Returns all slots for `node_index`.
    pub fn node_slots(&self, node_index: usize) -> (r: Option<&[Slot<T>]>)
        requires
            self.wf(),
        ensures
            r is Some <==> node_index < self.nodes(),
            r matches Some(s) ==> s@ == self@.subrange(
                node_index * self.node_size(),
                (node_index + 1) * self.node_size(),
            ),
    {
        match self.slot_start(node_index) {
            Some(start) => {
                proof {
                    self.lemma_node_range(node_index as int);
                }
                Some(vstd::slice::slice_subrange(
                    self.slots.as_slice(),
                    start,
                    start + self.slots_per_node,
                ))
            },
            None => None,
        }
    }

    /// Returns all slots for `node_index` mutably.
    pub fn node_slots_mut(&mut self, node_index: usize) -> (r: Option<&mut [Slot<T>]>)
        requires
            old(self).wf(),
        ensures
            r is Some <==> node_index < old(self).nodes(),
            r is None ==> *final(self) == *old(self),
            r matches Some(s) ==> {
                let start = node_index * old(self).node_size();
                let end = (node_index + 1) * old(self).node_size();
                &&& s@ == old(self)@.subrange(start, end)
                &&& final(self).same_shape(old(self))
                &&& final(s)@.len() == old(self).node_size() ==> final(self).wf()
                &&& final(self)@ == old(self)@.take(start) + final(s)@ + old(self)@.skip(end)
            },
    {
        match self.slot_start(node_index) {
            Some(start) => {
                proof {
                    self.lemma_node_range(node_index as int);
                }
                let size: usize = self.slots_per_node;
                let (front, rest) = self.slots.as_mut_slice().split_at_mut(start);
                let (mine, back) = rest.split_at_mut(size);
                Some(mine)
            },
            None => None,
        }
    }

    /// The slots of a node lie inside the tree.
    proof fn lemma_node_range(&self, node: int)
        requires
            self.wf(),
            0 <= node < self.nodes(),
        ensures
            0 <= node * self.node_size(),
            (node + 1) * self.node_size() == node * self.node_size() + self.node_size(),
            (node + 1) * self.node_size() <= self@.len() <= usize::MAX,
    {
        self.lemma_shape();
        let z = self.node_size();
        let n = self.nodes();
        assert((node + 1) * z <= n * z && (node + 1) * z == node * z + z && 0 <= node * z)
            by (nonlinear_arith)
            requires
                0 <= node,
                node + 1 <= n,
                0 <= z,
        ;
    }

    /// Counts full slots in the tree.
    pub fn occupied_slot_count(&self) -> (r: usize)
        ensures
            r == full_count(self@),
    {
        count_full(&self.slots)
    }

    /// Returns true when every slot in the tree is full.
    pub fn is_full(&self) -> (r: bool)
        requires
            self.wf(),
        ensures
            r == (forall|i: int| 0 <= i < self@.len() ==> #[trigger] self@[i] is Full),
    {
        proof {
            lemma_full_count(self@);
        }
        self.occupied_slot_count() == self.capacity()
    }

    fn slot_start(&self, node_index: usize) -> (r: Option<usize>)
        requires
            self.wf(),
        ensures
            r == (if node_index < self.nodes() {
                Some((node_index * self.node_size()) as usize)
            } else {
                None
            }),
            node_index < self.nodes() ==> node_index * self.node_size() <= usize::MAX,
    {
        if node_index < self.node_count() {
            proof {
                self.lemma_node_range(node_index as int);
            }
            Some(node_index * self.slots_per_node)
        } else {
            None
        }
    }
}

/// The slots of lane `lane` on a path, from the root down.
pub open spec fn lane_places(path: Seq<usize>, z: int, lane: int) -> Seq<int> {
    Seq::new(path.len(), |d: int| path[d] * z + lane)
}

/// All slots on a path, node after node.
pub open spec fn path_places(path: Seq<usize>, z: int) -> Seq<int> {
    Seq::new((path.len() * z) as nat, |i: int| path[i / z] * z + i % z)
}

/// A slot holds the block of `key`.
pub open spec fn holds(slot: Slot<TestLaneBlock>, key: K) -> bool {
    slot matches Slot::Full(block) && block.key == key
}

/// The first of the places from `i` on whose slot holds `key`, or their number.
pub open spec fn first_holding(
    s: Seq<Slot<TestLaneBlock>>,
    at: Seq<int>,
    key: K,
    i: int,
) -> int
    decreases at.len() - i,
{
    if i >= at.len() || holds(s[at[i]], key) {
        i
    } else {
        first_holding(s, at, key, i + 1)
    }
}

/// The slots and the queue after the first `n` root slots took the blocks at the front
/// of the queue, each with its position in the position map.
pub open spec fn root_filled(
    s: Seq<Slot<TestLaneBlock>>,
    queue: Seq<TestLaneBlock>,
    position_map: Seq<usize>,
    n: int,
) -> (Seq<Slot<TestLaneBlock>>, Seq<TestLaneBlock>)
    decreases n,
{
    if n <= 0 {
        (s, queue)
    } else {
        let (t, q) = root_filled(s, queue, position_map, n - 1);
        if t[n - 1] is Empty && q.len() > 0 {
            let block = TestLaneBlock { key: q[0].key, pos: position_map[q[0].key as int] };
            (t.update(n - 1, Slot::Full(block)), q.drop_first())
        } else {
            (t, q)
        }
    }
}

/// The deepest of the first `n` slots of a lane that is empty, or -1.
pub open spec fn deepest_empty(s: Seq<Slot<TestLaneBlock>>, at: Seq<int>, n: int) -> int
    decreases n,
{
    if n <= 0 {
        -1
    } else if s[at[n - 1]] is Empty {
        n - 1
    } else {
        deepest_empty(s, at, n - 1)
    }
}

/// A slot holds a block that may go as deep as level `e` on the path to `leaf`.
pub open spec fn may_sink(
    slot: Slot<TestLaneBlock>,
    leaf: int,
    levels: int,
    branching_factor: int,
    e: int,
) -> bool {
    slot matches Slot::Full(block) && common_depth(
        branching_factor,
        levels,
        block.pos as int,
        leaf,
        0,
    ) >= e
}

/// The deepest of the first `n` levels of a lane whose block may go to level `e`, or -1.
pub open spec fn source_for(
    s: Seq<Slot<TestLaneBlock>>,
    at: Seq<int>,
    leaf: int,
    levels: int,
    branching_factor: int,
    e: int,
    n: int,
) -> int
    decreases n,
{
    if n <= 0 {
        -1
    } else if may_sink(s[at[n - 1]], leaf, levels, branching_factor, e) {
        n - 1
    } else {
        source_for(s, at, leaf, levels, branching_factor, e, n - 1)
    }
}

/// The slots after a chain of moves down a lane that starts with level `e`: the level
/// takes the block nearest above it that may go there, and the chain goes on with the
/// level that gave it, or with the level above where none did.
pub open spec fn chain(
    s: Seq<Slot<TestLaneBlock>>,
    at: Seq<int>,
    leaf: int,
    levels: int,
    branching_factor: int,
    e: int,
) -> Seq<Slot<TestLaneBlock>>
    decreases e,
{
    if e <= 0 {
        s
    } else {
        let from = source_for(s, at, leaf, levels, branching_factor, e, e);
        if 0 <= from < e {
            chain(
                s.update(at[e], s[at[from]]).update(at[from], Slot::Empty),
                at,
                leaf,
                levels,
                branching_factor,
                from,
            )
        } else {
            chain(s, at, leaf, levels, branching_factor, e - 1)
        }
    }
}

/// The slots after the first `n` lanes of a path were evicted, one after another, each
/// from its deepest empty slot up.
pub open spec fn lanes_evicted(
    s: Seq<Slot<TestLaneBlock>>,
    path: Seq<usize>,
    z: int,
    leaf: int,
    levels: int,
    branching_factor: int,
    n: int,
) -> Seq<Slot<TestLaneBlock>>
    decreases n,
{
    if n <= 0 {
        s
    } else {
        let t = lanes_evicted(s, path, z, leaf, levels, branching_factor, n - 1);
        let at = lane_places(path, z, n - 1);
        chain(t, at, leaf, levels, branching_factor, deepest_empty(t, at, path.len() as int))
    }
}

/// A mock lane ORAM with a perfect B-ary tree and a FIFO queue.
#[derive(Debug, Clone, PartialEq, Eq)]
pub struct TestLaneOram {
    /// Tree storage for mock blocks.
    pub tree: PerfectBaryTree<TestLaneBlock>,
    /// Position map from key to leaf index.
    pub position_map: Vec<usize>,
    /// Tracks whether a key has ever been inserted.
    pub inserted: Vec<bool>,
    /// FIFO queue used as the temporary holding area between find and eviction.
    pub queue: VecDeque<TestLaneBlock>,
    /// Number of keys per leaf, `Y`.
    pub keys_per_leaf: usize,
}

/// The number of keys.
fn checked_key_count(keys_per_leaf: usize, leaf_count: usize) -> (r: usize)
    requires
        keys_per_leaf * leaf_count <= usize::MAX,
    ensures
        r == keys_per_leaf * leaf_count,
{
    keys_per_leaf * leaf_count
}

impl TestLaneOram {
    /// The number of keys per leaf.
    pub open spec fn leaf_keys(&self) -> int {
        self.keys_per_leaf as int
    }

    /// Every key has a position in the tree, and the queue holds known keys.
    pub open spec fn wf(&self) -> bool {
        &&& self.tree.wf()
        &&& 0 < self.leaf_keys() <= self.tree.node_size()
        &&& self.position_map@.len() == self.leaf_keys() * self.tree.leaves()
        &&& self.inserted@.len() == self.position_map@.len()
        &&& forall|k: int|
            0 <= k < self.position_map@.len() ==> #[trigger] self.position_map@[k]
                < self.tree.leaves()
        &&& forall|i: int|
            0 <= i < self.queue@.len() ==> (#[trigger] self.queue@[i]).key
                < self.position_map@.len()
    }

    /// What is left when the path to `leaf` was evicted: the slots of the tree and the
    /// queue.
    pub open spec fn evicted(&self, leaf: int) -> (Seq<Slot<TestLaneBlock>>, Seq<TestLaneBlock>) {
        let (s, q) = root_filled(
            self.tree@,
            self.queue@,
            self.position_map@,
            self.tree.node_size(),
        );
        let t = lanes_evicted(
            s,
            self.tree.path(leaf),
            self.tree.node_size(),
            leaf,
            self.tree.depth(),
            self.tree.fanout(),
            self.tree.node_size(),
        );
        (t, q)
    }

    /// The state between the removal of `key` and the eviction of its old path: the key
    /// has its new position, and its block waits at the end of the queue unless it was
    /// there already.
    pub open spec fn relabelled(&self, before: &Self, key: K, new_pos: usize) -> bool {
        let z = before.tree.node_size();
        let at = path_places(before.tree.path(before.position_map@[key as int] as int), z);
        let i = first_holding(before.tree@, at, key, 0);
        &&& self.tree.wf()
        &&& self.tree.same_shape(&before.tree)
        &&& self.leaf_keys() == before.leaf_keys()
        &&& self.tree@ == (if i < at.len() {
            before.tree@.update(at[i], Slot::Empty)
        } else {
            before.tree@
        })
        &&& self.position_map@ == before.position_map@.update(key as int, new_pos)
        &&& self.inserted@ == before.inserted@.update(key as int, true)
        &&& self.queue@ == (if !before.inserted@[key as int] || i < at.len() {
            before.queue@.push(TestLaneBlock { key, pos: new_pos })
        } else {
            before.queue@
        })
    }

    /// Nothing is inserted, and tree and queue are empty.
    pub open spec fn is_fresh(
        &self,
        levels: int,
        branching_factor: int,
        slots_per_node: int,
        keys_per_leaf: int,
    ) -> bool {
        &&& self.wf()
        &&& self.tree.depth() == levels
        &&& self.tree.fanout() == branching_factor
        &&& self.tree.node_size() == slots_per_node
        &&& self.leaf_keys() == keys_per_leaf
        &&& forall|i: int| 0 <= i < self.tree@.len() ==> #[trigger] self.tree@[i] is Empty
        &&& self.queue@ == Seq::<TestLaneBlock>::empty()
        &&& forall|k: int| 0 <= k < self.inserted@.len() ==> !#[trigger] self.inserted@[k]
    }

    /// Creates an empty mock lane ORAM. Every key starts with a random position.
    pub fn new(
        levels: usize,
        branching_factor: usize,
        slots_per_node: usize,
        keys_per_leaf: usize,
    ) -> (r: Self)
        requires
            0 < keys_per_leaf <= slots_per_node,
            0 < branching_factor,
            levels < usize::MAX,
            full_nodes(branching_factor as int, levels + 1) * slots_per_node <= usize::MAX,
            keys_per_leaf * full_width(levels as int, branching_factor as int) <= usize::MAX,
        ensures
            r.is_fresh(
                levels as int,
                branching_factor as int,
                slots_per_node as int,
                keys_per_leaf as int,
            ),
    {
        let tree: PerfectBaryTree<TestLaneBlock> = PerfectBaryTree::new(
            levels,
            branching_factor,
            slots_per_node,
        );
        let leaf_count: usize = tree.leaf_count();
        let key_count: usize = checked_key_count(keys_per_leaf, leaf_count);
        proof {
            tree.lemma_shape();
        }
        let mut position_map: Vec<usize> = Vec::new();
        let mut k: usize = 0;
        while k < key_count
            invariant
                k <= key_count,
                0 < leaf_count,
                position_map@.len() == k,
                forall|j: int| 0 <= j < k ==> #[trigger] position_map@[j] < leaf_count,
            decreases key_count - k,
        {
            position_map.push(random_below(leaf_count));
            k += 1;
        }
        TestLaneOram {
            tree,
            position_map,
            inserted: filled(false, key_count),
            queue: VecDeque::new(),
            keys_per_leaf,
        }
    }

    /// Returns the number of keys per leaf, `Y`.
    pub fn keys_per_leaf(&self) -> (r: usize)
        ensures
            r == self.leaf_keys(),
    {
        self.keys_per_leaf
    }

    /// Returns the valid exclusive upper bound for positions, `B^l`.
    pub fn pos_bound(&self) -> (r: usize)
        requires
            self.tree.wf(),
        ensures
            r == self.tree.leaves(),
    {
        self.tree.leaf_count()
    }

    /// Returns the valid exclusive upper bound for keys, `Y * B^l`.
    pub fn key_bound(&self) -> (r: usize)
        ensures
            r == self.position_map@.len(),
    {
        self.position_map.len()
    }

    /// Returns the current position map value for `key`.
    pub fn position_for_key(&self, key: K) -> (r: usize)
        requires
            key < self.position_map@.len(),
        ensures
            r == self.position_map@[key as int],
    {
        self.position_map[key]
    }

    /// Performs a mock insert operation with a random new position.
    pub fn insert(&mut self, key: K) -> (r: InsertResult)
        requires
            old(self).wf(),
            key < old(self).position_map@.len(),
        ensures
            old(self).stepped(final(self), key, r),
    {
        proof {
            self.tree.lemma_shape();
        }
        let bound: usize = self.pos_bound();
        let new_pos: usize = random_below(bound);
        self.insert_with_new_pos(key, new_pos)
    }

    /// What an insert of `key` does: the key moves to `r.new_pos` and the path to its
    /// old position is evicted.
    pub open spec fn stepped(&self, after: &Self, key: K, r: InsertResult) -> bool {
        let z = self.tree.node_size();
        let path = self.tree.path(self.position_map@[key as int] as int);
        let at = path_places(path, z);
        let i = first_holding(self.tree@, at, key, 0);
        &&& after.wf()
        &&& after.tree.same_shape(&self.tree)
        &&& after.leaf_keys() == self.leaf_keys()
        &&& r.new_pos < self.tree.leaves()
        &&& r.old_pos == self.position_map@[key as int]
        &&& after.position_map@ == self.position_map@.update(key as int, r.new_pos)
        &&& after.inserted@ == self.inserted@.update(key as int, true)
        &&& exists|mid: Self| #[trigger]
            mid.relabelled(self, key, r.new_pos) && (after.tree@, after.queue@) == mid.evicted(
                r.old_pos as int,
            )
        &&& r.queue_len == after.queue@.len()
        &&& r.queue_len <= self.queue@.len() + 1
        &&& i >= at.len() ==> r.removed_from is None
        &&& i < at.len() ==> r.removed_from == Some(
            SlotLocation { node_index: path[i / z], slot_index: (i % z) as usize },
        )
    }

    /// Performs a mock insert operation with a caller-chosen new position.
    pub fn insert_with_new_pos(&mut self, key: K, new_pos: usize) -> (r: InsertResult)
        requires
            old(self).wf(),
            key < old(self).position_map@.len(),
            new_pos < old(self).tree.leaves(),
        ensures
            old(self).stepped(final(self), key, r),
            r.new_pos == new_pos,
    {
        let mut path: Vec<usize> = Vec::new();
        self.insert_with_new_pos_using_path(key, new_pos, &mut path)
    }

    fn insert_with_new_pos_using_path(
        &mut self,
        key: K,
        new_pos: usize,
        path: &mut Vec<usize>,
    ) -> (r: InsertResult)
        requires
            old(self).wf(),
            key < old(self).position_map@.len(),
            new_pos < old(self).tree.leaves(),
        ensures
            old(self).stepped(final(self), key, r),
            r.new_pos == new_pos,
    {
        let ghost before = *self;
        let old_pos: usize = self.position_map[key];
        let known: bool = self.tree.path_node_indices_into(old_pos, path);
        let removed_from: Option<SlotLocation> = self.remove_key_from_path(key, path, old_pos);
        let first_insert: bool = !self.inserted[key];
        self.inserted.set(key, true);
        self.position_map.set(key, new_pos);
        if first_insert || removed_from.is_some() {
            self.queue.push_back(TestLaneBlock::new(key, new_pos));
        }
        let ghost mid = *self;
        proof {
            assert(mid.relabelled(&before, key, new_pos));
            assert(mid.tree.path(old_pos as int) =~= before.tree.path(old_pos as int));
            assert(mid.wf()) by {
                assert forall|i: int| 0 <= i < mid.queue@.len() implies (
                #[trigger] mid.queue@[i]).key < mid.position_map@.len() by {
                    if i < before.queue@.len() {
                        assert(mid.queue@[i] == before.queue@[i]);
                    }
                }
                assert forall|k: int| 0 <= k < mid.position_map@.len() implies
                    #[trigger] mid.position_map@[k] < mid.tree.leaves() by {
                    if k != key {
                        assert(mid.position_map@[k] == before.position_map@[k]);
                    }
                }
            }
        }
        self.evict_path_with_nodes(old_pos, path);
        let r = InsertResult { old_pos, new_pos, removed_from, queue_len: self.queue.len() };
        proof {
            assert((self.tree@, self.queue@) == mid.evicted(old_pos as int));
            assert(mid.relabelled(&before, key, r.new_pos));
        }
        r
    }

    /// Evicts queued/root-path blocks on the path to `leaf_pos`.
    pub fn evict_path(&mut self, leaf_pos: usize)
        requires
            old(self).wf(),
            leaf_pos < old(self).tree.leaves(),
        ensures
            final(self).wf(),
            final(self).tree.same_shape(&old(self).tree),
            final(self).leaf_keys() == old(self).leaf_keys(),
            final(self).position_map == old(self).position_map,
            final(self).inserted == old(self).inserted,
            (final(self).tree@, final(self).queue@) == old(self).evicted(leaf_pos as int),
    {
        let mut path: Vec<usize> = Vec::new();
        let known: bool = self.tree.path_node_indices_into(leaf_pos, &mut path);
        self.evict_path_with_nodes(leaf_pos, &path);
    }

    fn evict_path_with_nodes(&mut self, leaf_pos: usize, path: &Vec<usize>)
        requires
            old(self).wf(),
            leaf_pos < old(self).tree.leaves(),
            path@ == old(self).tree.path(leaf_pos as int),
        ensures
            final(self).wf(),
            final(self).tree.same_shape(&old(self).tree),
            final(self).leaf_keys() == old(self).leaf_keys(),
            final(self).position_map == old(self).position_map,
            final(self).inserted == old(self).inserted,
            (final(self).tree@, final(self).queue@) == old(self).evicted(leaf_pos as int),
            final(self).queue@.len() <= old(self).queue@.len(),
    {
        self.fill_root_from_queue();
        let ghost filled_slots = self.tree@;
        let ghost b = self.tree.fanout();
        let ghost d = self.tree.depth();
        let z: usize = self.tree.slots_per_node();
        let mut lane: usize = 0;
        while lane < z
            invariant
                lane <= z,
                self.wf(),
                z == self.tree.node_size(),
                b == self.tree.fanout(),
                d == self.tree.depth(),
                leaf_pos < self.tree.leaves(),
                path@ == self.tree.path(leaf_pos as int),
                self.tree.same_shape(&old(self).tree),
                self.leaf_keys() == old(self).leaf_keys(),
                self.position_map == old(self).position_map,
                self.inserted == old(self).inserted,
                self.queue@ == old(self).evicted(leaf_pos as int).1,
                self.queue@.len() <= old(self).queue@.len(),
                self.tree@ == lanes_evicted(
                    filled_slots,
                    path@,
                    z as int,
                    leaf_pos as int,
                    d,
                    b,
                    lane as int,
                ),
            decreases z - lane,
        {
            self.evict_lane(leaf_pos, lane, path);
            lane += 1;
        }
    }

    /// Empties the first slot on the path that holds `key`.
    fn remove_key_from_path(&mut self, key: K, path: &Vec<usize>, leaf: usize) -> (r: Option<
        SlotLocation,
    >)
        requires
            old(self).tree.wf(),
            leaf < old(self).tree.leaves(),
            path@ == old(self).tree.path(leaf as int),
        ensures
            final(self).tree.wf(),
            final(self).tree.same_shape(&old(self).tree),
            final(self).leaf_keys() == old(self).leaf_keys(),
            final(self).position_map == old(self).position_map,
            final(self).inserted == old(self).inserted,
            final(self).queue == old(self).queue,
            ({
                let z = old(self).tree.node_size();
                let at = path_places(path@, z);
                let i = first_holding(old(self).tree@, at, key, 0);
                &&& final(self).tree@ == (if i < at.len() {
                    old(self).tree@.update(at[i], Slot::Empty)
                } else {
                    old(self).tree@
                })
                &&& i >= at.len() ==> r is None
                &&& i < at.len() ==> r == Some(
                    SlotLocation { node_index: path@[i / z], slot_index: (i % z) as usize },
                )
            }),
    {
        let slots_per_node: usize = self.tree.slots_per_node;
        let ghost z = slots_per_node as int;
        let ghost at = path_places(path@, z);
        let mut d: usize = 0;
        proof {
            self.tree.lemma_shape();
            assert(0 * z == 0);
            assert(path@.len() * z >= 0) by (nonlinear_arith)
                requires
                    z >= 0,
            ;
        }
        while d < path.len()
            invariant
                d <= path.len(),
                self == old(self),
                self.tree.wf(),
                z == slots_per_node == self.tree.node_size(),
                1 <= z,
                leaf < self.tree.leaves(),
                path@ == self.tree.path(leaf as int),
                at == path_places(path@, z),
                0 <= d * z <= path@.len() * z,
                first_holding(self.tree@, at, key, 0) == first_holding(
                    self.tree@,
                    at,
                    key,
                    d * z,
                ),
            decreases path.len() - d,
        {
            proof {
                self.tree.lemma_on_path(d as int, leaf as int);
                self.tree.lemma_node_range(self.tree.node_on_path(d as int, leaf as int));
                assert((d + 1) * z == d * z + z && (d + 1) * z <= path@.len() * z)
                    by (nonlinear_arith)
                    requires
                        d + 1 <= path@.len(),
                        z >= 1,
                ;
            }
            let node_index: usize = path[d];
            let start: usize = node_index * slots_per_node;
            let mut slot_index: usize = 0;
            while slot_index < slots_per_node
                invariant
                    slot_index <= slots_per_node,
                    self == old(self),
                    self.tree.wf(),
                    z == slots_per_node == self.tree.node_size(),
                    1 <= z,
                    d < path.len(),
                    node_index == path@[d as int],
                    start == node_index * z,
                    start + z <= self.tree@.len() <= usize::MAX,
                    at == path_places(path@, z),
                    (d + 1) * z == d * z + z,
                    0 <= d * z,
                    (d + 1) * z <= path@.len() * z,
                    first_holding(self.tree@, at, key, 0) == first_holding(
                        self.tree@,
                        at,
                        key,
                        d * z + slot_index,
                    ),
                decreases slots_per_node - slot_index,
            {
                let ghost i = d * z + slot_index;
                proof {
                    vstd::arithmetic::div_mod::lemma_fundamental_div_mod_converse(
                        i,
                        z,
                        d as int,
                        slot_index as int,
                    );
                    assert(at[i] == start + slot_index);
                }
                let here: bool = match &self.tree.slots[start + slot_index] {
                    Slot::Full(block) => block.key == key,
                    Slot::Empty => false,
                };
                if here {
                    self.tree.slots.set(start + slot_index, Slot::Empty);
                    return Some(SlotLocation { node_index, slot_index });
                }
                slot_index += 1;
            }
            d += 1;
        }
        None
    }

    /// Moves blocks from the front of the queue to empty root slots.
    fn fill_root_from_queue(&mut self)
        requires
            old(self).wf(),
        ensures
            final(self).wf(),
            final(self).tree.same_shape(&old(self).tree),
            final(self).leaf_keys() == old(self).leaf_keys(),
            final(self).position_map == old(self).position_map,
            final(self).inserted == old(self).inserted,
            (final(self).tree@, final(self).queue@) == root_filled(
                old(self).tree@,
                old(self).queue@,
                old(self).position_map@,
                old(self).tree.node_size(),
            ),
            final(self).tree@ == root_after(
                old(self).tree@,
                old(self).queue@,
                old(self).position_map@,
                old(self).tree.node_size(),
            ),
            final(self).queue@ == old(self).queue@.skip(
                taken(old(self).tree@, old(self).queue@, old(self).tree.node_size()),
            ),
            final(self).queue@.len() == 0 || forall|i: int|
                0 <= i < old(self).tree.node_size() ==> #[trigger] final(self).tree@[i] is Full,
            final(self).queue@.len() <= old(self).queue@.len(),
    {
        let z: usize = self.tree.slots_per_node;
        proof {
            self.tree.lemma_shape();
            self.tree.lemma_node_range(0);
            assert(0 * self.tree.node_size() == 0);
        }
        let mut slot_index: usize = 0;
        while slot_index < z
            invariant
                slot_index <= z,
                self.wf(),
                z == self.tree.node_size(),
                z <= self.tree@.len(),
                self.tree.same_shape(&old(self).tree),
                self.leaf_keys() == old(self).leaf_keys(),
                self.position_map == old(self).position_map,
                self.inserted == old(self).inserted,
                (self.tree@, self.queue@) == root_filled(
                    old(self).tree@,
                    old(self).queue@,
                    old(self).position_map@,
                    slot_index as int,
                ),
                self.queue@.len() <= old(self).queue@.len(),
            decreases z - slot_index,
        {
            if self.tree.slots[slot_index].is_empty() {
                let ghost q = self.queue@;
                if let Some(block) = self.queue.pop_front() {
                    proof {
                        assert(block == q[0]);
                        assert(q[0].key < self.position_map@.len());
                        assert forall|i: int| 0 <= i < self.queue@.len() implies (
                        #[trigger] self.queue@[i]).key < self.position_map@.len() by {
                            assert(self.queue@[i] == q[i + 1]);
                        }
                    }
                    let pos: usize = self.position_map[block.key];
                    self.tree.slots.set(slot_index, Slot::Full(TestLaneBlock::new(block.key, pos)));
                    proof {
                        assert(self.queue@ =~= q.drop_first());
                    }
                }
            }
            slot_index += 1;
        }
        proof {
            lemma_root_takes(
                old(self).tree@,
                old(self).queue@,
                old(self).position_map@,
                old(self).tree.node_size(),
            );
        }
    }

    /// Evicts one lane of the path to `leaf_pos` from its deepest empty slot up.
    fn evict_lane(&mut self, leaf_pos: usize, lane: usize, path: &Vec<usize>)
        requires
            old(self).wf(),
            leaf_pos < old(self).tree.leaves(),
            lane < old(self).tree.node_size(),
            path@ == old(self).tree.path(leaf_pos as int),
        ensures
            final(self).wf(),
            final(self).tree.same_shape(&old(self).tree),
            final(self).leaf_keys() == old(self).leaf_keys(),
            final(self).position_map == old(self).position_map,
            final(self).inserted == old(self).inserted,
            final(self).queue == old(self).queue,
            ({
                let at = lane_places(path@, old(self).tree.node_size(), lane as int);
                final(self).tree@ == chain(
                    old(self).tree@,
                    at,
                    leaf_pos as int,
                    old(self).tree.depth(),
                    old(self).tree.fanout(),
                    deepest_empty(old(self).tree@, at, path@.len() as int),
                )
            }),
    {
        let slots_per_node: usize = self.tree.slots_per_node;
        let levels: usize = self.tree.levels;
        let branching_factor: usize = self.tree.branching_factor;
        let ghost z = slots_per_node as int;
        let ghost at = lane_places(path@, z, lane as int);
        let ghost leaf = leaf_pos as int;
        let ghost b = branching_factor as int;
        let ghost s0 = self.tree@;
        proof {
            self.tree.lemma_shape();
        }
        let mut e: usize = path.len();
        while e > 0 && !self.lane_slot(path, e - 1, lane, leaf_pos).is_empty()
            invariant
                e <= path.len(),
                self == old(self),
                self.wf(),
                z == slots_per_node == self.tree.node_size(),
                lane < z,
                leaf_pos < self.tree.leaves(),
                path@ == self.tree.path(leaf_pos as int),
                at == lane_places(path@, z, lane as int),
                s0 == self.tree@,
                deepest_empty(s0, at, path@.len() as int) == deepest_empty(s0, at, e as int),
            decreases e,
        {
            e -= 1;
        }
        if e == 0 {
            return;
        }
        let mut empty_path_index: usize = e - 1;
        while empty_path_index > 0
            invariant
                empty_path_index < path.len(),
                self.wf(),
                self.tree.same_shape(&old(self).tree),
                self.leaf_keys() == old(self).leaf_keys(),
                self.position_map == old(self).position_map,
                self.inserted == old(self).inserted,
                self.queue == old(self).queue,
                z == slots_per_node == self.tree.node_size(),
                b == branching_factor == self.tree.fanout(),
                levels == self.tree.depth(),
                leaf == leaf_pos,
                lane < z,
                leaf_pos < self.tree.leaves(),
                path@ == self.tree.path(leaf_pos as int),
                at == lane_places(path@, z, lane as int),
                chain(
                    s0,
                    at,
                    leaf,
                    levels as int,
                    b,
                    deepest_empty(s0, at, path@.len() as int),
                ) == chain(self.tree@, at, leaf, levels as int, b, empty_path_index as int),
            decreases empty_path_index,
        {
            let ghost s = self.tree@;
            let mut candidate: usize = empty_path_index;
            let mut found: bool = false;
            while candidate > 0 && !found
                invariant
                    candidate <= empty_path_index < path.len(),
                    self.wf(),
                    s == self.tree@,
                    z == slots_per_node == self.tree.node_size(),
                    b == branching_factor == self.tree.fanout(),
                    levels == self.tree.depth(),
                    leaf == leaf_pos,
                    lane < z,
                    leaf_pos < self.tree.leaves(),
                    path@ == self.tree.path(leaf_pos as int),
                    at == lane_places(path@, z, lane as int),
                    found ==> candidate < empty_path_index && source_for(
                        s,
                        at,
                        leaf,
                        levels as int,
                        b,
                        empty_path_index as int,
                        empty_path_index as int,
                    ) == candidate,
                    !found ==> source_for(
                        s,
                        at,
                        leaf,
                        levels as int,
                        b,
                        empty_path_index as int,
                        empty_path_index as int,
                    ) == source_for(
                        s,
                        at,
                        leaf,
                        levels as int,
                        b,
                        empty_path_index as int,
                        candidate as int,
                    ),
                decreases candidate,
            {
                candidate -= 1;
                proof {
                    self.tree.lemma_shape();
                }
                if let Slot::Full(block) = self.lane_slot(path, candidate, lane, leaf_pos) {
                    let depth: usize = common_prefix_depth(
                        block.pos,
                        leaf_pos,
                        levels,
                        branching_factor,
                    );
                    if depth >= empty_path_index {
                        found = true;
                    }
                }
            }
            if found {
                proof {
                    self.tree.lemma_path_descends(
                        candidate as int,
                        empty_path_index as int,
                        leaf,
                    );
                    self.tree.lemma_shape();
                    self.tree.lemma_on_path(candidate as int, leaf);
                    self.tree.lemma_on_path(empty_path_index as int, leaf);
                    assert(path@[candidate as int] < path@[empty_path_index as int]);
                }
                let to: usize = self.lane_place(path, empty_path_index, lane, leaf_pos);
                let from: usize = self.lane_place(path, candidate, lane, leaf_pos);
                let moved: Slot<TestLaneBlock> = take_slot(&mut self.tree.slots, from);
                self.tree.slots.set(to, moved);
                proof {
                    assert(from == at[candidate as int] && to == at[empty_path_index as int]);
                    assert(from != to) by {
                        assert(path@[candidate as int] * z < path@[empty_path_index as int] * z)
                            by (nonlinear_arith)
                            requires
                                path@[candidate as int] < path@[empty_path_index as int],
                                z >= 1,
                        ;
                    }
                    assert(self.tree@ =~= s.update(to as int, s[from as int]).update(
                        from as int,
                        Slot::Empty,
                    ));
                }
                empty_path_index = candidate;
            } else {
                empty_path_index -= 1;
            }
        }
    }

    /// Where the slot of `lane` at level `d` of a path is in the tree.
    fn lane_place(&self, path: &Vec<usize>, d: usize, lane: usize, leaf: usize) -> (r: usize)
        requires
            self.wf(),
            d < path.len(),
            lane < self.tree.node_size(),
            leaf < self.tree.leaves(),
            path@ == self.tree.path(leaf as int),
        ensures
            r == lane_places(path@, self.tree.node_size(), lane as int)[d as int],
            r < self.tree@.len(),
    {
        proof {
            self.tree.lemma_shape();
            self.tree.lemma_on_path(d as int, leaf as int);
            self.tree.lemma_node_range(self.tree.node_on_path(d as int, leaf as int));
        }
        path[d] * self.tree.slots_per_node + lane
    }

    /// The slot of `lane` at level `d` of a path.
    fn lane_slot(&self, path: &Vec<usize>, d: usize, lane: usize, leaf: usize) -> (r: &Slot<
        TestLaneBlock,
    >)
        requires
            self.wf(),
            d < path.len(),
            lane < self.tree.node_size(),
            leaf < self.tree.leaves(),
            path@ == self.tree.path(leaf as int),
        ensures
            *r == self.tree@[lane_places(path@, self.tree.node_size(), lane as int)[d as int]],
    {
        let place: usize = self.lane_place(path, d, lane, leaf);
        &self.tree.slots[place]
    }

    /// After an insert the key has its new position, and no other key has moved.
    pub proof fn lemma_insert_moves_one_key(&self, after: &Self, key: K, r: InsertResult, other: K)
        requires
            self.stepped(after, key, r),
            key < self.position_map@.len(),
            other < self.position_map@.len(),
        ensures
            after.position_map@[key as int] == r.new_pos,
            other != key ==> after.position_map@[other as int] == self.position_map@[other as int],
    {
    }
}

/// How often `k` occurs.
pub open spec fn occurrences(s: Seq<usize>, k: usize) -> nat
    decreases s.len(),
{
    if s.len() == 0 {
        0
    } else {
        occurrences(s.drop_last(), k) + (if s.last() == k {
            1nat
        } else {
            0nat
        })
    }
}

/// Table `frequencies` counts the values of `s`.
pub open spec fn counts(frequencies: Seq<usize>, s: Seq<usize>) -> bool {
    &&& forall|k: int|
        0 <= k < frequencies.len() ==> #[trigger] frequencies[k] == occurrences(s, k as usize)
    &&& forall|i: int| 0 <= i < s.len() ==> #[trigger] s[i] < frequencies.len()
}

/// A value that is not there does not occur.
proof fn lemma_occurrences(s: Seq<usize>, k: usize)
    ensures
        occurrences(s, k) <= s.len(),
        occurrences(s, k) > 0 <==> s.contains(k),
    decreases s.len(),
{
    if s.len() > 0 {
        let t = s.drop_last();
        lemma_occurrences(t, k);
        if s.contains(k) {
            let i = choose|i: int| 0 <= i < s.len() && s[i] == k;
            if i < t.len() {
                assert(t[i] == k);
            }
        }
        if t.contains(k) {
            let i = choose|i: int| 0 <= i < t.len() && t[i] == k;
            assert(s[i] == k);
        }
        if s.last() == k {
            assert(s[s.len() - 1] == k);
        }
    }
}

/// Counts one more value.
fn record(frequencies: &mut Vec<usize>, value: usize, Ghost(s): Ghost<Seq<usize>>)
    requires
        counts(old(frequencies)@, s),
        s.len() < usize::MAX,
        value < usize::MAX,
    ensures
        counts(final(frequencies)@, s.push(value)),
{
    let ghost before = frequencies@;
    while frequencies.len() <= value
        invariant
            value < usize::MAX,
            before.len() <= frequencies@.len(),
            forall|k: int| 0 <= k < before.len() ==> #[trigger] frequencies@[k] == before[k],
            forall|k: int| before.len() <= k < frequencies@.len() ==> #[trigger] frequencies@[k] == 0,
        decreases value + 1 - frequencies.len(),
    {
        frequencies.push(0);
    }
    let ghost grown = frequencies@;
    proof {
        assert forall|k: int| 0 <= k < grown.len() implies #[trigger] grown[k] == occurrences(
            s,
            k as usize,
        ) by {
            lemma_occurrences(s, k as usize);
            if k >= before.len() && s.contains(k as usize) {
                let i = choose|i: int| 0 <= i < s.len() && s[i] == k as usize;
                assert(s[i] < before.len());
            }
        }
        lemma_occurrences(s, value);
    }
    let count: usize = frequencies[value];
    frequencies.set(value, count + 1);
    proof {
        let t = s.push(value);
        assert(t.drop_last() =~= s);
        assert forall|k: int| 0 <= k < frequencies@.len() implies #[trigger] frequencies@[k]
            == occurrences(t, k as usize) by {
            assert(grown[k] == occurrences(s, k as usize));
        }
        assert forall|i: int| 0 <= i < t.len() implies #[trigger] t[i] < frequencies@.len() by {
            if i < s.len() {
                assert(s[i] < before.len());
            }
        }
    }
}

/// The nonzero entries of a table of frequencies.
pub fn nonzero_frequencies(frequencies: &Vec<usize>) -> (r: BTreeMap<usize, usize>)
    ensures
        forall|k: usize|
            #![trigger r@.contains_key(k)]
            r@.contains_key(k) <==> k < frequencies@.len() && frequencies@[k as int] != 0,
        forall|k: usize| #[trigger] r@.contains_key(k) ==> r@[k] == frequencies@[k as int],
{
    broadcast use vstd::std_specs::btree::group_btree_axioms;

    let mut map: BTreeMap<usize, usize> = BTreeMap::new();
    let mut k: usize = 0;
    while k < frequencies.len()
        invariant
            k <= frequencies.len(),
            forall|j: usize|
                #![trigger map@.contains_key(j)]
                map@.contains_key(j) <==> j < k && frequencies@[j as int] != 0,
            forall|j: usize| #[trigger] map@.contains_key(j) ==> map@[j] == frequencies@[j as int],
        decreases frequencies.len() - k,
    {
        if frequencies[k] != 0 {
            map.insert(k, frequencies[k]);
        }
        k += 1;
    }
    map
}

/// The key of insert `i` of a simulation with `key_count` keys: every key once, and then
/// the keys round and round.
pub open spec fn simulated_key(key_count: int, i: int) -> K {
    if i < key_count {
        i as K
    } else {
        ((i - key_count) % key_count) as K
    }
}

/// Insert `i` leads from state `i` to the state after it, with result `i`.
pub open spec fn simulated_step(
    states: Seq<TestLaneOram>,
    results: Seq<InsertResult>,
    key_count: int,
    i: int,
) -> bool {
    states[i].stepped(&states[i + 1], simulated_key(key_count, i), results[i])
}

/// The inserts of a simulation, one for each of `results`, from state to state.
pub open spec fn simulated(
    states: Seq<TestLaneOram>,
    results: Seq<InsertResult>,
    key_count: int,
) -> bool {
    &&& states.len() == results.len() + 1
    &&& forall|i: int|
        0 <= i < results.len() ==> #[trigger] simulated_step(states, results, key_count, i)
}

/// A simulation from a fresh ORAM on, with `iterations` inserts after the first of every
/// key.
pub open spec fn simulation(
    states: Seq<TestLaneOram>,
    results: Seq<InsertResult>,
    levels: int,
    branching_factor: int,
    slots_per_node: int,
    keys_per_leaf: int,
    iterations: int,
) -> bool {
    let key_count = keys_per_leaf * full_width(levels, branching_factor);
    &&& states[0].is_fresh(levels, branching_factor, slots_per_node, keys_per_leaf)
    &&& simulated(states, results, key_count)
    &&& results.len() == key_count + iterations
}

/// `table` has the values of `lengths`, each with its number of occurrences.
pub open spec fn tabulates(table: Map<usize, usize>, lengths: Seq<usize>) -> bool {
    &&& forall|k: usize|
        #![trigger table.contains_key(k)]
        table.contains_key(k) <==> lengths.contains(k)
    &&& forall|k: usize| #[trigger]
        table.contains_key(k) ==> table[k] == occurrences(lengths, k)
}

/// The queue lengths after the inserts from number `first` on.
pub open spec fn queue_lengths(results: Seq<InsertResult>, first: int) -> Seq<usize> {
    results.skip(first).map_values(|r: InsertResult| r.queue_len)
}

/// One more insert.
proof fn lemma_simulated_more(
    states: Seq<TestLaneOram>,
    results: Seq<InsertResult>,
    key_count: int,
    after: TestLaneOram,
    r: InsertResult,
)
    requires
        simulated(states, results, key_count),
        states.last().stepped(&after, simulated_key(key_count, results.len() as int), r),
    ensures
        simulated(states.push(after), results.push(r), key_count),
{
    let more = states.push(after);
    let all = results.push(r);
    assert forall|i: int| 0 <= i < all.len() implies #[trigger] simulated_step(
        more,
        all,
        key_count,
        i,
    ) by {
        if i < results.len() {
            assert(simulated_step(states, results, key_count, i));
        }
    }
}

/// Simulates queue growth and returns queue-size frequencies.
///
/// Parameters are `B`, `l`, `Y`, `Z`, and `N`, respectively. Internally keys are
/// represented as `0..Y * B^l`, which covers the full mathematical key universe of size
/// `Y * B^l`. Every key is inserted once, and then one key after another; the frequencies
/// are those of the queue lengths after these. The positions are random.
pub fn queue_size_frequencies(
    branching_factor: usize,
    levels: usize,
    keys_per_leaf: usize,
    slots_per_node: usize,
    iterations: usize,
) -> (r: BTreeMap<usize, usize>)
    requires
        0 < keys_per_leaf <= slots_per_node,
        0 < branching_factor,
        levels < usize::MAX,
        full_nodes(branching_factor as int, levels + 1) * slots_per_node <= usize::MAX,
        keys_per_leaf * full_width(levels as int, branching_factor as int) + iterations
            < usize::MAX,
    ensures
        exists|states: Seq<TestLaneOram>, results: Seq<InsertResult>|
            {
                &&& #[trigger] simulation(
                    states,
                    results,
                    levels as int,
                    branching_factor as int,
                    slots_per_node as int,
                    keys_per_leaf as int,
                    iterations as int,
                )
                &&& tabulates(
                    r@,
                    queue_lengths(
                        results,
                        keys_per_leaf * full_width(levels as int, branching_factor as int),
                    ),
                )
            },
        forall|k: usize| #[trigger]
            r@.contains_key(k) ==> k <= keys_per_leaf * full_width(
                levels as int,
                branching_factor as int,
            ) + iterations,
{
    let mut oram: TestLaneOram = TestLaneOram::new(
        levels,
        branching_factor,
        slots_per_node,
        keys_per_leaf,
    );
    let key_count: usize = oram.key_bound();
    let pos_count: usize = oram.pos_bound();
    let mut path: Vec<usize> = Vec::new();
    let ghost fresh = oram;
    let ghost mut states = seq![oram];
    let ghost mut results = Seq::<InsertResult>::empty();
    let ghost kc = key_count as int;
    proof {
        oram.tree.lemma_shape();
        assert(keys_per_leaf * pos_count >= 1) by (nonlinear_arith)
            requires
                keys_per_leaf >= 1,
                pos_count >= 1,
        ;
    }
    let mut key: usize = 0;
    while key < key_count
        invariant
            key <= key_count,
            0 < pos_count,
            oram.wf(),
            key_count == oram.position_map@.len(),
            pos_count == oram.tree.leaves(),
            oram.queue@.len() <= key,
            kc == key_count,
            simulated(states, results, kc),
            results.len() == key,
            states[0] == fresh,
            states.last() == oram,
        decreases key_count - key,
    {
        let new_pos: usize = random_below(pos_count);
        let result: InsertResult = oram.insert_with_new_pos_using_path(key, new_pos, &mut path);
        proof {
            lemma_simulated_more(states, results, kc, oram, result);
            states = states.push(oram);
            results = results.push(result);
        }
        key += 1;
    }
    let mut frequencies: Vec<usize> = Vec::new();
    let ghost mut lengths = Seq::<usize>::empty();
    assert(queue_lengths(results, kc) =~= lengths);
    let mut iteration: usize = 0;
    while iteration < iterations
        invariant
            iteration <= iterations,
            0 < pos_count,
            0 < key_count,
            key_count + iterations < usize::MAX,
            oram.wf(),
            key_count == oram.position_map@.len(),
            pos_count == oram.tree.leaves(),
            oram.queue@.len() <= key_count + iteration,
            lengths.len() == iteration,
            counts(frequencies@, lengths),
            forall|i: int| 0 <= i < iteration ==> #[trigger] lengths[i] <= key_count + i + 1,
            kc == key_count,
            simulated(states, results, kc),
            results.len() == key_count + iteration,
            states[0] == fresh,
            states.last() == oram,
            lengths == queue_lengths(results, kc),
        decreases iterations - iteration,
    {
        let key: usize = iteration % key_count;
        let new_pos: usize = random_below(pos_count);
        let result: InsertResult = oram.insert_with_new_pos_using_path(key, new_pos, &mut path);
        record(&mut frequencies, result.queue_len, Ghost(lengths));
        proof {
            lemma_simulated_more(states, results, kc, oram, result);
            assert(queue_lengths(results.push(result), kc) =~= lengths.push(result.queue_len));
            states = states.push(oram);
            results = results.push(result);
            lengths = lengths.push(result.queue_len);
        }
        iteration += 1;
    }
    let r: BTreeMap<usize, usize> = nonzero_frequencies(&frequencies);
    proof {
        assert forall|k: usize|
            #![trigger r@.contains_key(k)]
            r@.contains_key(k) <==> lengths.contains(k) by {
            lemma_occurrences(lengths, k);
            if lengths.contains(k) {
                let i = choose|i: int| 0 <= i < lengths.len() && lengths[i] == k;
                assert(lengths[i] < frequencies@.len());
                assert(frequencies@[k as int] == occurrences(lengths, k));
            }
            if k < frequencies@.len() {
                assert(frequencies@[k as int] == occurrences(lengths, k));
            }
        }
        assert forall|k: usize| #[trigger] r@.contains_key(k) implies r@[k] == occurrences(
            lengths,
            k,
        ) by {
            assert(frequencies@[k as int] == occurrences(lengths, k));
        }
        assert forall|k: usize| #[trigger] r@.contains_key(k) implies k <= key_count
            + iterations by {
            let i = choose|i: int| 0 <= i < lengths.len() && lengths[i] == k;
            assert(lengths[i] <= key_count + i + 1);
        }
        assert(kc == keys_per_leaf * full_width(levels as int, branching_factor as int));
        assert(simulation(
            states,
            results,
            levels as int,
            branching_factor as int,
            slots_per_node as int,
            keys_per_leaf as int,
            iterations as int,
        ));
    }
    r
}

} // verus!
