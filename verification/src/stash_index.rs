//! A dynamic set of stashed keys, grouped by label, that answers for a range of labels
//! which key is the lowest.
use std::collections::BTreeSet;
use vstd::arithmetic::power2::{is_pow2, pow2};
use vstd::prelude::*;
use crate::prelude::filled;

verus! {

/// The key of a slot that holds nothing.
pub const EMPTY_KEY: u32 = 0xffff_ffff;

/// `std::collections::BTreeSet::first`: the lowest element, if there is one.
#[verifier::external_body]
fn first_key(keys: &BTreeSet<u32>) -> (r: Option<u32>)
    ensures
        match r {
            Some(k) => keys@.contains(k) && forall|j: u32| #[trigger]
                keys@.contains(j) ==> k <= j,
            None => forall|j: u32| !#[trigger] keys@.contains(j),
        },
{
    keys.first().copied()
}

/// The lesser of two keys.
pub open spec fn lesser(a: u32, b: u32) -> u32 {
    if a <= b {
        a
    } else {
        b
    }
}

/// Key `m` is the lowest of `keys`, or none is there and it is [`EMPTY_KEY`].
pub open spec fn is_least(keys: Set<u32>, m: u32) -> bool {
    &&& m == EMPTY_KEY || keys.contains(m)
    &&& forall|j: u32| #[trigger] keys.contains(j) ==> m <= j
}

/// Key `m` is the lowest of the keys with labels from `start` to `end`, or none is there
/// and it is [`EMPTY_KEY`].
pub open spec fn is_lowest(keys: Seq<Set<u32>>, start: int, end: int, m: u32) -> bool {
    &&& m == EMPTY_KEY || exists|l: int| start <= l < end && #[trigger] keys[l].contains(m)
    &&& forall|l: int, j: u32| start <= l < end && #[trigger] keys[l].contains(j) ==> m <= j
}

/// The lowest keys of two neighbouring ranges give the lowest key of both.
proof fn lemma_lowest_of_both(
    keys: Seq<Set<u32>>,
    start: int,
    mid: int,
    end: int,
    a: u32,
    b: u32,
)
    requires
        start <= mid <= end,
        is_lowest(keys, start, mid, a),
        is_lowest(keys, mid, end, b),
    ensures
        is_lowest(keys, start, end, lesser(a, b)),
{
    let m = lesser(a, b);
    if m != EMPTY_KEY {
        if a <= b {
            let l = choose|l: int| start <= l < mid && #[trigger] keys[l].contains(a);
            assert(keys[l].contains(m));
        } else {
            let l = choose|l: int| mid <= l < end && #[trigger] keys[l].contains(b);
            assert(keys[l].contains(m));
        }
    }
}

/// The number of keys under all labels.
pub open spec fn key_count(keys: Seq<Set<u32>>) -> nat
    decreases keys.len(),
{
    if keys.len() == 0 {
        0
    } else {
        key_count(keys.drop_last()) + keys.last().len()
    }
}

/// Changing the keys of one label changes the count by as much.
proof fn lemma_key_count_update(keys: Seq<Set<u32>>, l: int, set: Set<u32>)
    requires
        0 <= l < keys.len(),
    ensures
        key_count(keys.update(l, set)) == key_count(keys) - keys[l].len() + set.len(),
    decreases keys.len(),
{
    let after = keys.update(l, set);
    if l == keys.len() - 1 {
        assert(after.drop_last() =~= keys.drop_last());
    } else {
        assert(after.drop_last() =~= keys.drop_last().update(l, set));
        lemma_key_count_update(keys.drop_last(), l, set);
    }
}

proof fn lemma_key_count_bound(keys: Seq<Set<u32>>, l: int)
    requires
        0 <= l < keys.len(),
    ensures
        keys[l].len() <= key_count(keys),
    decreases keys.len(),
{
    if l < keys.len() - 1 {
        lemma_key_count_bound(keys.drop_last(), l);
    }
}

proof fn lemma_no_keys(keys: Seq<Set<u32>>)
    requires
        forall|l: int| 0 <= l < keys.len() ==> #[trigger] keys[l] == Set::<u32>::empty(),
    ensures
        key_count(keys) == 0,
    decreases keys.len(),
{
    if keys.len() > 0 {
        lemma_no_keys(keys.drop_last());
    }
}

/// Node `i` is above node `index` in a binary heap.
pub open spec fn above(i: int, index: int) -> bool
    decreases index,
{
    index > 1 && (index / 2 == i || above(i, index / 2))
}

/// Dynamic set of stashed keys supporting the Circuit ORAM deepest-key tie rule:
/// maximize legal depth, then minimize logical key.
#[derive(Debug)]
pub struct StashIndex {
    keys_by_label: Vec<BTreeSet<u32>>,
    range_min: Vec<u32>,
    leaf_count: usize,
    len: usize,
}

impl View for StashIndex {
    type V = Seq<Set<u32>>;

    /// The keys under each label.
    closed spec fn view(&self) -> Seq<Set<u32>> {
        Seq::new(self.keys_by_label@.len(), |l: int| self.keys_by_label@[l]@)
    }
}

impl StashIndex {
    /// The node above two others holds the lesser of their keys.
    spec fn joined(&self, i: int) -> bool {
        self.range_min@[i] == lesser(self.range_min@[2 * i], self.range_min@[2 * i + 1])
    }

    /// A leaf holds the lowest key of its label.
    spec fn leaf_right(&self, l: int) -> bool {
        is_least(self@[l], self.range_min@[self.leaf_count + l])
    }

    spec fn sized(&self) -> bool {
        &&& is_pow2(self.leaf_count as int)
        &&& 1 <= self.leaf_count
        &&& 2 * self.leaf_count <= usize::MAX
        &&& self.keys_by_label@.len() == self.leaf_count
        &&& self.range_min@.len() == 2 * self.leaf_count
        &&& forall|l: int|
            0 <= l < self.leaf_count ==> (#[trigger] self@[l]).finite() && !self@[l].contains(
                EMPTY_KEY,
            )
    }

    /// The tree of lowest keys fits the keys, and the length is their number.
    pub closed spec fn wf(&self) -> bool {
        &&& self.sized()
        &&& forall|l: int| 0 <= l < self.leaf_count ==> #[trigger] self.leaf_right(l)
        &&& forall|i: int| 1 <= i < self.leaf_count ==> #[trigger] self.joined(i)
        &&& self.len == key_count(self@)
    }

    /// The number of labels.
    pub proof fn lemma_labels(&self)
        requires
            self.wf(),
        ensures
            1 <= self@.len() <= usize::MAX,
            2 * self@.len() <= usize::MAX,
            forall|l: int| 0 <= l < self@.len() ==> !(#[trigger] self@[l]).contains(EMPTY_KEY),
            forall|l: int| 0 <= l < self@.len() ==> (#[trigger] self@[l]).finite(),
            key_count(self@) <= usize::MAX,
    {
    }

    /// Creates an index without keys.
    pub fn new(leaf_count: usize) -> (r: Self)
        requires
            1 <= leaf_count,
            is_pow2(leaf_count as int),
            2 * leaf_count <= usize::MAX,
        ensures
            r.wf(),
            r@ == Seq::new(leaf_count as nat, |l: int| Set::<u32>::empty()),
    {
        let mut keys_by_label: Vec<BTreeSet<u32>> = Vec::new();
        let mut l: usize = 0;
        while l < leaf_count
            invariant
                l <= leaf_count,
                keys_by_label@.len() == l,
                forall|j: int|
                    0 <= j < l ==> (#[trigger] keys_by_label@[j])@ == Set::<u32>::empty(),
            decreases leaf_count - l,
        {
            keys_by_label.push(BTreeSet::new());
            l += 1;
        }
        let r = StashIndex {
            keys_by_label,
            range_min: filled(EMPTY_KEY, leaf_count * 2),
            leaf_count,
            len: 0,
        };
        proof {
            lemma_no_keys(r@);
            assert(r@ =~= Seq::new(leaf_count as nat, |l: int| Set::<u32>::empty()));
        }
        r
    }

    /// The number of keys.
    pub fn len(&self) -> (r: usize)
        requires
            self.wf(),
        ensures
            r == key_count(self@),
    {
        self.len
    }

    /// Whether `key` is under `label`.
    pub fn contains(&self, label: u32, key: u32) -> (r: bool)
        requires
            self.wf(),
            label < self@.len(),
        ensures
            r == self@[label as int].contains(key),
    {
        broadcast use vstd::std_specs::btree::group_btree_axioms;

        self.keys_by_label[label as usize].contains(&key)
    }

    /// Puts `key` under `label`.
    pub fn insert(&mut self, label: u32, key: u32)
        requires
            old(self).wf(),
            label < old(self)@.len(),
            key != EMPTY_KEY,
            !old(self)@[label as int].contains(key),
            key_count(old(self)@) < usize::MAX,
        ensures
            final(self).wf(),
            final(self)@ == old(self)@.update(label as int, old(self)@[label as int].insert(key)),
            key_count(final(self)@) == key_count(old(self)@) + 1,
    {
        broadcast use vstd::std_specs::btree::group_btree_axioms;

        let ghost before = *self;
        let new: bool = self.keys_by_label[label as usize].insert(key);
        proof {
            lemma_key_count_update(before@, label as int, before@[label as int].insert(key));
            assert(self@ =~= before@.update(label as int, before@[label as int].insert(key)));
        }
        self.len += 1;
        self.refresh_label(label as usize, Ghost(before));
    }

    /// Takes `key` from under `label`.
    pub fn remove(&mut self, label: u32, key: u32)
        requires
            old(self).wf(),
            label < old(self)@.len(),
            old(self)@[label as int].contains(key),
        ensures
            final(self).wf(),
            final(self)@ == old(self)@.update(label as int, old(self)@[label as int].remove(key)),
            key_count(final(self)@) == key_count(old(self)@) - 1,
    {
        broadcast use vstd::std_specs::btree::group_btree_axioms;

        let ghost before = *self;
        let there: bool = self.keys_by_label[label as usize].remove(&key);
        proof {
            lemma_key_count_update(before@, label as int, before@[label as int].remove(key));
            lemma_key_count_bound(before@, label as int);
            assert(self@ =~= before@.update(label as int, before@[label as int].remove(key)));
            assert(before@[label as int].len() > 0);
        }
        self.len -= 1;
        self.refresh_label(label as usize, Ghost(before));
    }

    /// Carries a change under `label` up the tree.
    fn refresh_label(&mut self, label: usize, Ghost(before): Ghost<Self>)
        requires
            before.wf(),
            old(self).sized(),
            old(self).range_min == before.range_min,
            old(self).leaf_count == before.leaf_count,
            old(self).len == key_count(old(self)@),
            label < old(self).leaf_count,
            forall|l: int|
                0 <= l < old(self).leaf_count && l != label ==> #[trigger] old(self)@[l]
                    == before@[l],
        ensures
            final(self).wf(),
            final(self)@ == old(self)@,
    {
        let mut index: usize = self.leaf_count + label;
        let least: u32 = match first_key(&self.keys_by_label[label]) {
            Some(key) => key,
            None => EMPTY_KEY,
        };
        let ghost n = self.leaf_count as int;
        self.range_min.set(index, least);
        proof {
            assert forall|l: int| 0 <= l < n implies #[trigger] self.leaf_right(l) by {
                if l != label {
                    assert(before.leaf_right(l));
                    assert(self@[l] == before@[l]);
                } else {
                    assert(self@[l] == self.keys_by_label@[l]@);
                }
            }
            assert forall|i: int| 1 <= i < n && !above(i, index as int) implies
                #[trigger] self.joined(i) by {
                assert(before.joined(i));
                if 2 * i == index || 2 * i + 1 == index {
                    assert(index as int / 2 == i);
                }
            }
            assert(self@ =~= old(self)@);
        }
        while index > 1
            invariant
                1 <= index < 2 * n,
                n == self.leaf_count,
                self.sized(),
                self@ == old(self)@,
                self.len == key_count(self@),
                forall|l: int| 0 <= l < n ==> #[trigger] self.leaf_right(l),
                forall|i: int| 1 <= i < n && !above(i, index as int) ==> #[trigger] self.joined(i),
            decreases index,
        {
            let ghost child = index as int;
            let ghost prev = *self;
            index = index / 2;
            let left: u32 = self.range_min[index * 2];
            let right: u32 = self.range_min[index * 2 + 1];
            self.range_min.set(
                index,
                if left <= right {
                    left
                } else {
                    right
                },
            );
            proof {
                assert(self@ =~= prev@);
                assert forall|l: int| 0 <= l < n implies #[trigger] self.leaf_right(l) by {
                    assert(prev.leaf_right(l));
                }
                assert forall|i: int| 1 <= i < n && !above(i, index as int) implies
                    #[trigger] self.joined(i) by {
                    if i != index {
                        assert(!above(i, child));
                        assert(prev.joined(i));
                        if 2 * i == index || 2 * i + 1 == index {
                            assert(index as int / 2 == i);
                        }
                    }
                }
            }
        }
    }

    /// A node of the tree holds the lowest key of the labels below it.
    proof fn lemma_node_covers(&self, i: int, e: nat)
        requires
            self.wf(),
            self.leaf_count <= i * pow2(e),
            (i + 1) * pow2(e) <= 2 * self.leaf_count,
        ensures
            1 <= i < 2 * self.leaf_count,
            is_lowest(
                self@,
                i * pow2(e) - self.leaf_count,
                (i + 1) * pow2(e) - self.leaf_count,
                self.range_min@[i],
            ),
        decreases e,
    {
        let n = self.leaf_count as int;
        let s = pow2(e) as int;
        vstd::arithmetic::power2::lemma_pow2_pos(e);
        assert(1 <= i && i < 2 * n) by (nonlinear_arith)
            requires
                1 <= n <= i * s,
                (i + 1) * s <= 2 * n,
                1 <= s,
        ;
        if e == 0 {
            vstd::arithmetic::power2::lemma2_to64();
            assert(i * 1 == i && (i + 1) * 1 == i + 1);
            let l = i - n;
            assert(self.leaf_right(l));
            assert(n + l == i);
            if self.range_min@[i] != EMPTY_KEY {
                assert(self@[l].contains(self.range_min@[i]));
            }
        } else {
            let t = pow2((e - 1) as nat) as int;
            vstd::arithmetic::power2::lemma_pow2_unfold(e);
            assert(s == 2 * t);
            assert(i < n) by (nonlinear_arith)
                requires
                    (i + 1) * s <= 2 * n,
                    s == 2 * t,
                    t >= 1,
                    1 <= i,
            ;
            assert(i * s == (2 * i) * t && (i + 1) * s == (2 * i + 2) * t && (2 * i + 1) * t == (2
                * i) * t + t && (2 * i + 2) * t == (2 * i + 1) * t + t) by (nonlinear_arith)
                requires
                    s == 2 * t,
            ;
            self.lemma_node_covers(2 * i, (e - 1) as nat);
            self.lemma_node_covers(2 * i + 1, (e - 1) as nat);
            assert(self.joined(i));
            lemma_lowest_of_both(
                self@,
                i * s - n,
                (2 * i + 1) * t - n,
                (i + 1) * s - n,
                self.range_min@[2 * i],
                self.range_min@[2 * i + 1],
            );
        }
    }

    /// The lowest key under the labels from `start` to `end`.
    pub fn minimum_key(&self, start: usize, end: usize) -> (r: Option<u32>)
        requires
            self.wf(),
            start < end <= self@.len(),
        ensures
            match r {
                Some(m) => m != EMPTY_KEY && is_lowest(self@, start as int, end as int, m),
                None => forall|l: int, j: u32|
                    start <= l < end ==> !#[trigger] self@[l].contains(j),
            },
    {
        let ghost n = self.leaf_count as int;
        let ghost a = start as int;
        let ghost z = end as int;
        let mut start: usize = start + self.leaf_count;
        let mut end: usize = end + self.leaf_count;
        let mut result: u32 = EMPTY_KEY;
        let ghost mut e: nat = 0;
        let ghost mut low: u32 = EMPTY_KEY;
        let ghost mut high: u32 = EMPTY_KEY;
        proof {
            vstd::arithmetic::power2::lemma2_to64();
            assert(start * 1 == start && end * 1 == end);
        }
        while start < end
            invariant
                self.wf(),
                n == self.leaf_count,
                start <= end,
                a + n <= start * pow2(e),
                start * pow2(e) <= end * pow2(e),
                end * pow2(e) <= z + n,
                n <= start * pow2(e),
                end * pow2(e) <= 2 * n,
                0 <= a <= z <= n,
                is_lowest(self@, a, start * pow2(e) - n, low),
                is_lowest(self@, end * pow2(e) - n, z, high),
                result == lesser(low, high),
            decreases end - start,
        {
            let ghost s = pow2(e) as int;
            proof {
                vstd::arithmetic::power2::lemma_pow2_pos(e);
                assert((start + 1) * s == start * s + s && (start + 1) * s <= end * s && (end - 1)
                    * s == end * s - s && start * s <= (end - 1) * s) by (nonlinear_arith)
                    requires
                        1 <= s,
                        start + 1 <= end,
                ;
            }
            if start % 2 != 0 {
                proof {
                    self.lemma_node_covers(start as int, e);
                    lemma_lowest_of_both(
                        self@,
                        a,
                        start * s - n,
                        (start + 1) * s - n,
                        low,
                        self.range_min@[start as int],
                    );
                    low = lesser(low, self.range_min@[start as int]);
                }
                if self.range_min[start] < result {
                    result = self.range_min[start];
                }
                start += 1;
            }
            if end % 2 != 0 {
                end -= 1;
                proof {
                    assert((end + 1) * s == end * s + s) by (nonlinear_arith);
                    assert(start <= end);
                    assert(start * s <= end * s) by (nonlinear_arith)
                        requires
                            start <= end,
                            1 <= s,
                    ;
                    self.lemma_node_covers(end as int, e);
                    lemma_lowest_of_both(
                        self@,
                        end * s - n,
                        (end + 1) * s - n,
                        z,
                        self.range_min@[end as int],
                        high,
                    );
                    high = lesser(self.range_min@[end as int], high);
                }
                if self.range_min[end] < result {
                    result = self.range_min[end];
                }
            }
            proof {
                let t = pow2(e + 1) as int;
                vstd::arithmetic::power2::lemma_pow2_unfold(e + 1);
                assert(t == 2 * s);
                assert((start as int / 2) * t == start * s) by (nonlinear_arith)
                    requires
                        t == 2 * s,
                        start as int % 2 == 0,
                ;
                assert((end as int / 2) * t == end * s) by (nonlinear_arith)
                    requires
                        t == 2 * s,
                        end as int % 2 == 0,
                ;
                e = e + 1;
            }
            start = start / 2;
            end = end / 2;
        }
        proof {
            lemma_lowest_of_both(self@, a, start * pow2(e) - n, z, low, high);
            assert forall|l: int, j: u32|
                a <= l < z && #[trigger] self@[l].contains(j) implies j != EMPTY_KEY by {}
        }
        if result != EMPTY_KEY {
            Some(result)
        } else {
            None
        }
    }
}

} // verus!
