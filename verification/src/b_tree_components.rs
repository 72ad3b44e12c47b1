//! Nodes of search trees, searched by scans over all of their keys.
use vstd::prelude::*;
use crate::linear_oram::{
    oblivious_memcpy, oblivious_read_index, oblivious_read_update_index, oblivious_write_index,
    OOption,
};
use crate::oblivious::{both, cmov_bool, cmov_usize, either, ObliviousValue};
use crate::prelude::{PositionType, DUMMY_POS};

verus! {

/// Search for the next key above the given one.
pub const SUCCESSOR: usize = 2;

/// Search for the given key.
pub const EXACT_MATCH: usize = 1;

/// Search for the next key below the given one.
pub const PREDECESSOR: usize = 0;

/// A value that can be compared for equality.
pub trait ObliviousKey: ObliviousValue {
    /// Whether the two are equal.
    fn same(&self, other: &Self) -> (r: bool)
        ensures
            r == (*self == *other),
    ;
}

/// A key with a total order.
pub trait OrderedKey: ObliviousKey {
    /// Where the key stands in the order.
    spec fn rank(self) -> int;

    /// No two keys stand at one place.
    proof fn lemma_rank(self, other: Self)
        ensures
            self.rank() == other.rank() ==> self == other,
    ;

    /// Whether the key is at or above `other`.
    fn at_least(&self, other: &Self) -> (r: bool)
        ensures
            r == (self.rank() >= other.rank()),
    ;
}

impl ObliviousKey for u64 {
    fn same(&self, other: &Self) -> (r: bool) {
        *self == *other
    }
}

impl OrderedKey for u64 {
    open spec fn rank(self) -> int {
        self as int
    }

    proof fn lemma_rank(self, other: Self) {
    }

    fn at_least(&self, other: &Self) -> (r: bool) {
        *self >= *other
    }
}

impl ObliviousKey for u32 {
    fn same(&self, other: &Self) -> (r: bool) {
        *self == *other
    }
}

impl OrderedKey for u32 {
    open spec fn rank(self) -> int {
        self as int
    }

    proof fn lemma_rank(self, other: Self) {
    }

    fn at_least(&self, other: &Self) -> (r: bool) {
        *self >= *other
    }
}

/// Key and value returned by a B+ tree lookup.
#[derive(Debug)]
pub struct KeyValuePair<T: ObliviousValue, V: ObliviousValue> {
    /// The matched key.
    pub key: T,
    /// The value associated with the matched key.
    pub value: V,
}

impl<T: ObliviousValue, V: ObliviousValue> Clone for KeyValuePair<T, V> {
    fn clone(&self) -> (r: Self)
        ensures
            r == *self,
    {
        *self
    }
}

impl<T: ObliviousValue, V: ObliviousValue> Copy for KeyValuePair<T, V> {

}

impl<T: ObliviousValue, V: ObliviousValue> ObliviousValue for KeyValuePair<T, V> {
    open spec fn zero() -> Self {
        KeyValuePair { key: T::zero(), value: V::zero() }
    }

    fn zeroed() -> (r: Self) {
        KeyValuePair { key: T::zeroed(), value: V::zeroed() }
    }

    fn assign_if(&mut self, other: &Self, choice: bool) {
        self.key.assign_if(&other.key, choice);
        self.value.assign_if(&other.value, choice);
    }
}

/// The number of the first `n` keys of `s` that are at or below `key`.
pub open spec fn at_most<T: OrderedKey>(s: Seq<T>, key: T, n: int) -> int
    decreases n,
{
    if n <= 0 {
        0
    } else {
        at_most(s, key, n - 1) + (if s[n - 1].rank() <= key.rank() {
            1int
        } else {
            0
        })
    }
}

/// Whether `key` is one of the first `n` items of `s`.
pub open spec fn among<T>(s: Seq<T>, key: T, n: int) -> bool {
    exists|i: int| 0 <= i < n && #[trigger] s[i] == key
}

/// The first place below `n` where `s` holds `key`, or `none`.
pub open spec fn first_place<T>(s: Seq<T>, key: T, n: int, none: int) -> int
    decreases n,
{
    if n <= 0 {
        none
    } else if among(s, key, n - 1) {
        first_place(s, key, n - 1, none)
    } else if s[n - 1] == key {
        n - 1
    } else {
        none
    }
}

/// The keys rise.
pub open spec fn rising<T: OrderedKey>(s: Seq<T>) -> bool {
    forall|i: int, j: int|
        0 <= i < j < s.len() ==> (#[trigger] s[i]).rank() < (#[trigger] s[j]).rank()
}

/// The keys never fall.
pub open spec fn ascending<T: OrderedKey>(s: Seq<T>) -> bool {
    forall|i: int, j: int|
        0 <= i <= j < s.len() ==> (#[trigger] s[i]).rank() <= (#[trigger] s[j]).rank()
}

/// Where a search among the keys `s` ends: at the key itself for an exact match, at the
/// key before the given one for a predecessor and at the one after it otherwise.
pub open spec fn found_at<T: OrderedKey>(s: Seq<T>, key: T, search_type: usize) -> Option<int> {
    let below = at_most(s, key, s.len() as int);
    let exact = among(s, key, s.len() as int);
    if search_type == EXACT_MATCH {
        if exact {
            Some(below - 1)
        } else {
            None
        }
    } else if search_type == PREDECESSOR {
        let passed = if exact {
            2int
        } else {
            1
        };
        if below >= passed {
            Some(below - passed)
        } else {
            None
        }
    } else if below < s.len() {
        Some(below)
    } else {
        None
    }
}

/// The child that a search among the keys `s` goes down to.
pub open spec fn branch_of<T: OrderedKey>(s: Seq<T>, key: T, search_type: usize) -> int {
    let below = at_most(s, key, s.len() as int);
    if search_type == PREDECESSOR && among(s, key, s.len() as int) {
        below - 1
    } else {
        below
    }
}

/// How many keys are at or below `key`, where keys never fall: those before it are, those
/// behind it are not.
pub proof fn lemma_at_most<T: OrderedKey>(s: Seq<T>, key: T, n: int)
    requires
        0 <= n <= s.len(),
    ensures
        0 <= at_most(s, key, n) <= n,
        among(s, key, n) ==> 1 <= at_most(s, key, n),
        ascending(s) ==> forall|i: int|
            0 <= i < n ==> ((#[trigger] s[i]).rank() <= key.rank() <==> i < at_most(s, key, n)),
    decreases n,
{
    if n > 0 {
        lemma_at_most(s, key, n - 1);
        if among(s, key, n) && !among(s, key, n - 1) {
            let i = choose|i: int| 0 <= i < n && #[trigger] s[i] == key;
            assert(i == n - 1);
        }
        if ascending(s) {
            let c = at_most(s, key, n - 1);
            if s[n - 1].rank() <= key.rank() && c < n - 1 {
                assert(s[c].rank() <= s[n - 1].rank());
                assert(s[c].rank() <= key.rank() <==> c < c);
            }
        }
    }
}

/// Among rising keys an exact search finds the key or nothing, a predecessor search the
/// greatest key below the given one and a successor search the least key above it, if
/// there is one.
pub proof fn lemma_found_at<T: OrderedKey>(s: Seq<T>, key: T)
    requires
        rising(s),
    ensures
        match found_at(s, key, EXACT_MATCH) {
            Some(i) => 0 <= i < s.len() && s[i] == key,
            None => !s.contains(key),
        },
        match found_at(s, key, PREDECESSOR) {
            Some(i) => 0 <= i < s.len() && s[i].rank() < key.rank() && forall|j: int|
                i < j < s.len() ==> (#[trigger] s[j]).rank() >= key.rank(),
            None => forall|j: int|
                0 <= j < s.len() ==> (#[trigger] s[j]).rank() >= key.rank(),
        },
        match found_at(s, key, SUCCESSOR) {
            Some(i) => 0 <= i < s.len() && s[i].rank() > key.rank() && forall|j: int|
                0 <= j < i ==> (#[trigger] s[j]).rank() <= key.rank(),
            None => forall|j: int|
                0 <= j < s.len() ==> (#[trigger] s[j]).rank() <= key.rank(),
        },
{
    let n = s.len() as int;
    assert(ascending(s)) by {
        assert forall|i: int, j: int| 0 <= i <= j < s.len() implies (#[trigger] s[i]).rank() <= (
        #[trigger] s[j]).rank() by {
            if i < j {
                assert(s[i].rank() < s[j].rank());
            }
        }
    }
    lemma_at_most(s, key, n);
    let c = at_most(s, key, n);
    if among(s, key, n) {
        let i = choose|i: int| 0 <= i < n && #[trigger] s[i] == key;
        assert(s[i].rank() <= key.rank());
        if i < c - 1 {
            assert(s[i].rank() < s[c - 1].rank());
            assert(s[c - 1].rank() <= key.rank());
        }
        assert(i == c - 1);
    } else {
        assert forall|j: int| 0 <= j < n implies (#[trigger] s[j]).rank() != key.rank() by {
            s[j].lemma_rank(key);
        }
    }
}

/// The first place of a key.
pub proof fn lemma_first_place<T>(s: Seq<T>, key: T, n: int, none: int)
    requires
        0 <= n <= s.len(),
    ensures
        ({
            let i = first_place(s, key, n, none);
            if among(s, key, n) {
                &&& 0 <= i < n
                &&& s[i] == key
                &&& forall|j: int| 0 <= j < i ==> #[trigger] s[j] != key
            } else {
                i == none
            }
        }),
    decreases n,
{
    if n > 0 {
        lemma_first_place(s, key, n - 1, none);
        if among(s, key, n - 1) {
            let i = choose|i: int| 0 <= i < n - 1 && #[trigger] s[i] == key;
            assert(s[i] == key);
        } else if s[n - 1] == key {
            assert forall|j: int| 0 <= j < n - 1 implies #[trigger] s[j] != key by {}
        }
    }
}

/// Reads item `index` of `data` into `ret` and writes `value` to it, if that is some
/// value. Without such an item nothing changes.
pub fn oblivious_read_maybe_update_index<T: ObliviousValue>(
    data: &mut [T],
    index: usize,
    ret: &mut T,
    value: &OOption<T>,
)
    ensures
        *final(ret) == (if index < old(data)@.len() {
            old(data)@[index as int]
        } else {
            *old(ret)
        }),
        final(data)@ == (match value@ {
            Some(v) if index < old(data)@.len() => old(data)@.update(index as int, v),
            _ => old(data)@,
        }),
{
    let ghost before = data@;
    let ghost wanted = value@;
    let mut i: usize = 0;
    while i < data.len()
        invariant
            i <= data@.len() == before.len(),
            wanted == value@,
            *ret == (if index < i {
                before[index as int]
            } else {
                *old(ret)
            }),
            data@ == (match wanted {
                Some(v) if index < i => before.update(index as int, v),
                _ => before,
            }),
        decreases data@.len() - i,
    {
        let chosen: bool = i == index;
        let mut item: T = data[i];
        ret.assign_if(&item, chosen);
        item.assign_if(&value.value, both(chosen, value.is_some));
        data[i] = item;
        proof {
            assert(data@ =~= (match wanted {
                Some(v) if index < i + 1 => before.update(index as int, v),
                _ => before,
            }));
        }
        i += 1;
    }
}

/// Simple oblivious array, which can be searched where its items can be compared.
#[derive(Debug)]
pub struct ObliviousArray<T: ObliviousValue, const N: usize> {
    /// actual data
    pub data: [T; N],
}

impl<T: ObliviousValue, const N: usize> Clone for ObliviousArray<T, N> {
    fn clone(&self) -> (r: Self)
        ensures
            r == *self,
    {
        *self
    }
}

impl<T: ObliviousValue, const N: usize> Copy for ObliviousArray<T, N> {

}

impl<T: ObliviousValue, const N: usize> ObliviousArray<T, N> {
    /// initialize with data. If the key supports comparisons, it should be already sorted
    /// from smallest to largest.
    pub fn new(data: [T; N]) -> (r: Self)
        ensures
            r.data == data,
    {
        ObliviousArray { data }
    }

    /// reinitialize with new data, as far as it goes.
    pub fn renew(&mut self, new_data: &[T])
        ensures
            forall|k: int|
                0 <= k < N ==> #[trigger] final(self).data@[k] == (if k < new_data@.len() {
                    new_data@[k]
                } else {
                    old(self).data@[k]
                }),
    {
        oblivious_memcpy(&mut self.data, new_data, 0);
    }

    /// linear scan the entire array, move the element out when index matches
    pub fn read(&self, index: usize, ret: &mut T)
        ensures
            *final(ret) == (if index < N {
                self.data@[index as int]
            } else {
                *old(ret)
            }),
    {
        oblivious_read_index(&self.data, index, ret);
    }

    /// linear scan the entire array, write to the index if the index matches
    pub fn write(&mut self, index: usize, value: T)
        ensures
            final(self).data@ == (if index < N {
                old(self).data@.update(index as int, value)
            } else {
                old(self).data@
            }),
    {
        oblivious_write_index(&mut self.data, index, value);
    }

    /// linear scan the entire array, read the element out when index matches, write to the
    /// index if the index matches
    pub fn read_update(&mut self, index: usize, value: T, ret: &mut T)
        ensures
            *final(ret) == (if index < N {
                old(self).data@[index as int]
            } else {
                *old(ret)
            }),
            final(self).data@ == (if index < N {
                old(self).data@.update(index as int, value)
            } else {
                old(self).data@
            }),
    {
        oblivious_read_update_index(&mut self.data, index, ret, value);
    }

    /// linear scan the entire array, read the element out when index matches, write to the
    /// index if the index matches and there is something to write
    pub fn read_maybe_update(&mut self, index: usize, value: &OOption<T>, ret: &mut T)
        ensures
            *final(ret) == (if index < N {
                old(self).data@[index as int]
            } else {
                *old(ret)
            }),
            final(self).data@ == (match value@ {
                Some(v) if index < N => old(self).data@.update(index as int, v),
                _ => old(self).data@,
            }),
    {
        oblivious_read_maybe_update_index(&mut self.data, index, ret, value);
    }
}

impl<T: ObliviousValue, const N: usize> ObliviousValue for ObliviousArray<T, N> {
    open spec fn zero() -> Self {
        ObliviousArray { data: [T::zero(); N] }
    }

    fn zeroed() -> (r: Self) {
        let r = ObliviousArray { data: [T::zeroed(); N] };
        assert(r.data =~= [T::zero(); N]);
        r
    }

    fn assign_if(&mut self, other: &Self, choice: bool) {
        let ghost before = *self;
        let mut i: usize = 0;
        while i < N
            invariant
                i <= N,
                forall|k: int|
                    0 <= k < N ==> #[trigger] self.data@[k] == (if choice && k < i {
                        other.data@[k]
                    } else {
                        before.data@[k]
                    }),
            decreases N - i,
        {
            let mut item: T = self.data[i];
            item.assign_if(&other.data[i], choice);
            self.data[i] = item;
            i += 1;
        }
        proof {
            if choice {
                assert(self.data =~= other.data);
            } else {
                assert(self.data =~= before.data);
            }
        }
    }
}

impl<T: ObliviousKey, const N: usize> ObliviousArray<T, N> {
    /// Returns the index of the first copy of `key` in data, N if there are none.
    /// Searches a prefix of the array as specified by end index.
    pub fn search_exact_prefix(&self, key: T, end_index: usize) -> (r: usize)
        ensures
            r == first_place(
                self.data@,
                key,
                if end_index < N {
                    end_index as int
                } else {
                    N as int
                },
                N as int,
            ),
    {
        let mut found: bool = false;
        let mut i: usize = N;
        let mut j: usize = 0;
        while j < N
            invariant
                j <= N,
                found == among(
                    self.data@,
                    key,
                    if end_index < j {
                        end_index as int
                    } else {
                        j as int
                    },
                ),
                i == first_place(
                    self.data@,
                    key,
                    if end_index < j {
                        end_index as int
                    } else {
                        j as int
                    },
                    N as int,
                ),
            decreases N - j,
        {
            let equal: bool = self.data[j].same(&key);
            let keep_checking: bool = j < end_index;
            let hit: bool = both(equal, keep_checking);
            cmov_usize(&mut i, j, both(hit, !found));
            cmov_bool(&mut found, true, hit);
            proof {
                if j < end_index {
                    if equal {
                        assert(self.data@[j as int] == key);
                    }
                    if among(self.data@, key, j + 1) && !among(self.data@, key, j as int) {
                        let k = choose|k: int| 0 <= k < j + 1 && #[trigger] self.data@[k] == key;
                        assert(k == j);
                    }
                    if among(self.data@, key, j as int) {
                        let k = choose|k: int| 0 <= k < j && #[trigger] self.data@[k] == key;
                        assert(self.data@[k] == key);
                    }
                }
            }
            j += 1;
        }
        i
    }

    /// Returns the index of the first copy of `key` in data, N if there are none.
    /// Searches whole array
    pub fn search_exact(&self, key: T) -> (r: usize)
        ensures
            r == first_place(self.data@, key, N as int, N as int),
    {
        self.search_exact_prefix(key, N)
    }
}

impl<T: OrderedKey, const N: usize> ObliviousArray<T, N> {
    /// Obliviously search the successor of a given key in a prefix of the array: the
    /// number of keys up to it. If there is a key in node equal to target key, it is *not*
    /// considered as the successor. Also calculates if there is an exact match.
    pub fn search_succ_prefix(
        &self,
        key: T,
        index: &mut usize,
        exact_match: &mut bool,
        end_index: usize,
    )
        requires
            end_index <= N,
        ensures
            *final(index) == at_most(self.data@, key, end_index as int),
            *final(exact_match) == among(self.data@, key, end_index as int),
            *final(index) <= end_index,
            *final(exact_match) ==> 1 <= *final(index),
    {
        *index = 0;
        *exact_match = false;
        let mut i: usize = 0;
        while i < N
            invariant
                i <= N,
                end_index <= N,
                *index == at_most(
                    self.data@,
                    key,
                    if end_index < i {
                        end_index as int
                    } else {
                        i as int
                    },
                ),
                *index <= i,
                *exact_match == among(
                    self.data@,
                    key,
                    if end_index < i {
                        end_index as int
                    } else {
                        i as int
                    },
                ),
            decreases N - i,
        {
            let more: bool = key.at_least(&self.data[i]);
            let keep_looking: bool = i < end_index;
            let next: usize = *index + 1;
            cmov_usize(index, next, both(more, keep_looking));
            cmov_bool(exact_match, true, both(self.data[i].same(&key), keep_looking));
            proof {
                if i < end_index {
                    if self.data@[i as int] == key {
                        assert(among(self.data@, key, i + 1));
                    }
                    if among(self.data@, key, i + 1) && !among(self.data@, key, i as int) {
                        let k = choose|k: int| 0 <= k < i + 1 && #[trigger] self.data@[k] == key;
                        assert(k == i);
                    }
                    if among(self.data@, key, i as int) {
                        let k = choose|k: int| 0 <= k < i && #[trigger] self.data@[k] == key;
                        assert(self.data@[k] == key);
                    }
                }
            }
            i += 1;
        }
        proof {
            lemma_at_most(self.data@, key, end_index as int);
        }
    }

    /// search over the entire array.
    pub fn search_succ(&self, key: T, index: &mut usize, exact_match: &mut bool)
        ensures
            *final(index) == at_most(self.data@, key, N as int),
            *final(exact_match) == among(self.data@, key, N as int),
    {
        self.search_succ_prefix(key, index, exact_match, N);
    }
}

/// The array `old` with `src` copied to its beginning, as far as it fits.
pub open spec fn copied<T>(old_data: Seq<T>, src: Seq<T>) -> Seq<T> {
    Seq::new(
        old_data.len(),
        |k: int|
            if k < src.len() {
                src[k]
            } else {
                old_data[k]
            },
    )
}

/// A place found by a search: its index, or `len` without one.
fn resolve(index: usize, exact_match: bool, len: usize, search_type: usize) -> (r: (usize, bool))
    requires
        index <= len < usize::MAX,
        exact_match ==> 1 <= index,
    ensures
        ({
            let found: Option<int> = if search_type == EXACT_MATCH {
                if exact_match {
                    Some(index - 1)
                } else {
                    None
                }
            } else if search_type == PREDECESSOR {
                let passed = if exact_match {
                    2int
                } else {
                    1
                };
                if index >= passed {
                    Some(index - passed)
                } else {
                    None
                }
            } else if index < len {
                Some(index as int)
            } else {
                None
            };
            &&& r.1 == (found is Some)
            &&& r.0 == (match found {
                Some(i) => i,
                None => len as int,
            })
        }),
{
    let backward: bool = search_type == PREDECESSOR;
    let mut decrement: usize = 0;
    cmov_usize(&mut decrement, 1, either(both(exact_match, search_type == EXACT_MATCH), backward));
    cmov_usize(&mut decrement, 2, both(exact_match, backward));
    let in_range: bool = both(index >= decrement, either(decrement > 0, index < len));
    let search_succeeded: bool = both(in_range, either(exact_match, search_type != EXACT_MATCH));
    let mut place: usize = len;
    cmov_usize(&mut place, index.wrapping_sub(decrement), search_succeeded);
    (place, search_succeeded)
}

/// A B+ tree node. BM1 is B-1.
#[derive(Debug)]
pub struct BpTreeNode<T: OrderedKey, const BM1: usize, const B: usize> {
    /// The keys between the children.
    pub keys: ObliviousArray<T, BM1>,
    /// Where the children are.
    pub ptrs: ObliviousArray<PositionType, B>,
    /// refers to the number of keys currently actually in the node
    pub len: usize,
}

impl<T: OrderedKey, const BM1: usize, const B: usize> Clone for BpTreeNode<T, BM1, B> {
    fn clone(&self) -> (r: Self)
        ensures
            r == *self,
    {
        *self
    }
}

impl<T: OrderedKey, const BM1: usize, const B: usize> Copy for BpTreeNode<T, BM1, B> {

}

impl<T: OrderedKey, const BM1: usize, const B: usize> Default for BpTreeNode<T, BM1, B> {
    fn default() -> (r: Self)
        ensures
            r.keys.data@ == Seq::new(BM1 as nat, |i: int| T::zero()),
            r.ptrs.data@ == Seq::new(B as nat, |i: int| DUMMY_POS),
            r.len == 0,
    {
        let r = BpTreeNode {
            keys: ObliviousArray { data: [T::zeroed(); BM1] },
            ptrs: ObliviousArray { data: [DUMMY_POS; B] },
            len: 0,
        };
        assert(r.keys.data@ =~= Seq::new(BM1 as nat, |i: int| T::zero()));
        assert(r.ptrs.data@ =~= Seq::new(B as nat, |i: int| DUMMY_POS));
        r
    }
}

impl<T: OrderedKey, const BM1: usize, const B: usize> ObliviousValue for BpTreeNode<T, BM1, B> {
    open spec fn zero() -> Self {
        BpTreeNode {
            keys: ObliviousArray::zero(),
            ptrs: ObliviousArray::zero(),
            len: 0,
        }
    }

    fn zeroed() -> (r: Self) {
        BpTreeNode {
            keys: ObliviousArray::zeroed(),
            ptrs: ObliviousArray::zeroed(),
            len: 0,
        }
    }

    fn assign_if(&mut self, other: &Self, choice: bool) {
        self.keys.assign_if(&other.keys, choice);
        self.ptrs.assign_if(&other.ptrs, choice);
        cmov_usize(&mut self.len, other.len, choice);
    }
}

impl<T: OrderedKey, const BM1: usize, const B: usize> BpTreeNode<T, BM1, B> {
    /// The keys in use fit.
    pub open spec fn wf(&self) -> bool {
        self.len <= BM1 < usize::MAX
    }

    /// The keys in use.
    pub open spec fn live_keys(&self) -> Seq<T> {
        self.keys.data@.take(self.len as int)
    }

    /// initialize with data. If the key supports comparisons, it should be already sorted
    /// from smallest to largest. len refers to the number of keys.
    pub fn new(keys: &[T], ptrs: &[PositionType], len: usize) -> (r: Self)
        requires
            len <= keys@.len(),
            len < ptrs@.len(),
            len <= BM1 < usize::MAX,
        ensures
            r.wf(),
            r.len == len,
            r.live_keys() == keys@.take(len as int),
            r.keys.data@ == copied(Seq::new(BM1 as nat, |i: int| T::zero()), keys@),
            r.ptrs.data@ == copied(Seq::new(B as nat, |i: int| DUMMY_POS), ptrs@),
    {
        let mut new_node: Self = BpTreeNode::default();
        new_node.len = len;
        new_node.keys.renew(keys);
        new_node.ptrs.renew(ptrs);
        proof {
            assert(new_node.keys.data@ =~= copied(Seq::new(BM1 as nat, |i: int| T::zero()), keys@));
            assert(new_node.ptrs.data@ =~= copied(Seq::new(B as nat, |i: int| DUMMY_POS), ptrs@));
            assert(new_node.live_keys() =~= keys@.take(len as int));
        }
        new_node
    }

    /// reinitialize with new data. If the key supports comparisons, it should be already
    /// sorted from smallest to largest.
    pub fn renew(&mut self, keys: &[T; BM1], ptrs: &[PositionType; B], len: usize)
        requires
            len <= BM1 < usize::MAX,
        ensures
            final(self).wf(),
            final(self).len == len,
            final(self).keys.data@ == keys@,
            final(self).ptrs.data@ == ptrs@,
    {
        self.keys.renew(keys);
        self.ptrs.renew(ptrs);
        self.len = len;
        proof {
            assert(self.keys.data@ =~= keys@);
            assert(self.ptrs.data@ =~= ptrs@);
        }
    }

    /// Returns the old pointer for where to go down the tree and sets a new ptr.
    /// Additionally returns index of this returned pointer in the node.
    /// search_type: whether searching for SUCCESSOR, PREDECESSOR, or EXACT_MATCH.
    /// For a BpTree node, searching for SUCCESSOR and EXACT_MATCH are exactly the same.
    pub fn search_update_index(&mut self, key: T, new_ptr: PositionType, search_type: usize) -> (r: (
        usize,
        PositionType,
    ))
        requires
            old(self).wf(),
        ensures
            r.0 == branch_of(old(self).live_keys(), key, search_type),
            r.1 == (if r.0 < B {
                old(self).ptrs.data@[r.0 as int]
            } else {
                DUMMY_POS
            }),
            final(self).keys == old(self).keys,
            final(self).len == old(self).len,
            final(self).ptrs.data@ == (if r.0 < B {
                old(self).ptrs.data@.update(r.0 as int, new_ptr)
            } else {
                old(self).ptrs.data@
            }),
    {
        let mut index: usize = 0;
        let mut exact_match: bool = false;
        self.keys.search_succ_prefix(key, &mut index, &mut exact_match, self.len);
        proof {
            lemma_prefix(self.keys.data@, key, self.len as int);
        }
        let subtract_index: bool = both(search_type == PREDECESSOR, exact_match);
        let one_less: usize = index.wrapping_sub(1);
        cmov_usize(&mut index, one_less, subtract_index);
        let mut ret: PositionType = DUMMY_POS;
        self.ptrs.read_update(index, new_ptr, &mut ret);
        (index, ret)
    }

    /// [`Self::search_update_index`], with the key that the search ends at.
    pub fn search_update_key_index(
        &mut self,
        key: T,
        new_ptr: PositionType,
        search_type: usize,
    ) -> (r: (OOption<T>, usize, PositionType))
        requires
            old(self).wf(),
        ensures
            r.0@ == (match found_at(old(self).live_keys(), key, search_type) {
                Some(i) => Some(old(self).live_keys()[i]),
                None => None,
            }),
            r.1 == branch_of(old(self).live_keys(), key, search_type),
            r.2 == (if r.1 < B {
                old(self).ptrs.data@[r.1 as int]
            } else {
                DUMMY_POS
            }),
            final(self).keys == old(self).keys,
            final(self).len == old(self).len,
            final(self).ptrs.data@ == (if r.1 < B {
                old(self).ptrs.data@.update(r.1 as int, new_ptr)
            } else {
                old(self).ptrs.data@
            }),
    {
        let mut index: usize = 0;
        let mut exact_match: bool = false;
        self.keys.search_succ_prefix(key, &mut index, &mut exact_match, self.len);
        proof {
            lemma_prefix(self.keys.data@, key, self.len as int);
        }
        let mut ptr_index: usize = index;
        cmov_usize(
            &mut ptr_index,
            index.wrapping_sub(1),
            both(search_type == PREDECESSOR, exact_match),
        );
        let mut ret: PositionType = DUMMY_POS;
        self.ptrs.read_update(ptr_index, new_ptr, &mut ret);
        let (place, search_succeeded): (usize, bool) = resolve(
            index,
            exact_match,
            self.len,
            search_type,
        );
        let mut ret_key: T = T::zeroed();
        self.keys.read(place, &mut ret_key);
        (OOption::new(ret_key, search_succeeded), ptr_index, ret)
    }
}

/// Searches of a prefix are searches of its keys.
proof fn lemma_prefix<T: OrderedKey>(s: Seq<T>, key: T, n: int)
    requires
        0 <= n <= s.len(),
    ensures
        at_most(s.take(n), key, n) == at_most(s, key, n),
        among(s.take(n), key, n) == among(s, key, n),
        0 <= at_most(s, key, n) <= n,
        among(s, key, n) ==> 1 <= at_most(s, key, n),
{
    lemma_at_most(s, key, n);
    lemma_same_prefix(s, s.take(n), key, n);
    if among(s, key, n) {
        let i = choose|i: int| 0 <= i < n && #[trigger] s[i] == key;
        assert(s.take(n)[i] == key);
    }
}

proof fn lemma_same_prefix<T: OrderedKey>(a: Seq<T>, b: Seq<T>, key: T, n: int)
    requires
        forall|i: int| 0 <= i < n ==> #[trigger] a[i] == b[i],
    ensures
        at_most(a, key, n) == at_most(b, key, n),
    decreases n,
{
    if n > 0 {
        lemma_same_prefix(a, b, key, n - 1);
        assert(a[n - 1] == b[n - 1]);
    }
}

/// A B tree node. Each key has an inline value and each gap has a child pointer.
#[derive(Debug)]
pub struct BTreeNode<T: OrderedKey, V: ObliviousValue, const BM1: usize, const B: usize> {
    /// The keys.
    pub keys: ObliviousArray<T, BM1>,
    /// The values of the keys.
    pub values: ObliviousArray<V, BM1>,
    /// Where the children are.
    pub ptrs: ObliviousArray<PositionType, B>,
    /// refers to the number of keys currently actually in the node
    pub len: usize,
}

impl<T: OrderedKey, V: ObliviousValue, const BM1: usize, const B: usize> Clone for BTreeNode<
    T,
    V,
    BM1,
    B,
> {
    fn clone(&self) -> (r: Self)
        ensures
            r == *self,
    {
        *self
    }
}

impl<T: OrderedKey, V: ObliviousValue, const BM1: usize, const B: usize> Copy for BTreeNode<
    T,
    V,
    BM1,
    B,
> {

}

impl<T: OrderedKey, V: ObliviousValue, const BM1: usize, const B: usize> Default for BTreeNode<
    T,
    V,
    BM1,
    B,
> {
    fn default() -> (r: Self)
        ensures
            r.keys.data@ == Seq::new(BM1 as nat, |i: int| T::zero()),
            r.values.data@ == Seq::new(BM1 as nat, |i: int| V::zero()),
            r.ptrs.data@ == Seq::new(B as nat, |i: int| DUMMY_POS),
            r.len == 0,
    {
        let r = BTreeNode {
            keys: ObliviousArray { data: [T::zeroed(); BM1] },
            values: ObliviousArray { data: [V::zeroed(); BM1] },
            ptrs: ObliviousArray { data: [DUMMY_POS; B] },
            len: 0,
        };
        assert(r.keys.data@ =~= Seq::new(BM1 as nat, |i: int| T::zero()));
        assert(r.values.data@ =~= Seq::new(BM1 as nat, |i: int| V::zero()));
        assert(r.ptrs.data@ =~= Seq::new(B as nat, |i: int| DUMMY_POS));
        r
    }
}

impl<T: OrderedKey, V: ObliviousValue, const BM1: usize, const B: usize> ObliviousValue for BTreeNode<
    T,
    V,
    BM1,
    B,
> {
    open spec fn zero() -> Self {
        BTreeNode {
            keys: ObliviousArray::zero(),
            values: ObliviousArray::zero(),
            ptrs: ObliviousArray::zero(),
            len: 0,
        }
    }

    fn zeroed() -> (r: Self) {
        BTreeNode {
            keys: ObliviousArray::zeroed(),
            values: ObliviousArray::zeroed(),
            ptrs: ObliviousArray::zeroed(),
            len: 0,
        }
    }

    fn assign_if(&mut self, other: &Self, choice: bool) {
        self.keys.assign_if(&other.keys, choice);
        self.values.assign_if(&other.values, choice);
        self.ptrs.assign_if(&other.ptrs, choice);
        cmov_usize(&mut self.len, other.len, choice);
    }
}

impl<T: OrderedKey, V: ObliviousValue, const BM1: usize, const B: usize> BTreeNode<T, V, BM1, B> {
    /// The keys in use fit.
    pub open spec fn wf(&self) -> bool {
        self.len <= BM1 < usize::MAX
    }

    /// The keys in use.
    pub open spec fn live_keys(&self) -> Seq<T> {
        self.keys.data@.take(self.len as int)
    }

    /// initialize with data. If the key supports comparisons, it should be already sorted
    /// from smallest to largest. len refers to the number of keys.
    pub fn new(keys: &[T], values: &[V], ptrs: &[PositionType], len: usize) -> (r: Self)
        requires
            len <= keys@.len(),
            len <= values@.len(),
            len < ptrs@.len(),
            len <= BM1 < usize::MAX,
        ensures
            r.wf(),
            r.len == len,
            r.live_keys() == keys@.take(len as int),
            r.keys.data@ == copied(Seq::new(BM1 as nat, |i: int| T::zero()), keys@),
            r.values.data@ == copied(Seq::new(BM1 as nat, |i: int| V::zero()), values@),
            r.ptrs.data@ == copied(Seq::new(B as nat, |i: int| DUMMY_POS), ptrs@),
    {
        let mut new_node: Self = BTreeNode::default();
        new_node.len = len;
        new_node.keys.renew(keys);
        new_node.values.renew(values);
        new_node.ptrs.renew(ptrs);
        proof {
            assert(new_node.keys.data@ =~= copied(Seq::new(BM1 as nat, |i: int| T::zero()), keys@));
            assert(new_node.values.data@ =~= copied(
                Seq::new(BM1 as nat, |i: int| V::zero()),
                values@,
            ));
            assert(new_node.ptrs.data@ =~= copied(Seq::new(B as nat, |i: int| DUMMY_POS), ptrs@));
            assert(new_node.live_keys() =~= keys@.take(len as int));
        }
        new_node
    }

    /// reinitialize with new data. If the key supports comparisons, it should be already
    /// sorted from smallest to largest.
    pub fn renew(
        &mut self,
        keys: &[T; BM1],
        values: &[V; BM1],
        ptrs: &[PositionType; B],
        len: usize,
    )
        requires
            len <= BM1 < usize::MAX,
        ensures
            final(self).wf(),
            final(self).len == len,
            final(self).keys.data@ == keys@,
            final(self).values.data@ == values@,
            final(self).ptrs.data@ == ptrs@,
    {
        self.keys.renew(keys);
        self.values.renew(values);
        self.ptrs.renew(ptrs);
        self.len = len;
        proof {
            assert(self.keys.data@ =~= keys@);
            assert(self.values.data@ =~= values@);
            assert(self.ptrs.data@ =~= ptrs@);
        }
    }

    /// Returns the matched key-value pair, child index, and old child pointer for the
    /// requested search type, and sets a new child pointer.
    pub fn search_update_pair_index(
        &mut self,
        key: T,
        new_ptr: PositionType,
        search_type: usize,
    ) -> (r: (OOption<KeyValuePair<T, V>>, usize, PositionType))
        requires
            old(self).wf(),
        ensures
            r.0@ == (match found_at(old(self).live_keys(), key, search_type) {
                Some(i) => Some(
                    KeyValuePair {
                        key: old(self).live_keys()[i],
                        value: old(self).values.data@[i],
                    },
                ),
                None => None,
            }),
            r.1 == branch_of(old(self).live_keys(), key, search_type),
            r.2 == (if r.1 < B {
                old(self).ptrs.data@[r.1 as int]
            } else {
                DUMMY_POS
            }),
            final(self).keys == old(self).keys,
            final(self).values == old(self).values,
            final(self).len == old(self).len,
            final(self).ptrs.data@ == (if r.1 < B {
                old(self).ptrs.data@.update(r.1 as int, new_ptr)
            } else {
                old(self).ptrs.data@
            }),
    {
        let mut index: usize = 0;
        let mut exact_match: bool = false;
        self.keys.search_succ_prefix(key, &mut index, &mut exact_match, self.len);
        proof {
            lemma_prefix(self.keys.data@, key, self.len as int);
        }
        let (place, search_succeeded): (usize, bool) = resolve(
            index,
            exact_match,
            self.len,
            search_type,
        );
        let mut ptr_index: usize = index;
        cmov_usize(
            &mut ptr_index,
            index.wrapping_sub(1),
            both(search_type == PREDECESSOR, exact_match),
        );
        let mut old_ptr: PositionType = DUMMY_POS;
        self.ptrs.read_update(ptr_index, new_ptr, &mut old_ptr);
        let mut ret_key: T = T::zeroed();
        let mut ret_value: V = V::zeroed();
        self.keys.read(place, &mut ret_key);
        self.values.read(place, &mut ret_value);
        (
            OOption::new(KeyValuePair { key: ret_key, value: ret_value }, search_succeeded),
            ptr_index,
            old_ptr,
        )
    }
}

/// A value node. For each key, there is an exact value.
#[derive(Debug)]
pub struct BpValueNode<T: OrderedKey, V: ObliviousValue, const B: usize> {
    /// The keys.
    pub keys: ObliviousArray<T, B>,
    /// The values of the keys.
    pub values: ObliviousArray<V, B>,
    /// refers to the number of keys currently actually in the node
    pub len: usize,
}

impl<T: OrderedKey, V: ObliviousValue, const B: usize> Clone for BpValueNode<T, V, B> {
    fn clone(&self) -> (r: Self)
        ensures
            r == *self,
    {
        *self
    }
}

impl<T: OrderedKey, V: ObliviousValue, const B: usize> Copy for BpValueNode<T, V, B> {

}

impl<T: OrderedKey, V: ObliviousValue, const B: usize> Default for BpValueNode<T, V, B> {
    fn default() -> (r: Self)
        ensures
            r.keys.data@ == Seq::new(B as nat, |i: int| T::zero()),
            r.values.data@ == Seq::new(B as nat, |i: int| V::zero()),
            r.len == 0,
    {
        let r = BpValueNode {
            keys: ObliviousArray { data: [T::zeroed(); B] },
            values: ObliviousArray { data: [V::zeroed(); B] },
            len: 0,
        };
        assert(r.keys.data@ =~= Seq::new(B as nat, |i: int| T::zero()));
        assert(r.values.data@ =~= Seq::new(B as nat, |i: int| V::zero()));
        r
    }
}

impl<T: OrderedKey, V: ObliviousValue, const B: usize> ObliviousValue for BpValueNode<T, V, B> {
    open spec fn zero() -> Self {
        BpValueNode {
            keys: ObliviousArray::zero(),
            values: ObliviousArray::zero(),
            len: 0,
        }
    }

    fn zeroed() -> (r: Self) {
        BpValueNode {
            keys: ObliviousArray::zeroed(),
            values: ObliviousArray::zeroed(),
            len: 0,
        }
    }

    fn assign_if(&mut self, other: &Self, choice: bool) {
        self.keys.assign_if(&other.keys, choice);
        self.values.assign_if(&other.values, choice);
        cmov_usize(&mut self.len, other.len, choice);
    }
}

impl<T: OrderedKey, V: ObliviousValue, const B: usize> BpValueNode<T, V, B> {
    /// The keys in use fit.
    pub open spec fn wf(&self) -> bool {
        self.len <= B < usize::MAX
    }

    /// The keys in use.
    pub open spec fn live_keys(&self) -> Seq<T> {
        self.keys.data@.take(self.len as int)
    }

    /// The value that a search ends at.
    pub open spec fn value_found(&self, key: T, search_type: usize) -> Option<V> {
        match found_at(self.live_keys(), key, search_type) {
            Some(i) => Some(self.values.data@[i]),
            None => None,
        }
    }

    /// initialize with data. If the key supports comparisons, it should be already sorted
    /// from smallest to largest. len refers to the number of keys.
    pub fn new(keys: &[T], values: &[V], len: usize) -> (r: Self)
        requires
            len <= keys@.len(),
            len <= values@.len(),
            len <= B < usize::MAX,
        ensures
            r.wf(),
            r.len == len,
            r.live_keys() == keys@.take(len as int),
            r.keys.data@ == copied(Seq::new(B as nat, |i: int| T::zero()), keys@),
            r.values.data@ == copied(Seq::new(B as nat, |i: int| V::zero()), values@),
    {
        let mut new_node: Self = BpValueNode::default();
        new_node.len = len;
        new_node.keys.renew(keys);
        new_node.values.renew(values);
        proof {
            assert(new_node.keys.data@ =~= copied(Seq::new(B as nat, |i: int| T::zero()), keys@));
            assert(new_node.values.data@ =~= copied(
                Seq::new(B as nat, |i: int| V::zero()),
                values@,
            ));
            assert(new_node.live_keys() =~= keys@.take(len as int));
        }
        new_node
    }

    /// reinitialize with new data. If the key supports comparisons, it should be already
    /// sorted from smallest to largest.
    pub fn renew(&mut self, keys: &[T; B], values: &[V; B], len: usize)
        requires
            len <= B < usize::MAX,
        ensures
            final(self).wf(),
            final(self).len == len,
            final(self).keys.data@ == keys@,
            final(self).values.data@ == values@,
    {
        self.keys.renew(keys);
        self.values.renew(values);
        self.len = len;
        proof {
            assert(self.keys.data@ =~= keys@);
            assert(self.values.data@ =~= values@);
        }
    }

    /// The place where a search ends, and whether there is one.
    fn find(&self, key: T, search_type: usize) -> (r: (usize, bool))
        requires
            self.wf(),
        ensures
            r.1 == (found_at(self.live_keys(), key, search_type) is Some),
            r.0 == (match found_at(self.live_keys(), key, search_type) {
                Some(i) => i,
                None => self.len as int,
            }),
            r.0 <= self.len,
            r.1 ==> r.0 < self.len,
    {
        let mut index: usize = 0;
        let mut exact_match: bool = false;
        self.keys.search_succ_prefix(key, &mut index, &mut exact_match, self.len);
        proof {
            lemma_prefix(self.keys.data@, key, self.len as int);
        }
        resolve(index, exact_match, self.len, search_type)
    }

    /// Returns the old value at the place where the search ends and sets a new value.
    /// May return none, if no exact match found or there is no successor or no predecessor,
    /// depending on search type. If returns none then it does not use the new value.
    pub fn search_update(&mut self, key: T, new_value: V, search_type: usize) -> (r: OOption<V>)
        requires
            old(self).wf(),
        ensures
            r@ == old(self).value_found(key, search_type),
            final(self).keys == old(self).keys,
            final(self).len == old(self).len,
            final(self).values.data@ == (match found_at(old(self).live_keys(), key, search_type) {
                Some(i) => old(self).values.data@.update(i, new_value),
                None => old(self).values.data@,
            }),
    {
        let (place, search_succeeded): (usize, bool) = self.find(key, search_type);
        let mut index: usize = B;
        cmov_usize(&mut index, place, search_succeeded);
        let mut ret: V = V::zeroed();
        self.values.read_update(index, new_value, &mut ret);
        OOption::new(ret, search_succeeded)
    }

    /// Returns the value at the place where the search ends.
    pub fn search(&mut self, key: T, search_type: usize) -> (r: OOption<V>)
        requires
            old(self).wf(),
        ensures
            r@ == old(self).value_found(key, search_type),
            *final(self) == *old(self),
    {
        let (place, search_succeeded): (usize, bool) = self.find(key, search_type);
        let mut ret: V = V::zeroed();
        self.values.read(place, &mut ret);
        OOption::new(ret, search_succeeded)
    }

    /// Returns the matched key-value pair for the requested search type.
    pub fn search_pair(&mut self, key: T, search_type: usize) -> (r: OOption<KeyValuePair<T, V>>)
        requires
            old(self).wf(),
        ensures
            r@ == (match found_at(old(self).live_keys(), key, search_type) {
                Some(i) => Some(
                    KeyValuePair {
                        key: old(self).live_keys()[i],
                        value: old(self).values.data@[i],
                    },
                ),
                None => None,
            }),
            *final(self) == *old(self),
    {
        let (place, search_succeeded): (usize, bool) = self.find(key, search_type);
        let mut ret_key: T = T::zeroed();
        let mut ret_value: V = V::zeroed();
        self.keys.read(place, &mut ret_key);
        self.values.read(place, &mut ret_value);
        OOption::new(KeyValuePair { key: ret_key, value: ret_value }, search_succeeded)
    }

    /// Searches for key using requested search type
    pub fn search_key(&mut self, key: T, search_type: usize) -> (r: OOption<T>)
        requires
            old(self).wf(),
        ensures
            r@ == (match found_at(old(self).live_keys(), key, search_type) {
                Some(i) => Some(old(self).live_keys()[i]),
                None => None,
            }),
            *final(self) == *old(self),
    {
        let (place, search_succeeded): (usize, bool) = self.find(key, search_type);
        let mut ret_key: T = T::zeroed();
        self.keys.read(place, &mut ret_key);
        OOption::new(ret_key, search_succeeded)
    }
}

} // verus!
