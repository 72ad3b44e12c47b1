//! An ordered stash of keys that finds its first empty and its first occupied slot, and
//! the slot of a key.
use vstd::prelude::*;
use crate::prelude::filled;
use crate::stash_index::EMPTY_KEY;

verus! {

/// The place of a key that is in no slot.
pub const NO_STASH_SLOT: usize = usize::MAX;

/// Bit `j` of a word is set.
pub open spec fn set_bit(word: u64, j: int) -> bool {
    0 <= j < 64 && (word >> (j as u64)) & 1 == 1
}

proof fn lemma_set(word: u64, j: u64, k: u64)
    requires
        j < 64,
        k < 64,
    ensures
        set_bit(word | (1u64 << j), k as int) == (k == j || set_bit(word, k as int)),
        set_bit(word & !(1u64 << j), k as int) == (k != j && set_bit(word, k as int)),
{
    assert((((word | (1u64 << j)) >> k) & 1 == 1) == (k == j || (word >> k) & 1 == 1))
        by (bit_vector)
        requires
            j < 64,
            k < 64,
    ;
    assert((((word & !(1u64 << j)) >> k) & 1 == 1) == (k != j && (word >> k) & 1 == 1))
        by (bit_vector)
        requires
            j < 64,
            k < 64,
    ;
}

proof fn lemma_flipped(word: u64, k: u64)
    requires
        k < 64,
    ensures
        set_bit(!word, k as int) == !set_bit(word, k as int),
{
    assert((((!word) >> k) & 1 == 1) == !((word >> k) & 1 == 1)) by (bit_vector)
        requires
            k < 64,
    ;
}

proof fn lemma_low(word: u64, n: u64, k: u64)
    requires
        0 < n < 64,
        k < 64,
    ensures
        (1u64 << n) >= 1,
        set_bit(word & (((1u64 << n) - 1) as u64), k as int) == (k < n && set_bit(word, k as int)),
{
    assert((1u64 << n) >= 1 && ((((word & (((1u64 << n) - 1) as u64)) >> k) & 1 == 1) == (k < n && (
    word >> k) & 1 == 1))) by (bit_vector)
        requires
            0 < n < 64,
            k < 64,
    ;
}

proof fn lemma_zero(k: u64)
    requires
        k < 64,
    ensures
        !set_bit(0, k as int),
{
    assert((0u64 >> k) & 1 == 0) by (bit_vector)
        requires
            k < 64,
    ;
}

/// The lowest set bit of a word that is not zero.
fn lowest(word: u64) -> (r: u32)
    requires
        word != 0,
    ensures
        r < 64,
        set_bit(word, r as int),
        forall|k: int| 0 <= k < r ==> !#[trigger] set_bit(word, k),
{
    broadcast use vstd::std_specs::bits::group_bits_axioms;

    let r: u32 = word.trailing_zeros();
    assert forall|k: int| 0 <= k < r implies !#[trigger] set_bit(word, k) by {
        let j = k as u64;
        assert((word >> j) & 1 == 0);
    }
    r
}

/// The number of occupied slots.
pub open spec fn occupied(s: Seq<u32>) -> nat
    decreases s.len(),
{
    if s.len() == 0 {
        0
    } else {
        occupied(s.drop_last()) + (if s.last() == EMPTY_KEY {
            0nat
        } else {
            1nat
        })
    }
}

/// Changing one slot changes the number by one at most.
pub proof fn lemma_occupied_update(s: Seq<u32>, i: int, key: u32)
    requires
        0 <= i < s.len(),
    ensures
        occupied(s.update(i, key)) == occupied(s) - (if s[i] == EMPTY_KEY {
            0int
        } else {
            1
        }) + (if key == EMPTY_KEY {
            0int
        } else {
            1
        }),
        occupied(s) <= s.len(),
        s[i] != EMPTY_KEY ==> occupied(s) >= 1,
    decreases s.len(),
{
    let t = s.update(i, key);
    if i == s.len() - 1 {
        assert(t.drop_last() =~= s.drop_last());
        if s.len() > 1 {
            lemma_occupied_update(s.drop_last(), 0, EMPTY_KEY);
        } else {
            assert(s.drop_last().len() == 0);
        }
    } else {
        assert(t.drop_last() =~= s.drop_last().update(i, key));
        lemma_occupied_update(s.drop_last(), i, key);
    }
}

/// The first slot from `i` on that is occupied (`full`) or empty, or the number of slots.
pub open spec fn first_where(s: Seq<u32>, full: bool, i: int) -> int
    decreases s.len() - i,
{
    if i >= s.len() || full == (s[i] != EMPTY_KEY) {
        i
    } else {
        first_where(s, full, i + 1)
    }
}

/// A slot that is the first of its kind is the one found.
proof fn lemma_first_where(s: Seq<u32>, full: bool, i: int, at: int)
    requires
        0 <= i <= at <= s.len(),
        forall|k: int| i <= k < at ==> full != (#[trigger] s[k] != EMPTY_KEY),
        at < s.len() ==> full == (s[at] != EMPTY_KEY),
    ensures
        first_where(s, full, i) == at,
    decreases at - i,
{
    if i < at {
        assert(full != (s[i] != EMPTY_KEY));
        lemma_first_where(s, full, i + 1, at);
    }
}

/// An ordered stash of keys.
#[derive(Debug)]
pub struct KeyStash {
    slots: Vec<u32>,
    bits: Vec<u64>,
    len: usize,
    places: Vec<usize>,
}

impl View for KeyStash {
    type V = Seq<u32>;

    /// The key in each slot.
    closed spec fn view(&self) -> Seq<u32> {
        self.slots@
    }
}

impl KeyStash {
    /// The number of keys that there are.
    pub closed spec fn keys(&self) -> int {
        self.places@.len() as int
    }

    /// The bits, the places and the length fit the slots.
    pub closed spec fn wf(&self) -> bool {
        &&& 1 <= self.slots@.len()
        &&& self.slots@.len() <= 64 * self.bits@.len() < self.slots@.len() + 64
        &&& forall|i: int|
            0 <= i < 64 * self.bits@.len() ==> #[trigger] self.bit_right(i)
        &&& self.len == occupied(self.slots@)
        &&& self.places@.len() <= EMPTY_KEY
        &&& forall|i: int|
            0 <= i < self.slots@.len() && #[trigger] self.slots@[i] != EMPTY_KEY ==> self.slots@[i]
                < self.places@.len() && self.places@[self.slots@[i] as int] == i
        &&& forall|k: int|
            0 <= k < self.places@.len() && #[trigger] self.places@[k] != NO_STASH_SLOT
                ==> self.places@[k] < self.slots@.len() && self.slots@[self.places@[k] as int] == k
    }

    spec fn bit_right(&self, i: int) -> bool {
        set_bit(self.bits@[i / 64], i % 64) == (i < self.slots@.len() && self.slots@[i]
            != EMPTY_KEY)
    }

    /// What the parts of a stash say.
    pub proof fn lemma_stash(&self)
        requires
            self.wf(),
        ensures
            1 <= self@.len() <= usize::MAX,
            self.keys() <= EMPTY_KEY,
            forall|i: int|
                0 <= i < self@.len() && #[trigger] self@[i] != EMPTY_KEY ==> self@[i] < self.keys(),
            forall|i: int, j: int|
                0 <= i < j < self@.len() && #[trigger] self@[i] != EMPTY_KEY ==> self@[i]
                    != #[trigger] self@[j],
            occupied(self@) <= self@.len(),
    {
        assert forall|i: int, j: int|
            0 <= i < j < self@.len() && #[trigger] self@[i] != EMPTY_KEY implies self@[i]
            != #[trigger] self@[j] by {
            assert(self.slots@[i] == self@[i]);
            assert(self.slots@[j] == self@[j]);
        }
        lemma_occupied_update(self@, 0, EMPTY_KEY);
        assert(self.slots@.len() == self.slots.len());
    }

    /// Creates an empty stash for `keys` keys.
    pub fn new(capacity: usize, keys: usize) -> (r: Self)
        requires
            1 <= capacity,
            keys <= EMPTY_KEY,
        ensures
            r.wf(),
            r@ == Seq::new(capacity as nat, |i: int| EMPTY_KEY),
            r.keys() == keys,
            occupied(r@) == 0,
    {
        let words: usize = capacity / 64 + (if capacity % 64 != 0 {
            1
        } else {
            0
        });
        let r = KeyStash {
            slots: filled(EMPTY_KEY, capacity),
            bits: filled(0u64, words),
            len: 0,
            places: filled(NO_STASH_SLOT, keys),
        };
        proof {
            assert forall|i: int| 0 <= i < 64 * r.bits@.len() implies #[trigger] r.bit_right(i) by {
                lemma_zero((i % 64) as u64);
                assert(r.bits@[i / 64] == 0);
            }
            lemma_none_occupied(r.slots@);
        }
        r
    }

    /// The number of occupied slots.
    pub fn len(&self) -> (r: usize)
        requires
            self.wf(),
        ensures
            r == occupied(self@),
    {
        self.len
    }

    /// The number of slots.
    pub fn capacity(&self) -> (r: usize)
        ensures
            r == self@.len(),
    {
        self.slots.len()
    }

    /// The slots.
    pub fn slots(&self) -> (r: &[u32])
        ensures
            r@ == self@,
    {
        self.slots.as_slice()
    }

    /// The slot of `key`.
    pub fn slot_of(&self, key: u32) -> (r: Option<usize>)
        requires
            self.wf(),
            key < self.keys(),
        ensures
            match r {
                Some(i) => i < self@.len() && self@[i as int] == key,
                None => !self@.contains(key),
            },
    {
        let place: usize = self.places[key as usize];
        if place != NO_STASH_SLOT {
            Some(place)
        } else {
            proof {
                if self@.contains(key) {
                    let i = choose|i: int| 0 <= i < self@.len() && self@[i] == key;
                    assert(self.slots@[i] == key);
                    assert(self.slots@.len() == self.slots.len());
                }
            }
            None
        }
    }

    /// The first empty slot.
    pub fn first_empty(&self) -> (r: Option<usize>)
        requires
            self.wf(),
        ensures
            r == (if first_where(self@, false, 0) < self@.len() {
                Some(first_where(self@, false, 0) as usize)
            } else {
                None
            }),
    {
        let ghost n = self.slots@.len() as int;
        let mut w: usize = 0;
        proof {
            assert(self.slots@.len() == self.slots.len());
        }
        while w < self.bits.len()
            invariant
                self.wf(),
                n == self.slots@.len(),
                n <= usize::MAX,
                w <= self.bits.len(),
                forall|i: int| 0 <= i < 64 * w && i < n ==> #[trigger] self.slots@[i] != EMPTY_KEY,
            decreases self.bits.len() - w,
        {
            let word: u64 = self.bits[w];
            let mut available: u64 = !word;
            let last: bool = w + 1 == self.bits.len();
            let rest: usize = self.slots.len() % 64;
            proof {
                assert forall|j: int| 0 <= j < 64 implies #[trigger] set_bit(!word, j) == !set_bit(
                    word,
                    j,
                ) by {
                    lemma_flipped(word, j as u64);
                }
                if last && rest != 0 {
                    assert forall|j: int| 0 <= j < 64 implies #[trigger] set_bit(
                        !word & (((1u64 << (rest as u64)) - 1) as u64),
                        j,
                    ) == (j < rest && set_bit(!word, j)) by {
                        lemma_low(!word, rest as u64, j as u64);
                    }
                    lemma_low(!word, rest as u64, 0);
                }
            }
            if last && rest != 0 {
                available = available & ((1u64 << (rest as u64)) - 1);
            }
            proof {
                assert forall|j: int| 0 <= j < 64 implies #[trigger] set_bit(available, j) == (64
                    * w + j < n && self.slots@[64 * w + j] == EMPTY_KEY) by {
                    let i = 64 * w + j;
                    assert(self.bit_right(i));
                    assert(i / 64 == w && i % 64 == j);
                }
            }
            if available != 0 {
                let j: u32 = lowest(available);
                let at: usize = w * 64 + j as usize;
                proof {
                    assert(set_bit(available, j as int));
                    assert forall|k: int| 0 <= k < at implies false != (#[trigger] self.slots@[k]
                        != EMPTY_KEY) by {
                        if k >= 64 * w {
                            assert(!set_bit(available, k - 64 * w));
                        }
                    }
                    lemma_first_where(self.slots@, false, 0, at as int);
                }
                return Some(at);
            }
            proof {
                assert forall|i: int| 0 <= i < 64 * (w + 1) && i < n implies
                    #[trigger] self.slots@[i] != EMPTY_KEY by {
                    if i >= 64 * w {
                        lemma_zero((i - 64 * w) as u64);
                        assert(!set_bit(available, i - 64 * w));
                    }
                }
            }
            w += 1;
        }
        proof {
            lemma_first_where(self.slots@, false, 0, n);
        }
        None
    }

    /// The first occupied slot.
    pub fn first_occupied(&self) -> (r: Option<usize>)
        requires
            self.wf(),
        ensures
            r == (if first_where(self@, true, 0) < self@.len() {
                Some(first_where(self@, true, 0) as usize)
            } else {
                None
            }),
    {
        let ghost n = self.slots@.len() as int;
        let mut w: usize = 0;
        proof {
            assert(self.slots@.len() == self.slots.len());
        }
        while w < self.bits.len()
            invariant
                self.wf(),
                n == self.slots@.len(),
                n <= usize::MAX,
                w <= self.bits.len(),
                forall|i: int| 0 <= i < 64 * w && i < n ==> #[trigger] self.slots@[i] == EMPTY_KEY,
            decreases self.bits.len() - w,
        {
            let word: u64 = self.bits[w];
            proof {
                assert forall|j: int| 0 <= j < 64 implies #[trigger] set_bit(word, j) == (64 * w
                    + j < n && self.slots@[64 * w + j] != EMPTY_KEY) by {
                    let i = 64 * w + j;
                    assert(self.bit_right(i));
                    assert(i / 64 == w && i % 64 == j);
                }
            }
            if word != 0 {
                let j: u32 = lowest(word);
                let at: usize = w * 64 + j as usize;
                proof {
                    assert(set_bit(word, j as int));
                    assert forall|k: int| 0 <= k < at implies true != (#[trigger] self.slots@[k]
                        != EMPTY_KEY) by {
                        if k >= 64 * w {
                            assert(!set_bit(word, k - 64 * w));
                        }
                    }
                    lemma_first_where(self.slots@, true, 0, at as int);
                }
                return Some(at);
            }
            proof {
                assert forall|i: int| 0 <= i < 64 * (w + 1) && i < n implies
                    #[trigger] self.slots@[i] == EMPTY_KEY by {
                    if i >= 64 * w {
                        lemma_zero((i - 64 * w) as u64);
                        assert(!set_bit(word, i - 64 * w));
                    }
                }
            }
            w += 1;
        }
        proof {
            lemma_first_where(self.slots@, true, 0, n);
        }
        None
    }

    /// Puts `key`, which is in no slot, into the empty slot `slot`.
    pub fn put(&mut self, slot: usize, key: u32)
        requires
            old(self).wf(),
            slot < old(self)@.len(),
            old(self)@[slot as int] == EMPTY_KEY,
            key < old(self).keys(),
            !old(self)@.contains(key),
        ensures
            final(self).wf(),
            final(self)@ == old(self)@.update(slot as int, key),
            final(self).keys() == old(self).keys(),
            occupied(final(self)@) == occupied(old(self)@) + 1,
    {
        let ghost before = *self;
        let w: usize = slot / 64;
        let j: usize = slot % 64;
        proof {
            lemma_occupied_update(self.slots@, slot as int, key);
            lemma_occupied_update(self.slots@.update(slot as int, key), slot as int, key);
            assert(self.slots@.len() == self.slots.len());
        }
        let word: u64 = self.bits[w];
        self.slots.set(slot, key);
        self.bits.set(w, word | (1u64 << (j as u64)));
        self.places.set(key as usize, slot);
        self.len += 1;
        proof {
            assert forall|i: int| 0 <= i < 64 * self.bits@.len() implies #[trigger] self.bit_right(
                i,
            ) by {
                assert(before.bit_right(i));
                if i / 64 == w {
                    lemma_set(word, j as u64, (i % 64) as u64);
                }
            }
            assert forall|k: int| 0 <= k < self.slots@.len() implies #[trigger] before.slots@[k]
                != key by {
                assert(before@[k] == before.slots@[k]);
            }
            assert forall|i: int| 0 <= i < self.slots@.len() && #[trigger] self.slots@[i]
                != EMPTY_KEY implies self.slots@[i] < self.places@.len()
                && self.places@[self.slots@[i] as int] == i by {
                if i != slot {
                    assert(before.slots@[i] == self.slots@[i]);
                }
            }
            assert forall|k: int| 0 <= k < self.places@.len() && #[trigger] self.places@[k]
                != NO_STASH_SLOT implies self.places@[k] < self.slots@.len() && self.slots@[
            self.places@[k] as int] == k by {
                if k != key {
                    assert(before.places@[k] == self.places@[k]);
                    assert(before.slots@[before.places@[k] as int] == k);
                }
            }
        }
    }

    /// Takes the key out of the occupied slot `slot`.
    pub fn take(&mut self, slot: usize) -> (r: u32)
        requires
            old(self).wf(),
            slot < old(self)@.len(),
            old(self)@[slot as int] != EMPTY_KEY,
        ensures
            r == old(self)@[slot as int],
            final(self).wf(),
            final(self)@ == old(self)@.update(slot as int, EMPTY_KEY),
            final(self).keys() == old(self).keys(),
            occupied(final(self)@) == occupied(old(self)@) - 1,
            !final(self)@.contains(r),
    {
        let ghost before = *self;
        let w: usize = slot / 64;
        let j: usize = slot % 64;
        proof {
            lemma_occupied_update(self.slots@, slot as int, EMPTY_KEY);
            assert(self.slots@.len() == self.slots.len());
        }
        let key: u32 = self.slots[slot];
        let word: u64 = self.bits[w];
        self.slots.set(slot, EMPTY_KEY);
        self.bits.set(w, word & !(1u64 << (j as u64)));
        self.places.set(key as usize, NO_STASH_SLOT);
        self.len -= 1;
        proof {
            assert forall|i: int| 0 <= i < 64 * self.bits@.len() implies #[trigger] self.bit_right(
                i,
            ) by {
                assert(before.bit_right(i));
                if i / 64 == w {
                    lemma_set(word, j as u64, (i % 64) as u64);
                }
            }
            assert forall|i: int| 0 <= i < self.slots@.len() && #[trigger] self.slots@[i]
                != EMPTY_KEY implies self.slots@[i] != key && self.slots@[i] < self.places@.len()
                && self.places@[self.slots@[i] as int] == i by {
                assert(before.slots@[i] == self.slots@[i]);
            }
            assert forall|k: int| 0 <= k < self.places@.len() && #[trigger] self.places@[k]
                != NO_STASH_SLOT implies self.places@[k] < self.slots@.len() && self.slots@[
            self.places@[k] as int] == k by {
                assert(before.places@[k] == self.places@[k]);
                assert(before.slots@[before.places@[k] as int] == k);
            }
            assert(!self@.contains(key)) by {
                if self@.contains(key) {
                    let i = choose|i: int| 0 <= i < self@.len() && self@[i] == key;
                    assert(self.slots@[i] == key);
                }
            }
        }
        key
    }
}

proof fn lemma_none_occupied(s: Seq<u32>)
    requires
        forall|i: int| 0 <= i < s.len() ==> #[trigger] s[i] == EMPTY_KEY,
    ensures
        occupied(s) == 0,
    decreases s.len(),
{
    if s.len() > 0 {
        lemma_none_occupied(s.drop_last());
    }
}

} // verus!
