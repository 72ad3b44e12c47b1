//! One chain of moves down a path: a slow but plain Circuit ORAM eviction.
//!
//! A chain works on some slots of every bucket of a loaded path, and on one of the
//! stashes. From the deepest level up, an empty slot takes the best block above it: the
//! one that may go deepest and, among those, the one with the lowest key. The stash
//! counts as level zero. The chain goes on at the level that gave the block.
use vstd::prelude::*;
use crate::heap_tree::full_width;
use crate::stash_index::EMPTY_KEY;
use crate::wide_heap_tree::{lemma_shared_digits, same_prefix, shared_digits};

verus! {

/// The keys of every stash under each label.
pub type Stashes = Seq<Seq<Set<u32>>>;

/// A key waits in a stash.
pub open spec fn stashed(stashes: Stashes, labels: Seq<u32>, k: u32) -> bool {
    exists|q: int| 0 <= q < stashes.len() && #[trigger] stashes[q][labels[k as int] as int].contains(k)
}

/// No key is in two slots.
pub open spec fn distinct(s: Seq<u32>) -> bool {
    forall|i: int, j: int|
        0 <= i < j < s.len() && #[trigger] s[i] != EMPTY_KEY ==> s[i] != #[trigger] s[j]
}

/// Every stashed key is a known one, under its own label and in one stash alone.
pub open spec fn stashes_ok(stashes: Stashes, labels: Seq<u32>, n: int) -> bool {
    &&& forall|q: int| 0 <= q < stashes.len() ==> (#[trigger] stashes[q]).len() == n
    &&& forall|q: int, l: int, k: u32|
        0 <= q < stashes.len() && 0 <= l < n && #[trigger] stashes[q][l].contains(k) ==> k
            < labels.len() && labels[k as int] == l && k != EMPTY_KEY
    &&& forall|q: int, p: int, l: int, k: u32|
        0 <= q < stashes.len() && 0 <= p < stashes.len() && 0 <= l < n
            && #[trigger] stashes[q][l].contains(k) && #[trigger] stashes[p][l].contains(k) ==> q
            == p
}

/// What a chain works on: `cnt` slots from `off` on in each of the `h` buckets of `w`
/// slots on the path to `leaf`, and stash `q`.
pub struct Chain {
    pub b: int,
    pub h: int,
    pub w: int,
    pub off: int,
    pub cnt: int,
    pub q: int,
    pub leaf: int,
    pub labels: Seq<u32>,
}

impl Chain {
    /// The sizes fit together.
    pub open spec fn wf(&self) -> bool {
        &&& 2 <= self.b
        &&& 1 <= self.h
        &&& 0 <= self.off
        &&& 1 <= self.cnt
        &&& self.off + self.cnt <= self.w
        &&& 0 <= self.leaf < self.leaves()
        &&& self.labels.len() <= 0xffff_ffff
        &&& forall|k: int| 0 <= k < self.labels.len() ==> #[trigger] self.labels[k] < self.leaves()
    }

    /// The number of leaves.
    pub open spec fn leaves(&self) -> int {
        full_width(self.h - 1, self.b)
    }

    /// The deepest level on the path that the block of `k` may go to.
    pub open spec fn depth(&self, k: u32) -> int {
        shared_digits(self.b, self.h, self.h - 1, self.labels[k as int] as int, self.leaf)
    }

    /// The index of slot `j` at `level`.
    pub open spec fn at(&self, level: int, j: int) -> int {
        level * self.w + self.off + j
    }

    /// The slots and stashes are in order: no key is in two places, every key is known,
    /// and no block lies deeper than it may.
    pub open spec fn ok(&self, slots: Seq<u32>, stashes: Stashes) -> bool {
        &&& slots.len() == self.h * self.w
        &&& 0 <= self.q < stashes.len()
        &&& distinct(slots)
        &&& stashes_ok(stashes, self.labels, self.leaves())
        &&& forall|i: int|
            0 <= i < slots.len() && #[trigger] slots[i] != EMPTY_KEY ==> slots[i]
                < self.labels.len() && !stashed(stashes, self.labels, slots[i]) && self.depth(
                slots[i],
            ) >= i / self.w
    }

    /// The block of `k` is in the stash of the chain.
    pub open spec fn waits(&self, stashes: Stashes, k: u32) -> bool {
        k < self.labels.len() && stashes[self.q][self.labels[k as int] as int].contains(k)
    }

    /// Slot `i` is one of those of the chain above `dest`.
    pub open spec fn is_above(&self, i: int, dest: int) -> bool {
        exists|level: int, j: int|
            0 <= level < dest && 0 <= j < self.cnt && i == #[trigger] self.at(level, j)
    }

    /// The block of `k` stands above `dest` and may go there.
    pub open spec fn candidate(&self, slots: Seq<u32>, stashes: Stashes, dest: int, k: u32) -> bool {
        &&& k != EMPTY_KEY
        &&& self.depth(k) >= dest
        &&& self.waits(stashes, k) || exists|i: int|
            self.is_above(i, dest) && #[trigger] slots[i] == k
    }

    /// The block of `k` goes before that of `m`: it may go deeper, or as deep with a lower
    /// key.
    pub open spec fn before(&self, k: u32, m: u32) -> bool {
        self.depth(k) > self.depth(m) || (self.depth(k) == self.depth(m) && k < m)
    }

    /// The block of `k` is the one that goes to `dest`.
    pub open spec fn is_best(&self, slots: Seq<u32>, stashes: Stashes, dest: int, k: u32) -> bool {
        &&& self.candidate(slots, stashes, dest, k)
        &&& forall|m: u32| #[trigger]
            self.candidate(slots, stashes, dest, m) ==> m == k || self.before(k, m)
    }

    /// The block that goes to `dest`.
    pub open spec fn best(&self, slots: Seq<u32>, stashes: Stashes, dest: int) -> u32 {
        choose|k: u32| self.is_best(slots, stashes, dest, k)
    }

    /// Some block may go to `dest`.
    pub open spec fn any(&self, slots: Seq<u32>, stashes: Stashes, dest: int) -> bool {
        exists|k: u32| self.is_best(slots, stashes, dest, k)
    }

    /// Where above `dest` the block of `k` stands.
    pub open spec fn place(&self, slots: Seq<u32>, dest: int, k: u32) -> int {
        choose|i: int| self.is_above(i, dest) && #[trigger] slots[i] == k
    }

    /// The first empty slot at `level` from slot `j` on, or -1.
    pub open spec fn vacancy(&self, slots: Seq<u32>, level: int, j: int) -> int
        decreases self.cnt - j,
    {
        if j >= self.cnt {
            -1
        } else if slots[self.at(level, j)] == EMPTY_KEY {
            self.at(level, j)
        } else {
            self.vacancy(slots, level, j + 1)
        }
    }

    /// The slots and stashes after the block of `k` went from above `dest` to slot `to`.
    pub open spec fn moved(
        &self,
        slots: Seq<u32>,
        stashes: Stashes,
        dest: int,
        to: int,
        k: u32,
    ) -> (Seq<u32>, Stashes) {
        if self.waits(stashes, k) {
            let l = self.labels[k as int] as int;
            let stash = stashes[self.q].update(l, stashes[self.q][l].remove(k));
            (slots.update(to, k), stashes.update(self.q, stash))
        } else {
            (slots.update(to, k).update(self.place(slots, dest, k), EMPTY_KEY), stashes)
        }
    }

    /// The level that the block of `k` leaves.
    pub open spec fn left(&self, slots: Seq<u32>, stashes: Stashes, dest: int, k: u32) -> int {
        if self.waits(stashes, k) {
            0
        } else {
            self.place(slots, dest, k) / self.w
        }
    }

    /// The slots and stashes after a chain from `dest` up.
    pub open spec fn run(&self, slots: Seq<u32>, stashes: Stashes, dest: int) -> (
        Seq<u32>,
        Stashes,
    )
        decreases dest,
    {
        if dest <= 0 {
            (slots, stashes)
        } else {
            let to = self.vacancy(slots, dest, 0);
            let k = self.best(slots, stashes, dest);
            let next = self.left(slots, stashes, dest, k);
            if to >= 0 && self.any(slots, stashes, dest) && 0 <= next < dest {
                let (s, t) = self.moved(slots, stashes, dest, to, k);
                self.run(s, t, next)
            } else {
                self.run(slots, stashes, dest - 1)
            }
        }
    }

    /// A key is in a slot or in a stash.
    pub open spec fn holds(&self, slots: Seq<u32>, stashes: Stashes, k: u32) -> bool {
        k != EMPTY_KEY && (slots.contains(k) || (k < self.labels.len() && stashed(
            stashes,
            self.labels,
            k,
        )))
    }

    /// Slots of the chain lie inside the loaded path.
    pub proof fn lemma_at(&self, level: int, j: int)
        requires
            self.wf(),
            0 <= level < self.h,
            0 <= j < self.cnt,
        ensures
            0 <= self.at(level, j) < self.h * self.w,
            self.at(level, j) / self.w == level,
            self.at(level, j) % self.w == self.off + j,
    {
        vstd::arithmetic::div_mod::lemma_fundamental_div_mod_converse(
            self.at(level, j),
            self.w,
            level,
            self.off + j,
        );
        assert(0 <= level * self.w && level * self.w + self.w <= self.h * self.w)
            by (nonlinear_arith)
            requires
                0 <= level,
                level + 1 <= self.h,
                0 < self.w,
        ;
    }

    /// Slots above a level lie on levels above it.
    pub proof fn lemma_above(&self, i: int, dest: int)
        requires
            self.wf(),
            0 <= dest < self.h,
            self.is_above(i, dest),
        ensures
            0 <= i < self.h * self.w,
            0 <= i / self.w < dest,
    {
        let (level, j) = choose|level: int, j: int|
            0 <= level < dest && 0 <= j < self.cnt && i == #[trigger] self.at(level, j);
        self.lemma_at(level, j);
    }

    /// There is one best block at most.
    pub proof fn lemma_best_is_one(&self, slots: Seq<u32>, stashes: Stashes, dest: int, k: u32)
        requires
            self.is_best(slots, stashes, dest, k),
        ensures
            self.any(slots, stashes, dest),
            self.best(slots, stashes, dest) == k,
    {
        let m = self.best(slots, stashes, dest);
        assert(self.is_best(slots, stashes, dest, m));
        assert(self.candidate(slots, stashes, dest, m));
        assert(self.candidate(slots, stashes, dest, k));
    }

    /// The first empty slot of a level is empty and on that level.
    pub proof fn lemma_vacancy(&self, slots: Seq<u32>, level: int, j: int)
        requires
            self.wf(),
            0 <= level < self.h,
            0 <= j <= self.cnt,
            slots.len() == self.h * self.w,
        ensures
            ({
                let to = self.vacancy(slots, level, j);
                to >= 0 ==> to < slots.len() && to / self.w == level && slots[to] == EMPTY_KEY
            }),
        decreases self.cnt - j,
    {
        if j < self.cnt {
            self.lemma_at(level, j);
            self.lemma_vacancy(slots, level, j + 1);
        }
    }

    /// One move keeps everything in order and loses no key.
    pub proof fn lemma_moved(&self, slots: Seq<u32>, stashes: Stashes, dest: int, to: int, k: u32)
        requires
            self.wf(),
            self.ok(slots, stashes),
            0 < dest < self.h,
            0 <= to < slots.len(),
            to / self.w == dest,
            slots[to] == EMPTY_KEY,
            self.candidate(slots, stashes, dest, k),
        ensures
            ({
                let (s, t) = self.moved(slots, stashes, dest, to, k);
                &&& self.ok(s, t)
                &&& t.len() == stashes.len()
                &&& forall|m: u32| self.holds(s, t, m) == #[trigger] self.holds(slots, stashes, m)
                &&& 0 <= self.left(slots, stashes, dest, k) < dest
            }),
    {
        let (s, t) = self.moved(slots, stashes, dest, to, k);
        let n = self.leaves();
        if self.waits(stashes, k) {
            let l = self.labels[k as int] as int;
            let q = self.q;
            assert(stashes[q][l].contains(k));
            assert(stashed(stashes, self.labels, k));
            assert forall|i: int| 0 <= i < slots.len() implies #[trigger] slots[i] != k by {}
            assert(distinct(s)) by {
                assert forall|i: int, j: int|
                    0 <= i < j < s.len() && #[trigger] s[i] != EMPTY_KEY implies s[i]
                    != #[trigger] s[j] by {
                    assert(slots[i] != k && slots[j] != k);
                    if i != to && j != to {
                        assert(s[i] == slots[i] && s[j] == slots[j]);
                    }
                }
            }
            assert forall|p: int, e: int, m: u32|
                0 <= p < t.len() && 0 <= e < n && #[trigger] t[p][e].contains(m) implies
                stashes[p][e].contains(m) && m != k by {
                if m == k && stashes[p][e].contains(k) {
                    assert(e == l);
                    assert(stashes[p][l].contains(k) && stashes[q][l].contains(k));
                }
            }
            assert forall|p: int, e: int, m: u32|
                0 <= p < t.len() && 0 <= e < n && #[trigger] stashes[p][e].contains(m) && m
                    != k implies t[p][e].contains(m) by {}
            assert(stashes_ok(t, self.labels, n)) by {
                assert forall|p: int| 0 <= p < t.len() implies (#[trigger] t[p]).len() == n by {
                    assert(stashes[p].len() == n);
                }
                assert forall|p: int, r: int, e: int, m: u32|
                    0 <= p < t.len() && 0 <= r < t.len() && 0 <= e < n
                        && #[trigger] t[p][e].contains(m) && #[trigger] t[r][e].contains(
                        m,
                    ) implies p == r by {
                    assert(stashes[p][e].contains(m) && stashes[r][e].contains(m));
                }
            }
            assert forall|m: u32|
                m < self.labels.len() && #[trigger] stashed(t, self.labels, m) implies m != k
                && stashed(stashes, self.labels, m) by {
                let p = choose|p: int|
                    0 <= p < t.len() && #[trigger] t[p][self.labels[m as int] as int].contains(m);
                assert(0 <= self.labels[m as int] < n);
                assert(t[p][self.labels[m as int] as int].contains(m));
                assert(stashes[p][self.labels[m as int] as int].contains(m));
            }
            assert forall|m: u32|
                m < self.labels.len() && m != k && stashed(stashes, self.labels, m) implies
                #[trigger] stashed(t, self.labels, m) by {
                let p = choose|p: int|
                    0 <= p < stashes.len()
                        && #[trigger] stashes[p][self.labels[m as int] as int].contains(m);
                assert(0 <= self.labels[m as int] < n);
                assert(t[p][self.labels[m as int] as int].contains(m));
            }
            assert(s[to] == k);
            assert forall|m: u32| self.holds(s, t, m) == #[trigger] self.holds(
                slots,
                stashes,
                m,
            ) by {
                if m == k {
                    assert(s.contains(k));
                } else {
                    if s.contains(m) {
                        let i = choose|i: int| 0 <= i < s.len() && s[i] == m;
                        assert(slots[i] == m);
                    }
                    if slots.contains(m) && m != EMPTY_KEY {
                        let i = choose|i: int| 0 <= i < slots.len() && slots[i] == m;
                        assert(s[i] == m);
                    }
                }
            }
            assert forall|i: int| 0 <= i < s.len() && #[trigger] s[i] != EMPTY_KEY implies s[i]
                < self.labels.len() && !stashed(t, self.labels, s[i]) && self.depth(s[i]) >= i
                / self.w by {
                if i != to {
                    assert(s[i] == slots[i]);
                }
            }
        } else {
            let from = self.place(slots, dest, k);
            assert(self.is_above(from, dest) && slots[from] == k);
            self.lemma_above(from, dest);
            assert(from != to);
            assert forall|i: int| 0 <= i < slots.len() && i != from implies #[trigger] slots[i]
                != k by {
                if i < from {
                    assert(slots[i] != EMPTY_KEY ==> slots[i] != slots[from]);
                } else {
                    assert(slots[from] != slots[i]);
                }
            }
            assert forall|i: int, j: int|
                0 <= i < j < s.len() && #[trigger] s[i] != EMPTY_KEY implies s[i]
                != #[trigger] s[j] by {
                assert(i != from ==> slots[i] != k);
                assert(j != from ==> slots[j] != k);
                if i != to && j != to {
                    assert(s[i] == slots[i]);
                    if j != from {
                        assert(s[j] == slots[j]);
                    }
                }
            }
            assert(s[to] == k);
            assert forall|m: u32| self.holds(s, t, m) == #[trigger] self.holds(
                slots,
                stashes,
                m,
            ) by {
                if m == k {
                    assert(s.contains(k));
                    assert(slots.contains(k));
                } else if m != EMPTY_KEY {
                    if s.contains(m) {
                        let i = choose|i: int| 0 <= i < s.len() && s[i] == m;
                        assert(slots[i] == m);
                    }
                    if slots.contains(m) {
                        let i = choose|i: int| 0 <= i < slots.len() && slots[i] == m;
                        assert(s[i] == m);
                    }
                }
            }
            assert forall|i: int| 0 <= i < s.len() && #[trigger] s[i] != EMPTY_KEY implies s[i]
                < self.labels.len() && !stashed(t, self.labels, s[i]) && self.depth(s[i]) >= i
                / self.w by {
                assert(slots[from] < self.labels.len() && !stashed(
                    stashes,
                    self.labels,
                    slots[from],
                ));
                if i != to {
                    assert(s[i] == slots[i]);
                }
            }
        }
    }

    /// A chain keeps everything in order and loses no key.
    pub proof fn lemma_run(&self, slots: Seq<u32>, stashes: Stashes, dest: int)
        requires
            self.wf(),
            self.ok(slots, stashes),
            dest < self.h,
        ensures
            ({
                let (s, t) = self.run(slots, stashes, dest);
                &&& self.ok(s, t)
                &&& t.len() == stashes.len()
                &&& forall|m: u32| self.holds(s, t, m) == #[trigger] self.holds(slots, stashes, m)
            }),
        decreases dest,
    {
        if dest > 0 {
            let to = self.vacancy(slots, dest, 0);
            let k = self.best(slots, stashes, dest);
            let next = self.left(slots, stashes, dest, k);
            self.lemma_vacancy(slots, dest, 0);
            if to >= 0 && self.any(slots, stashes, dest) && 0 <= next < dest {
                assert(self.is_best(slots, stashes, dest, k));
                self.lemma_moved(slots, stashes, dest, to, k);
                let (s, t) = self.moved(slots, stashes, dest, to, k);
                self.lemma_run(s, t, next);
                let (s2, t2) = self.run(s, t, next);
                assert forall|m: u32| self.holds(s2, t2, m) == #[trigger] self.holds(
                    slots,
                    stashes,
                    m,
                ) by {
                    assert(self.holds(s2, t2, m) == self.holds(s, t, m));
                }
            } else {
                self.lemma_run(slots, stashes, dest - 1);
            }
        }
    }

    /// A block may go to the levels down to its depth, where the path to its leaf still
    /// runs along the path of the chain.
    pub proof fn lemma_depth(&self, k: u32, level: int)
        requires
            self.wf(),
            k < self.labels.len(),
            0 <= level < self.h,
        ensures
            0 <= self.depth(k) < self.h,
            level <= self.depth(k) <==> same_prefix(
                self.b,
                self.h,
                level,
                self.labels[k as int] as int,
                self.leaf,
            ),
    {
        lemma_shared_digits(
            self.b,
            self.h,
            self.h - 1,
            self.labels[k as int] as int,
            self.leaf,
        );
    }
}

} // verus!
