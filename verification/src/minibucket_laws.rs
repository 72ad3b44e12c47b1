//! What evicting a path of minibuckets achieves.
//!
//! The laws count the keys of a chain from a level on, and say on the slots and the stash
//! alone when a chain brings one more key that deep, and when a stash gets smaller.
use vstd::prelude::*;
use crate::minibucket_chain::{stashes_ok, Chain, Stashes};
use crate::minibucket_store::{lemma_stash_set, live_slots, stash_set, total_keys, Setup};
use crate::path_store::{lemma_row_of, lemma_row_place};
use crate::stash_index::EMPTY_KEY;
use crate::wide_heap_tree::{
    full_nodes, lemma_prefix_index_bounds, prefix_index, same_prefix,
};
use crate::heap_tree::lemma_full_width;

verus! {

/// 1 for a slot that holds a key, and 0 for an empty one.
pub open spec fn key_weight(k: u32) -> int {
    if k == EMPTY_KEY {
        0
    } else {
        1
    }
}

/// Changing one slot changes the count by what left and what came.
proof fn lemma_live_slots_update(s: Seq<u32>, i: int, k: u32)
    requires
        0 <= i < s.len(),
    ensures
        live_slots(s.update(i, k)) == live_slots(s) - key_weight(s[i]) + key_weight(k),
    decreases s.len(),
{
    let t = s.update(i, k);
    if i == s.len() - 1 {
        assert(t.drop_last() =~= s.drop_last());
    } else {
        lemma_live_slots_update(s.drop_last(), i, k);
        assert(t.drop_last() =~= s.drop_last().update(i, k));
    }
}

/// Every key of `t` is a key of `stashes`, in the same stash.
pub open spec fn fewer(stashes: Stashes, t: Stashes) -> bool {
    &&& t.len() == stashes.len()
    &&& forall|q: int| 0 <= q < t.len() ==> (#[trigger] t[q]).len() == stashes[q].len()
    &&& forall|q: int, l: int, k: u32|
        0 <= q < t.len() && 0 <= l < t[q].len() && #[trigger] t[q][l].contains(k)
            ==> stashes[q][l].contains(k)
}

impl Chain {
    /// The slots of the chain from level `l` on.
    pub open spec fn tail(&self, slots: Seq<u32>, l: int) -> Seq<u32> {
        Seq::new(
            ((self.h - l) * self.cnt) as nat,
            |i: int| slots[self.at(l + i / self.cnt, i % self.cnt)],
        )
    }

    /// The number of keys in the slots of the chain from level `l` on.
    pub open spec fn filled_from(&self, slots: Seq<u32>, l: int) -> int {
        live_slots(self.tail(slots, l)) as int
    }

    /// The chain has an empty slot at level `l`.
    pub open spec fn open(&self, slots: Seq<u32>, l: int) -> bool {
        exists|j: int| 0 <= j < self.cnt && #[trigger] slots[self.at(l, j)] == EMPTY_KEY
    }

    /// The label of a key lets it go to level `l` of the path.
    pub open spec fn may_reach(&self, k: u32, l: int) -> bool {
        k < self.labels.len() && same_prefix(
            self.b,
            self.h,
            l,
            self.labels[k as int] as int,
            self.leaf,
        )
    }

    /// The key is in a slot of the chain above level `l`.
    pub open spec fn above(&self, slots: Seq<u32>, l: int, k: u32) -> bool {
        k != EMPTY_KEY && exists|e: int, j: int|
            0 <= e < l && 0 <= j < self.cnt && #[trigger] slots[self.at(e, j)] == k
    }

    proof fn lemma_tail_update(&self, slots: Seq<u32>, l: int, e: int, j: int, k: u32)
        requires
            self.wf(),
            slots.len() == self.h * self.w,
            0 <= l <= self.h,
            0 <= e < self.h,
            0 <= j < self.cnt,
        ensures
            0 <= self.at(e, j) < slots.len(),
            self.filled_from(slots.update(self.at(e, j), k), l) == self.filled_from(slots, l) + (
            if e >= l {
                key_weight(k) - key_weight(slots[self.at(e, j)])
            } else {
                0
            }),
    {
        let to = self.at(e, j);
        let t = self.tail(slots, l);
        let u = self.tail(slots.update(to, k), l);
        self.lemma_at(e, j);
        assert forall|i: int| 0 <= i < t.len() implies u[i] == (if e >= l && i == (e - l) * self.cnt
            + j {
            k
        } else {
            t[i]
        }) by {
            lemma_row_of(i, self.cnt, self.h - l);
            self.lemma_at(l + i / self.cnt, i % self.cnt);
            if e >= l && i == (e - l) * self.cnt + j {
                vstd::arithmetic::div_mod::lemma_fundamental_div_mod_converse(
                    i,
                    self.cnt,
                    e - l,
                    j,
                );
            }
        }
        if e >= l {
            let i = (e - l) * self.cnt + j;
            lemma_row_place(e - l, j, self.cnt, self.h - l);
            vstd::arithmetic::div_mod::lemma_fundamental_div_mod_converse(i, self.cnt, e - l, j);
            assert(u =~= t.update(i, k));
            lemma_live_slots_update(t, i, k);
        } else {
            assert(u =~= t);
        }
    }

    /// The first empty slot of a level is one of the chain, and there is one if any slot of
    /// the level is empty.
    proof fn lemma_vacancy_slot(&self, slots: Seq<u32>, level: int, j: int)
        requires
            self.wf(),
            0 <= level < self.h,
            0 <= j <= self.cnt,
            slots.len() == self.h * self.w,
        ensures
            ({
                let to = self.vacancy(slots, level, j);
                &&& to >= 0 ==> exists|i: int|
                    j <= i < self.cnt && to == #[trigger] self.at(level, i) && slots[to]
                        == EMPTY_KEY
                &&& (exists|i: int|
                    j <= i < self.cnt && #[trigger] slots[self.at(level, i)] == EMPTY_KEY) ==> to
                    >= 0
            }),
        decreases self.cnt - j,
    {
        if j < self.cnt {
            self.lemma_at(level, j);
            self.lemma_vacancy_slot(slots, level, j + 1);
            if slots[self.at(level, j)] == EMPTY_KEY {
                assert(self.vacancy(slots, level, j) == self.at(level, j));
            } else {
                if exists|i: int|
                    j <= i < self.cnt && #[trigger] slots[self.at(level, i)] == EMPTY_KEY {
                    let i = choose|i: int|
                        j <= i < self.cnt && #[trigger] slots[self.at(level, i)] == EMPTY_KEY;
                    assert(i != j);
                    assert(j + 1 <= i < self.cnt && slots[self.at(level, i)] == EMPTY_KEY);
                }
            }
        }
    }

    /// Where there is a block for a level, there is a best one.
    proof fn lemma_best(&self, slots: Seq<u32>, stashes: Stashes, dest: int, k: u32)
        requires
            self.wf(),
            self.ok(slots, stashes),
            0 < dest < self.h,
            self.candidate(slots, stashes, dest, k),
        ensures
            self.any(slots, stashes, dest),
        decreases self.h - self.depth(k), k,
    {
        self.lemma_candidate_known(slots, stashes, dest, k);
        if !self.is_best(slots, stashes, dest, k) {
            let m = choose|m: u32|
                #[trigger] self.candidate(slots, stashes, dest, m) && !(m == k || self.before(k, m));
            self.lemma_candidate_known(slots, stashes, dest, m);
            self.lemma_best(slots, stashes, dest, m);
        }
    }

    proof fn lemma_candidate_known(&self, slots: Seq<u32>, stashes: Stashes, dest: int, k: u32)
        requires
            self.wf(),
            self.ok(slots, stashes),
            0 < dest < self.h,
            self.candidate(slots, stashes, dest, k),
        ensures
            k < self.labels.len(),
            0 <= self.depth(k) < self.h,
    {
        if !self.waits(stashes, k) {
            let i = choose|i: int| self.is_above(i, dest) && #[trigger] slots[i] == k;
            self.lemma_above(i, dest);
        }
        self.lemma_depth(k, 0);
    }

    /// Where a block that may go to a level comes from: the stash, or a slot of the chain
    /// above the level.
    proof fn lemma_source(&self, slots: Seq<u32>, stashes: Stashes, dest: int, k: u32)
        requires
            self.wf(),
            self.ok(slots, stashes),
            0 < dest < self.h,
            self.candidate(slots, stashes, dest, k),
            !self.waits(stashes, k),
        ensures
            exists|e: int, j: int|
                0 <= e < dest && 0 <= j < self.cnt && self.place(slots, dest, k)
                    == #[trigger] self.at(e, j) && self.left(slots, stashes, dest, k) == e
                    && slots[self.at(e, j)] == k,
    {
        let i = self.place(slots, dest, k);
        assert(self.is_above(i, dest) && slots[i] == k);
        let (e, j) = choose|e: int, j: int|
            0 <= e < dest && 0 <= j < self.cnt && i == #[trigger] self.at(e, j);
        self.lemma_at(e, j);
    }

    /// One move brings a key past a level exactly if it comes from above the level and goes
    /// to it or below.
    proof fn lemma_move_counts(
        &self,
        slots: Seq<u32>,
        stashes: Stashes,
        dest: int,
        to: int,
        k: u32,
        l: int,
    )
        requires
            self.wf(),
            self.ok(slots, stashes),
            0 < dest < self.h,
            1 <= l <= self.h,
            to == self.vacancy(slots, dest, 0),
            to >= 0,
            self.candidate(slots, stashes, dest, k),
        ensures
            ({
                let (s, t) = self.moved(slots, stashes, dest, to, k);
                let from = self.left(slots, stashes, dest, k);
                self.filled_from(s, l) == self.filled_from(slots, l) + (if from < l <= dest {
                    1int
                } else {
                    0
                })
            }),
    {
        self.lemma_vacancy_slot(slots, dest, 0);
        let i = choose|i: int|
            0 <= i < self.cnt && to == #[trigger] self.at(dest, i) && slots[to] == EMPTY_KEY;
        self.lemma_tail_update(slots, l, dest, i, k);
        if !self.waits(stashes, k) {
            self.lemma_source(slots, stashes, dest, k);
            let (e, j) = choose|e: int, j: int|
                0 <= e < dest && 0 <= j < self.cnt && self.place(slots, dest, k)
                    == #[trigger] self.at(e, j) && self.left(slots, stashes, dest, k) == e
                    && slots[self.at(e, j)] == k;
            self.lemma_at(e, j);
            self.lemma_at(dest, i);
            let mid = slots.update(to, k);
            assert(mid[self.at(e, j)] == k);
            self.lemma_tail_update(mid, l, e, j, EMPTY_KEY);
        }
    }

    /// A chain takes no key up past a level and one at most down past it.
    pub proof fn lemma_run_bounds(&self, slots: Seq<u32>, stashes: Stashes, dest: int, l: int)
        requires
            self.wf(),
            self.ok(slots, stashes),
            dest < self.h,
            1 <= l <= self.h,
        ensures
            ({
                let was = self.filled_from(slots, l);
                let now = self.filled_from(self.run(slots, stashes, dest).0, l);
                &&& was <= now <= was + 1
                &&& dest < l ==> now == was
            }),
        decreases dest,
    {
        if dest > 0 {
            let to = self.vacancy(slots, dest, 0);
            let k = self.best(slots, stashes, dest);
            let next = self.left(slots, stashes, dest, k);
            self.lemma_vacancy(slots, dest, 0);
            if to >= 0 && self.any(slots, stashes, dest) && 0 <= next < dest {
                assert(self.is_best(slots, stashes, dest, k));
                self.lemma_moved(slots, stashes, dest, to, k);
                self.lemma_move_counts(slots, stashes, dest, to, k, l);
                let (s, t) = self.moved(slots, stashes, dest, to, k);
                self.lemma_run_bounds(s, t, next, l);
            } else {
                self.lemma_run_bounds(slots, stashes, dest - 1, l);
            }
        }
    }

    /// A chain makes progress past a level: where a slot at level `e`, on or below level
    /// `l`, is empty, and a key above `l`, in the stash or in a slot, may go to `e`, one more
    /// key is on or below level `l` afterwards.
    pub proof fn lemma_run_progress(
        &self,
        slots: Seq<u32>,
        stashes: Stashes,
        dest: int,
        l: int,
        e: int,
        x: u32,
    )
        requires
            self.wf(),
            self.ok(slots, stashes),
            dest < self.h,
            1 <= l <= e <= dest,
            self.open(slots, e),
            self.waits(stashes, x) || self.above(slots, l, x),
            self.may_reach(x, e),
        ensures
            self.filled_from(self.run(slots, stashes, dest).0, l) == self.filled_from(slots, l) + 1,
        decreases dest,
    {
        let to = self.vacancy(slots, dest, 0);
        let k = self.best(slots, stashes, dest);
        let next = self.left(slots, stashes, dest, k);
        self.lemma_vacancy(slots, dest, 0);
        self.lemma_vacancy_slot(slots, dest, 0);
        self.lemma_depth(x, e);
        if self.waits(stashes, x) {
            assert(stashes[self.q][self.labels[x as int] as int].contains(x));
            assert(x != EMPTY_KEY);
        } else {
            let (a, c) = choose|a: int, c: int|
                0 <= a < l && 0 <= c < self.cnt && #[trigger] slots[self.at(a, c)] == x;
            assert(self.is_above(self.at(a, c), e));
            assert(self.is_above(self.at(a, c), dest));
            assert(slots[self.at(a, c)] == x);
        }
        if dest == e {
            let i = choose|i: int| 0 <= i < self.cnt && #[trigger] slots[self.at(e, i)] == EMPTY_KEY;
            assert(to >= 0);
            assert(self.candidate(slots, stashes, e, x));
            self.lemma_best(slots, stashes, e, x);
            assert(self.is_best(slots, stashes, dest, k));
            self.lemma_moved(slots, stashes, dest, to, k);
        }
        if to >= 0 && self.any(slots, stashes, dest) && 0 <= next < dest {
            assert(self.is_best(slots, stashes, dest, k));
            self.lemma_moved(slots, stashes, dest, to, k);
            self.lemma_move_counts(slots, stashes, dest, to, k, l);
            let (s, t) = self.moved(slots, stashes, dest, to, k);
            if next < l {
                self.lemma_run_bounds(s, t, next, l);
            } else {
                assert(!self.waits(stashes, k));
                self.lemma_source(slots, stashes, dest, k);
                let (a, c) = choose|a: int, c: int|
                    0 <= a < dest && 0 <= c < self.cnt && self.place(slots, dest, k)
                        == #[trigger] self.at(a, c) && self.left(slots, stashes, dest, k) == a
                        && slots[self.at(a, c)] == k;
                assert(a == next);
                self.lemma_at(a, c);
                assert(s[self.at(next, c)] == EMPTY_KEY);
                let e2 = if next >= e {
                    e
                } else {
                    next
                };
                if next > e {
                    let i = choose|i: int|
                        0 <= i < self.cnt && #[trigger] slots[self.at(e, i)] == EMPTY_KEY;
                    self.lemma_at(e, i);
                    assert(s[self.at(e, i)] == EMPTY_KEY);
                }
                assert(self.open(s, e2));
                self.lemma_depth(x, e2);
                if !self.waits(stashes, x) {
                    let (m, n) = choose|m: int, n: int|
                        0 <= m < l && 0 <= n < self.cnt && #[trigger] slots[self.at(m, n)] == x;
                    self.lemma_at(m, n);
                    assert(s[self.at(m, n)] == x);
                    assert(self.above(s, l, x));
                }
                self.lemma_run_progress(s, t, next, l, e2, x);
            }
        } else {
            self.lemma_run_progress(slots, stashes, dest - 1, l, e, x);
        }
    }

    /// A chain only takes keys out of the stash, leaves the slots of other chains alone, and
    /// fills no slot of the root.
    pub proof fn lemma_run_frame(&self, slots: Seq<u32>, stashes: Stashes, dest: int)
        requires
            self.wf(),
            self.ok(slots, stashes),
            dest < self.h,
        ensures
            ({
                let (s, t) = self.run(slots, stashes, dest);
                &&& s.len() == slots.len()
                &&& fewer(stashes, t)
                &&& forall|i: int|
                    0 <= i < s.len() && !(self.off <= i % self.w < self.off + self.cnt)
                        ==> #[trigger] s[i] == slots[i]
                &&& forall|i: int|
                    0 <= i < s.len() && i / self.w == 0 ==> #[trigger] s[i] == slots[i] || s[i]
                        == EMPTY_KEY
            }),
        decreases dest,
    {
        if dest > 0 {
            let to = self.vacancy(slots, dest, 0);
            let k = self.best(slots, stashes, dest);
            let next = self.left(slots, stashes, dest, k);
            self.lemma_vacancy(slots, dest, 0);
            self.lemma_vacancy_slot(slots, dest, 0);
            if to >= 0 && self.any(slots, stashes, dest) && 0 <= next < dest {
                assert(self.is_best(slots, stashes, dest, k));
                self.lemma_moved(slots, stashes, dest, to, k);
                let (s, t) = self.moved(slots, stashes, dest, to, k);
                self.lemma_run_frame(s, t, next);
                let (s2, t2) = self.run(s, t, next);
                let i = choose|i: int|
                    0 <= i < self.cnt && to == #[trigger] self.at(dest, i) && slots[to]
                        == EMPTY_KEY;
                self.lemma_at(dest, i);
                if !self.waits(stashes, k) {
                    self.lemma_source(slots, stashes, dest, k);
                    let (a, c) = choose|a: int, c: int|
                        0 <= a < dest && 0 <= c < self.cnt && self.place(slots, dest, k)
                            == #[trigger] self.at(a, c) && self.left(slots, stashes, dest, k) == a
                            && slots[self.at(a, c)] == k;
                    self.lemma_at(a, c);
                }
                assert forall|q: int, l: int, m: u32|
                    0 <= q < t2.len() && 0 <= l < t2[q].len() && #[trigger] t2[q][l].contains(
                        m,
                    ) implies stashes[q][l].contains(m) by {
                    assert(t[q][l].contains(m));
                    if self.waits(stashes, k) && q == self.q {
                        let e = self.labels[k as int] as int;
                        assert(stashes[q].len() == self.leaves());
                        if l == e {
                            assert(stashes[q][l].remove(k).contains(m));
                        } else {
                            assert(t[q][l] == stashes[q].update(e, stashes[q][e].remove(k))[l]);
                        }
                    }
                }
                assert forall|x: int|
                    0 <= x < s2.len() && !(self.off <= x % self.w < self.off + self.cnt) implies
                    #[trigger] s2[x] == slots[x] by {
                    assert(s2[x] == s[x]);
                }
                assert forall|x: int| 0 <= x < s2.len() && x / self.w == 0 implies #[trigger] s2[x]
                    == slots[x] || s2[x] == EMPTY_KEY by {
                    assert(s2[x] == s[x] || s2[x] == EMPTY_KEY);
                }
            } else {
                self.lemma_run_frame(slots, stashes, dest - 1);
            }
        }
    }

    /// A chain takes a key out of the stash, where the root has none, some slot of the path
    /// is empty, and a key in the stash may go there.
    pub proof fn lemma_run_takes(
        &self,
        slots: Seq<u32>,
        stashes: Stashes,
        dest: int,
        e: int,
        x: u32,
    )
        requires
            self.wf(),
            self.ok(slots, stashes),
            dest < self.h,
            1 <= e <= dest,
            self.open(slots, e),
            self.waits(stashes, x),
            self.may_reach(x, e),
            forall|j: int| 0 <= j < self.cnt ==> #[trigger] slots[self.at(0, j)] == EMPTY_KEY,
        ensures
            exists|y: u32| #[trigger]
                self.waits(stashes, y) && !self.waits(self.run(slots, stashes, dest).1, y),
        decreases dest,
    {
        let to = self.vacancy(slots, dest, 0);
        let k = self.best(slots, stashes, dest);
        let next = self.left(slots, stashes, dest, k);
        self.lemma_vacancy(slots, dest, 0);
        self.lemma_vacancy_slot(slots, dest, 0);
        self.lemma_depth(x, e);
        assert(stashes[self.q][self.labels[x as int] as int].contains(x));
        assert(x != EMPTY_KEY);
        if dest == e {
            let i = choose|i: int| 0 <= i < self.cnt && #[trigger] slots[self.at(e, i)] == EMPTY_KEY;
            assert(to >= 0);
            assert(self.candidate(slots, stashes, e, x));
            self.lemma_best(slots, stashes, e, x);
            assert(self.is_best(slots, stashes, dest, k));
            self.lemma_moved(slots, stashes, dest, to, k);
        }
        if to >= 0 && self.any(slots, stashes, dest) && 0 <= next < dest {
            assert(self.is_best(slots, stashes, dest, k));
            self.lemma_moved(slots, stashes, dest, to, k);
            let (s, t) = self.moved(slots, stashes, dest, to, k);
            if self.waits(stashes, k) {
                self.lemma_run_frame(s, t, next);
                let l = self.labels[k as int] as int;
                assert(stashes[self.q].len() == self.leaves());
                assert(!t[self.q][l].contains(k));
                assert(!self.waits(self.run(slots, stashes, dest).1, k));
            } else {
                self.lemma_source(slots, stashes, dest, k);
                let (a, c) = choose|a: int, c: int|
                    0 <= a < dest && 0 <= c < self.cnt && self.place(slots, dest, k)
                        == #[trigger] self.at(a, c) && self.left(slots, stashes, dest, k) == a
                        && slots[self.at(a, c)] == k;
                self.lemma_at(a, c);
                assert(next >= 1) by {
                    if a == 0 {
                        assert(slots[self.at(0, c)] == EMPTY_KEY);
                    }
                }
                assert(s[self.at(next, c)] == EMPTY_KEY);
                let e2 = if next >= e {
                    e
                } else {
                    next
                };
                if next > e {
                    let i = choose|i: int|
                        0 <= i < self.cnt && #[trigger] slots[self.at(e, i)] == EMPTY_KEY;
                    self.lemma_at(e, i);
                    assert(s[self.at(e, i)] == EMPTY_KEY);
                }
                assert(self.open(s, e2));
                self.lemma_depth(x, e2);
                assert forall|j: int| 0 <= j < self.cnt implies #[trigger] s[self.at(0, j)]
                    == EMPTY_KEY by {
                    self.lemma_at(0, j);
                    assert(slots[self.at(0, j)] == EMPTY_KEY);
                }
                self.lemma_run_takes(s, t, next, e2, x);
            }
        } else {
            self.lemma_run_takes(slots, stashes, dest - 1, e, x);
        }
    }
}

impl Chain {
    /// A chain leaves the levels below its start alone.
    proof fn lemma_run_below(&self, slots: Seq<u32>, stashes: Stashes, dest: int, i: int)
        requires
            self.wf(),
            self.ok(slots, stashes),
            dest < self.h,
            0 <= i < slots.len(),
            i / self.w > dest,
        ensures
            self.run(slots, stashes, dest).0[i] == slots[i],
        decreases dest,
    {
        if dest > 0 {
            let to = self.vacancy(slots, dest, 0);
            let k = self.best(slots, stashes, dest);
            let next = self.left(slots, stashes, dest, k);
            self.lemma_vacancy(slots, dest, 0);
            if to >= 0 && self.any(slots, stashes, dest) && 0 <= next < dest {
                assert(self.is_best(slots, stashes, dest, k));
                self.lemma_moved(slots, stashes, dest, to, k);
                let (s, t) = self.moved(slots, stashes, dest, to, k);
                if !self.waits(stashes, k) {
                    self.lemma_source(slots, stashes, dest, k);
                    let (a, c) = choose|a: int, c: int|
                        0 <= a < dest && 0 <= c < self.cnt && self.place(slots, dest, k)
                            == #[trigger] self.at(a, c) && self.left(slots, stashes, dest, k) == a
                            && slots[self.at(a, c)] == k;
                    self.lemma_at(a, c);
                }
                assert(s[i] == slots[i]);
                self.lemma_run_below(s, t, next, i);
            } else {
                self.lemma_run_below(slots, stashes, dest - 1, i);
            }
        }
    }

    /// A key that may go to level `e`: it is in the stash of the chain, or in a slot above.
    pub open spec fn ready(&self, slots: Seq<u32>, stashes: Stashes, e: int, k: u32) -> bool {
        (self.waits(stashes, k) || self.above(slots, e, k)) && self.may_reach(k, e)
    }

    /// Key `k` goes before key `m`: it may go wherever `m` may, and if `m` may go wherever
    /// `k` may, then `k` is the lower key.
    pub open spec fn goes_first(&self, k: u32, m: u32) -> bool {
        &&& forall|l: int| 0 <= l < self.h && #[trigger] self.may_reach(m, l) ==> self.may_reach(k, l)
        &&& (forall|l: int| 0 <= l < self.h && #[trigger] self.may_reach(k, l) ==> self.may_reach(m, l))
            ==> k <= m
    }

    proof fn lemma_candidates(&self, slots: Seq<u32>, stashes: Stashes, e: int, k: u32)
        requires
            self.wf(),
            self.ok(slots, stashes),
            1 <= e < self.h,
        ensures
            self.candidate(slots, stashes, e, k) <==> self.ready(slots, stashes, e, k),
    {
        if self.candidate(slots, stashes, e, k) {
            self.lemma_candidate_known(slots, stashes, e, k);
            self.lemma_depth(k, e);
            if !self.waits(stashes, k) {
                let i = choose|i: int| self.is_above(i, e) && #[trigger] slots[i] == k;
                let (l, j) = choose|l: int, j: int|
                    0 <= l < e && 0 <= j < self.cnt && i == #[trigger] self.at(l, j);
                assert(slots[self.at(l, j)] == k);
            }
        }
        if self.ready(slots, stashes, e, k) {
            self.lemma_depth(k, e);
            if self.waits(stashes, k) {
                assert(stashes[self.q][self.labels[k as int] as int].contains(k));
            } else {
                let (l, j) = choose|l: int, j: int|
                    0 <= l < e && 0 <= j < self.cnt && #[trigger] slots[self.at(l, j)] == k;
                assert(self.is_above(self.at(l, j), e));
            }
        }
    }

    /// The deepest level with an empty slot that some key may go to takes the right key: one
    /// that may go at least as deep as every other key that may go there, and the lowest of
    /// those. It goes to the first empty slot of the level.
    pub proof fn lemma_run_takes_first(
        &self,
        slots: Seq<u32>,
        stashes: Stashes,
        dest: int,
        e: int,
        x: u32,
        j: int,
    )
        requires
            self.wf(),
            self.ok(slots, stashes),
            1 <= e <= dest < self.h,
            self.open(slots, e),
            self.ready(slots, stashes, e, x),
            forall|l: int, y: u32|
                e < l <= dest && self.open(slots, l) ==> !#[trigger] self.ready(
                    slots,
                    stashes,
                    l,
                    y,
                ),
            0 <= j < self.cnt,
            slots[self.at(e, j)] == EMPTY_KEY,
            forall|i: int| 0 <= i < j ==> #[trigger] slots[self.at(e, i)] != EMPTY_KEY,
        ensures
            ({
                let k = self.run(slots, stashes, dest).0[self.at(e, j)];
                &&& self.ready(slots, stashes, e, k)
                &&& forall|y: u32| #[trigger]
                    self.ready(slots, stashes, e, y) ==> self.goes_first(k, y)
            }),
        decreases dest,
    {
        let to = self.vacancy(slots, dest, 0);
        let k = self.best(slots, stashes, dest);
        let next = self.left(slots, stashes, dest, k);
        self.lemma_vacancy(slots, dest, 0);
        self.lemma_vacancy_slot(slots, dest, 0);
        if dest == e {
            self.lemma_candidates(slots, stashes, e, x);
            self.lemma_best(slots, stashes, e, x);
            assert(self.is_best(slots, stashes, dest, k));
            self.lemma_first_vacancy(slots, e, 0, j);
            assert(to == self.at(e, j));
            self.lemma_at(e, j);
            self.lemma_moved(slots, stashes, dest, to, k);
            let (s, t) = self.moved(slots, stashes, dest, to, k);
            if !self.waits(stashes, k) {
                self.lemma_source(slots, stashes, dest, k);
                let (a, c) = choose|a: int, c: int|
                    0 <= a < dest && 0 <= c < self.cnt && self.place(slots, dest, k)
                        == #[trigger] self.at(a, c) && self.left(slots, stashes, dest, k) == a
                        && slots[self.at(a, c)] == k;
                self.lemma_at(a, c);
            }
            assert(s[to] == k);
            self.lemma_run_below(s, t, next, to);
            self.lemma_candidates(slots, stashes, e, k);
            assert forall|y: u32| #[trigger] self.ready(slots, stashes, e, y) implies self.goes_first(
                k,
                y,
            ) by {
                self.lemma_candidates(slots, stashes, e, y);
                self.lemma_candidate_known(slots, stashes, e, k);
                self.lemma_candidate_known(slots, stashes, e, y);
                assert(y == k || self.before(k, y));
                assert forall|l: int| 0 <= l < self.h && #[trigger] self.may_reach(y, l) implies self.may_reach(
                    k,
                    l,
                ) by {
                    self.lemma_depth(y, l);
                    self.lemma_depth(k, l);
                }
                if forall|l: int|
                    0 <= l < self.h && #[trigger] self.may_reach(k, l) ==> self.may_reach(y, l) {
                    self.lemma_depth(k, self.depth(k));
                    assert(self.may_reach(k, self.depth(k)));
                    self.lemma_depth(y, self.depth(k));
                }
            }
        } else {
            if to >= 0 && self.any(slots, stashes, dest) && 0 <= next < dest {
                assert(self.is_best(slots, stashes, dest, k));
                self.lemma_candidates(slots, stashes, dest, k);
                let i = choose|i: int|
                    0 <= i < self.cnt && to == #[trigger] self.at(dest, i) && slots[to]
                        == EMPTY_KEY;
                assert(self.open(slots, dest));
                assert(!self.ready(slots, stashes, dest, k));
            }
            self.lemma_run_takes_first(slots, stashes, dest - 1, e, x, j);
        }
    }

    proof fn lemma_first_vacancy(&self, slots: Seq<u32>, level: int, i: int, j: int)
        requires
            0 <= i <= j < self.cnt,
            slots[self.at(level, j)] == EMPTY_KEY,
            forall|k: int| i <= k < j ==> #[trigger] slots[self.at(level, k)] != EMPTY_KEY,
        ensures
            self.vacancy(slots, level, i) == self.at(level, j),
        decreases j - i,
    {
        if i < j {
            assert(slots[self.at(level, i)] != EMPTY_KEY);
            self.lemma_first_vacancy(slots, level, i + 1, j);
        }
    }
}

proof fn lemma_fewer_both(a: Stashes, b: Stashes, c: Stashes)
    requires
        fewer(a, b),
        fewer(b, c),
    ensures
        fewer(a, c),
{
    assert forall|q: int| 0 <= q < c.len() implies (#[trigger] c[q]).len() == a[q].len() by {
        assert(b[q].len() == a[q].len());
    }
    assert forall|q: int, l: int, k: u32|
        0 <= q < c.len() && 0 <= l < c[q].len() && #[trigger] c[q][l].contains(k) implies a[q][l].contains(
        k,
    ) by {
        assert(b[q].len() == c[q].len());
        assert(b[q][l].contains(k));
    }
}

/// A stash that lost a key and got none holds fewer keys, and so do all together.
proof fn lemma_total_falls(
    stashes: Stashes,
    t: Stashes,
    labels: Seq<u32>,
    leaves: int,
    q: int,
    y: u32,
)
    requires
        stashes_ok(stashes, labels, leaves),
        stashes_ok(t, labels, leaves),
        forall|p: int, l: int|
            0 <= p < stashes.len() && 0 <= l < leaves ==> (#[trigger] stashes[p][l]).finite(),
        fewer(stashes, t),
        0 <= q < stashes.len(),
        y < labels.len(),
        labels[y as int] < leaves,
        stashes[q][labels[y as int] as int].contains(y),
        !t[q][labels[y as int] as int].contains(y),
    ensures
        total_keys(t, t.len() as int) < total_keys(stashes, stashes.len() as int),
{
    let n = stashes.len() as int;
    lemma_stash_set(stashes, labels, leaves, n);
    lemma_fewer_keys_finite(stashes, t, leaves);
    lemma_stash_set(t, labels, leaves, n);
    let a = stash_set(stashes, n);
    let b = stash_set(t, n);
    assert(stashes[q].len() == leaves);
    assert(a.contains(y)) by {
        assert(stashes[q][labels[y as int] as int].contains(y));
    }
    assert(b.subset_of(a.remove(y))) by {
        assert forall|k: u32| #[trigger] b.contains(k) implies a.remove(y).contains(k) by {
            let (p, l) = choose|p: int, l: int|
                0 <= p < n && 0 <= l < t[p].len() && #[trigger] t[p][l].contains(k);
            assert(t[p].len() == leaves);
            assert(stashes[p][l].contains(k));
            assert(stashes[p].len() == leaves);
            if k == y {
                assert(stashes[p][l].contains(y));
                assert(l == labels[y as int]);
                assert(stashes[p][l].contains(y) && stashes[q][l].contains(y));
            }
        }
    }
    vstd::set_lib::lemma_len_subset(b, a.remove(y));
}

proof fn lemma_fewer_keys_finite(stashes: Stashes, t: Stashes, leaves: int)
    requires
        forall|q: int| 0 <= q < stashes.len() ==> (#[trigger] stashes[q]).len() == leaves,
        forall|p: int, l: int|
            0 <= p < stashes.len() && 0 <= l < leaves ==> (#[trigger] stashes[p][l]).finite(),
        fewer(stashes, t),
    ensures
        forall|p: int, l: int|
            0 <= p < t.len() && 0 <= l < leaves ==> (#[trigger] t[p][l]).finite(),
{
    assert forall|p: int, l: int| 0 <= p < t.len() && 0 <= l < leaves implies (
    #[trigger] t[p][l]).finite() by {
        assert(stashes[p].len() == leaves);
        assert(t[p].len() == leaves);
        assert(stashes[p][l].finite());
        assert(t[p][l].subset_of(stashes[p][l]));
        vstd::set_lib::lemma_set_subset_finite(stashes[p][l], t[p][l]);
    }
}

impl Chain {
    /// Two arrays agree on the slots of the chain.
    spec fn agree(&self, a: Seq<u32>, c: Seq<u32>) -> bool {
        forall|e: int, j: int|
            0 <= e < self.h && 0 <= j < self.cnt ==> #[trigger] a[self.at(e, j)] == c[self.at(
                e,
                j,
            )]
    }

    proof fn lemma_agree(&self, a: Seq<u32>, c: Seq<u32>)
        requires
            self.wf(),
            self.agree(a, c),
        ensures
            forall|l: int|
                1 <= l < self.h ==> #[trigger] self.filled_from(a, l) == self.filled_from(c, l),
            forall|l: int| 1 <= l < self.h ==> #[trigger] self.open(a, l) == self.open(c, l),
            forall|l: int, x: u32|
                1 <= l < self.h ==> #[trigger] self.above(a, l, x) == self.above(c, l, x),
    {
        assert forall|l: int| 1 <= l < self.h implies #[trigger] self.filled_from(a, l)
            == self.filled_from(c, l) by {
            let t = self.tail(a, l);
            let u = self.tail(c, l);
            assert forall|i: int| 0 <= i < t.len() implies t[i] == u[i] by {
                lemma_row_of(i, self.cnt, self.h - l);
                assert(a[self.at(l + i / self.cnt, i % self.cnt)] == c[self.at(
                    l + i / self.cnt,
                    i % self.cnt,
                )]);
            }
            assert(t =~= u);
        }
        assert forall|l: int| 1 <= l < self.h implies #[trigger] self.open(a, l) == self.open(
            c,
            l,
        ) by {
            if self.open(a, l) {
                let j = choose|j: int|
                    0 <= j < self.cnt && #[trigger] a[self.at(l, j)] == EMPTY_KEY;
                assert(c[self.at(l, j)] == EMPTY_KEY);
            }
            if self.open(c, l) {
                let j = choose|j: int|
                    0 <= j < self.cnt && #[trigger] c[self.at(l, j)] == EMPTY_KEY;
                assert(a[self.at(l, j)] == EMPTY_KEY);
            }
        }
        assert forall|l: int, x: u32| 1 <= l < self.h implies #[trigger] self.above(a, l, x)
            == self.above(c, l, x) by {
            if self.above(a, l, x) {
                let (e, j) = choose|e: int, j: int|
                    0 <= e < l && 0 <= j < self.cnt && #[trigger] a[self.at(e, j)] == x;
                assert(c[self.at(e, j)] == x);
            }
            if self.above(c, l, x) {
                let (e, j) = choose|e: int, j: int|
                    0 <= e < l && 0 <= j < self.cnt && #[trigger] c[self.at(e, j)] == x;
                assert(a[self.at(e, j)] == x);
            }
        }
    }

    /// `passes` chains make progress past every level below the root.
    pub open spec fn progress(
        &self,
        slots: Seq<u32>,
        after: Seq<u32>,
        t: Stashes,
        passes: int,
    ) -> bool {
        &&& forall|l: int|
            1 <= l < self.h ==> self.filled_from(slots, l) <= #[trigger] self.filled_from(after, l)
                <= self.filled_from(slots, l) + passes
        &&& forall|l: int, e: int, x: u32|
            #![trigger self.filled_from(after, l), self.may_reach(x, e)]
            1 <= l <= e < self.h && passes >= 1 && self.open(slots, e) && (self.waits(t, x)
                || self.above(slots, l, x)) && self.may_reach(x, e) ==> self.filled_from(after, l)
                > self.filled_from(slots, l)
    }

    proof fn lemma_one_progress(&self, slots: Seq<u32>, stashes: Stashes)
        requires
            self.wf(),
            self.ok(slots, stashes),
        ensures
            ({
                let (s, t) = self.run(slots, stashes, self.h - 1);
                self.progress(slots, s, t, 1)
            }),
    {
        let (s, t) = self.run(slots, stashes, self.h - 1);
        self.lemma_run_frame(slots, stashes, self.h - 1);
        assert forall|l: int| 1 <= l < self.h implies self.filled_from(slots, l)
            <= #[trigger] self.filled_from(s, l) <= self.filled_from(slots, l) + 1 by {
            self.lemma_run_bounds(slots, stashes, self.h - 1, l);
        }
        assert forall|l: int, e: int, x: u32|
            #![trigger self.filled_from(s, l), self.may_reach(x, e)]
            1 <= l <= e < self.h && self.open(slots, e) && (self.waits(t, x) || self.above(
                slots,
                l,
                x,
            )) && self.may_reach(x, e) implies self.filled_from(s, l) > self.filled_from(
            slots,
            l,
        ) by {
            if self.waits(t, x) {
                assert(stashes[self.q].len() == self.leaves());
                assert(t[self.q][self.labels[x as int] as int].contains(x));
            }
            self.lemma_run_progress(slots, stashes, self.h - 1, l, e, x);
        }
    }
}

impl Setup {
    /// The number of chains of a pass.
    pub open spec fn units(&self) -> int {
        if self.pooled {
            1
        } else {
            self.z
        }
    }

    /// A chain of a pass: that of a lane, or the one over whole buckets.
    pub open spec fn unit(&self, lane: int, leaf: int) -> Chain {
        if self.pooled {
            self.chain(0, self.w(), 0, leaf)
        } else {
            self.lane_chain(lane, leaf)
        }
    }

    proof fn lemma_unit(&self, lane: int, leaf: int)
        requires
            self.wf(),
            0 <= leaf < self.leaves(),
            0 <= lane < self.units(),
        ensures
            self.unit(lane, leaf).wf(),
            0 <= self.unit(lane, leaf).q < self.stash_count(),
            1 <= self.w(),
            0 <= lane * self.y,
            lane * self.y + self.y <= self.w(),
    {
        assert(1 <= self.z * self.y && 0 <= lane * self.y && lane * self.y + self.y <= self.z
            * self.y) by (nonlinear_arith)
            requires
                1 <= self.z,
                1 <= self.y,
                0 <= lane < self.z,
        ;
    }

    /// The loaded path, as a chain of it needs it.
    proof fn lemma_unit_ok(&self, slots: Seq<u32>, stashes: Stashes, lane: int, leaf: int)
        requires
            self.wf(),
            0 <= leaf < self.leaves(),
            0 <= lane < self.units(),
            self.ok(slots, stashes, leaf),
        ensures
            self.unit(lane, leaf).wf(),
            self.unit(lane, leaf).ok(slots, stashes),
    {
        self.lemma_unit(lane, leaf);
        let c = self.unit(lane, leaf);
        let c0 = self.chain(0, 1, 0, leaf);
        assert forall|k: u32| c.depth(k) == #[trigger] c0.depth(k) by {}
    }

    /// The chains of lanes only take keys out of the stashes, leave the lanes behind them
    /// alone, and fill no slot of the root.
    proof fn lemma_lanes_frame(&self, slots: Seq<u32>, stashes: Stashes, leaf: int, n: int)
        requires
            self.wf(),
            !self.pooled,
            self.ok(slots, stashes, leaf),
            0 <= leaf < self.leaves(),
            0 <= n <= self.z,
        ensures
            ({
                let (s, t) = self.lanes_run(slots, stashes, leaf, n);
                &&& self.ok(s, t, leaf)
                &&& s.len() == slots.len()
                &&& fewer(stashes, t)
                &&& forall|lane: int|
                    n <= lane < self.z ==> #[trigger] self.unit(lane, leaf).agree(s, slots)
                &&& forall|i: int|
                    0 <= i < self.w() ==> #[trigger] s[i] == slots[i] || s[i] == EMPTY_KEY
            }),
        decreases n,
    {
        if n > 0 {
            self.lemma_lanes_frame(slots, stashes, leaf, n - 1);
            self.lemma_lanes(slots, stashes, leaf, n);
            let (s, t) = self.lanes_run(slots, stashes, leaf, n - 1);
            let (s2, t2) = self.lanes_run(slots, stashes, leaf, n);
            let c = self.unit(n - 1, leaf);
            self.lemma_unit_ok(s, t, n - 1, leaf);
            c.lemma_run_frame(s, t, self.h - 1);
            lemma_fewer_both(stashes, t, t2);
            assert forall|lane: int| n <= lane < self.z implies #[trigger] self.unit(
                lane,
                leaf,
            ).agree(s2, slots) by {
                self.lemma_lane_apart(s, s2, leaf, n - 1, lane);
                let u = self.unit(lane, leaf);
                assert(u.agree(s, slots));
                assert forall|e: int, j: int|
                    0 <= e < u.h && 0 <= j < u.cnt implies #[trigger] s2[u.at(e, j)]
                    == slots[u.at(e, j)] by {
                    assert(s2[u.at(e, j)] == s[u.at(e, j)]);
                    assert(s[u.at(e, j)] == slots[u.at(e, j)]);
                }
            }
            assert(slots.len() == self.h * self.w());
            assert(self.w() <= self.h * self.w()) by (nonlinear_arith)
                requires
                    1 <= self.h,
                    1 <= self.w(),
            ;
            assert forall|i: int| 0 <= i < self.w() implies #[trigger] s2[i] == slots[i] || s2[i]
                == EMPTY_KEY by {
                vstd::arithmetic::div_mod::lemma_basic_div(i, self.w());
                assert(s2[i] == s[i] || s2[i] == EMPTY_KEY);
                assert(s[i] == slots[i] || s[i] == EMPTY_KEY);
            }
        } else {
            assert(slots.len() == self.h * self.w());
        }
    }

    /// The chain of one lane leaves the slots of the others alone.
    proof fn lemma_lane_apart(
        &self,
        s: Seq<u32>,
        s2: Seq<u32>,
        leaf: int,
        turn: int,
        lane: int,
    )
        requires
            self.wf(),
            !self.pooled,
            0 <= leaf < self.leaves(),
            0 <= turn < self.z,
            0 <= lane < self.z,
            turn != lane,
            s.len() == self.h * self.w(),
            s2.len() == s.len(),
            ({
                let c = self.unit(turn, leaf);
                forall|i: int|
                    0 <= i < s2.len() && !(c.off <= i % c.w < c.off + c.cnt) ==> #[trigger] s2[i]
                        == s[i]
            }),
        ensures
            self.unit(lane, leaf).agree(s2, s),
    {
        let c = self.unit(turn, leaf);
        let u = self.unit(lane, leaf);
        self.lemma_unit(turn, leaf);
        self.lemma_unit(lane, leaf);
        assert forall|e: int, j: int| 0 <= e < u.h && 0 <= j < u.cnt implies #[trigger] s2[u.at(
            e,
            j,
        )] == s[u.at(e, j)] by {
            u.lemma_at(e, j);
            assert(turn * self.y + self.y <= lane * self.y || lane * self.y + self.y <= turn
                * self.y) by (nonlinear_arith)
                requires
                    turn != lane,
                    1 <= self.y,
            ;
        }
    }

    /// One pass over all lanes makes progress in each.
    proof fn lemma_lanes_progress(
        &self,
        slots: Seq<u32>,
        stashes: Stashes,
        leaf: int,
        n: int,
        lane: int,
    )
        requires
            self.wf(),
            !self.pooled,
            self.ok(slots, stashes, leaf),
            0 <= leaf < self.leaves(),
            0 <= lane < n <= self.z,
        ensures
            ({
                let (s, t) = self.lanes_run(slots, stashes, leaf, n);
                self.unit(lane, leaf).progress(slots, s, t, 1)
            }),
        decreases n,
    {
        let c = self.unit(lane, leaf);
        let (s, t) = self.lanes_run(slots, stashes, leaf, n - 1);
        let (s2, t2) = self.lanes_run(slots, stashes, leaf, n);
        self.lemma_lanes_frame(slots, stashes, leaf, n - 1);
        self.lemma_unit_ok(s, t, lane, leaf);
        if lane == n - 1 {
            c.lemma_one_progress(s, t);
            assert(c.agree(s, slots));
            c.lemma_agree(s, slots);
            assert(c.progress(slots, s2, t2, 1)) by {
                assert forall|l: int, e: int, x: u32|
                    #![trigger c.filled_from(s2, l), c.may_reach(x, e)]
                    1 <= l <= e < c.h && c.open(slots, e) && (c.waits(t2, x) || c.above(
                        slots,
                        l,
                        x,
                    )) && c.may_reach(x, e) implies c.filled_from(s2, l) > c.filled_from(
                    slots,
                    l,
                ) by {
                    assert(c.open(s, e) == c.open(slots, e));
                    assert(c.above(s, l, x) == c.above(slots, l, x));
                    assert(c.filled_from(s, l) == c.filled_from(slots, l));
                }
                assert forall|l: int| 1 <= l < c.h implies c.filled_from(slots, l)
                    <= #[trigger] c.filled_from(s2, l) <= c.filled_from(slots, l) + 1 by {
                    assert(c.filled_from(s, l) == c.filled_from(slots, l));
                }
            }
        } else {
            self.lemma_lanes_progress(slots, stashes, leaf, n - 1, lane);
            let u = self.unit(n - 1, leaf);
            self.lemma_unit_ok(s, t, n - 1, leaf);
            u.lemma_run_frame(s, t, self.h - 1);
            self.lemma_lane_apart(s, s2, leaf, n - 1, lane);
            c.lemma_agree(s2, s);
            c.lemma_progress_on(slots, s, t, s2, t2, 1);
        }
    }
}

impl Chain {
    /// Progress lasts while no level loses a key and no stash gets one.
    proof fn lemma_progress_on(
        &self,
        slots: Seq<u32>,
        s: Seq<u32>,
        t: Stashes,
        s2: Seq<u32>,
        t2: Stashes,
        passes: int,
    )
        requires
            self.wf(),
            self.progress(slots, s, t, passes),
            fewer(t, t2),
            0 <= self.q < t.len(),
            t[self.q].len() == self.leaves(),
            forall|l: int|
                1 <= l < self.h ==> #[trigger] self.filled_from(s2, l) == self.filled_from(s, l),
        ensures
            self.progress(slots, s2, t2, passes),
    {
        assert forall|l: int| 1 <= l < self.h implies self.filled_from(slots, l)
            <= #[trigger] self.filled_from(s2, l) <= self.filled_from(slots, l) + passes by {
            assert(self.filled_from(s2, l) == self.filled_from(s, l));
        }
        assert forall|l: int, e: int, x: u32|
            #![trigger self.filled_from(s2, l), self.may_reach(x, e)]
            1 <= l <= e < self.h && passes >= 1 && self.open(slots, e) && (self.waits(t2, x)
                || self.above(slots, l, x)) && self.may_reach(x, e) implies self.filled_from(s2, l)
            > self.filled_from(slots, l) by {
            assert(self.filled_from(s2, l) == self.filled_from(s, l));
            if self.waits(t2, x) {
                assert(t2[self.q].len() == t[self.q].len());
                assert(t2[self.q][self.labels[x as int] as int].contains(x));
                assert(self.waits(t, x));
            }
        }
    }

    /// Progress of some passes and then of one more.
    proof fn lemma_progress_more(
        &self,
        slots: Seq<u32>,
        s: Seq<u32>,
        t: Stashes,
        s2: Seq<u32>,
        t2: Stashes,
        passes: int,
    )
        requires
            self.wf(),
            passes >= 1,
            self.progress(slots, s, t, passes),
            self.progress(s, s2, t2, 1),
            fewer(t, t2),
            0 <= self.q < t.len(),
            t[self.q].len() == self.leaves(),
        ensures
            self.progress(slots, s2, t2, passes + 1),
    {
        assert forall|l: int| 1 <= l < self.h implies self.filled_from(slots, l)
            <= #[trigger] self.filled_from(s2, l) <= self.filled_from(slots, l) + passes + 1 by {
            assert(self.filled_from(s, l) <= self.filled_from(s2, l));
            assert(self.filled_from(slots, l) <= self.filled_from(s, l));
        }
        assert forall|l: int, e: int, x: u32|
            #![trigger self.filled_from(s2, l), self.may_reach(x, e)]
            1 <= l <= e < self.h && passes >= 1 && self.open(slots, e) && (self.waits(t2, x)
                || self.above(slots, l, x)) && self.may_reach(x, e) implies self.filled_from(s2, l)
            > self.filled_from(slots, l) by {
            assert(self.filled_from(s, l) <= self.filled_from(s2, l));
            assert(self.filled_from(slots, l) <= self.filled_from(s, l));
            if self.waits(t2, x) {
                assert(t2[self.q].len() == t[self.q].len());
                assert(t2[self.q][self.labels[x as int] as int].contains(x));
                assert(self.waits(t, x));
            }
        }
    }
}

impl Setup {
    /// What one pass leaves.
    spec fn pass(&self, slots: Seq<u32>, stashes: Stashes, leaf: int) -> (Seq<u32>, Stashes) {
        if self.pooled {
            self.unit(0, leaf).run(slots, stashes, self.h - 1)
        } else {
            self.lanes_run(slots, stashes, leaf, self.z)
        }
    }

    proof fn lemma_pass(&self, slots: Seq<u32>, stashes: Stashes, leaf: int, lane: int)
        requires
            self.wf(),
            self.ok(slots, stashes, leaf),
            0 <= leaf < self.leaves(),
            0 <= lane < self.units(),
        ensures
            ({
                let (s, t) = self.pass(slots, stashes, leaf);
                &&& self.ok(s, t, leaf)
                &&& fewer(stashes, t)
                &&& self.unit(lane, leaf).progress(slots, s, t, 1)
                &&& forall|i: int|
                    0 <= i < self.w() ==> #[trigger] s[i] == slots[i] || s[i] == EMPTY_KEY
            }),
    {
        self.lemma_unit(lane, leaf);
        if self.pooled {
            let c = self.unit(0, leaf);
            let (s, t) = self.pass(slots, stashes, leaf);
            self.lemma_unit_ok(slots, stashes, 0, leaf);
            self.lemma_pooled(slots, stashes, leaf);
            c.lemma_run_frame(slots, stashes, self.h - 1);
            c.lemma_one_progress(slots, stashes);
            assert(self.w() <= self.h * self.w()) by (nonlinear_arith)
                requires
                    1 <= self.h,
                    1 <= self.w(),
            ;
            assert forall|i: int| 0 <= i < self.w() implies #[trigger] s[i] == slots[i] || s[i]
                == EMPTY_KEY by {
                vstd::arithmetic::div_mod::lemma_basic_div(i, self.w());
            }
        } else {
            self.lemma_lanes_frame(slots, stashes, leaf, self.z);
            self.lemma_lanes_progress(slots, stashes, leaf, self.z, lane);
        }
    }

    /// Passes over a path make progress in every lane, only take keys out of the stashes,
    /// and fill no slot of the root.
    pub proof fn lemma_passes_progress(
        &self,
        slots: Seq<u32>,
        stashes: Stashes,
        leaf: int,
        n: int,
        lane: int,
    )
        requires
            self.wf(),
            self.ok(slots, stashes, leaf),
            0 <= leaf < self.leaves(),
            0 <= lane < self.units(),
            1 <= n,
        ensures
            ({
                let (s, t) = self.passes_run(slots, stashes, leaf, n);
                &&& self.ok(s, t, leaf)
                &&& fewer(stashes, t)
                &&& self.unit(lane, leaf).progress(slots, s, t, n)
                &&& forall|i: int|
                    0 <= i < self.w() ==> #[trigger] s[i] == slots[i] || s[i] == EMPTY_KEY
            }),
        decreases n,
    {
        let (s, t) = self.passes_run(slots, stashes, leaf, n - 1);
        let (s2, t2) = self.passes_run(slots, stashes, leaf, n);
        let c = self.unit(lane, leaf);
        self.lemma_unit(lane, leaf);
        if n == 1 {
            assert((s, t) == (slots, stashes));
            self.lemma_pass(slots, stashes, leaf, lane);
        } else {
            self.lemma_passes_progress(slots, stashes, leaf, n - 1, lane);
            self.lemma_pass(s, t, leaf, lane);
            lemma_fewer_both(stashes, t, t2);
            assert(t[c.q].len() == self.leaves());
            c.lemma_progress_more(slots, s, t, s2, t2, n - 1);
            assert forall|i: int| 0 <= i < self.w() implies #[trigger] s2[i] == slots[i] || s2[i]
                == EMPTY_KEY by {
                assert(s2[i] == s[i] || s2[i] == EMPTY_KEY);
                assert(s[i] == slots[i] || s[i] == EMPTY_KEY);
            }
        }
    }
}

impl Setup {
    /// A pass takes a key out of the stash of a lane whose root minibucket is empty, where a
    /// slot of the lane is empty and a key in the stash may go there.
    proof fn lemma_lanes_take(
        &self,
        slots: Seq<u32>,
        stashes: Stashes,
        leaf: int,
        n: int,
        lane: int,
        e: int,
        x: u32,
    )
        requires
            self.wf(),
            !self.pooled,
            self.ok(slots, stashes, leaf),
            0 <= leaf < self.leaves(),
            0 <= lane < n <= self.z,
            1 <= e < self.h,
            forall|i: int| 0 <= i < self.w() ==> #[trigger] slots[i] == EMPTY_KEY,
            self.unit(lane, leaf).open(slots, e),
            self.unit(lane, leaf).waits(stashes, x),
            self.unit(lane, leaf).may_reach(x, e),
        ensures
            exists|y: u32| #[trigger]
                self.unit(lane, leaf).waits(stashes, y) && !self.unit(lane, leaf).waits(
                    self.lanes_run(slots, stashes, leaf, n).1,
                    y,
                ),
        decreases n,
    {
        let c = self.unit(lane, leaf);
        let (s, t) = self.lanes_run(slots, stashes, leaf, n - 1);
        let (s2, t2) = self.lanes_run(slots, stashes, leaf, n);
        self.lemma_lanes_frame(slots, stashes, leaf, n - 1);
        self.lemma_lanes_frame(slots, stashes, leaf, n);
        self.lemma_unit_ok(slots, stashes, lane, leaf);
        self.lemma_unit_ok(s, t, lane, leaf);
        self.lemma_unit_ok(s, t, n - 1, leaf);
        self.unit(n - 1, leaf).lemma_run_frame(s, t, self.h - 1);
        assert(stashes[c.q].len() == self.leaves());
        assert(t[c.q].len() == self.leaves());
        assert(t2[c.q].len() == self.leaves());
        if lane == n - 1 {
            assert(c.agree(s, slots));
            c.lemma_agree(s, slots);
            if c.waits(t, x) {
                assert forall|j: int| 0 <= j < c.cnt implies #[trigger] s[c.at(0, j)]
                    == EMPTY_KEY by {
                    c.lemma_at(0, j);
                    assert(s[c.at(0, j)] == slots[c.at(0, j)]);
                    self.lemma_unit(lane, leaf);
                }
                assert(c.open(s, e) == c.open(slots, e));
                c.lemma_run_takes(s, t, self.h - 1, e, x);
                let y = choose|y: u32| #[trigger] c.waits(t, y) && !c.waits(t2, y);
                assert(t[c.q][self.labels[y as int] as int].contains(y));
                assert(c.waits(stashes, y) && !c.waits(t2, y));
            } else {
                if c.waits(t2, x) {
                    assert(t2[c.q][self.labels[x as int] as int].contains(x));
                }
                assert(c.waits(stashes, x) && !c.waits(t2, x));
            }
        } else {
            self.lemma_lanes_take(slots, stashes, leaf, n - 1, lane, e, x);
            let y = choose|y: u32| #[trigger] c.waits(stashes, y) && !c.waits(t, y);
            if c.waits(t2, y) {
                assert(t2[c.q][self.labels[y as int] as int].contains(y));
            }
            assert(c.waits(stashes, y) && !c.waits(t2, y));
        }
    }

    /// [`Self::lemma_lanes_take`] for any number of passes.
    pub proof fn lemma_passes_take(
        &self,
        slots: Seq<u32>,
        stashes: Stashes,
        leaf: int,
        n: int,
        lane: int,
        e: int,
        x: u32,
    )
        requires
            self.wf(),
            self.ok(slots, stashes, leaf),
            0 <= leaf < self.leaves(),
            0 <= lane < self.units(),
            1 <= n,
            1 <= e < self.h,
            forall|i: int| 0 <= i < self.w() ==> #[trigger] slots[i] == EMPTY_KEY,
            self.unit(lane, leaf).open(slots, e),
            self.unit(lane, leaf).waits(stashes, x),
            self.unit(lane, leaf).may_reach(x, e),
        ensures
            exists|y: u32| #[trigger]
                self.unit(lane, leaf).waits(stashes, y) && !self.unit(lane, leaf).waits(
                    self.passes_run(slots, stashes, leaf, n).1,
                    y,
                ),
        decreases n,
    {
        let c = self.unit(lane, leaf);
        let (s, t) = self.passes_run(slots, stashes, leaf, n - 1);
        let (s2, t2) = self.passes_run(slots, stashes, leaf, n);
        self.lemma_unit_ok(slots, stashes, lane, leaf);
        assert(stashes[c.q].len() == self.leaves());
        if n == 1 {
            assert((s, t) == (slots, stashes));
            if self.pooled {
                assert forall|j: int| 0 <= j < c.cnt implies #[trigger] slots[c.at(0, j)]
                    == EMPTY_KEY by {
                    assert(0 * self.w() == 0);
                }
                c.lemma_run_takes(slots, stashes, self.h - 1, e, x);
            } else {
                self.lemma_lanes_take(slots, stashes, leaf, self.z, lane, e, x);
            }
        } else {
            self.lemma_passes_take(slots, stashes, leaf, n - 1, lane, e, x);
            self.lemma_passes_progress(slots, stashes, leaf, n - 1, lane);
            self.lemma_pass(s, t, leaf, lane);
            let y = choose|y: u32| #[trigger] c.waits(stashes, y) && !c.waits(t, y);
            if c.waits(t2, y) {
                assert(t[c.q].len() == self.leaves());
                assert(t2[c.q].len() == self.leaves());
                assert(t2[c.q][self.labels[y as int] as int].contains(y));
            }
            assert(c.waits(stashes, y) && !c.waits(t2, y));
        }
    }

    /// A path that was put back is what is read when it is loaded again.
    pub proof fn lemma_closed_opened(&self, tree: Seq<u32>, leaf: int, slots: Seq<u32>)
        requires
            self.wf(),
            0 <= leaf < self.leaves(),
            tree.len() == full_nodes(self.b, self.h) * self.w(),
            slots.len() == self.h * self.w(),
        ensures
            self.opened(self.closed(tree, leaf, slots), leaf) == slots,
    {
        let w = self.w();
        let after = self.closed(tree, leaf, slots);
        assert forall|i: int| 0 <= i < slots.len() implies self.opened(after, leaf)[i]
            == slots[i] by {
            self.lemma_home(leaf, i);
            let t = self.home(leaf, i);
            assert(self.on_path(t / w, leaf));
            let d = choose|d: int| #[trigger] self.on_path_at(t / w, leaf, d);
            self.lemma_on_path_at(t / w, leaf, leaf, d, i / w);
        }
        assert(self.opened(after, leaf) =~= slots);
    }

    /// The first bucket of every path is the root, which is the first of the tree.
    proof fn lemma_root(&self, tree: Seq<u32>, leaf: int)
        requires
            self.wf(),
            0 <= leaf < self.leaves(),
            tree.len() == full_nodes(self.b, self.h) * self.w(),
        ensures
            1 <= self.w() <= tree.len(),
            forall|i: int| 0 <= i < self.w() ==> #[trigger] self.opened(tree, leaf)[i] == tree[i],
            self.opened(tree, leaf).len() == self.h * self.w(),
            self.w() <= self.h * self.w(),
    {
        let w = self.w();
        assert(1 <= self.z * self.y) by (nonlinear_arith)
            requires
                1 <= self.z,
                1 <= self.y,
        ;
        assert(w <= self.h * w) by (nonlinear_arith)
            requires
                1 <= self.h,
                1 <= w,
        ;
        lemma_full_width(self.h - 1, self.b);
        lemma_prefix_index_bounds(self.b, self.h, 0, leaf);
        vstd::arithmetic::div_mod::lemma_basic_div(leaf, self.leaves());
        assert(full_nodes(self.b, 0) == 0);
        assert(prefix_index(self.b, self.h, 0, leaf) == 0);
        assert forall|i: int| 0 <= i < w implies #[trigger] self.opened(tree, leaf)[i] == tree[i] by {
            vstd::arithmetic::div_mod::lemma_fundamental_div_mod_converse(i, w, 0, i);
        }
        self.lemma_home(leaf, w - 1);
        vstd::arithmetic::div_mod::lemma_fundamental_div_mod_converse(w - 1, w, 0, w - 1);
    }

    /// No key is in the root.
    pub open spec fn root_empty(&self, tree: Seq<u32>) -> bool {
        forall|i: int| 0 <= i < self.w() ==> #[trigger] tree[i] == EMPTY_KEY
    }

    /// What evicting the path to `leaf` does to tree and stashes. In every lane of the path
    /// it makes progress; it puts no key into a stash or into the root and leaves other
    /// buckets alone; and where the root is empty, a slot of a lane on the path is empty, and
    /// a key in the stash of the lane may go there, fewer keys are in the stashes.
    pub open spec fn path_progress(
        &self,
        tree: Seq<u32>,
        stashes: Stashes,
        after: Seq<u32>,
        t: Stashes,
        leaf: int,
    ) -> bool {
        let slots = self.opened(tree, leaf);
        &&& after.len() == tree.len()
        &&& fewer(stashes, t)
        &&& forall|lane: int|
            0 <= lane < self.units() ==> #[trigger] self.unit(lane, leaf).progress(
                slots,
                self.opened(after, leaf),
                t,
                self.chains,
            )
        &&& forall|i: int|
            0 <= i < tree.len() && !self.on_path(i / self.w(), leaf) ==> #[trigger] after[i]
                == tree[i]
        &&& self.root_empty(tree) ==> self.root_empty(after)
        &&& forall|lane: int, e: int, x: u32|
            #![trigger self.unit(lane, leaf).open(slots, e), self.unit(lane, leaf).waits(stashes, x)]
            self.root_empty(tree) && 0 <= lane < self.units() && 1 <= e < self.h && self.unit(
                lane,
                leaf,
            ).open(slots, e) && self.unit(lane, leaf).waits(stashes, x) && self.unit(
                lane,
                leaf,
            ).may_reach(x, e) ==> total_keys(t, t.len() as int) < total_keys(
                stashes,
                stashes.len() as int,
            )
    }

    /// Evicting a path makes progress.
    pub proof fn lemma_evicted_progress(&self, tree: Seq<u32>, stashes: Stashes, leaf: int)
        requires
            self.wf(),
            self.rest(tree, stashes),
            0 <= leaf < self.leaves(),
            1 <= self.chains,
            forall|p: int, l: int|
                0 <= p < stashes.len() && 0 <= l < self.leaves() ==> (
                #[trigger] stashes[p][l]).finite(),
        ensures
            ({
                let (s, t) = self.evicted(tree, stashes, leaf);
                self.path_progress(tree, stashes, s, t, leaf)
            }),
    {
        let slots = self.opened(tree, leaf);
        let (s, t) = self.passes_run(slots, stashes, leaf, self.chains);
        let after = self.closed(tree, leaf, s);
        self.lemma_open(tree, stashes, leaf);
        self.lemma_root(tree, leaf);
        self.lemma_passes_progress(slots, stashes, leaf, self.chains, 0);
        self.lemma_closed_opened(tree, leaf, s);
        self.lemma_root(after, leaf);
        assert forall|lane: int| 0 <= lane < self.units() implies #[trigger] self.unit(
            lane,
            leaf,
        ).progress(slots, self.opened(after, leaf), t, self.chains) by {
            self.lemma_passes_progress(slots, stashes, leaf, self.chains, lane);
        }
        if self.root_empty(tree) {
            assert forall|i: int| 0 <= i < self.w() implies #[trigger] after[i] == EMPTY_KEY by {
                assert(self.opened(after, leaf)[i] == after[i]);
                assert(s[i] == slots[i] || s[i] == EMPTY_KEY);
                assert(slots[i] == tree[i]);
            }
        }
        assert forall|lane: int, e: int, x: u32|
            #![trigger self.unit(lane, leaf).open(slots, e), self.unit(lane, leaf).waits(stashes, x)]
            self.root_empty(tree) && 0 <= lane < self.units() && 1 <= e < self.h && self.unit(
                lane,
                leaf,
            ).open(slots, e) && self.unit(lane, leaf).waits(stashes, x) && self.unit(
                lane,
                leaf,
            ).may_reach(x, e) implies total_keys(t, t.len() as int) < total_keys(
            stashes,
            stashes.len() as int,
        ) by {
            let c = self.unit(lane, leaf);
            assert forall|i: int| 0 <= i < self.w() implies #[trigger] slots[i] == EMPTY_KEY by {
                assert(slots[i] == tree[i]);
            }
            self.lemma_unit(lane, leaf);
            self.lemma_passes_take(slots, stashes, leaf, self.chains, lane, e, x);
            let y = choose|y: u32| #[trigger] c.waits(stashes, y) && !c.waits(t, y);
            lemma_total_falls(stashes, t, self.labels, self.leaves(), c.q, y);
        }
    }
}

} // verus!
