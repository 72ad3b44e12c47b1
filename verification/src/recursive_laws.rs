//! What the accesses of the recursive ORAM do to counters and secrets, call by call and over
//! a history of calls.
use vstd::prelude::*;
use crate::counter_oram::{CounterORAM, CounterOp};
use crate::circuit_oram::Block;
use crate::fast_recursive_oram::{FastRecursiveORAM, LevelResetState};
use crate::oblivious::{ObliviousBlock, ObliviousValue};
use crate::prelude::PositionType;

verus! {

impl CounterORAM {
    /// An access that counts up leaves one more, one that resets leaves zero, and no other
    /// counter changes.
    pub proof fn lemma_counter_ops(
        &self,
        before: &Self,
        key: int,
        other: int,
        new_pos: PositionType,
        op: CounterOp,
    )
        requires
            0 <= key < before.max_n,
            0 <= other < before.max_n,
            other != key,
            self.accessed(before, key, new_pos, op),
        ensures
            op == CounterOp::Reset ==> self.counter(key) == 0,
            op == CounterOp::Increment && before.counter(key) < u64::MAX ==> self.counter(key)
                == before.counter(key) + 1,
            op == CounterOp::Increment && before.counter(key) == u64::MAX ==> self.counter(key) == 0,
            self.counter(other) == before.counter(other),
    {
    }

    /// The slots say the same: where the stash has room, the counter is counted up or reset,
    /// and no other counter changes.
    proof fn lemma_moved_counts(
        &self,
        before: &Self,
        pos: PositionType,
        new_pos: PositionType,
        key: int,
        op: CounterOp,
        k: int,
    )
        requires
            before.wf(),
            self.same_frame(before),
            0 <= key < before.max_n,
            0 <= k < before.max_n,
            new_pos < before.max_blocks,
            before.oram.state().has_room(before.target(key) as u32),
            self.moved(before, pos, new_pos, key, op),
        ensures
            self.counter(k) == (if k == key {
                op.applied(before.counter(k))
            } else {
                before.counter(k)
            }),
    {
        let b = before.target(key);
        before.lemma_target_in_range(key);
        before.lemma_target_in_range(k);
        assert(self.target(k) == before.target(k));
        if before.target(k) == b && k % 64 == key % 64 {
            before.lemma_places_distinct(k, key);
        }
    }
}

/// The secrets of a level went one block further: the block under the cursor has the new
/// secret, every other block the one that it had, and the cursor is at the next block, or at
/// the first one behind the last.
pub open spec fn moved_on(was: LevelResetState, now: LevelResetState) -> bool {
    &&& now.size == was.size
    &&& now.cursor == (was.cursor + 1) % was.size as int
    &&& forall|k: int|
        0 <= k < was.size ==> #[trigger] now.secret(k) == (if k == was.cursor {
            was.new_secret@
        } else {
            was.secret(k)
        })
    &&& now.cursor != 0 ==> now.new_secret == was.new_secret && now.old_secret == was.old_secret
}

/// The secrets of level `l` went one block further.
pub open spec fn reset_moved<V: ObliviousValue>(
    before: &FastRecursiveORAM<V>,
    after: &FastRecursiveORAM<V>,
    l: int,
) -> bool {
    moved_on(before.reset_states@[l], after.reset_states@[l])
}

/// The cursor went on by `passes` blocks since `was`. From the first block on, those before
/// it have the secret that was the new one at the start.
pub open spec fn swept(was: LevelResetState, now: LevelResetState, passes: int) -> bool {
    &&& now.size == was.size
    &&& passes >= 0
    &&& now.cursor == (was.cursor + passes) % was.size as int
    &&& was.cursor == 0 && passes <= was.size ==> forall|k: int|
        0 <= k < was.size ==> #[trigger] now.secret(k) == (if k < passes {
            was.new_secret@
        } else {
            was.old_secret@
        })
    &&& was.cursor == 0 && passes < was.size ==> now.new_secret == was.new_secret
}

proof fn lemma_swept(
    was: LevelResetState,
    mid: LevelResetState,
    now: LevelResetState,
    passes: int,
)
    requires
        was.cursor < was.size,
        swept(was, mid, passes),
        moved_on(mid, now),
    ensures
        swept(was, now, passes + 1),
{
    let size = was.size as int;
    vstd::arithmetic::div_mod::lemma_add_mod_noop_right(1, was.cursor + passes, size);
    assert((was.cursor + (passes + 1)) % size == (1 + (was.cursor + passes)) % size);
    if was.cursor == 0 && passes + 1 <= size {
        vstd::arithmetic::div_mod::lemma_small_mod(passes as nat, size as nat);
        assert(mid.cursor == passes);
        assert forall|k: int| 0 <= k < size implies #[trigger] now.secret(k) == (if k < passes + 1 {
            was.new_secret@
        } else {
            was.old_secret@
        }) by {
            assert(mid.secret(k) == (if k < passes {
                was.new_secret@
            } else {
                was.old_secret@
            }));
        }
        if passes + 1 < size {
            vstd::arithmetic::div_mod::lemma_small_mod((passes + 1) as nat, size as nat);
        }
    }
}

impl<V: ObliviousValue> FastRecursiveORAM<V> {
    /// Every fifteenth access takes one block of every level to its new secret, and the
    /// others none, as long as every stash has room.
    pub proof fn lemma_reset_step(&self, before: &Self, block: Block<V>)
        requires
            before.wf(),
            self.finished(before, block),
            self.intact,
        ensures
            before.op_counter < usize::MAX ==> self.op_counter == before.op_counter + 1,
            forall|l: int|
                0 <= l <= before.levels() ==> if self.op_counter as int % 15 == 0 {
                    #[trigger] reset_moved(before, self, l)
                } else {
                    self.reset_states@[l] == before.reset_states@[l]
                },
    {
        let placed = choose|placed: Self| #[trigger]
            placed.left_behind(before, block) && self.ended(&placed);
        assert(self.op_counter == placed.op_counter);
        if self.op_counter as int % 15 == 0 {
            assert(placed.intact) by {
                if !placed.intact {
                    assert(*self == placed);
                }
            }
            assert(self.pass_made(&placed));
            let states = choose|states: Seq<Self>|
                #![trigger states.first()]
                {
                    &&& 2 <= states.len() <= placed.levels() + 2
                    &&& states.first() == placed
                    &&& states.last() == *self
                    &&& self.intact ==> states.len() == placed.levels() + 2
                    &&& forall|l: int|
                        0 <= l < states.len() - 1 ==> #[trigger] states[l + 1].level_reset(
                            &states[l],
                            l,
                        ) && states[l].intact
                };
            let n = placed.levels() + 1;
            assert(states[0] == placed && states[n] == *self);
            assert forall|l: int| 0 <= l <= before.levels() implies #[trigger] reset_moved(
                before,
                self,
                l,
            ) by {
                Self::lemma_pass_states(states, n, l, n);
                let was = before.reset_states@[l];
                let now = self.reset_states@[l];
                let fresh = choose|fresh: [u8; 20]| now == #[trigger] was.advanced(fresh);
                assert(was.size == before.size(l) && was.cursor < was.size);
                if was.cursor + 1 < was.size {
                    vstd::arithmetic::div_mod::lemma_small_mod(
                        (was.cursor + 1) as nat,
                        was.size as nat,
                    );
                } else {
                    vstd::arithmetic::div_mod::lemma_mod_self_0(was.size as int);
                }
            }
        }
    }

    /// Resetting the levels one after another changes the secrets of each level once.
    proof fn lemma_pass_states(states: Seq<Self>, n: int, l: int, i: int)
        requires
            states.len() == n + 1,
            0 <= l < n,
            0 <= i <= n,
            states[0].reset_states@.len() == n,
            forall|j: int|
                0 <= j < n ==> #[trigger] states[j + 1].level_reset(&states[j], j),
        ensures
            states[i].reset_states@.len() == n,
            i <= l ==> states[i].reset_states@[l] == states[0].reset_states@[l],
            i > l ==> exists|fresh: [u8; 20]|
                states[i].reset_states@[l] == #[trigger] states[0].reset_states@[l].advanced(fresh),
        decreases i,
    {
        if i > 0 {
            Self::lemma_pass_states(states, n, l, i - 1);
            assert(states[(i - 1) + 1].level_reset(&states[i - 1], i - 1));
        }
    }

    /// States that accesses lead through, one after another, with room in every stash.
    pub open spec fn history(states: Seq<Self>, blocks: Seq<Block<V>>) -> bool {
        &&& states.len() == blocks.len() + 1
        &&& forall|i: int|
            0 <= i < blocks.len() ==> #[trigger] states[i + 1].finished(&states[i], blocks[i])
        &&& forall|i: int| 0 <= i < states.len() ==> (#[trigger] states[i]).wf() && states[i].intact
    }

    /// Over any accesses the cursor of every level goes on by one block for each fifteen of
    /// them. While it goes from the first block on, the blocks before it have the new secret
    /// and the others the old one; once it is through, every block has the secret that was the
    /// new one at the start.
    pub proof fn lemma_reset_sweep(states: Seq<Self>, blocks: Seq<Block<V>>, l: int, n: int)
        requires
            Self::history(states, blocks),
            0 <= n < states.len(),
            0 <= l <= states[0].levels(),
            states[0].op_counter + n <= usize::MAX,
        ensures
            states[n].op_counter == states[0].op_counter + n,
            states[n].levels() == states[0].levels(),
            swept(
                states[0].reset_states@[l],
                states[n].reset_states@[l],
                (states[0].op_counter + n) / 15 - states[0].op_counter as int / 15,
            ),
        decreases n,
    {
        let was = states[0].reset_states@[l];
        let now = states[n].reset_states@[l];
        let c = states[0].op_counter as int;
        assert(states[0].wf());
        assert(was.size == states[0].size(l) && was.cursor < was.size);
        if n == 0 {
            vstd::arithmetic::div_mod::lemma_small_mod(was.cursor as nat, was.size as nat);
        } else {
            Self::lemma_reset_sweep(states, blocks, l, n - 1);
            let mid = states[n - 1].reset_states@[l];
            assert(states[n - 1].wf() && states[n - 1].intact);
            assert(states[n].wf() && states[n].intact);
            assert(states[(n - 1) + 1].finished(&states[n - 1], blocks[n - 1]));
            Self::lemma_step_of(states[n - 1], states[n], blocks[n - 1], l);
            if (c + n) % 15 == 0 {
                lemma_swept(was, mid, now, (c + n - 1) / 15 - c / 15);
                assert((c + n) / 15 == (c + n - 1) / 15 + 1);
            } else {
                assert((c + n) / 15 == (c + n - 1) / 15);
            }
        }
    }

    proof fn lemma_step_of(before: Self, after: Self, block: Block<V>, l: int)
        requires
            before.wf(),
            after.finished(&before, block),
            after.intact,
            0 <= l <= before.levels(),
        ensures
            before.op_counter < usize::MAX ==> after.op_counter == before.op_counter + 1,
            after.levels() == before.levels(),
            after.op_counter as int % 15 == 0 ==> moved_on(
                before.reset_states@[l],
                after.reset_states@[l],
            ),
            after.op_counter as int % 15 != 0 ==> after.reset_states@[l] == before.reset_states@[l],
    {
        after.lemma_reset_step(&before, block);
        assert(if after.op_counter as int % 15 == 0 {
            reset_moved(&before, &after, l)
        } else {
            after.reset_states@[l] == before.reset_states@[l]
        });
    }

    /// The counter of block `key` of level `level` was counted up since `before`, as was that
    /// of the block that holds it, and so on up to the root; no other counter changed.
    pub open spec fn counted_up(&self, before: &Self, level: int, key: int) -> bool
        decreases level,
    {
        &&& forall|k: int|
            0 <= k < before.size(level) ==> #[trigger] self.count(level, k) == (if k == key {
                if before.count(level, k) == u64::MAX {
                    0
                } else {
                    (before.count(level, k) + 1) as u64
                }
            } else {
                before.count(level, k)
            })
        &&& level > 0 ==> self.counted_up(
            before,
            level - 1,
            before.counter_orams@[level - 1].target(key) as int,
        )
    }

    proof fn lemma_counted_up(&self, before: &Self, level: int, key: int)
        requires
            before.wf(),
            self.sized(),
            self.levels() == before.levels(),
            0 <= level <= before.levels(),
            0 <= key < before.size(level),
            before.has_room_above(level, key),
            self.counters_moved(before, level, key, CounterOp::Increment),
            forall|l: int|
                0 <= l < before.levels() ==> (#[trigger] self.counter_orams@[l]).same_frame(
                    &before.counter_orams@[l],
                ),
        ensures
            self.counted_up(before, level, key),
        decreases level,
    {
        if level > 0 {
            let c = before.counter_orams@[level - 1];
            let b = c.target(key) as int;
            assert(c.wf());
            assert(c.max_n == before.size(level));
            c.lemma_target_in_range(key);
            assert(before.has_room(level - 1, b as u32));
            assert(before.size(level - 1) == c.max_blocks);
            crate::position_hash::lemma_position(
                before.reset_states@[level - 1].secret(b),
                CounterOp::Increment.applied(before.count(level - 1, b)),
                b as u32,
                before.size(level - 1),
            );
            assert(self.counter_orams@[level - 1].same_frame(&c));
            assert forall|k: int| 0 <= k < before.size(level) implies #[trigger] self.count(level, k)
                == (if k == key {
                if before.count(level, k) == u64::MAX {
                    0
                } else {
                    (before.count(level, k) + 1) as u64
                }
            } else {
                before.count(level, k)
            }) by {
                self.counter_orams@[level - 1].lemma_moved_counts(
                    &c,
                    before.place(level - 1, b),
                    before.next_place(level - 1, b),
                    key,
                    CounterOp::Increment,
                    k,
                );
            }
            self.lemma_counted_up(before, level - 1, b);
        } else {
            assert(before.base_counters.data@.len() == before.size(0));
        }
    }

    /// An access counts up the counter of its key, and at every level above that of the block
    /// that was moved there; no other counter changes. So it is while no reset is due and
    /// every stash has room.
    pub proof fn lemma_access_counts(&self, before: &Self, block: Block<V>)
        requires
            before.may_access(block.key),
            self.finished(before, block),
            self.intact,
            self.op_counter as int % 15 != 0,
        ensures
            self.counted_up(before, before.levels(), block.key as int),
    {
        let placed = choose|placed: Self| #[trigger]
            placed.left_behind(before, block) && self.ended(&placed);
        assert(placed == *self);
        self.lemma_counted_up(before, before.levels(), block.key as int);
    }
}

} // verus!
