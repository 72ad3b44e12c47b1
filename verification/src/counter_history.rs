//! What a counter ORAM gives over a history of accesses.
//!
//! Each access names the position that the last access to the same block gave it. As long
//! as every block finds room, a counter is the number of times it was counted up.
use vstd::prelude::*;
use crate::fast_buckets::CACHELINE_COUNTER_BLOCK_COUNTER_BITS;
use crate::fast_circuit_oram::FastCircuitCounterORAM;
use crate::packed_counters::can_count;
use crate::prelude::PositionType;

verus! {

/// One access to counter `(prefix, suffix)` and what it gave.
pub struct CounterAccess {
    /// The position that the block of the counter is said to be at.
    pub pos: PositionType,
    /// The position that it moves to.
    pub new_pos: PositionType,
    /// The prefix of the counter.
    pub prefix: usize,
    /// The suffix of the counter.
    pub suffix: usize,
    /// Whether the counter is counted up.
    pub increment: bool,
    /// The result.
    pub result: u64,
}

impl CounterAccess {
    /// The block of the counter.
    pub open spec fn block(self, o: &FastCircuitCounterORAM) -> u32 {
        o.target(self.prefix, self.suffix as int) as u32
    }

    /// Whether the access is to counter `(prefix, suffix)`.
    pub open spec fn is_to(self, prefix: usize, suffix: int) -> bool {
        self.prefix == prefix && self.suffix == suffix
    }
}

/// The number of times that the first `n` accesses count counter `(prefix, suffix)` up.
pub open spec fn increments(calls: Seq<CounterAccess>, n: int, prefix: usize, suffix: int) -> nat
    decreases n,
{
    if n <= 0 {
        0
    } else {
        let c = calls[n - 1];
        increments(calls, n - 1, prefix, suffix) + (if c.is_to(prefix, suffix) && c.increment {
            1nat
        } else {
            0
        })
    }
}

/// The position that the last of the first `n` accesses to block `b` gave it.
pub open spec fn last_given(
    o: &FastCircuitCounterORAM,
    calls: Seq<CounterAccess>,
    n: int,
    b: u32,
) -> Option<PositionType>
    decreases n,
{
    if n <= 0 {
        None
    } else if calls[n - 1].block(o) == b {
        Some(calls[n - 1].new_pos)
    } else {
        last_given(o, calls, n - 1, b)
    }
}

/// Access `i` takes state `i` to the next. It is to a counter of the ORAM, at the position
/// last given to its block, if there was one, and both the stash and the block have room.
pub open spec fn counter_step(
    states: Seq<FastCircuitCounterORAM>,
    calls: Seq<CounterAccess>,
    i: int,
) -> bool {
    let o = states[i];
    let c = calls[i];
    let b = c.block(&states[0]);
    &&& c.suffix < 32
    &&& c.prefix * 32 + c.suffix < states[0].max_n
    &&& c.pos < states[0].max_blocks
    &&& c.new_pos < states[0].max_blocks
    &&& last_given(&states[0], calls, i, b) matches Some(pos) ==> c.pos == pos
    &&& o.state().has_room(b)
    &&& c.increment ==> can_count(
        o.block_counters(b),
        c.suffix as int,
        CACHELINE_COUNTER_BLOCK_COUNTER_BITS as nat,
    )
    &&& states[i + 1].accessed(&o, c.pos, c.new_pos, c.prefix, c.suffix as int, c.increment)
    &&& c.result == o.counter_at(c.prefix, c.suffix as int)
}

/// The accesses follow one another, from an ORAM that stores nothing.
pub open spec fn counter_history(
    states: Seq<FastCircuitCounterORAM>,
    calls: Seq<CounterAccess>,
) -> bool {
    &&& states.len() == calls.len() + 1
    &&& states[0].wf()
    &&& states[0]@ == Map::<u32, crate::fast_buckets::Counter_Block>::empty()
    &&& forall|i: int| 0 <= i < calls.len() ==> #[trigger] counter_step(states, calls, i)
}

/// After `n` accesses every block that was accessed is at the position last given to it,
/// and every counter is the number of times that it was counted up.
proof fn lemma_counts(states: Seq<FastCircuitCounterORAM>, calls: Seq<CounterAccess>, n: int)
    requires
        counter_history(states, calls),
        0 <= n <= calls.len(),
    ensures
        states[n].wf(),
        states[n].same_frame(&states[0]),
        forall|b: u32| #[trigger]
            states[n]@.contains_key(b) <==> last_given(&states[0], calls, n, b) is Some,
        forall|b: u32|
            states[n]@.contains_key(b) ==> last_given(&states[0], calls, n, b) == Some(
                (#[trigger] states[n]@[b]).block_pos(),
            ),
        forall|prefix: usize, suffix: int|
            0 <= suffix < 32 && prefix * 32 + suffix < states[0].max_n
                ==> #[trigger] states[n].counter_at(prefix, suffix) == increments(
                calls,
                n,
                prefix,
                suffix,
            ),
        n < calls.len() ==> states[n].may_access(
            calls[n].pos,
            calls[n].new_pos,
            calls[n].prefix,
            calls[n].suffix as int,
        ),
    decreases n,
{
    let o = states[0];
    if n > 0 {
        lemma_counts(states, calls, n - 1);
        assert(counter_step(states, calls, n - 1));
        let before = states[n - 1];
        let after = states[n];
        let c = calls[n - 1];
        let b = c.block(&o);
        assert(before.target(c.prefix, c.suffix as int) == o.target(c.prefix, c.suffix as int));
        after.lemma_counters_after(
            &before,
            c.pos,
            c.new_pos,
            c.prefix,
            c.suffix as int,
            c.increment,
            c.prefix,
            c.suffix as int,
        );
        assert forall|k: u32| #[trigger] after@.contains_key(k) <==> last_given(
            &o,
            calls,
            n,
            k,
        ) is Some by {
            assert(before@.contains_key(k) <==> last_given(&o, calls, n - 1, k) is Some);
        }
        assert forall|k: u32| after@.contains_key(k) implies last_given(&o, calls, n, k) == Some(
            (#[trigger] after@[k]).block_pos(),
        ) by {
            if k != b {
                assert(after@[k] == before@[k]);
                assert(before@.contains_key(k));
            }
        }
        assert forall|prefix: usize, suffix: int|
            0 <= suffix < 32 && prefix * 32 + suffix < o.max_n implies #[trigger] after.counter_at(
            prefix,
            suffix,
        ) == increments(calls, n, prefix, suffix) by {
            after.lemma_counters_after(
                &before,
                c.pos,
                c.new_pos,
                c.prefix,
                c.suffix as int,
                c.increment,
                prefix,
                suffix,
            );
            assert(before.counter_at(prefix, suffix) == increments(calls, n - 1, prefix, suffix));
        }
    }
    if n < calls.len() {
        assert(counter_step(states, calls, n));
        let c = calls[n];
        let b = c.block(&o);
        assert(states[n].target(c.prefix, c.suffix as int) == o.target(
            c.prefix,
            c.suffix as int,
        ));
        if states[n]@.contains_key(b) {
            states[n].lemma_stored_is_visible(b);
            assert(last_given(&o, calls, n, b) == Some(states[n]@[b].block_pos()));
        }
    }
}

/// Every access of a history is one that the ORAM allows, and gives the number of times that
/// its counter was counted up before, whatever was done to other counters. The next access
/// to a counter that was just counted up gives one more.
pub proof fn lemma_counters_count(
    states: Seq<FastCircuitCounterORAM>,
    calls: Seq<CounterAccess>,
    i: int,
)
    requires
        counter_history(states, calls),
        0 <= i < calls.len(),
    ensures
        states[i].may_access(
            calls[i].pos,
            calls[i].new_pos,
            calls[i].prefix,
            calls[i].suffix as int,
        ),
        calls[i].result == increments(calls, i, calls[i].prefix, calls[i].suffix as int),
        i + 1 < calls.len() && calls[i].increment && calls[i + 1].is_to(
            calls[i].prefix,
            calls[i].suffix as int,
        ) ==> calls[i + 1].result == calls[i].result + 1,
{
    lemma_counts(states, calls, i);
    assert(counter_step(states, calls, i));
    if i + 1 < calls.len() {
        lemma_counts(states, calls, i + 1);
        assert(counter_step(states, calls, i + 1));
    }
}

} // verus!
