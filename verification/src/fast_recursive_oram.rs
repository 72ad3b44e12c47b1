//! Recursive ORAM whose position maps are counters.
//!
//! Every block of an ORAM has a counter in the ORAM above it, up to a short array of root
//! counters, and lies at the position that a secret, the counter and its key are hashed
//! to. An access counts the counters on its way up, which moves the blocks on its way
//! down. Every few accesses one block of every ORAM goes over to a new secret, with its
//! counter back at zero.
use vstd::prelude::*;
use crate::circuit_oram::{Block, CircuitORAM, S};
use crate::counter_oram::{CounterORAM, CounterOp, BLOCK};
use crate::heap_tree::{full_width, lemma_full_width};
use crate::linear_oram::LinearORAM;
use crate::oblivious::{both, cmov_u32, cmov_u64, either, ObliviousBlock, ObliviousValue};
use crate::path_access::without_key;
use crate::position_hash::{hash_position, position, select_secret};
use crate::prelude::{
    apply_update, binary_shape, ceil_pow2, ceil_pow2_from, PositionType, DUMMY_POS, K,
};
use crate::random::random_bytes;

verus! {

/// The most root counters.
pub const ROOT_COUNTER_LIMIT: usize = 1024;

/// Accesses between one reset pass and the next, without the one that makes the pass.
pub const RESET_ALPHA: usize = 14;

/// Accesses from one reset pass to the next.
pub const RESET_INTERVAL: usize = 15;

/// The number of counter blocks for `n` counters.
pub open spec fn counter_blocks(n: int) -> int {
    ceil_pow2(
        if n <= 64 {
            2
        } else {
            (n - 1) / 64 + 1
        },
    )
}

/// The numbers of counters of the counter ORAMs over `n` positions, from the top to the
/// bottom, with at most `limit` root counters.
pub open spec fn level_sizes(n: int, limit: int) -> Seq<usize>
    decreases n,
{
    if counter_blocks(n) > limit && 0 <= counter_blocks(n) < n {
        level_sizes(counter_blocks(n), limit).push(n as usize)
    } else {
        seq![n as usize]
    }
}

/// Rounding up to a power of two less than doubles.
proof fn lemma_ceil_pow2_from(n: int, e: int)
    requires
        1 <= n <= 0x8000_0000,
        0 <= e <= 64,
        full_width(e, 2) < 2 * n,
    ensures
        1 <= ceil_pow2_from(n, e) < 2 * n,
    decreases 64 - e,
{
    lemma_full_width(e, 2);
    if e < 64 && full_width(e, 2) < n {
        lemma_ceil_pow2_from(n, e + 1);
    }
}

/// There are fewer counter blocks than counters, but for the smallest numbers.
proof fn lemma_counter_blocks(n: int)
    requires
        1 <= n <= 0x8000_0000,
    ensures
        2 <= counter_blocks(n),
        counter_blocks(n) > 2 ==> counter_blocks(n) < n,
        n <= 64 ==> counter_blocks(n) == 2,
        n <= 64 * counter_blocks(n),
        counter_blocks(n) <= 0x8000_0000,
{
    let m = if n <= 64 {
        2
    } else {
        (n - 1) / 64 + 1
    };
    lemma_full_width(0, 2);
    lemma_full_width(1, 2);
    lemma_ceil_pow2_from(m, 0);
    crate::heap_tree::lemma_full_width_grows(0, 1, 2);
    lemma_rounds_up(m, 0);
    if n <= 64 {
        reveal_with_fuel(ceil_pow2_from, 3);
    }
}

/// Rounding up to a power of two does not go down.
proof fn lemma_rounds_up(n: int, e: int)
    requires
        1 <= n <= 0x8000_0000,
        0 <= e <= 64,
    ensures
        n <= ceil_pow2_from(n, e),
    decreases 64 - e,
{
    if e >= 64 {
        crate::heap_tree::lemma_full_width_grows(31, e, 2);
        vstd::arithmetic::power2::lemma2_to64();
        vstd::arithmetic::power2::lemma_pow2(31);
        lemma_full_width(31, 2);
    } else if full_width(e, 2) < n {
        lemma_rounds_up(n, e + 1);
    }
}

/// Every counter ORAM has a counter for each block of the one below it, and the one at
/// the bottom has `n` counters.
pub proof fn lemma_level_sizes(n: int, limit: int)
    requires
        1 <= n <= 0x8000_0000,
        2 <= limit,
    ensures
        1 <= level_sizes(n, limit).len(),
        level_sizes(n, limit).last() == n,
        counter_blocks(level_sizes(n, limit)[0] as int) <= limit,
        forall|i: int|
            0 <= i < level_sizes(n, limit).len() - 1 ==> #[trigger] level_sizes(n, limit)[i]
                == counter_blocks(level_sizes(n, limit)[i + 1] as int),
        forall|i: int|
            0 <= i < level_sizes(n, limit).len() ==> 1 <= #[trigger] level_sizes(n, limit)[i]
                <= 0x8000_0000,
    decreases n,
{
    lemma_counter_blocks(n);
    let b = counter_blocks(n);
    if b > limit {
        lemma_level_sizes(b, limit);
        let above = level_sizes(b, limit);
        let s = level_sizes(n, limit);
        assert forall|i: int| 0 <= i < s.len() - 1 implies #[trigger] s[i] == counter_blocks(
            s[i + 1] as int,
        ) by {
            if i < above.len() - 1 {
                assert(above[i] == counter_blocks(above[i + 1] as int));
            }
        }
    }
}

/// The number of counter blocks for `n` counters.
pub fn counter_blocks_for_counter_space(n: usize) -> (r: usize)
    requires
        1 <= n <= 0x8000_0000,
    ensures
        r == counter_blocks(n as int),
{
    let wanted: usize = if n <= BLOCK {
        2
    } else {
        (n - 1) / BLOCK + 1
    };
    let (blocks, _h): (usize, usize) = binary_shape(wanted);
    blocks
}

/// [`counter_level_sizes`] with at most `root_limit` root counters.
pub fn counter_level_sizes_below(data_positions: usize, root_limit: usize) -> (r: Vec<usize>)
    requires
        1 <= data_positions <= 0x8000_0000,
    ensures
        r@ == level_sizes(
            data_positions as int,
            if root_limit < 2 {
                2
            } else {
                root_limit as int
            },
        ),
{
    let limit: usize = if root_limit < 2 {
        2
    } else {
        root_limit
    };
    let mut sizes: Vec<usize> = Vec::new();
    sizes.push(data_positions);
    let mut current: usize = data_positions;
    let ghost mut tail: Seq<usize> = Seq::empty();
    let mut entries: usize = counter_blocks_for_counter_space(data_positions);
    while entries > limit
        invariant
            2 <= limit,
            1 <= current <= 0x8000_0000,
            entries == counter_blocks(current as int),
            sizes@ == seq![current] + tail,
            level_sizes(data_positions as int, limit as int) == level_sizes(
                current as int,
                limit as int,
            ) + tail,
        decreases current,
    {
        proof {
            lemma_counter_blocks(current as int);
            assert(level_sizes(entries as int, limit as int).push(current) + tail =~= level_sizes(
                entries as int,
                limit as int,
            ) + (seq![current] + tail));
            tail = seq![current] + tail;
        }
        sizes.insert(0, entries);
        assert(sizes@ =~= seq![entries] + tail);
        current = entries;
        entries = counter_blocks_for_counter_space(current);
    }
    proof {
        lemma_counter_blocks(current as int);
    }
    sizes
}

/// The numbers of counters of the counter ORAMs over `data_positions` positions, from the
/// top to the bottom.
pub fn counter_level_sizes(data_positions: usize) -> (r: Vec<usize>)
    requires
        1 <= data_positions <= 0x8000_0000,
    ensures
        r@ == level_sizes(data_positions as int, ROOT_COUNTER_LIMIT as int),
{
    counter_level_sizes_below(data_positions, ROOT_COUNTER_LIMIT)
}

/// How far the blocks of one ORAM have gone over to the new secret.
#[derive(Debug, Clone, Copy)]
pub struct LevelResetState {
    /// The secret of the blocks from the cursor on.
    pub old_secret: [u8; 20],
    /// The secret of the blocks before the cursor.
    pub new_secret: [u8; 20],
    /// The next block to go over.
    pub cursor: usize,
    /// The number of blocks.
    pub size: usize,
}

impl LevelResetState {
    /// The secret of block `k`.
    pub open spec fn secret(&self, k: int) -> Seq<u8> {
        if k < self.cursor {
            self.new_secret@
        } else {
            self.old_secret@
        }
    }

    /// One block further. After the last one the new secret becomes the old one, and
    /// `fresh` the new one.
    pub open spec fn advanced(self, fresh: [u8; 20]) -> Self {
        if self.cursor + 1 < self.size {
            LevelResetState { cursor: (self.cursor + 1) as usize, ..self }
        } else {
            LevelResetState {
                cursor: 0,
                old_secret: self.new_secret,
                new_secret: fresh,
                ..self
            }
        }
    }

    /// The secret of block `key`, chosen without a branch on it.
    pub fn selected_secret(&self, key: usize) -> (r: [u8; 20])
        ensures
            r@ == self.secret(key as int),
    {
        select_secret(&self.old_secret, &self.new_secret, key < self.cursor)
    }

    /// Goes on to the next block. After the last one the new secret becomes the old one,
    /// and `fresh` the new one.
    pub fn advance(&mut self, fresh: [u8; 20])
        requires
            old(self).cursor < old(self).size,
        ensures
            final(self).size == old(self).size,
            final(self).cursor < final(self).size,
            *final(self) == old(self).advanced(fresh),
            forall|k: int|
                0 <= k < old(self).size ==> #[trigger] final(self).secret(k) == (if k == old(self).cursor {
                    old(self).new_secret@
                } else {
                    old(self).secret(k)
                }),
    {
        self.cursor = self.cursor + 1;
        if self.cursor == self.size {
            self.cursor = 0;
            self.old_secret = self.new_secret;
            self.new_secret = fresh;
        }
    }
}

/// A recursive ORAM whose position maps are counter ORAMs.
#[derive(Debug)]
pub struct FastRecursiveORAM<V: ObliviousValue> {
    /// Logical data capacity requested by the caller.
    pub n: usize,
    /// Counter position-map levels, ordered top-to-bottom.
    pub counter_orams: Vec<CounterORAM>,
    /// Final data ORAM.
    pub data_oram: CircuitORAM<V>,
    /// Oblivious root counters for the top counter ORAM's external position map.
    pub base_counters: LinearORAM<u64>,
    /// Per positioned ORAM reset state, including the final data ORAM.
    pub reset_states: Vec<LevelResetState>,
    /// Accesses so far.
    pub op_counter: usize,
    /// Whether every stash had room for every block so far.
    pub intact: bool,
}

impl<V: ObliviousValue> View for FastRecursiveORAM<V> {
    type V = Map<u32, V>;

    /// The value of every stored key.
    open spec fn view(&self) -> Map<u32, V> {
        Map::new(|k: u32| self.data_oram@.contains_key(k), |k: u32| self.data_oram@[k].value)
    }
}

impl<V: ObliviousValue> FastRecursiveORAM<V> {
    /// The number of counter ORAMs, which is the level of the data.
    pub open spec fn levels(&self) -> int {
        self.counter_orams@.len() as int
    }

    /// The number of blocks, and of positions, of level `l`.
    pub open spec fn size(&self, l: int) -> int {
        if l < self.levels() {
            self.counter_orams@[l].max_blocks as int
        } else {
            self.data_oram.max_n as int
        }
    }

    /// The counter of block `k` of level `l`.
    pub open spec fn count(&self, l: int, k: int) -> u64 {
        if l <= 0 {
            self.base_counters.data@[k]
        } else {
            self.counter_orams@[l - 1].counter(k)
        }
    }

    /// Whether block `b` of level `l` is stored.
    pub open spec fn stores(&self, l: int, b: u32) -> bool {
        if l < self.levels() {
            self.counter_orams@[l].stores(b)
        } else {
            self.data_oram@.contains_key(b)
        }
    }

    /// The position of block `b` of level `l`.
    pub open spec fn pos_of(&self, l: int, b: u32) -> PositionType {
        if l < self.levels() {
            self.counter_orams@[l].pos_of(b)
        } else {
            self.data_oram@[b].pos
        }
    }

    /// Where block `k` of level `l` belongs.
    pub open spec fn place(&self, l: int, k: int) -> PositionType {
        position(self.reset_states@[l].secret(k), self.count(l, k), k as u32, self.size(l))
    }

    /// Where block `k` of level `l` belongs once its counter is counted up.
    pub open spec fn next_place(&self, l: int, k: int) -> PositionType {
        position(
            self.reset_states@[l].secret(k),
            CounterOp::Increment.applied(self.count(l, k)),
            k as u32,
            self.size(l),
        )
    }

    /// The stored blocks of level `l` are where they belong.
    #[verifier::opaque]
    pub open spec fn level_ok(&self, l: int) -> bool {
        forall|b: u32| #[trigger]
            self.stores(l, b) ==> b < self.size(l) && self.pos_of(l, b) == self.place(l, b as int)
    }

    /// The sizes fit together.
    pub open spec fn sized(&self) -> bool {
        &&& 1 <= self.levels()
        &&& self.n <= self.data_oram.max_n
        &&& self.data_oram.wf()
        &&& forall|l: int| 0 <= l < self.levels() ==> (#[trigger] self.counter_orams@[l]).wf()
        &&& forall|l: int|
            0 <= l < self.levels() ==> (#[trigger] self.counter_orams@[l]).max_n == self.size(l + 1)
        &&& self.base_counters.data@.len() == self.size(0)
        &&& self.reset_states@.len() == self.levels() + 1
        &&& forall|l: int|
            0 <= l <= self.levels() ==> (#[trigger] self.reset_states@[l]).size == self.size(l)
                && self.reset_states@[l].cursor < self.reset_states@[l].size
    }

    /// The sizes fit together, and unless a stash lacked room every block is where it
    /// belongs.
    pub open spec fn wf(&self) -> bool {
        &&& self.sized()
        &&& self.intact ==> forall|l: int| 0 <= l <= self.levels() ==> #[trigger] self.level_ok(l)
    }

    /// Every stash is vacant from slot `m` on.
    pub open spec fn spare(&self, m: int) -> bool {
        &&& self.data_oram.vacant_from(m)
        &&& forall|l: int|
            0 <= l < self.levels() ==> (#[trigger] self.counter_orams@[l]).oram.vacant_from(m)
    }

    /// What an access to the counters of the levels up to `level` leaves alone.
    pub open spec fn kept_below(&self, before: &Self, level: int) -> bool {
        &&& self.n == before.n
        &&& self.levels() == before.levels()
        &&& self.data_oram == before.data_oram
        &&& self.reset_states == before.reset_states
        &&& self.op_counter == before.op_counter
        &&& self.intact == before.intact
        &&& self.base_counters.data@.len() == before.base_counters.data@.len()
        &&& forall|l: int|
            level < l < self.levels() ==> #[trigger] self.counter_orams@[l]
                == before.counter_orams@[l]
        &&& forall|l: int|
            0 <= l < self.levels() ==> (#[trigger] self.counter_orams@[l]).same_frame(
                &before.counter_orams@[l],
            )
    }

    /// A level is where it belongs as long as nothing that says so changes.
    proof fn lemma_level_frame(&self, before: &Self, l: int)
        requires
            before.level_ok(l),
            0 <= l <= before.levels(),
            self.levels() == before.levels(),
            self.size(l) == before.size(l),
            self.reset_states@[l] == before.reset_states@[l],
            forall|b: u32|
                #![trigger self.stores(l, b)]
                self.stores(l, b) == before.stores(l, b),
            forall|b: u32|
                self.stores(l, b) ==> #[trigger] self.pos_of(l, b) == before.pos_of(l, b),
            forall|k: int|
                0 <= k < self.size(l) ==> #[trigger] self.count(l, k) == before.count(l, k),
        ensures
            self.level_ok(l),
    {
        reveal(FastRecursiveORAM::level_ok);
        assert forall|b: u32| #[trigger] self.stores(l, b) implies b < self.size(l) && self.pos_of(
            l,
            b,
        ) == self.place(l, b as int) by {
            assert(before.stores(l, b));
            assert(self.pos_of(l, b) == before.pos_of(l, b));
            assert(self.count(l, b as int) == before.count(l, b as int));
        }
    }

    /// Sizes are powers of two that fit in a position.
    proof fn lemma_sizes(&self)
        requires
            self.sized(),
        ensures
            forall|l: int| 0 <= l <= self.levels() ==> 1 <= #[trigger] self.size(l) <= 0x8000_0000,
    {
        assert forall|l: int| 0 <= l <= self.levels() implies 1 <= #[trigger] self.size(l)
            <= 0x8000_0000 by {
            if l < self.levels() {
                assert(self.counter_orams@[l].wf());
                lemma_full_width(self.counter_orams@[l].oram.h - 1, 2);
            } else {
                lemma_full_width(self.data_oram.h - 1, 2);
            }
        }
    }

    /// Gives root counter `key` and applies `op` to it.
    fn base_counter_access(&mut self, key: usize, op: CounterOp) -> (r: u64)
        requires
            key < old(self).base_counters.data@.len(),
        ensures
            r == old(self).base_counters.data@[key as int],
            final(self).base_counters.data@ == old(self).base_counters.data@.update(
                key as int,
                op.applied(r),
            ),
            final(self).counter_orams == old(self).counter_orams,
            final(self).kept_below(old(self), -1),
    {
        let ghost before = self.base_counters.data@;
        let ghost start = *self;
        let mut value: u64 = 0;
        let mut i: usize = 0;
        while i < self.base_counters.data.len()
            invariant
                i <= self.base_counters.data@.len() == before.len(),
                key < before.len(),
                key < i ==> value == before[key as int],
                self.base_counters.data@ == (if key < i {
                    before.update(key as int, op.applied(before[key as int]))
                } else {
                    before
                }),
                *self == (FastRecursiveORAM { base_counters: self.base_counters, ..start }),
            decreases before.len() - i,
        {
            let matched: bool = i == key;
            let mut counter: u64 = self.base_counters.data[i];
            cmov_u64(&mut value, counter, matched);
            let changed: u64 = op.apply(counter);
            cmov_u64(&mut counter, changed, matched);
            self.base_counters.data.set(i, counter);
            proof {
                assert(self.base_counters.data@ =~= (if key < i + 1 {
                    before.update(key as int, op.applied(before[key as int]))
                } else {
                    before
                }));
            }
            i += 1;
        }
        value
    }

    /// Whether the stash of level `l` has room for its block `b`.
    pub open spec fn has_room(&self, l: int, b: u32) -> bool {
        if l < self.levels() {
            self.counter_orams@[l].oram.state().has_room(b)
        } else {
            self.data_oram.state().has_room(b)
        }
    }

    /// Whether the stash of every level above `level` has room for the block that an access
    /// to the counter of block `key` of level `level` moves there.
    pub open spec fn has_room_above(&self, level: int, key: int) -> bool
        decreases level,
    {
        level <= 0 || {
            let b = self.counter_orams@[level - 1].target(key);
            &&& self.has_room(level - 1, b as u32)
            &&& self.has_room_above(level - 1, b as int)
        }
    }

    /// What an access with `op` to the counter of block `key` of level `level` did since
    /// `before` to the root counters and to every level above: `op` was applied to the
    /// counter, and every block with a counter on the way was moved to its next place.
    pub open spec fn counters_moved(
        &self,
        before: &Self,
        level: int,
        key: int,
        op: CounterOp,
    ) -> bool
        decreases level,
    {
        if level <= 0 {
            self.base_counters.data@ == before.base_counters.data@.update(
                key,
                op.applied(before.count(0, key)),
            )
        } else {
            let b = before.counter_orams@[level - 1].target(key) as int;
            &&& self.counter_orams@[level - 1].moved(
                &before.counter_orams@[level - 1],
                before.place(level - 1, b),
                before.next_place(level - 1, b),
                key,
                op,
            )
            &&& self.counters_moved(before, level - 1, b, CounterOp::Increment)
        }
    }

    /// What an access does to the levels above depends on these alone.
    proof fn lemma_counters_moved(
        &self,
        middle: &Self,
        before: &Self,
        level: int,
        key: int,
        op: CounterOp,
    )
        requires
            middle.counters_moved(before, level, key, op),
            self.base_counters.data@ == middle.base_counters.data@,
            forall|l: int|
                0 <= l < level ==> #[trigger] self.counter_orams@[l] == middle.counter_orams@[l],
        ensures
            self.counters_moved(before, level, key, op),
        decreases level,
    {
        if level > 0 {
            let b = before.counter_orams@[level - 1].target(key) as int;
            assert(self.counter_orams@[level - 1] == middle.counter_orams@[level - 1]);
            self.lemma_counters_moved(middle, before, level - 1, b, CounterOp::Increment);
        }
    }

    /// The block of level `l` under the cursor was moved since `before`, if it is stored,
    /// from where it belonged to where the new secret puts it with its counter at zero.
    pub open spec fn block_reset(&self, before: &Self, l: int) -> bool {
        let state = before.reset_states@[l];
        let k = state.cursor;
        let pos = position(
            state.old_secret@,
            before.count(l, k as int),
            k as u32,
            before.size(l),
        );
        let new_pos = position(state.new_secret@, 0, k as u32, before.size(l));
        if l < before.levels() {
            self.counter_orams@[l].oram.remapped(&before.counter_orams@[l].oram, pos, new_pos, k)
        } else {
            self.data_oram.remapped(&before.data_oram, pos, new_pos, k)
        }
    }

    /// Whether every stash has room for what it takes to reset the block of level `l` under
    /// the cursor.
    pub open spec fn has_room_to_reset(&self, l: int) -> bool {
        let b = self.reset_states@[l].cursor;
        &&& self.has_room_above(l, b as int)
        &&& self.stores(l, b as u32) ==> self.has_room(l, b as u32)
    }

    /// What is owed by an access with `op` to the counter of block `key` of level `level`,
    /// which gave `r`.
    spec fn counter_taken(
        &self,
        before: &Self,
        level: int,
        key: int,
        op: CounterOp,
        r: (u64, bool),
    ) -> bool {
        &&& self.sized()
        &&& self.kept_below(before, level - 1)
        &&& r.0 == before.count(level, key)
        &&& r.1 == before.has_room_above(level, key)
        &&& self.counters_moved(before, level, key, op)
        &&& r.1 ==> forall|l: int| 0 <= l < level ==> #[trigger] self.level_ok(l)
        &&& r.1 ==> forall|k: int|
            0 <= k < before.size(level) ==> #[trigger] self.count(level, k) == (if k == key {
                op.applied(r.0)
            } else {
                before.count(level, k)
            })
        &&& forall|m: int| #[trigger]
            before.spare(m) && 0 <= m ==> self.spare(m + 1) && (m < S ==> r.1)
    }

    /// Gives the counter of block `key` of level `level` and applies `op` to it. Tells
    /// whether every stash on the way had room.
    fn take_counter(&mut self, level: usize, key: usize, op: CounterOp) -> (r: (u64, bool))
        requires
            old(self).sized(),
            level <= old(self).levels(),
            key < old(self).size(level as int),
            forall|l: int| 0 <= l < level ==> #[trigger] old(self).level_ok(l),
        ensures
            final(self).counter_taken(old(self), level as int, key as int, op, r),
        decreases level, 0int,
    {
        let ghost before = *self;
        if level == 0 {
            let counter: u64 = self.base_counter_access(key, op);
            proof {
                assert(self.sized()) by {
                    assert forall|j: int| 0 <= j < self.levels() implies (
                    #[trigger] self.counter_orams@[j]).max_n == self.size(j + 1) by {
                        assert(before.counter_orams@[j].max_n == before.size(j + 1));
                    }
                    assert forall|j: int| 0 <= j <= self.levels() implies (
                    #[trigger] self.reset_states@[j]).size == self.size(j)
                        && self.reset_states@[j].cursor < self.reset_states@[j].size by {
                        assert(before.reset_states@[j].size == before.size(j));
                    }
                }
                assert forall|m: int| #[trigger] before.spare(m) && 0 <= m implies self.spare(
                    m + 1,
                ) by {
                    before.lemma_spare_more(m);
                    assert forall|j: int| 0 <= j < self.levels() implies (
                    #[trigger] self.counter_orams@[j]).oram.vacant_from(m + 1) by {
                        assert(before.counter_orams@[j].oram.vacant_from(m + 1));
                    }
                }
            }
            (counter, true)
        } else {
            self.access_counter_level(level - 1, key, op)
        }
    }

    /// Gives the counter of block `key` of the level below counter ORAM `level` and applies
    /// `op` to it. Tells whether every stash on the way had room.
    #[verifier::rlimit(40)]
    #[verifier::spinoff_prover]
    fn access_counter_level(&mut self, level: usize, key: usize, op: CounterOp) -> (r: (u64, bool))
        requires
            old(self).sized(),
            level < old(self).levels(),
            key < old(self).size(level + 1),
            forall|l: int| 0 <= l <= level ==> #[trigger] old(self).level_ok(l),
        ensures
            final(self).counter_taken(old(self), level + 1, key as int, op, r),
        decreases level, 1int,
    {
        let ghost before = *self;
        let ghost l = level as int;
        assert(before.counter_orams@[l].max_n == before.size(l + 1));
        let parent_key: usize = self.counter_orams[level].position_map_key_for_key(key);
        let (parent_counter, above): (u64, bool) = self.take_counter(
            level,
            parent_key,
            CounterOp::Increment,
        );
        let ghost middle = *self;
        proof {
            before.lemma_sizes();
            middle.lemma_same_sizes(&before, l - 1);
            assert(middle.size(l) == before.size(l));
            assert(middle.counter_orams@[l] == before.counter_orams@[l]);
            assert(before.level_ok(l));
            before.lemma_block_place(l, parent_key as u32);
            let here = before.counter_orams@[l];
            if here.stores(parent_key as u32) {
                here.oram.lemma_stored_is_visible(parent_key as u32);
                assert(before.stores(l, parent_key as u32));
            }
        }
        let secret: [u8; 20] = self.reset_states[level].selected_secret(parent_key);
        let max_positions: usize = self.counter_orams[level].max_blocks;
        assert(before.size(l) == max_positions);
        let pos: PositionType = hash_position(
            &secret,
            parent_counter,
            parent_key as u32,
            max_positions,
        );
        let new_pos: PositionType = hash_position(
            &secret,
            parent_counter.wrapping_add(1),
            parent_key as u32,
            max_positions,
        );
        let (counter, written): (u64, bool) = self.counter_orams[level].access(
            pos,
            new_pos,
            key,
            op,
        );
        let all: bool = both(above, written);
        proof {
            self.lemma_only_level(&middle, l);
            assert(self.counters_moved(&before, l + 1, key as int, op)) by {
                assert(before.counter_orams@[l].target(key as int) == parent_key);
                assert(pos == before.place(l, parent_key as int));
                assert(new_pos == before.next_place(l, parent_key as int));
                self.lemma_counters_moved(
                    &middle,
                    &before,
                    l,
                    parent_key as int,
                    CounterOp::Increment,
                );
            }
            assert forall|j: int| 0 <= j < self.levels() implies (
            #[trigger] self.counter_orams@[j]).same_frame(&before.counter_orams@[j]) by {
                assert(middle.counter_orams@[j].same_frame(&before.counter_orams@[j]));
            }
            if all {
                assert forall|j: int| 0 <= j <= l implies #[trigger] self.level_ok(j) by {
                    assert(self.size(j) == middle.size(j));
                    if j < l {
                        assert(middle.level_ok(j));
                        self.lemma_level_frame(&middle, j);
                    } else {
                        before.lemma_moved_block(&middle, self, l, parent_key as u32, new_pos);
                    }
                }
            }
            assert forall|m: int| #[trigger] before.spare(m) && 0 <= m implies self.spare(m + 1)
                && (m < S ==> all) by {
                assert(before.counter_orams@[l].oram.vacant_from(m));
                assert(middle.spare(m + 1));
                if m < S {
                    before.counter_orams@[l].oram.lemma_vacancy_is_room(m, parent_key as u32);
                }
                assert forall|j: int| 0 <= j < self.levels() implies (
                #[trigger] self.counter_orams@[j]).oram.vacant_from(m + 1) by {
                    if j != l {
                        assert(middle.counter_orams@[j].oram.vacant_from(m + 1));
                    }
                }
            }
        }
        (counter, all)
    }

    /// A stored block is where it belongs.
    proof fn lemma_block_place(&self, l: int, b: u32)
        requires
            self.level_ok(l),
        ensures
            self.stores(l, b) ==> b < self.size(l) && self.pos_of(l, b) == self.place(l, b as int),
    {
        reveal(FastRecursiveORAM::level_ok);
    }

    /// With its counter one higher and at its new position, a block is where it belongs.
    proof fn lemma_moved_block(
        &self,
        middle: &Self,
        after: &Self,
        l: int,
        b: u32,
        new_pos: PositionType,
    )
        requires
            self.level_ok(l),
            self.levels() == middle.levels() == after.levels(),
            0 <= l <= self.levels(),
            b < self.size(l),
            self.size(l) == middle.size(l) == after.size(l),
            middle.reset_states@[l] == self.reset_states@[l],
            after.reset_states@[l] == self.reset_states@[l],
            forall|k: int|
                0 <= k < self.size(l) ==> #[trigger] middle.count(l, k) == (if k == b {
                    CounterOp::Increment.applied(self.count(l, k))
                } else {
                    self.count(l, k)
                }),
            forall|k: int|
                0 <= k < self.size(l) ==> #[trigger] after.count(l, k) == middle.count(l, k),
            forall|c: u32| #[trigger] after.stores(l, c) ==> self.stores(l, c) || c == b,
            forall|c: u32|
                after.stores(l, c) ==> #[trigger] after.pos_of(l, c) == (if c == b {
                    new_pos
                } else {
                    self.pos_of(l, c)
                }),
            new_pos == position(
                self.reset_states@[l].secret(b as int),
                CounterOp::Increment.applied(self.count(l, b as int)),
                b,
                self.size(l),
            ),
        ensures
            after.level_ok(l),
    {
        reveal(FastRecursiveORAM::level_ok);
        assert forall|c: u32| #[trigger] after.stores(l, c) implies c < after.size(l)
            && after.pos_of(l, c) == after.place(l, c as int) by {
            assert(self.stores(l, c) || c == b);
            assert(after.count(l, c as int) == middle.count(l, c as int));
            assert(middle.count(l, c as int) == (if c == b {
                CounterOp::Increment.applied(self.count(l, c as int))
            } else {
                self.count(l, c as int)
            }));
        }
    }

    /// What only the blocks of level `level` may change.
    pub open spec fn only_level(&self, before: &Self, level: int) -> bool {
        &&& self.n == before.n
        &&& self.levels() == before.levels()
        &&& self.base_counters == before.base_counters
        &&& self.reset_states == before.reset_states
        &&& self.op_counter == before.op_counter
        &&& self.intact == before.intact
        &&& forall|j: int|
            0 <= j < self.levels() && j != level ==> #[trigger] self.counter_orams@[j]
                == before.counter_orams@[j]
        &&& level < self.levels() ==> self.data_oram == before.data_oram
            && self.counter_orams@[level].same_frame(&before.counter_orams@[level])
        &&& level == self.levels() ==> self.data_oram.same_frame(&before.data_oram)
    }

    /// Moves block `key` of level `level`, if it is stored, to `new_pos`. Tells whether the
    /// stash had room for it.
    fn move_block(
        &mut self,
        level: usize,
        pos: PositionType,
        new_pos: PositionType,
        key: usize,
    ) -> (written: bool)
        requires
            old(self).sized(),
            level <= old(self).levels(),
            key < old(self).size(level as int),
            pos < old(self).size(level as int),
            new_pos < old(self).size(level as int),
            old(self).stores(level as int, key as u32) ==> old(self).pos_of(
                level as int,
                key as u32,
            ) == pos,
        ensures
            final(self).sized(),
            final(self).only_level(old(self), level as int),
            written == (!old(self).stores(level as int, key as u32) || old(self).has_room(
                level as int,
                key as u32,
            )),
            level < old(self).levels() ==> final(self).counter_orams@[level as int].oram.remapped(
                &old(self).counter_orams@[level as int].oram,
                pos,
                new_pos,
                key,
            ),
            level == old(self).levels() ==> final(self).data_oram.remapped(
                &old(self).data_oram,
                pos,
                new_pos,
                key,
            ),
            written ==> forall|b: u32| #[trigger]
                final(self).stores(level as int, b) == old(self).stores(level as int, b),
            written ==> forall|b: u32|
                old(self).stores(level as int, b) ==> #[trigger] final(self).pos_of(level as int, b)
                    == (if b == key {
                    new_pos
                } else {
                    old(self).pos_of(level as int, b)
                }),
            written ==> forall|k: int|
                0 <= k < old(self).size(level + 1) ==> #[trigger] final(self).count(level + 1, k)
                    == old(self).count(level + 1, k),
            written ==> final(self)@ == old(self)@,
            forall|m: int| #[trigger]
                old(self).spare(m) && 0 <= m ==> final(self).spare(m + 1) && (m < S ==> written),
    {
        let ghost before = *self;
        let ghost l = level as int;
        let levels: usize = self.counter_orams.len();
        proof {
            before.lemma_sizes();
        }
        let written: bool;
        if level < levels {
            proof {
                let here = before.counter_orams@[l];
                if here.stores(key as u32) {
                    here.oram.lemma_stored_is_visible(key as u32);
                    assert(before.stores(l, key as u32));
                }
            }
            written = self.counter_orams[level].remap_position_map_key(pos, new_pos, key);
            proof {
                assert forall|m: int| #[trigger] before.spare(m) && 0 <= m < S implies written by {
                    assert(before.counter_orams@[l].oram.vacant_from(m));
                    before.counter_orams@[l].oram.lemma_vacancy_is_room(m, key as u32);
                }
                assert(before.counter_orams@[l].max_n == before.size(l + 1));
                if written {
                    assert forall|k: int| 0 <= k < before.size(l + 1) implies #[trigger] self.count(
                        l + 1,
                        k,
                    ) == before.count(l + 1, k) by {
                        assert(self.counter_orams@[l].counter(k)
                            == before.counter_orams@[l].counter(k));
                    }
                    assert forall|b: u32| #[trigger] self.stores(l, b) == before.stores(l, b) by {
                        assert(self.counter_orams@[l].stores(b)
                            == before.counter_orams@[l].stores(b));
                    }
                }
                assert(self@ =~= before@);
            }
        } else {
            proof {
                if before.data_oram@.contains_key(key as u32) {
                    before.data_oram.lemma_stored_is_visible(key as u32);
                    assert(before.stores(l, key as u32));
                }
            }
            let mut block: Block<V> = Block { pos: DUMMY_POS, key, value: V::zeroed() };
            let found: bool = self.data_oram.open_and_remove(pos, key, &mut block);
            let ghost opened = self.data_oram;
            cmov_u32(&mut block.pos, new_pos, found);
            block.key = key;
            let placed: bool = self.data_oram.place_and_finish(pos, &block);
            written = either(!found, placed);
            proof {
                self.data_oram.lemma_accessed(&before.data_oram, &opened, key, block);
                assert(self.data_oram.left(&before.data_oram, pos, block));
                assert forall|m: int| #[trigger] before.spare(m) && 0 <= m < S implies written by {
                    before.data_oram.lemma_vacancy_is_room(m, key as u32);
                }
                if written {
                    assert(self@ =~= before@);
                }
            }
        }
        proof {
            self.lemma_only_level(&before, l);
            assert forall|m: int| #[trigger] before.spare(m) && 0 <= m implies self.spare(
                m + 1,
            ) by {
                assert forall|j: int| 0 <= j < self.levels() implies (
                #[trigger] self.counter_orams@[j]).oram.vacant_from(m + 1) by {
                    assert(before.counter_orams@[j].oram.vacant_from(m));
                }
            }
        }
        written
    }

    /// Where only the blocks of one level change, the sizes still fit together.
    proof fn lemma_only_level(&self, before: &Self, level: int)
        requires
            before.sized(),
            0 <= level <= before.levels(),
            self.only_level(before, level),
            self.data_oram.wf(),
            level < self.levels() ==> self.counter_orams@[level].wf(),
        ensures
            self.sized(),
            forall|j: int| 0 <= j <= self.levels() ==> #[trigger] self.size(j) == before.size(j),
    {
        assert forall|j: int| 0 <= j <= self.levels() implies #[trigger] self.size(j)
            == before.size(j) by {
            if j < self.levels() && j != level {
                assert(self.counter_orams@[j] == before.counter_orams@[j]);
            }
        }
        assert forall|j: int| 0 <= j < self.levels() implies (#[trigger] self.counter_orams@[j]).wf()
            && self.counter_orams@[j].max_n == self.size(j + 1) by {
            assert(before.counter_orams@[j].wf());
            assert(before.counter_orams@[j].max_n == before.size(j + 1));
            assert(self.size(j + 1) == before.size(j + 1));
        }
        assert(self.size(0) == before.size(0));
        assert forall|j: int| 0 <= j <= self.levels() implies (
        #[trigger] self.reset_states@[j]).size == self.size(j) && self.reset_states@[j].cursor
            < self.reset_states@[j].size by {
            assert(before.reset_states@[j].size == before.size(j));
            assert(self.size(j) == before.size(j));
        }
    }

    /// Once its counter is zero, it is at its new position and the cursor went past it, the
    /// block under the cursor is where it belongs, and so is every other block.
    #[verifier::spinoff_prover]
    proof fn lemma_reset(&self, middle: &Self, moved: &Self, after: &Self, l: int)
        requires
            self.wf(),
            self.intact,
            0 <= l <= self.levels(),
            middle.sized(),
            middle.kept_below(self, l - 1),
            forall|j: int| 0 <= j < l ==> #[trigger] middle.level_ok(j),
            forall|k: int|
                0 <= k < self.size(l) ==> #[trigger] middle.count(l, k) == (if k
                    == self.reset_states@[l].cursor {
                    0
                } else {
                    self.count(l, k)
                }),
            moved.sized(),
            moved.only_level(middle, l),
            forall|b: u32| #[trigger] moved.stores(l, b) == middle.stores(l, b),
            forall|b: u32|
                middle.stores(l, b) ==> #[trigger] moved.pos_of(l, b) == (if b
                    == self.reset_states@[l].cursor {
                    position(self.reset_states@[l].new_secret@, 0, b, self.size(l))
                } else {
                    middle.pos_of(l, b)
                }),
            forall|k: int|
                0 <= k < middle.size(l + 1) ==> #[trigger] moved.count(l + 1, k) == middle.count(
                    l + 1,
                    k,
                ),
            after.counter_orams == moved.counter_orams,
            after.data_oram == moved.data_oram,
            after.base_counters == moved.base_counters,
            after.reset_states@.len() == moved.reset_states@.len(),
            forall|j: int|
                0 <= j <= self.levels() && j != l ==> #[trigger] after.reset_states@[j]
                    == moved.reset_states@[j],
            forall|k: int|
                0 <= k < self.size(l) ==> #[trigger] after.reset_states@[l].secret(k) == (if k
                    == self.reset_states@[l].cursor {
                    self.reset_states@[l].new_secret@
                } else {
                    self.reset_states@[l].secret(k)
                }),
        ensures
            forall|j: int| 0 <= j <= after.levels() ==> #[trigger] after.level_ok(j),
    {
        middle.lemma_same_sizes(self, l - 1);
        moved.lemma_only_level(middle, l);
        assert forall|j: int| 0 <= j <= self.levels() implies #[trigger] after.size(j) == self.size(
            j,
        ) by {
            assert(middle.size(j) == self.size(j));
            assert(moved.size(j) == middle.size(j));
        }
        assert forall|j: int| 0 <= j <= after.levels() implies #[trigger] after.level_ok(j) by {
            assert(self.level_ok(j));
            assert(after.size(j) == self.size(j));
            if j < l {
                assert(middle.level_ok(j));
                assert(middle.size(j) == self.size(j));
                assert(after.counter_orams@[j] == middle.counter_orams@[j]);
                if j > 0 {
                    assert(after.counter_orams@[j - 1] == middle.counter_orams@[j - 1]);
                }
                after.lemma_level_frame(middle, j);
            } else if j > l {
                assert forall|k: int| 0 <= k < after.size(j) implies #[trigger] after.count(j, k)
                    == self.count(j, k) by {
                    assert(middle.counter_orams@[j - 1] == self.counter_orams@[j - 1]);
                    if j == l + 1 {
                        assert(middle.size(l + 1) == self.size(l + 1));
                        assert(moved.count(l + 1, k) == middle.count(l + 1, k));
                    } else {
                        assert(moved.counter_orams@[j - 1] == middle.counter_orams@[j - 1]);
                    }
                }
                if j < self.levels() {
                    assert(middle.counter_orams@[j] == self.counter_orams@[j]);
                    assert(moved.counter_orams@[j] == middle.counter_orams@[j]);
                }
                after.lemma_level_frame(self, j);
            } else {
                reveal(FastRecursiveORAM::level_ok);
                assert forall|b: u32| #[trigger] after.stores(l, b) implies b < after.size(l)
                    && after.pos_of(l, b) == after.place(l, b as int) by {
                    if l < self.levels() {
                        assert(middle.counter_orams@[l] == self.counter_orams@[l]);
                    }
                    assert(moved.stores(l, b) == middle.stores(l, b));
                    assert(self.stores(l, b));
                    assert(middle.pos_of(l, b) == self.pos_of(l, b));
                    assert(moved.pos_of(l, b) == after.pos_of(l, b));
                    if l > 0 {
                        assert(moved.counter_orams@[l - 1] == middle.counter_orams@[l - 1]);
                    }
                    assert(after.count(l, b as int) == middle.count(l, b as int));
                    assert(after.reset_states@[l].secret(b as int) == (if b
                        == self.reset_states@[l].cursor {
                        self.reset_states@[l].new_secret@
                    } else {
                        self.reset_states@[l].secret(b as int)
                    }));
                }
            }
        }
    }

    /// What a reset of level `l` did, from what its steps did.
    #[verifier::spinoff_prover]
    proof fn lemma_level_reset(&self, middle: &Self, moved: &Self, after: &Self, l: int)
        requires
            self.sized(),
            0 <= l <= self.levels(),
            middle.kept_below(self, l - 1),
            forall|k: int|
                0 <= k < self.size(l) ==> #[trigger] middle.count(l, k) == (if k
                    == self.reset_states@[l].cursor {
                    0
                } else {
                    self.count(l, k)
                }),
            moved.only_level(middle, l),
            forall|b: u32| #[trigger] moved.stores(l, b) == middle.stores(l, b),
            forall|b: u32|
                middle.stores(l, b) ==> #[trigger] moved.pos_of(l, b) == (if b
                    == self.reset_states@[l].cursor {
                    position(self.reset_states@[l].new_secret@, 0, b, self.size(l))
                } else {
                    middle.pos_of(l, b)
                }),
            forall|k: int|
                0 <= k < middle.size(l + 1) ==> #[trigger] moved.count(l + 1, k) == middle.count(
                    l + 1,
                    k,
                ),
            after.counter_orams == moved.counter_orams,
            after.data_oram == moved.data_oram,
            after.base_counters == moved.base_counters,
        ensures
            forall|k: int|
                0 <= k < self.size(l) ==> #[trigger] after.count(l, k) == (if k
                    == self.reset_states@[l].cursor {
                    0
                } else {
                    self.count(l, k)
                }),
            forall|b: u32| #[trigger] after.stores(l, b) == self.stores(l, b),
            forall|b: u32|
                self.stores(l, b) ==> #[trigger] after.pos_of(l, b) == (if b
                    == self.reset_states@[l].cursor {
                    position(self.reset_states@[l].new_secret@, 0, b, self.size(l))
                } else {
                    self.pos_of(l, b)
                }),
            l < self.levels() ==> forall|k: int|
                0 <= k < self.size(l + 1) ==> #[trigger] after.count(l + 1, k) == self.count(
                    l + 1,
                    k,
                ),
            forall|j: int|
                l < j < self.levels() ==> #[trigger] after.counter_orams@[j]
                    == self.counter_orams@[j],
            l < self.levels() ==> after.data_oram == self.data_oram,
    {
        middle.lemma_same_sizes(self, l - 1);
        if l < self.levels() {
            assert(middle.counter_orams@[l] == self.counter_orams@[l]);
            assert(middle.size(l + 1) == self.size(l + 1));
        }
        assert forall|k: int| 0 <= k < self.size(l) implies #[trigger] after.count(l, k) == (if k
            == self.reset_states@[l].cursor {
            0
        } else {
            self.count(l, k)
        }) by {
            if l > 0 {
                assert(moved.counter_orams@[l - 1] == middle.counter_orams@[l - 1]);
            }
            assert(after.count(l, k) == middle.count(l, k));
        }
        assert forall|b: u32| #[trigger] after.stores(l, b) == self.stores(l, b) by {
            assert(moved.stores(l, b) == middle.stores(l, b));
        }
        assert forall|b: u32| self.stores(l, b) implies #[trigger] after.pos_of(l, b) == (if b
            == self.reset_states@[l].cursor {
            position(self.reset_states@[l].new_secret@, 0, b, self.size(l))
        } else {
            self.pos_of(l, b)
        }) by {
            assert(middle.stores(l, b));
            assert(moved.pos_of(l, b) == after.pos_of(l, b));
        }
        if l < self.levels() {
            assert forall|k: int| 0 <= k < self.size(l + 1) implies #[trigger] after.count(l + 1, k)
                == self.count(l + 1, k) by {
                assert(moved.count(l + 1, k) == middle.count(l + 1, k));
            }
        }
        assert forall|j: int| l < j < self.levels() implies #[trigger] after.counter_orams@[j]
            == self.counter_orams@[j] by {
            assert(moved.counter_orams@[j] == middle.counter_orams@[j]);
        }
    }

    /// An access to counters keeps the sizes.
    proof fn lemma_same_sizes(&self, before: &Self, level: int)
        requires
            self.kept_below(before, level),
        ensures
            forall|j: int| 0 <= j <= self.levels() ==> #[trigger] self.size(j) == before.size(j),
    {
        assert forall|j: int| 0 <= j <= self.levels() implies #[trigger] self.size(j)
            == before.size(j) by {
            if j < self.levels() {
                assert(self.counter_orams@[j].same_frame(&before.counter_orams@[j]));
            }
        }
    }

    /// The cursor of level `l` went one block further since `before`, and those of the
    /// other levels did not. The counter of the block that was under it was taken to zero,
    /// and the block was moved; the ORAMs below stayed. Unless a stash lacked room, the
    /// block is where the new secret puts it, and the other blocks of the level, their
    /// counters and the counters of the next level stayed.
    pub open spec fn level_reset(&self, before: &Self, l: int) -> bool {
        let state = before.reset_states@[l];
        &&& self.intact == before.has_room_to_reset(l)
        &&& self.counters_moved(before, l, state.cursor as int, CounterOp::Reset)
        &&& self.block_reset(before, l)
        &&& forall|j: int|
            l < j < before.levels() ==> #[trigger] self.counter_orams@[j]
                == before.counter_orams@[j]
        &&& l < before.levels() ==> self.data_oram == before.data_oram
        &&& self.reset_states@.len() == before.reset_states@.len()
        &&& exists|fresh: [u8; 20]| self.reset_states@[l] == #[trigger] state.advanced(fresh)
        &&& forall|j: int|
            0 <= j < before.reset_states@.len() && j != l ==> #[trigger] self.reset_states@[j]
                == before.reset_states@[j]
        &&& self.intact ==> {
            &&& forall|k: int|
                0 <= k < before.size(l) ==> #[trigger] self.count(l, k) == (if k == state.cursor {
                    0
                } else {
                    before.count(l, k)
                })
            &&& forall|b: u32| #[trigger] self.stores(l, b) == before.stores(l, b)
            &&& forall|b: u32|
                before.stores(l, b) ==> #[trigger] self.pos_of(l, b) == (if b == state.cursor {
                    position(state.new_secret@, 0, b, before.size(l))
                } else {
                    before.pos_of(l, b)
                })
            &&& l < before.levels() ==> forall|k: int|
                0 <= k < before.size(l + 1) ==> #[trigger] self.count(l + 1, k) == before.count(
                    l + 1,
                    k,
                )
        }
    }

    /// Levels from the first on were reset one after another since `before`: all of them,
    /// or those up to the first for which a stash lacked room.
    pub open spec fn pass_made(&self, before: &Self) -> bool {
        exists|states: Seq<Self>|
            #![trigger states.first()]
            {
                &&& 2 <= states.len() <= before.levels() + 2
                &&& states.first() == *before
                &&& states.last() == *self
                &&& self.intact ==> states.len() == before.levels() + 2
                &&& forall|l: int|
                    0 <= l < states.len() - 1 ==> #[trigger] states[l + 1].level_reset(
                        &states[l],
                        l,
                    ) && states[l].intact
            }
    }

    /// Moves the block of level `level` under the cursor to the new secret, with its
    /// counter back at zero.
    #[verifier::spinoff_prover]
    fn reset_one_level(&mut self, level: usize)
        requires
            old(self).wf(),
            old(self).intact,
            level <= old(self).levels(),
        ensures
            final(self).wf(),
            final(self).n == old(self).n,
            final(self).levels() == old(self).levels(),
            final(self).op_counter == old(self).op_counter,
            final(self).data_oram.max_n == old(self).data_oram.max_n,
            final(self).intact ==> final(self)@ == old(self)@,
            final(self).level_reset(old(self), level as int),
            forall|m: int| #[trigger]
                old(self).spare(m) && 0 <= m && m + 2 <= S ==> final(self).intact && final(self).spare(m + 2),
    {
        let ghost before = *self;
        let ghost l = level as int;
        let key: usize = self.reset_states[level].cursor;
        proof {
            before.lemma_sizes();
            assert(before.level_ok(l));
            assert(before.reset_states@[l].size == before.size(l));
        }
        let (counter, above): (u64, bool) = self.take_counter(level, key, CounterOp::Reset);
        let ghost middle = *self;
        proof {
            middle.lemma_same_sizes(&before, l - 1);
            before.lemma_block_place(l, key as u32);
            assert(middle.size(l) == before.size(l));
            if l < before.levels() {
                assert(middle.counter_orams@[l] == before.counter_orams@[l]);
            }
            assert(middle.stores(l, key as u32) == before.stores(l, key as u32));
        }
        let old_secret: [u8; 20] = self.reset_states[level].old_secret;
        let new_secret: [u8; 20] = self.reset_states[level].new_secret;
        let max_positions: usize = self.reset_states[level].size;
        let pos: PositionType = hash_position(&old_secret, counter, key as u32, max_positions);
        let new_pos: PositionType = hash_position(&new_secret, 0, key as u32, max_positions);
        let written: bool = self.move_block(level, pos, new_pos, key);
        let ghost moved = *self;
        let mut state: LevelResetState = self.reset_states[level];
        let fresh: [u8; 20] = random_bytes();
        state.advance(fresh);
        self.reset_states.set(level, state);
        self.intact = both(above, written);
        proof {
            moved.lemma_only_level(&middle, l);
            assert forall|j: int| 0 <= j <= self.levels() implies (
            #[trigger] self.reset_states@[j]).size == self.size(j) && self.reset_states@[j].cursor
                < self.reset_states@[j].size by {
                assert(moved.reset_states@[j].size == moved.size(j));
            }
            assert forall|j: int| 0 <= j < self.levels() implies (
            #[trigger] self.counter_orams@[j]).max_n == self.size(j + 1) by {
                assert(moved.counter_orams@[j].max_n == moved.size(j + 1));
            }
            assert(self.sized());
            if self.intact {
                before.lemma_reset(&middle, &moved, self, l);
                assert(self@ =~= before@);
                before.lemma_level_reset(&middle, &moved, self, l);
            }
            assert(self.reset_states@[l] == before.reset_states@[l].advanced(fresh));
            self.lemma_counters_moved(&middle, &before, l, key as int, CounterOp::Reset);
            assert(self.block_reset(&before, l));
            assert(self.level_reset(&before, l));
            assert forall|m: int| #[trigger]
                before.spare(m) && 0 <= m && m + 2 <= S implies self.intact && self.spare(m + 2) by {
                assert(middle.spare(m + 1));
                assert(moved.spare(m + 2));
                assert forall|j: int| 0 <= j < self.levels() implies (
                #[trigger] self.counter_orams@[j]).oram.vacant_from(m + 2) by {
                    assert(moved.counter_orams@[j].oram.vacant_from(m + 2));
                }
            }
        }
    }

    /// Stashes that are vacant from a slot on are vacant from the next one on.
    proof fn lemma_spare_more(&self, m: int)
        requires
            self.spare(m),
        ensures
            self.spare(m + 1),
    {
        assert forall|j: int| 0 <= j < self.levels() implies (
        #[trigger] self.counter_orams@[j]).oram.vacant_from(m + 1) by {
            assert(self.counter_orams@[j].oram.vacant_from(m));
        }
    }

    /// Resets one block of every level.
    fn perform_reset_pass(&mut self)
        requires
            old(self).wf(),
            old(self).intact,
        ensures
            final(self).wf(),
            final(self).n == old(self).n,
            final(self).levels() == old(self).levels(),
            final(self).op_counter == old(self).op_counter,
            final(self).data_oram.max_n == old(self).data_oram.max_n,
            final(self).intact ==> final(self)@ == old(self)@,
            final(self).pass_made(old(self)),
            forall|m: int| #[trigger]
                old(self).spare(m) && 0 <= m && m + 2 * (old(self).levels() + 1) <= S ==> final(self).intact && final(self).spare(m + 2 * (old(self).levels() + 1)),
    {
        let ghost before = *self;
        let levels: usize = self.reset_states.len();
        let mut level: usize = 0;
        let ghost mut states: Seq<Self> = seq![before];
        while level < levels && self.intact
            invariant
                level <= levels,
                before.intact,
                level == 0 ==> self.intact,
                states.len() == level + 1,
                states.first() == before,
                states.last() == *self,
                forall|l: int|
                    0 <= l < level ==> #[trigger] states[l + 1].level_reset(&states[l], l)
                        && states[l].intact,
                levels == before.levels() + 1,
                before.wf(),
                self.wf(),
                self.n == before.n,
                self.levels() == before.levels(),
                self.op_counter == before.op_counter,
                self.data_oram.max_n == before.data_oram.max_n,
                self.intact ==> self@ == before@,
                forall|m: int| #[trigger]
                    before.spare(m) && 0 <= m && m + 2 * (before.levels() + 1) <= S ==> self.intact
                        && self.spare(m + 2 * level),
            decreases levels - level,
        {
            let ghost here = *self;
            self.reset_one_level(level);
            proof {
                assert forall|m: int| #[trigger]
                    before.spare(m) && 0 <= m && m + 2 * (before.levels() + 1) <= S implies self.intact
                    && self.spare(m + 2 * (level + 1)) by {
                    assert(here.spare(m + 2 * level));
                }
                let more = states.push(*self);
                assert forall|l: int| 0 <= l < level + 1 implies #[trigger] more[l + 1].level_reset(
                    &more[l],
                    l,
                ) && more[l].intact by {
                    if l < level {
                        assert(states[l + 1].level_reset(&states[l], l));
                    }
                }
                states = more;
            }
            level += 1;
        }
        proof {
            assert(states.first() == before);
            assert(self.pass_made(&before));
            assert forall|m: int| #[trigger]
                before.spare(m) && 0 <= m && m + 2 * (before.levels() + 1) <= S implies self.intact
                && self.spare(m + 2 * (before.levels() + 1)) by {
                assert(self.intact && self.spare(m + 2 * level));
            }
        }
    }

    /// The same with one access more.
    pub open spec fn counted(&self) -> Self {
        FastRecursiveORAM {
            op_counter: if self.op_counter == usize::MAX {
                0usize
            } else {
                (self.op_counter + 1) as usize
            },
            ..*self
        }
    }

    /// After every few accesses levels were reset since `before`, and nothing happened
    /// otherwise.
    pub open spec fn ended(&self, before: &Self) -> bool {
        if before.op_counter % RESET_INTERVAL == 0 && before.intact {
            self.pass_made(before)
        } else {
            *self == *before
        }
    }

    /// Counts an access, and makes a reset pass after every few of them.
    fn finish_top_level_access(&mut self)
        requires
            old(self).wf(),
        ensures
            final(self).wf(),
            final(self).n == old(self).n,
            final(self).levels() == old(self).levels(),
            final(self).op_counter == old(self).counted().op_counter,
            final(self).ended(&old(self).counted()),
            final(self).intact ==> old(self).intact && final(self)@ == old(self)@,
            forall|m: int| #[trigger]
                old(self).spare(m) && 0 <= m && m + 2 * (old(self).levels() + 1) <= S && old(self).intact
                    ==> final(self).intact && final(self).spare(m + 2 * (old(self).levels() + 1)),
    {
        let ghost before = *self;
        self.op_counter = self.op_counter.wrapping_add(1);
        let ghost counted = *self;
        proof {
            assert(counted@ =~= before@);
            assert forall|l: int| 0 <= l <= counted.levels() && before.intact implies #[trigger]
            counted.level_ok(l) by {
                counted.lemma_level_frame(&before, l);
            }
        }
        if self.op_counter % RESET_INTERVAL == 0 && self.intact {
            self.perform_reset_pass();
            proof {
                assert forall|m: int| #[trigger]
                    before.spare(m) && 0 <= m && m + 2 * (before.levels() + 1) <= S
                        && before.intact implies self.intact && self.spare(
                    m + 2 * (before.levels() + 1),
                ) by {
                    assert(counted.spare(m));
                }
            }
        } else {
            proof {
                assert forall|m: int| #[trigger]
                    before.spare(m) && 0 <= m && m + 2 * (before.levels() + 1) <= S
                        && before.intact implies self.intact && self.spare(
                    m + 2 * (before.levels() + 1),
                ) by {
                    assert forall|j: int| 0 <= j < self.levels() implies (
                    #[trigger] self.counter_orams@[j]).oram.vacant_from(m + 2 * (before.levels() + 1)) by {
                        assert(before.counter_orams@[j].oram.vacant_from(m));
                    }
                }
            }
        }
    }

    /// The positions of the data block of `data_key` before and after this access. Tells
    /// whether every stash on the way had room.
    fn access_position(&mut self, data_key: usize) -> (r: (PositionType, PositionType, bool))
        requires
            old(self).wf(),
            old(self).intact,
            data_key < old(self).data_oram.max_n,
        ensures
            final(self).sized(),
            final(self).kept_below(old(self), old(self).levels() - 1),
            final(self).counters_moved(
                old(self),
                old(self).levels(),
                data_key as int,
                CounterOp::Increment,
            ),
            r.0 == old(self).place(old(self).levels(), data_key as int),
            r.1 == old(self).next_place(old(self).levels(), data_key as int),
            r.0 < old(self).data_oram.max_n,
            r.1 < old(self).data_oram.max_n,
            r.2 == old(self).has_room_above(old(self).levels(), data_key as int),
            r.2 ==> forall|l: int|
                0 <= l < old(self).levels() ==> #[trigger] final(self).level_ok(l),
            r.2 ==> forall|k: int|
                0 <= k < old(self).data_oram.max_n ==> #[trigger] final(self).count(
                    old(self).levels(),
                    k,
                ) == (if k == data_key {
                    CounterOp::Increment.applied(old(self).count(old(self).levels(), k))
                } else {
                    old(self).count(old(self).levels(), k)
                }),
            forall|m: int| #[trigger]
                old(self).spare(m) && 0 <= m ==> final(self).spare(m + 1) && (m < S ==> r.2),
    {
        let ghost before = *self;
        let levels: usize = self.counter_orams.len();
        proof {
            before.lemma_sizes();
            assert(before.size(before.levels()) == before.data_oram.max_n);
        }
        let (counter, kept): (u64, bool) = self.access_counter_level(
            levels - 1,
            data_key,
            CounterOp::Increment,
        );
        assert(self.counter_taken(
            &before,
            before.levels(),
            data_key as int,
            CounterOp::Increment,
            (counter, kept),
        ));
        let secret: [u8; 20] = self.reset_states[levels].selected_secret(data_key);
        let max_positions: usize = self.data_oram.max_n;
        let pos: PositionType = hash_position(&secret, counter, data_key as u32, max_positions);
        let new_pos: PositionType = hash_position(
            &secret,
            counter.wrapping_add(1),
            data_key as u32,
            max_positions,
        );
        (pos, new_pos, kept)
    }

    /// The block of `key`, if stored, may be taken from the path to its position.
    proof fn lemma_data_access(&self, key: usize)
        requires
            self.wf(),
            self.intact,
            key < self.data_oram.max_n,
        ensures
            self.data_oram.may_access(self.place(self.levels(), key as int), key),
    {
        self.lemma_sizes();
        assert(self.level_ok(self.levels()));
        self.lemma_block_place(self.levels(), key as u32);
        crate::position_hash::lemma_position(
            self.reset_states@[self.levels()].secret(key as int),
            self.count(self.levels(), key as int),
            key as u32,
            self.data_oram.max_n as int,
        );
        if self.data_oram@.contains_key(key as u32) {
            self.data_oram.lemma_stored_is_visible(key as u32);
            assert(self.stores(self.levels(), key as u32));
        }
    }

    /// Puts the data block that an access leaves behind in place and ends the access.
    fn finish_data_access(
        &mut self,
        pos: PositionType,
        block: &Block<V>,
        kept: bool,
        Ghost(start): Ghost<Self>,
        Ghost(middle): Ghost<Self>,
    )
        requires
            start.wf(),
            start.intact,
            block.key < start.data_oram.max_n,
            middle.sized(),
            middle.kept_below(&start, start.levels() - 1),
            kept == start.has_room_above(start.levels(), block.key as int),
            middle.counters_moved(
                &start,
                start.levels(),
                block.key as int,
                CounterOp::Increment,
            ),
            pos == start.place(start.levels(), block.key as int),
            old(self).data_oram.state() == start.data_oram.state().with_work(
                without_key(start.data_oram.state().opened(pos as int), block.key as u32),
            ),
            kept ==> forall|l: int|
                0 <= l < start.levels() ==> #[trigger] middle.level_ok(l),
            kept ==> forall|k: int|
                0 <= k < start.data_oram.max_n ==> #[trigger] middle.count(start.levels(), k) == (
                if k == block.key {
                    CounterOp::Increment.applied(start.count(start.levels(), k))
                } else {
                    start.count(start.levels(), k)
                }),
            forall|m: int| #[trigger]
                start.spare(m) && 0 <= m ==> middle.spare(m + 1) && (m < S ==> kept),
            *old(self) == (FastRecursiveORAM { data_oram: old(self).data_oram, ..middle }),
            old(self).data_oram.open_at(pos),
            old(self).data_oram.same_frame(&start.data_oram),
            old(self).data_oram.evict_counter == start.data_oram.evict_counter,
            old(self).data_oram.state().open_stored(pos as int) == start.data_oram@.remove(
                block.key as u32,
            ),
            old(self).data_oram.state().has_vacancy() == start.data_oram.state().has_room(
                block.key as u32,
            ),
            old(self).data_oram.state().stash_not_filled(start.data_oram.state()),
            !block.vacant() ==> block.pos < start.data_oram.max_n && block.pos
                == start.next_place(start.levels(), block.key as int),
        ensures
            final(self).finished(&start, *block),
    {
        let ghost opened = self.data_oram;
        let ghost top = start.levels();
        let ghost key = block.key as u32;
        proof {
            start.lemma_sizes();
        }
        let placed: bool = self.data_oram.place_and_finish(pos, block);
        let lost: bool = both(!block.is_empty(), !placed);
        self.intact = both(kept, !lost);
        proof {
            self.data_oram.lemma_accessed(&start.data_oram, &opened, block.key, *block);
            assert forall|l: int| 0 <= l < self.levels() implies (
            #[trigger] self.counter_orams@[l]).wf() && self.counter_orams@[l].max_n == self.size(
                l + 1,
            ) by {
                assert(middle.counter_orams@[l].wf());
                assert(middle.counter_orams@[l].max_n == middle.size(l + 1));
            }
            assert forall|l: int| 0 <= l <= self.levels() implies (
            #[trigger] self.reset_states@[l]).size == self.size(l) && self.reset_states@[l].cursor
                < self.reset_states@[l].size by {
                assert(middle.reset_states@[l].size == middle.size(l));
            }
            if self.intact {
                assert forall|l: int| 0 <= l <= top implies #[trigger] self.level_ok(l) by {
                    if l < top {
                        assert(middle.level_ok(l));
                        self.lemma_level_frame(&middle, l);
                    } else {
                        assert(start.level_ok(top));
                        if block.vacant() {
                            reveal(FastRecursiveORAM::level_ok);
                            assert forall|b: u32| #[trigger] self.stores(top, b) implies b
                                < self.size(top) && self.pos_of(top, b) == self.place(
                                top,
                                b as int,
                            ) by {
                                assert(start.stores(top, b));
                                assert(middle.count(top, b as int) == start.count(top, b as int));
                                assert(self.count(top, b as int) == middle.count(top, b as int));
                            }
                        } else {
                            start.lemma_moved_block(&middle, self, top, key, block.pos);
                        }
                    }
                }
                assert(self@ =~= (if block.vacant() {
                    start@.remove(key)
                } else {
                    start@.insert(key, block.value)
                }));
            }
            assert forall|m: int| #[trigger] start.spare(m) && 0 <= m implies self.spare(m + 1) && (
            m < S ==> self.intact) by {
                assert(middle.spare(m + 1));
                if m < S {
                    start.data_oram.lemma_vacancy_is_room(m, key);
                }
                assert forall|j: int| 0 <= j < self.levels() implies (
                #[trigger] self.counter_orams@[j]).oram.vacant_from(m + 1) by {
                    assert(middle.counter_orams@[j].oram.vacant_from(m + 1));
                }
            }
        }
        let ghost placed_state = *self;
        self.finish_top_level_access();
        proof {
            assert(placed_state.counted().left_behind(&start, *block)) by {
                assert(placed_state.counted()@ =~= placed_state@);
                placed_state.counted().lemma_counters_moved(
                    &middle,
                    &start,
                    top,
                    block.key as int,
                    CounterOp::Increment,
                );
            }
            assert forall|m: int| #[trigger]
                start.spare(m) && 0 <= m && m + 2 * start.levels() + 3 <= S implies self.intact
                && self.spare(m + 2 * start.levels() + 3) by {
                assert(placed_state.spare(m + 1));
            }
        }
    }

    /// What an access does up to the resets when it leaves `block` behind: the block with
    /// the counter of every level moves to its next place, and if every stash has room,
    /// the block is stored if it has a leaf, and its key is gone otherwise.
    pub open spec fn left_behind(&self, before: &Self, block: Block<V>) -> bool {
        let key = block.key as u32;
        &&& self.n == before.n
        &&& self.levels() == before.levels()
        &&& self.reset_states == before.reset_states
        &&& self.op_counter == before.counted().op_counter
        &&& forall|l: int|
            0 <= l < before.levels() ==> (#[trigger] self.counter_orams@[l]).same_frame(
                &before.counter_orams@[l],
            )
        &&& self.counters_moved(
            before,
            before.levels(),
            block.key as int,
            CounterOp::Increment,
        )
        &&& self.data_oram.left(
            &before.data_oram,
            before.place(before.levels(), block.key as int),
            block,
        )
        &&& self.intact == (before.has_room_above(before.levels(), block.key as int) && (
        block.vacant() || before.has_room(before.levels(), key)))
        &&& self.intact ==> self@ == (if block.vacant() {
            before@.remove(key)
        } else {
            before@.insert(key, block.value)
        })
    }

    /// What an access does when it leaves `block` behind: the block is stored if it has a
    /// leaf, and its key is gone otherwise, and after every few accesses levels are reset,
    /// as long as every stash has room. None lacks room while each has vacant slots enough.
    pub open spec fn finished(&self, before: &Self, block: Block<V>) -> bool {
        &&& self.wf()
        &&& self.n == before.n
        &&& self.levels() == before.levels()
        &&& self.op_counter == before.counted().op_counter
        &&& exists|placed: Self| #[trigger]
            placed.left_behind(before, block) && self.ended(&placed)
        &&& self.intact ==> self@ == (if block.vacant() {
            before@.remove(block.key as u32)
        } else {
            before@.insert(block.key as u32, block.value)
        })
        &&& forall|m: int| #[trigger]
            before.spare(m) && 0 <= m && m + 2 * before.levels() + 3 <= S ==> self.intact && self.spare(
                m + 2 * before.levels() + 3,
            )
    }

    /// Whether `key` may be accessed: it is below the capacity, and no block was lost.
    pub open spec fn may_access(&self, key: K) -> bool {
        &&& self.wf()
        &&& self.intact
        &&& key < self.n
    }

    /// Creates an empty recursive ORAM for keys below `n`.
    pub fn new(n: usize) -> (r: Self)
        requires
            1 < n <= 0x8000_0000,
        ensures
            r.wf(),
            r.intact,
            r.n == n,
            r@ == Map::<u32, V>::empty(),
            r.levels() == level_sizes(ceil_pow2(n as int), ROOT_COUNTER_LIMIT as int).len(),
            r.op_counter == 0,
            r.spare(0),
    {
        Self::with_root_limit(n, ROOT_COUNTER_LIMIT)
    }

    /// Creates an empty recursive ORAM for keys below `n` with at most `root_limit` root
    /// counters.
    pub fn with_root_limit(n: usize, root_limit: usize) -> (r: Self)
        requires
            1 < n <= 0x8000_0000,
            2 <= root_limit,
        ensures
            r.wf(),
            r.intact,
            r.n == n,
            r@ == Map::<u32, V>::empty(),
            r.levels() == level_sizes(ceil_pow2(n as int), root_limit as int).len(),
            r.op_counter == 0,
            r.spare(0),
    {
        let data_oram: CircuitORAM<V> = CircuitORAM::new(n);
        let data_positions: usize = data_oram.max_n;
        proof {
            lemma_full_width(data_oram.h - 1, 2);
        }
        let sizes: Vec<usize> = counter_level_sizes_below(data_positions, root_limit);
        let levels: usize = sizes.len();
        proof {
            lemma_level_sizes(data_positions as int, root_limit as int);
        }
        let mut counter_orams: Vec<CounterORAM> = Vec::new();
        let mut reset_states: Vec<LevelResetState> = Vec::new();
        let mut i: usize = 0;
        while i < levels
            invariant
                i <= levels == sizes@.len(),
                counter_orams@.len() == i,
                reset_states@.len() == i,
                forall|l: int|
                    0 <= l < levels ==> 1 <= #[trigger] sizes@[l] <= 0x8000_0000,
                forall|l: int|
                    0 <= l < i ==> {
                        let c = #[trigger] counter_orams@[l];
                        &&& c.wf()
                        &&& c.max_n == sizes@[l]
                        &&& c.max_blocks == counter_blocks(sizes@[l] as int)
                        &&& c.oram@ == Map::<u32, Block<crate::b_tree_components::ObliviousArray<u64, 64>>>::empty()
                        &&& c.oram.vacant_from(0)
                    },
                forall|l: int|
                    0 <= l < i ==> (#[trigger] reset_states@[l]).size
                        == counter_orams@[l].max_blocks && reset_states@[l].cursor == 0,
            decreases levels - i,
        {
            let counters: CounterORAM = CounterORAM::new(sizes[i]);
            let state: LevelResetState = LevelResetState {
                old_secret: random_bytes(),
                new_secret: random_bytes(),
                cursor: 0,
                size: counters.max_blocks,
            };
            counter_orams.push(counters);
            reset_states.push(state);
            i += 1;
        }
        let data_state: LevelResetState = LevelResetState {
            old_secret: random_bytes(),
            new_secret: random_bytes(),
            cursor: 0,
            size: data_positions,
        };
        reset_states.push(data_state);
        let root_len: usize = counter_orams[0].max_blocks;
        let base_counters: LinearORAM<u64> = LinearORAM::new(root_len);
        let r = FastRecursiveORAM {
            n,
            counter_orams,
            data_oram,
            base_counters,
            reset_states,
            op_counter: 0,
            intact: true,
        };
        proof {
            assert forall|l: int| 0 <= l < r.levels() implies (#[trigger] r.counter_orams@[l]).max_n
                == r.size(l + 1) by {
                if l + 1 < r.levels() {
                    assert(sizes@[l] == counter_blocks(sizes@[l + 1] as int));
                    assert(r.counter_orams@[l + 1].max_blocks == counter_blocks(
                        sizes@[l + 1] as int,
                    ));
                } else {
                    assert(sizes@.last() == data_positions);
                }
            }
            assert forall|l: int| 0 <= l <= r.levels() implies (
            #[trigger] r.reset_states@[l]).size == r.size(l) && r.reset_states@[l].cursor
                < r.reset_states@[l].size by {
                if l < r.levels() {
                    let c = r.counter_orams@[l];
                    assert(c.wf());
                    lemma_full_width(c.oram.h - 1, 2);
                }
            }
            assert forall|l: int| 0 <= l <= r.levels() implies #[trigger] r.level_ok(l) by {
                reveal(FastRecursiveORAM::level_ok);
                assert forall|b: u32| #[trigger] r.stores(l, b) implies false by {
                    if l < r.levels() {
                        assert(r.counter_orams@[l].wf());
                    }
                }
            }
            assert(r@ =~= Map::<u32, V>::empty());
        }
        r
    }

    /// Reads `key` from the final data ORAM. `ret` is unchanged when the key is absent.
    pub fn read(&mut self, key: K, ret: &mut V) -> (found: bool)
        requires
            old(self).may_access(key),
        ensures
            found == old(self)@.contains_key(key as u32),
            *final(ret) == (if found {
                old(self)@[key as u32]
            } else {
                *old(ret)
            }),
            final(self).finished(
                old(self),
                Block {
                    pos: if found {
                        old(self).next_place(old(self).levels(), key as int)
                    } else {
                        DUMMY_POS
                    },
                    key,
                    value: *final(ret),
                },
            ),
            final(self).intact ==> final(self)@ == old(self)@,
    {
        let ghost before = *self;
        let (pos, new_pos, kept): (PositionType, PositionType, bool) = self.access_position(key);
        let ghost middle = *self;
        proof {
            before.lemma_data_access(key);
        }
        let mut block: Block<V> = Block { pos: DUMMY_POS, key, value: *ret };
        let found: bool = self.data_oram.open_and_remove(pos, key, &mut block);
        *ret = block.value;
        cmov_u32(&mut block.pos, new_pos, found);
        block.key = key;
        self.finish_data_access(pos, &block, kept, Ghost(before), Ghost(middle));
        proof {
            if self.intact {
                assert(self@ =~= before@);
            }
        }
        found
    }

    /// Writes `val` to `key` if it already exists.
    pub fn write(&mut self, key: K, val: V) -> (found: bool)
        requires
            old(self).may_access(key),
        ensures
            found == old(self)@.contains_key(key as u32),
            final(self).finished(
                old(self),
                Block {
                    pos: if found {
                        old(self).next_place(old(self).levels(), key as int)
                    } else {
                        DUMMY_POS
                    },
                    key,
                    value: val,
                },
            ),
            final(self).intact ==> final(self)@ == (if found {
                old(self)@.insert(key as u32, val)
            } else {
                old(self)@
            }),
    {
        let ghost before = *self;
        let (pos, new_pos, kept): (PositionType, PositionType, bool) = self.access_position(key);
        let ghost middle = *self;
        proof {
            before.lemma_data_access(key);
        }
        let mut taken: Block<V> = Block::default();
        let found: bool = self.data_oram.open_and_remove(pos, key, &mut taken);
        let mut block: Block<V> = Block { pos: DUMMY_POS, key, value: val };
        cmov_u32(&mut block.pos, new_pos, found);
        self.finish_data_access(pos, &block, kept, Ghost(before), Ghost(middle));
        proof {
            if self.intact && !found {
                assert(self@ =~= before@);
            }
        }
        found
    }

    /// Writes `val` to `key`, inserting it if absent.
    pub fn write_or_insert(&mut self, key: K, val: V) -> (found: bool)
        requires
            old(self).may_access(key),
        ensures
            found == old(self)@.contains_key(key as u32),
            final(self).finished(
                old(self),
                Block { pos: old(self).next_place(old(self).levels(), key as int), key, value: val },
            ),
            final(self).intact ==> final(self)@ == old(self)@.insert(key as u32, val),
    {
        let ghost before = *self;
        let (pos, new_pos, kept): (PositionType, PositionType, bool) = self.access_position(key);
        let ghost middle = *self;
        proof {
            before.lemma_data_access(key);
        }
        let mut taken: Block<V> = Block::default();
        let found: bool = self.data_oram.open_and_remove(pos, key, &mut taken);
        let block: Block<V> = Block { pos: new_pos, key, value: val };
        self.finish_data_access(pos, &block, kept, Ghost(before), Ghost(middle));
        found
    }

    /// Updates `key` in the final data ORAM. An absent key starts from the value of zeros.
    pub fn update<T, F: FnOnce(&mut V) -> T>(&mut self, key: K, f: F) -> (r: (bool, T))
        requires
            old(self).may_access(key),
            forall|d: &mut V|
                *d == old(self).data_oram.value_at(key) ==> #[trigger] call_requires(f, (d,)),
        ensures
            r.0 == old(self)@.contains_key(key as u32),
            exists|d: &mut V| #[trigger]
                call_ensures(f, (d,), r.1) && *d == (if r.0 {
                    old(self)@[key as u32]
                } else {
                    V::zero()
                }) && final(self).finished(
                    old(self),
                    Block {
                        pos: old(self).next_place(old(self).levels(), key as int),
                        key,
                        value: *final(d),
                    },
                ),
    {
        let ghost before = *self;
        let (pos, new_pos, kept): (PositionType, PositionType, bool) = self.access_position(key);
        let ghost middle = *self;
        proof {
            before.lemma_data_access(key);
        }
        let mut taken: Block<V> = Block { pos: DUMMY_POS, key, value: V::zeroed() };
        let found: bool = self.data_oram.open_and_remove(pos, key, &mut taken);
        let mut value: V = taken.value;
        assert(value == before.data_oram.value_at(key));
        let result = apply_update(&mut value, f);
        let block: Block<V> = Block { pos: new_pos, key, value };
        self.finish_data_access(pos, &block, kept, Ghost(before), Ghost(middle));
        proof {
            let d = choose|d: &mut V| #[trigger]
                call_ensures(f, (d,), result) && *d == before.data_oram.value_at(key) && *final(d)
                    == value;
            assert(call_ensures(f, (d,), result));
            assert(self.finished(
                &before,
                Block {
                    pos: before.next_place(before.levels(), key as int),
                    key,
                    value: *final(d),
                },
            ));
        }
        let r = (found, result);
        assert(r.1 == result);
        r
    }

    /// What was written to a key is there for the next read, and no other key changed,
    /// unless a stash lacked room.
    pub proof fn lemma_keeps_what_was_written(&self, before: &Self, key: K, val: V, other: u32)
        requires
            before.may_access(key),
            self.finished(
                before,
                Block { pos: before.next_place(before.levels(), key as int), key, value: val },
            ),
            self.intact,
            other != key,
        ensures
            self.may_access(key),
            self@.contains_key(key as u32),
            self@[key as u32] == val,
            self@.contains_key(other) == before@.contains_key(other),
            self@.contains_key(other) ==> self@[other] == before@[other],
    {
        before.lemma_sizes();
        assert(before.size(before.levels()) <= 0x8000_0000);
        crate::position_hash::lemma_position(
            before.reset_states@[before.levels()].secret(key as int),
            CounterOp::Increment.applied(before.count(before.levels(), key as int)),
            key as u32,
            before.data_oram.max_n as int,
        );
    }
}

} // verus!
