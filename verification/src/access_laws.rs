//! What the accesses of the Circuit ORAMs achieve: blocks get deeper along the accessed path
//! and along the public paths that are evicted after it.
use vstd::prelude::*;
use crate::circuit::{column_fits, column_settled, column_size};
use crate::circuit_laws::{lemma_column_progress, live};
use crate::circuit_oram::CircuitORAM;
use crate::fast_buckets::Counter_Block;
use crate::fast_circuit_oram::FastCircuitCounterORAM;
use crate::oblivious::{ObliviousBlock, ObliviousValue};
use crate::optimized_circuit_oram::{
    column_depths, columns, lane_column, loaded, replaced, without_key, Block, Key,
    OptimizedCircuitORAM, DATA_SIZE, STASH_BUCKETS,
};
use crate::path_access::{lemma_first_vacant, with_block};
use crate::path_laws::{access_progress, lemma_access_progress, rooted, store_rooted};
use crate::prelude::{PositionType, K};
use crate::suffix::{lemma_shared_bits, meets};

verus! {

impl<V: ObliviousValue> CircuitORAM<V> {
    /// An access makes progress along the accessed path, and then along the next two public
    /// paths.
    pub proof fn lemma_moved_progress(
        &self,
        before: &Self,
        pos: PositionType,
        key: K,
        block: crate::circuit_oram::Block<V>,
    )
        requires
            before.wf(),
            pos < before.max_n,
            self.moved(before, pos, key, block),
        ensures
            access_progress(
                before.state(),
                self.state(),
                pos as int,
                key as u32,
                block,
                before.evict_counter as int,
                2,
            ),
    {
        let st = before.state();
        before.lemma_state();
        assert(store_rooted(st)) by {
            assert(rooted(st.work));
            assert forall|k: int| 0 <= k < st.nodes.len() implies rooted(#[trigger] st.nodes[k]) by {}
        }
        lemma_access_progress(
            st,
            self.state(),
            pos as int,
            key as u32,
            block,
            before.evict_counter as int,
            2,
        );
    }

    /// An access to some key leads from `before` to here.
    pub open spec fn follows(&self, before: &Self) -> bool {
        exists|key: K, block: crate::circuit_oram::Block<V>| #[trigger]
            self.accessed(before, key, block)
    }

    /// Every access goes on by two public paths, around again after the last: `n` accesses
    /// evict the next `2 * n` of them, one after another.
    pub proof fn lemma_public_paths(states: Seq<Self>, n: int)
        requires
            0 <= n < states.len(),
            states[0].wf(),
            forall|i: int| 0 <= i < n ==> (#[trigger] states[i + 1]).follows(&states[i]),
        ensures
            states[n].max_n == states[0].max_n,
            states[n].evict_counter == (states[0].evict_counter + 2 * n) % states[0].max_n as int,
        decreases n,
    {
        let m = states[0].max_n as int;
        if n == 0 {
            vstd::arithmetic::div_mod::lemma_small_mod(states[0].evict_counter as nat, m as nat);
        } else {
            Self::lemma_public_paths(states, n - 1);
            assert(states[(n - 1) + 1].follows(&states[n - 1]));
            vstd::arithmetic::div_mod::lemma_add_mod_noop_right(
                2,
                states[0].evict_counter + 2 * (n - 1),
                m,
            );
        }
    }

    /// An ORAM that is filled with values, each insertion finding room, holds the value of
    /// every key so far at the position that it was given.
    pub proof fn lemma_filled_holds(
        states: Seq<Self>,
        values: Seq<V>,
        positions: Seq<PositionType>,
        n: int,
        i: int,
    )
        requires
            Self::loads(states, values, positions),
            Self::all_fit(states),
            positions.len() == values.len(),
            values.len() <= 0x8000_0000,
            forall|k: int|
                0 <= k < positions.len() ==> (#[trigger] positions[k])
                    != crate::prelude::DUMMY_POS,
            0 <= i < n <= values.len(),
        ensures
            states[n]@.contains_key(i as u32),
            states[n]@[i as u32].value == values[i],
            states[n]@[i as u32].pos == positions[i],
        decreases n,
    {
        assert(Self::load_step(states, values, positions, n - 1));
        assert(states[n - 1].state().has_room((n - 1) as u32));
        assert(positions[n - 1] != crate::prelude::DUMMY_POS);
        if i < n - 1 {
            Self::lemma_filled_holds(states, values, positions, n - 1, i);
        }
    }
}

impl FastCircuitCounterORAM {
    /// An access makes progress along the accessed path, and then along the next two public
    /// paths.
    pub proof fn lemma_accessed_progress(
        &self,
        before: &Self,
        pos: PositionType,
        new_pos: PositionType,
        prefix: usize,
        suffix: int,
        increment: bool,
    )
        requires
            before.wf(),
            pos < before.max_blocks,
            self.accessed(before, pos, new_pos, prefix, suffix, increment),
        ensures
            ({
                let key = before.target(prefix, suffix) as u32;
                access_progress(
                    before.state(),
                    self.state(),
                    pos as int,
                    key,
                    Counter_Block::with(
                        key,
                        new_pos,
                        before.next_counters(key, suffix, increment),
                    ),
                    before.evict_counter as int,
                    2,
                )
            }),
    {
        let st = before.state();
        let key = before.target(prefix, suffix) as u32;
        let block = Counter_Block::with(key, new_pos, before.next_counters(key, suffix, increment));
        before.lemma_state();
        assert(store_rooted(st)) by {
            assert(rooted(st.work));
            assert forall|k: int| 0 <= k < st.nodes.len() implies rooted(#[trigger] st.nodes[k]) by {}
        }
        lemma_access_progress(
            st,
            self.state(),
            pos as int,
            key,
            block,
            before.evict_counter as int,
            2,
        );
    }

    /// An access to some counter leads from `before` to here.
    pub open spec fn follows(&self, before: &Self) -> bool {
        exists|
            pos: PositionType,
            new_pos: PositionType,
            prefix: usize,
            suffix: int,
            increment: bool,
        | #[trigger] self.accessed(before, pos, new_pos, prefix, suffix, increment)
    }

    /// Every access goes on by two public paths, around again after the last: `n` accesses
    /// evict the next `2 * n` of them, one after another.
    pub proof fn lemma_public_paths(states: Seq<Self>, n: int)
        requires
            0 <= n < states.len(),
            states[0].wf(),
            forall|i: int| 0 <= i < n ==> (#[trigger] states[i + 1]).follows(&states[i]),
        ensures
            states[n].max_blocks == states[0].max_blocks,
            states[n].evict_counter == (states[0].evict_counter + 2 * n) % states[0].max_blocks as int,
        decreases n,
    {
        let m = states[0].max_blocks as int;
        if n == 0 {
            vstd::arithmetic::div_mod::lemma_small_mod(states[0].evict_counter as nat, m as nat);
        } else {
            Self::lemma_public_paths(states, n - 1);
            assert(states[(n - 1) + 1].follows(&states[n - 1]));
            vstd::arithmetic::div_mod::lemma_add_mod_noop_right(
                2,
                states[0].evict_counter + 2 * (n - 1),
                m,
            );
        }
    }
}

/// A pass over the stash and the slots of a lane on the path to `pos`, root first, makes
/// `after` of `col`. From every level below the root on it loses no block and brings one at
/// most. It brings one where the slot of the level is vacant and a block above may go there,
/// and none where no block above may.
pub open spec fn lane_progress(
    col: Seq<Block>,
    after: Seq<Block>,
    s: int,
    h: int,
    pos: PositionType,
) -> bool {
    forall|l: int|
        1 <= l < h ==> {
            let was = live(col.skip(s + l));
            let now = live(#[trigger] after.skip(s + l));
            let ready = exists|i: int|
                0 <= i < s + l && !(#[trigger] col[i]).vacant() && meets(
                    col[i].pos as int,
                    pos as int,
                    l,
                );
            &&& was <= now <= was + 1
            &&& col[s + l].vacant() && ready ==> now == was + 1
            &&& !ready ==> now == was
        }
}

proof fn lemma_lane(col: Seq<Block>, after: Seq<Block>, s: int, h: int, pos: PositionType)
    requires
        0 <= s,
        1 <= h <= 32,
        col.len() == s + h,
        column_settled(col, column_depths(col, pos), after, s + 1, 1, h),
    ensures
        lane_progress(col, after, s, h, pos),
{
    let d = column_depths(col, pos);
    assert forall|k: int| 0 <= k < col.len() && !(#[trigger] col[k]).vacant() implies d[k] >= 0 && (
    forall|l: int|
        0 <= l <= 32 ==> (l <= d[k] <==> #[trigger] meets(col[k].pos as int, pos as int, l))) by {
        lemma_shared_bits(col[k].pos as int, pos as int, 32);
    }
    assert(column_fits(col, d, s + 1)) by {
        assert forall|k: int| 0 <= k < col.len() implies {
            &&& -1 <= #[trigger] d[k]
            &&& col[k].vacant() ==> d[k] == -1
            &&& k >= s + 1 && !col[k].vacant() ==> d[k] != -1
        } by {
            if !col[k].vacant() {
                assert(d[k] >= 0);
            }
        }
    }
    assert(column_size(col, s + 1, 1, h));
    assert forall|l: int| 1 <= l < h implies {
        let was = live(col.skip(s + l));
        let now = live(#[trigger] after.skip(s + l));
        let ready = exists|i: int|
            0 <= i < s + l && !(#[trigger] col[i]).vacant() && meets(
                col[i].pos as int,
                pos as int,
                l,
            );
        &&& was <= now <= was + 1
        &&& col[s + l].vacant() && ready ==> now == was + 1
        &&& !ready ==> now == was
    } by {
        lemma_column_progress(col, d, after, s + 1, 1, h, l);
        let start = s + 1 + (l - 1) * 1;
        assert(start == s + l);
        if exists|i: int|
            0 <= i < s + l && !(#[trigger] col[i]).vacant() && meets(
                col[i].pos as int,
                pos as int,
                l,
            ) {
            let i = choose|i: int|
                0 <= i < s + l && !(#[trigger] col[i]).vacant() && meets(
                    col[i].pos as int,
                    pos as int,
                    l,
                );
            assert(d[i] >= l);
        }
        if exists|i: int| 0 <= i < start && #[trigger] d[i] >= l {
            let i = choose|i: int| 0 <= i < start && #[trigger] d[i] >= l;
            assert(!col[i].vacant());
            assert(meets(col[i].pos as int, pos as int, l));
        }
    }
}

/// Blocks that are loaded are there, each with its own payload and position, and there are no
/// others.
pub proof fn lemma_loaded_holds(
    keys: Seq<Key>,
    values: Seq<[u8; DATA_SIZE]>,
    positions: Seq<PositionType>,
    i: int,
    key: Key,
)
    requires
        keys.no_duplicates(),
        values.len() == keys.len(),
        positions.len() == keys.len(),
        0 <= i < keys.len(),
    ensures
        loaded(keys, values, positions).contains_key(keys[i]),
        loaded(keys, values, positions)[keys[i]] == (Block {
            pos: positions[i],
            key: keys[i],
            data: values[i],
        }),
        loaded(keys, values, positions).contains_key(key) ==> keys.contains(key),
    decreases keys.len(),
{
    let front = keys.drop_last();
    assert(keys[keys.len() - 1] == keys.last());
    if i < keys.len() - 1 {
        assert(front.no_duplicates()) by {
            assert forall|j: int, k: int|
                0 <= j < front.len() && 0 <= k < front.len() && j != k implies front[j]
                != front[k] by {
                assert(keys[j] != keys[k]);
            }
        }
        lemma_loaded_holds(front, values.drop_last(), positions.drop_last(), i, key);
        assert(front[i] == keys[i]);
        assert(keys[i] != keys[keys.len() - 1]);
    }
    if loaded(keys, values, positions).contains_key(key) && key != keys.last() {
        crate::optimized_circuit_oram::lemma_loaded_keys(keys, values, positions, key);
    }
}

impl OptimizedCircuitORAM {
    /// From the slots `cols` of stash and path, lane by lane, progress along the path to
    /// `pos` leads to `after`, and no other path changes.
    pub open spec fn lanes_progress(
        &self,
        cols: Seq<Seq<Block>>,
        after: &Self,
        pos: PositionType,
    ) -> bool {
        &&& after.h == self.h
        &&& after.max_n == self.max_n
        &&& forall|lane: int|
            0 <= lane < 2 ==> lane_progress(
                #[trigger] cols[lane],
                lane_column(after.opened(pos as int), lane),
                STASH_BUCKETS as int,
                self.h as int,
                pos,
            )
        &&& forall|k: int|
            0 <= k < self.tree.tree.len() && !self.tree.path_indices(pos as int).contains(k)
                ==> #[trigger] after.tree.tree@[k] == self.tree.tree@[k]
    }

    /// State `i` of `states` comes from the one before it by progress along the path to
    /// `pos`.
    pub open spec fn lanes_step(states: Seq<Self>, i: int, pos: PositionType) -> bool {
        states[i - 1].lanes_progress(columns(states[i - 1].opened(pos as int)), &states[i], pos)
    }

    /// Progress along the next `n` public paths, one after another.
    pub open spec fn paths_progress(&self, after: &Self, n: int) -> bool {
        exists|states: Seq<Self>|
            #![trigger states.first()]
            {
                &&& states.len() == n + 1
                &&& states.first() == *self
                &&& states.last() == *after
                &&& forall|i: int|
                    1 <= i <= n ==> #[trigger] Self::lanes_step(
                        states,
                        i,
                        ((self.evict_counter + (i - 1)) % self.max_n as int) as PositionType,
                    )
            }
    }

    proof fn lemma_passed_progress(&self, cols: Seq<Seq<Block>>, after: &Self, pos: PositionType)
        requires
            2 <= self.h <= 32,
            cols.len() == 2,
            cols[0].len() == STASH_BUCKETS + self.h,
            cols[1].len() == STASH_BUCKETS + self.h,
            self.passed(cols, after, pos),
        ensures
            self.lanes_progress(cols, after, pos),
    {
        assert forall|lane: int| 0 <= lane < 2 implies lane_progress(
            #[trigger] cols[lane],
            lane_column(after.opened(pos as int), lane),
            STASH_BUCKETS as int,
            self.h as int,
            pos,
        ) by {
            lemma_lane(
                cols[lane],
                lane_column(after.opened(pos as int), lane),
                STASH_BUCKETS as int,
                self.h as int,
                pos,
            );
        }
    }

    /// All paths have as many buckets.
    proof fn lemma_opened_len(&self, p: PositionType, q: PositionType)
        requires
            lane_column(self.opened(p as int), 0).len() == STASH_BUCKETS + self.h,
        ensures
            self.opened(q as int).len() == STASH_BUCKETS + self.h,
    {
    }

    /// An access makes progress along the accessed path, from the slots with the block of the
    /// key replaced, and then along the next two public paths.
    pub proof fn lemma_moved_progress(
        &self,
        before: &Self,
        pos: PositionType,
        key: Key,
        block: Block,
    )
        requires
            before.wf(),
            pos < before.max_n,
            self.moved(before, pos, key, block),
        ensures
            exists|mid: Self| #[trigger]
                before.lanes_progress(
                    replaced(
                        columns(before.opened(pos as int)),
                        key,
                        before.insert_lane as int,
                        block,
                    ),
                    &mid,
                    pos,
                ) && mid.evict_counter == before.evict_counter && mid.paths_progress(self, 2),
    {
        let cols = replaced(
            columns(before.opened(pos as int)),
            key,
            before.insert_lane as int,
            block,
        );
        let mid = choose|mid: Self| #[trigger]
            before.passed(cols, &mid, pos) && mid.evict_counter == before.evict_counter
                && mid.evictions(self, crate::optimized_circuit_oram::EVICTIONS_PER_OP as int);
        let base = columns(before.opened(pos as int));
        assert forall|lane: int| 0 <= lane < 2 implies (#[trigger] cols[lane]).len()
            == STASH_BUCKETS + before.h by {
            assert(base[lane].len() == STASH_BUCKETS + before.h);
            let bare = without_key(base[lane], key);
            lemma_first_vacant(bare, 0, STASH_BUCKETS as int);
            assert(cols[lane] == bare || cols[lane] == with_block(
                bare,
                STASH_BUCKETS as int,
                block,
            ));
        }
        before.lemma_passed_progress(cols, &mid, pos);
        assert(cols[0].len() == lane_column(mid.opened(pos as int), 0).len());
        let states = choose|states: Seq<Self>|
            #![trigger states.first()]
            {
                &&& states.len() == 3
                &&& states.first() == mid
                &&& states.last() == *self
                &&& forall|i: int|
                    1 <= i <= 2 ==> #[trigger] Self::eviction(
                        states,
                        i,
                        ((mid.evict_counter + (i - 1)) % mid.max_n as int) as PositionType,
                    )
            };
        let next = (mid.evict_counter as int % mid.max_n as int) as PositionType;
        assert(((mid.evict_counter + (1int - 1)) % mid.max_n as int) as PositionType == next);
        assert(Self::eviction(
            states,
            1,
            ((mid.evict_counter + (1int - 1)) % mid.max_n as int) as PositionType,
        ));
        mid.lemma_opened_len(pos, next);
        let was = columns(mid.opened(next as int));
        assert(was[0].len() == lane_column(states[1].opened(next as int), 0).len());
        states[1].lemma_opened_len(next, ((mid.evict_counter + 1) % mid.max_n as int) as PositionType);
        assert forall|i: int| 1 <= i <= 2 implies #[trigger] Self::lanes_step(
            states,
            i,
            ((mid.evict_counter + (i - 1)) % mid.max_n as int) as PositionType,
        ) by {
            let p = ((mid.evict_counter + (i - 1)) % mid.max_n as int) as PositionType;
            assert(Self::eviction(states, i, p));
            states[i - 1].lemma_passed_progress(
                columns(states[i - 1].opened(p as int)),
                &states[i],
                p,
            );
        }
        assert(states.first() == mid);
        assert(mid.paths_progress(self, 2));
    }

    /// Every access goes on by two public paths, around again after the last: `n` accesses
    /// evict the next `2 * n` of them, one after another. New blocks go to the two stash lanes
    /// in turn.
    pub proof fn lemma_public_paths(states: Seq<Self>, n: int)
        requires
            0 <= n < states.len(),
            states[0].wf(),
            forall|i: int| 0 <= i < n ==> (#[trigger] states[i + 1]).advanced(&states[i]),
        ensures
            states[n].max_n == states[0].max_n,
            states[n].evict_counter == (states[0].evict_counter + 2 * n) % states[0].max_n as int,
            states[n].insert_lane == (states[0].insert_lane + n) % 2,
        decreases n,
    {
        let m = states[0].max_n as int;
        if n == 0 {
            vstd::arithmetic::div_mod::lemma_small_mod(states[0].evict_counter as nat, m as nat);
        } else {
            Self::lemma_public_paths(states, n - 1);
            assert(states[(n - 1) + 1].advanced(&states[n - 1]));
            vstd::arithmetic::div_mod::lemma_add_mod_noop_right(
                2,
                states[0].evict_counter + 2 * (n - 1),
                m,
            );
        }
    }
}

} // verus!
