//! What the lane ORAM simulator keeps, call by call and over a history of calls.
use vstd::prelude::*;
use crate::key_stash::occupied;
use crate::lane_oram::{Block32, DUMMY_POS};
use crate::lane_oram_sim::{block_of, LaneOramSimulator, SimUpdate};
use crate::oblivious::ObliviousBlock;
use crate::path_store::{keys, lemma_row_of, lemma_row_place, PathBlock};
use crate::stash_index::EMPTY_KEY;
use crate::tally::{
    lemma_by_key, lemma_one_place_per_key, lemma_tally_groups_positive, tally_groups,
};
use crate::wide_heap_tree::full_nodes;

verus! {

/// The number of slots that hold a key other than `key`.
pub open spec fn others(s: Seq<u32>, key: u32) -> nat
    decreases s.len(),
{
    if s.len() == 0 {
        0
    } else {
        others(s.drop_last(), key) + (if s.last() == EMPTY_KEY || s.last() == key {
            0nat
        } else {
            1nat
        })
    }
}

/// The slots that hold other keys are those that are occupied but for the one of the key.
proof fn lemma_others(s: Seq<u32>, key: u32)
    requires
        key != EMPTY_KEY,
        forall|i: int, j: int|
            0 <= i < j < s.len() && #[trigger] s[i] != EMPTY_KEY ==> s[i] != #[trigger] s[j],
    ensures
        others(s, key) == occupied(s) - (if s.contains(key) {
            1int
        } else {
            0
        }),
        occupied(s) <= s.len(),
        occupied(s) == s.len() <==> forall|i: int| 0 <= i < s.len() ==> #[trigger] s[i] != EMPTY_KEY,
    decreases s.len(),
{
    if s.len() > 0 {
        let front = s.drop_last();
        let last = s.len() - 1;
        assert forall|i: int, j: int|
            0 <= i < j < front.len() && #[trigger] front[i] != EMPTY_KEY implies front[i]
            != #[trigger] front[j] by {
            assert(s[i] != s[j]);
        }
        lemma_others(front, key);
        if front.contains(key) {
            let i = choose|i: int| 0 <= i < front.len() && front[i] == key;
            assert(s[i] == key && s[i] != s[last]);
            assert(s.contains(key));
        } else if s.contains(key) {
            let i = choose|i: int| 0 <= i < s.len() && s[i] == key;
            if i < last {
                assert(front[i] == key);
            }
        }
        if s[last] == key {
            assert(s.contains(key));
        }
        if occupied(s) == s.len() {
            assert forall|i: int| 0 <= i < s.len() implies #[trigger] s[i] != EMPTY_KEY by {
                if i < last {
                    assert(front[i] == s[i]);
                }
            }
        }
        if forall|i: int| 0 <= i < s.len() ==> #[trigger] s[i] != EMPTY_KEY {
            assert forall|i: int| 0 <= i < front.len() implies #[trigger] front[i] != EMPTY_KEY by {
                assert(front[i] == s[i]);
            }
            assert(s[last] != EMPTY_KEY);
        }
    }
}

impl LaneOramSimulator {
    /// The keys in the slots of the tree, followed by those in the slots of the stash.
    pub open spec fn slot_keys(&self) -> Seq<u32> {
        self.tree@ + self.stash@
    }

    /// What an update demands of the stash: a slot for its key and one for every other key
    /// there. It overflows exactly if that is more than there are, and then stash, paths
    /// and occupancy stay.
    pub proof fn lemma_update_demand(
        &self,
        after: &Self,
        old_pos: u32,
        new_pos: u32,
        key: u32,
        background_paths: Seq<u32>,
        r: SimUpdate,
    )
        requires
            self.wf(),
            key < self.labels@.len(),
            self.updated(after, old_pos, new_pos, key, background_paths, r),
        ensures
            r.insertion_demand == 1 + others(self.stash@, key),
            r.overflowed <==> r.insertion_demand > self.stash@.len(),
            r.stash_after == occupied(after.stash@),
            r.overflowed ==> {
                &&& after.stash@ == self.stash@
                &&& r.stash_after == occupied(self.stash@)
                &&& forall|leaf: int| #[trigger] after.path_keys(leaf) == self.path_keys(leaf)
            },
    {
        let s = self.stash@;
        let st = self.state();
        self.lemma_state();
        self.stash.lemma_stash();
        lemma_others(s, key);
        assert forall|i: int| 0 <= i < s.len() implies #[trigger] st.work[i] == block_of(
            self.labels@,
            s[i],
        ) && (st.work[i].vacant() <==> s[i] == EMPTY_KEY) && (s[i] != EMPTY_KEY
            ==> st.work[i].key_of() == s[i]) by {
            assert(self.work_keys()[i] == s[i]);
        }
        if st.has_room(key) {
            let i = choose|i: int|
                0 <= i < st.s && ((#[trigger] st.work[i]).vacant() || st.work[i].key_of() == key);
            assert(st.work[i] == block_of(self.labels@, s[i]));
            if s[i] != EMPTY_KEY {
                assert(s.contains(key));
            } else {
                assert(occupied(s) < s.len());
            }
        } else {
            assert forall|i: int| 0 <= i < s.len() implies #[trigger] s[i] != EMPTY_KEY && s[i]
                != key by {
                assert(st.work[i] == block_of(self.labels@, s[i]));
            }
        }
        if r.overflowed {
            assert forall|leaf: int| #[trigger] after.path_keys(leaf) == self.path_keys(leaf) by {
                assert(after.path_keys(leaf) =~= self.path_keys(leaf));
            }
        }
    }

    /// The slots of stash and tree stand for the keys in them.
    proof fn lemma_slot_blocks(&self, i: int)
        requires
            self.sized(),
            0 <= i < self.slot_keys().len(),
        ensures
            ({
                let w = self.z as int;
                let n = full_nodes(self.b as int, self.height as int);
                let b = block_of(self.labels@, self.slot_keys()[i]);
                let all = self.state().nodes.push(self.state().stash());
                &&& i < n * w ==> 0 <= i / w < n && 0 <= i % w < w && all[i / w][i % w] == b && i
                    == (i / w) * w + i % w
                &&& i >= n * w ==> i - n * w < all[n].len() && all[n][i - n * w] == b
                &&& all.len() == n + 1
                &&& self.slot_keys()[i] == EMPTY_KEY || self.slot_keys()[i] < self.labels@.len()
                &&& b.vacant() <==> self.slot_keys()[i] == EMPTY_KEY
                &&& !b.vacant() ==> b.key_of() == self.slot_keys()[i]
            }),
    {
        let w = self.z as int;
        let n = full_nodes(self.b as int, self.height as int);
        let st = self.state();
        self.lemma_state();
        self.stash.lemma_stash();
        assert(self.tree@.len() == n * w);
        if i < n * w {
            lemma_row_of(i, w, n);
            assert(self.slot_keys()[i] == self.tree@[i]);
            assert(st.nodes[i / w][i % w] == block_of(self.labels@, self.tree@[i]));
        } else {
            let j = i - n * w;
            assert(self.slot_keys()[i] == self.stash@[j]);
            assert(self.work_keys()[j] == self.stash@[j]);
            assert(st.stash()[j] == st.work[j]);
        }
    }

    /// A key that was inserted is in exactly one slot of tree and stash, and no other key
    /// is in any.
    pub proof fn lemma_one_place(&self, key: u32)
        requires
            self.wf(),
            key != EMPTY_KEY,
        ensures
            self.slot_keys().contains(key) <==> key < self.labels@.len()
                && self.initialized@[key as int],
            forall|i: int, j: int|
                0 <= i < self.slot_keys().len() && 0 <= j < self.slot_keys().len()
                    && #[trigger] self.slot_keys()[i] == key && #[trigger] self.slot_keys()[j]
                    == key ==> i == j,
    {
        let w = self.z as int;
        let n = full_nodes(self.b as int, self.height as int);
        let st = self.state();
        let all = st.nodes.push(st.stash());
        let s = self.slot_keys();
        self.lemma_state();
        assert(all.drop_last() =~= st.nodes);
        assert forall|b: Block32| #[trigger] tally_groups(all, b) <= st.count()(b) by {
            assert(tally_groups(all, b) == st.contents(b));
        }
        lemma_one_place_per_key(all, st.count(), keys());
        assert forall|i: int, j: int|
            0 <= i < s.len() && 0 <= j < s.len() && #[trigger] s[i] == key && #[trigger] s[j]
                == key implies i == j by {
            self.lemma_slot_blocks(i);
            self.lemma_slot_blocks(j);
            let (a, c) = if i < n * w {
                (i / w, i % w)
            } else {
                (n, i - n * w)
            };
            let (d, e) = if j < n * w {
                (j / w, j % w)
            } else {
                (n, j - n * w)
            };
            assert(keys::<Block32>()(all[a][c]) == keys::<Block32>()(all[d][e]));
        }
        if s.contains(key) {
            let i = choose|i: int| 0 <= i < s.len() && s[i] == key;
            self.lemma_slot_blocks(i);
            let (a, c) = if i < n * w {
                (i / w, i % w)
            } else {
                (n, i - n * w)
            };
            let b = all[a][c];
            lemma_tally_groups_positive(all, b);
            assert(all[a].contains(b));
            assert(tally_groups(all, b) == st.contents(b));
            assert(st.count()(b) > 0);
            lemma_by_key(st.count(), keys(), b);
            assert(st.stored().contains_key(key));
        }
        if key < self.labels@.len() && self.initialized@[key as int] {
            assert(st.stored().contains_key(key));
            let b = choose|b: Block32| (#[trigger] st.count()(b)) > 0 && keys::<Block32>()(b) == key;
            assert(st.contents(b) > 0);
            assert(tally_groups(all, b) == st.contents(b));
            lemma_tally_groups_positive(all, b);
            let a = choose|a: int| 0 <= a < all.len() && !b.vacant() && (#[trigger] all[a]).contains(b);
            let c = choose|c: int| 0 <= c < all[a].len() && all[a][c] == b;
            let i = if a < n {
                a * w + c
            } else {
                n * w + c
            };
            if a < n {
                lemma_row_place(a, c, w, n);
                vstd::arithmetic::div_mod::lemma_fundamental_div_mod_converse(i, w, a, c);
            } else {
                assert(0 <= n * w) by (nonlinear_arith)
                    requires
                        0 <= n,
                        0 <= w,
                ;
            }
            assert(0 <= i < s.len());
            self.lemma_slot_blocks(i);
            assert(s[i] == key);
        }
    }
}

/// One call of the simulator and what it gave.
pub struct SimCall {
    /// The label that the key is said to have.
    pub old_pos: u32,
    /// The label that it gets.
    pub new_pos: u32,
    /// The key.
    pub key: u32,
    /// The paths that are evicted afterwards.
    pub background_paths: Seq<u32>,
    /// The result.
    pub result: SimUpdate,
}

/// One of the first `n` calls is for `key`.
pub open spec fn called_before(calls: Seq<SimCall>, n: int, key: u32) -> bool {
    exists|j: int| 0 <= j < n && (#[trigger] calls[j]).key == key
}

/// The label that the last of the first `n` calls for `key` gave it.
pub open spec fn last_label(calls: Seq<SimCall>, n: int, key: u32) -> Option<u32>
    decreases n,
{
    if n <= 0 {
        None
    } else if calls[n - 1].key == key {
        Some(calls[n - 1].new_pos)
    } else {
        last_label(calls, n - 1, key)
    }
}

/// Call `i` takes state `i` to the next. It names the label last given to its key, if
/// there was one, and does not overflow.
pub open spec fn sim_step(states: Seq<LaneOramSimulator>, calls: Seq<SimCall>, i: int) -> bool {
    let c = calls[i];
    &&& c.old_pos < states[0].max_n
    &&& c.new_pos < states[0].max_n
    &&& c.new_pos != DUMMY_POS
    &&& c.key < states[0].labels@.len()
    &&& last_label(calls, i, c.key) matches Some(pos) ==> c.old_pos == pos
    &&& forall|j: int|
        0 <= j < c.background_paths.len() ==> #[trigger] c.background_paths[j] < states[0].max_n
    &&& states[i].updated(
        &states[i + 1],
        c.old_pos,
        c.new_pos,
        c.key,
        c.background_paths,
        c.result,
    )
    &&& !c.result.overflowed
}

/// The calls follow one another, from a simulator into which nothing was inserted.
pub open spec fn sim_history(states: Seq<LaneOramSimulator>, calls: Seq<SimCall>) -> bool {
    &&& states.len() == calls.len() + 1
    &&& states[0].wf()
    &&& forall|k: int|
        0 <= k < states[0].labels@.len() ==> !#[trigger] states[0].initialized@[k]
    &&& forall|i: int| 0 <= i < calls.len() ==> #[trigger] sim_step(states, calls, i)
}

/// After any number of calls every key that a call was for is in exactly one slot of tree
/// and stash, with the label that it was last given, and no other key is in any.
pub proof fn lemma_history_keeps_keys(
    states: Seq<LaneOramSimulator>,
    calls: Seq<SimCall>,
    n: int,
    key: u32,
)
    requires
        sim_history(states, calls),
        0 <= n <= calls.len(),
        key != EMPTY_KEY,
    ensures
        states[n].wf(),
        states[n].same_frame(&states[0]),
        states[n].slot_keys().contains(key) <==> called_before(calls, n, key),
        forall|i: int, j: int|
            0 <= i < states[n].slot_keys().len() && 0 <= j < states[n].slot_keys().len()
                && #[trigger] states[n].slot_keys()[i] == key
                && #[trigger] states[n].slot_keys()[j] == key ==> i == j,
        called_before(calls, n, key) <==> last_label(calls, n, key) is Some,
        last_label(calls, n, key) matches Some(pos) ==> states[n].labels@[key as int] == pos,
{
    lemma_history(states, calls, n, key);
    states[n].lemma_one_place(key);
}

proof fn lemma_history(states: Seq<LaneOramSimulator>, calls: Seq<SimCall>, n: int, key: u32)
    requires
        sim_history(states, calls),
        0 <= n <= calls.len(),
    ensures
        states[n].wf(),
        states[n].same_frame(&states[0]),
        called_before(calls, n, key) <==> key < states[n].labels@.len()
            && states[n].initialized@[key as int],
        called_before(calls, n, key) <==> last_label(calls, n, key) is Some,
        last_label(calls, n, key) matches Some(pos) ==> states[n].labels@[key as int] == pos,
    decreases n,
{
    if n > 0 {
        lemma_history(states, calls, n - 1, key);
        assert(sim_step(states, calls, n - 1));
        let c = calls[n - 1];
        if c.key == key {
            assert(called_before(calls, n, key));
        } else if called_before(calls, n, key) {
            let j = choose|j: int| 0 <= j < n && (#[trigger] calls[j]).key == key;
            assert(j < n - 1);
        } else if called_before(calls, n - 1, key) {
            let j = choose|j: int| 0 <= j < n - 1 && (#[trigger] calls[j]).key == key;
            assert(calls[j].key == key);
        }
    }
}

/// A call of a history finds its key exactly if an earlier call was for it, gives the key
/// its new label and leaves the other labels, and reports the number of occupied stash
/// slots.
pub proof fn lemma_history_results(
    states: Seq<LaneOramSimulator>,
    calls: Seq<SimCall>,
    i: int,
)
    requires
        sim_history(states, calls),
        0 <= i < calls.len(),
    ensures
        calls[i].result.found <==> called_before(calls, i, calls[i].key),
        states[i].initialized@[calls[i].key as int] ==> states[i].labels@[calls[i].key as int]
            == calls[i].old_pos,
        states[i + 1].labels@ == states[i].labels@.update(calls[i].key as int, calls[i].new_pos),
        calls[i].result.stash_after == occupied(states[i + 1].stash@),
{
    lemma_history(states, calls, i, calls[i].key);
    assert(sim_step(states, calls, i));
}

} // verus!
