//! Accesses of the stash experiment for lane ORAM.
use vstd::arithmetic::power::pow;
use vstd::arithmetic::power2::is_pow2;
use vstd::prelude::*;
use crate::heap_tree::{full_width, lemma_full_width, lemma_full_width_grows};
use crate::lane_oram::{lemma_wide_level, levels_from, DUMMY_POS};
use crate::lane_oram_sim::{LaneOramSimulator, SimUpdate};
use crate::minibucket_run::{count_after, lemma_leaf, leaves_from, next_count};
use crate::os_random::{OsRandomWords, RandomSourceFailed, OS_RANDOM_BATCH_WORDS};
use crate::lane_security_args::{refusal, Args, Workload};
use crate::path_schedules::{leaf_at, paths_before, rate_deterministic_paths};
use crate::stash_samples::Measured;
use crate::wide_heap_tree::full_nodes;

verus! {

/// The other paths that access number `counter` evicts at the rate
/// `numerator / denominator`.
pub open spec fn rate_paths(
    counter: int,
    n: int,
    b: int,
    numerator: int,
    denominator: int,
) -> Seq<u32> {
    leaves_from(
        paths_before(counter, numerator, denominator),
        paths_before(counter + 1, numerator, denominator) - paths_before(
            counter,
            numerator,
            denominator,
        ),
        n,
        b,
    )
}

/// The positions of an experiment: a leaf for each of the keys so far, that of the block
/// where there is one.
pub open spec fn keeps_labels(simulator: &LaneOramSimulator, positions: Seq<u32>) -> bool {
    &&& positions.len() <= simulator.labels@.len()
    &&& forall|k: int|
        0 <= k < positions.len() ==> {
            &&& #[trigger] positions[k] < simulator.max_n
            &&& simulator.initialized@[k] ==> simulator.labels@[k] == positions[k]
        }
}

/// One access to `key`: its block moves to the leaf that `word` names, and the paths that
/// are due are evicted.
pub fn access(
    simulator: &mut LaneOramSimulator,
    positions: &mut Vec<u32>,
    key: usize,
    word: usize,
    eviction_counter: &mut u64,
    b: usize,
    deterministic_numerator: usize,
    deterministic_denominator: usize,
    background_paths: &mut Vec<u32>,
) -> (r: SimUpdate)
    requires
        old(simulator).wf(),
        old(simulator).max_n <= DUMMY_POS,
        is_pow2(old(simulator).max_n as int),
        keeps_labels(old(simulator), old(positions)@),
        key < old(positions)@.len(),
        2 <= b,
        is_pow2(b as int),
        1 <= deterministic_denominator,
    ensures
        final(positions)@ == old(positions)@.update(
            key as int,
            (word as int % old(simulator).max_n as int) as u32,
        ),
        *final(eviction_counter) == (if *old(eviction_counter) == u64::MAX {
            0u64
        } else {
            (*old(eviction_counter) + 1) as u64
        }),
        final(background_paths)@ == rate_paths(
            *old(eviction_counter) as int,
            old(simulator).max_n as int,
            b as int,
            deterministic_numerator as int,
            deterministic_denominator as int,
        ),
        old(simulator).updated(
            final(simulator),
            old(positions)@[key as int],
            (word as int % old(simulator).max_n as int) as u32,
            key as u32,
            final(background_paths)@,
            r,
        ),
        keeps_labels(final(simulator), final(positions)@),
{
    let ghost before = *simulator;
    let ghost known = positions@;
    let now: u64 = *eviction_counter;
    let n: usize = simulator.max_n();
    let old_pos: u32 = positions[key];
    let new_pos: u32 = (word % n) as u32;
    rate_deterministic_paths(
        now,
        n,
        b,
        deterministic_numerator,
        deterministic_denominator,
        background_paths,
    );
    *eviction_counter = next_count(now);
    proof {
        assert(0 <= now * deterministic_numerator) by (nonlinear_arith);
        vstd::arithmetic::div_mod::lemma_div_pos_is_pos(
            now * deterministic_numerator,
            deterministic_denominator as int,
        );
        assert forall|step: int| 0 <= step implies 0 <= #[trigger] leaf_at(
            step,
            n as int,
            b as int,
        ) < n && leaf_at(step, n as int, b as int) <= u32::MAX by {
            lemma_leaf(step, n as int, b as int);
        }
        assert(background_paths@ =~= rate_paths(
            now as int,
            n as int,
            b as int,
            deterministic_numerator as int,
            deterministic_denominator as int,
        ));
    }
    let result: SimUpdate = simulator.update_with_background_paths(
        old_pos,
        new_pos,
        key as u32,
        background_paths.as_slice(),
    );
    positions.set(key, new_pos);
    proof {
        assert forall|k: int| 0 <= k < positions@.len() implies {
            &&& #[trigger] positions@[k] < simulator.max_n
            &&& simulator.initialized@[k] ==> simulator.labels@[k] == positions@[k]
        } by {
            assert(known[k] < before.max_n);
        }
    }
    result
}

/// One access to `key` with a random word for the new leaf.
pub fn perform_update(
    simulator: &mut LaneOramSimulator,
    positions: &mut Vec<u32>,
    key: usize,
    label_random: &mut OsRandomWords,
    eviction_counter: &mut u64,
    b: usize,
    deterministic_numerator: usize,
    deterministic_denominator: usize,
    background_paths: &mut Vec<u32>,
) -> (r: Result<SimUpdate, RandomSourceFailed>)
    requires
        old(simulator).wf(),
        old(simulator).max_n <= DUMMY_POS,
        is_pow2(old(simulator).max_n as int),
        keeps_labels(old(simulator), old(positions)@),
        key < old(positions)@.len(),
        2 <= b,
        is_pow2(b as int),
        1 <= deterministic_denominator,
        old(label_random).wf(),
    ensures
        final(label_random).wf(),
        old(label_random).waiting().len() > 0 ==> r is Ok,
        r is Ok ==> exists|word: u32| #[trigger]
            old(label_random).drew(final(label_random), seq![word]) && final(positions)@ == old(
                positions,
            )@.update(key as int, (word as int % old(simulator).max_n as int) as u32),
        r is Ok && old(label_random).waiting().len() > 0 ==> final(positions)@[key as int] == old(label_random).waiting()[0] as int % old(simulator).max_n as int,
        r is Ok ==> *final(eviction_counter) == (if *old(eviction_counter) == u64::MAX {
            0u64
        } else {
            (*old(eviction_counter) + 1) as u64
        }),
        r is Ok ==> final(background_paths)@ == rate_paths(
            *old(eviction_counter) as int,
            old(simulator).max_n as int,
            b as int,
            deterministic_numerator as int,
            deterministic_denominator as int,
        ),
        r matches Ok(result) ==> old(simulator).updated(
            final(simulator),
            old(positions)@[key as int],
            final(positions)@[key as int],
            key as u32,
            final(background_paths)@,
            result,
        ),
        keeps_labels(final(simulator), final(positions)@),
        r is Err ==> *final(simulator) == *old(simulator) && *final(positions) == *old(positions)
            && *final(eviction_counter) == *old(eviction_counter) && final(label_random).waiting()
            == old(label_random).waiting(),
{
    match label_random.next_usize() {
        Ok(word) => {
            assert(old(label_random).drew(label_random, seq![word as u32]));
            let result: SimUpdate = access(
                simulator,
                positions,
                key,
                word,
                eviction_counter,
                b,
                deterministic_numerator,
                deterministic_denominator,
                background_paths,
            );
            Ok(result)
        },
        Err(error) => Err(error),
    }
}

/// A run of the experiment.
#[derive(Debug)]
pub struct Run {
    /// The simulator.
    pub simulator: LaneOramSimulator,
    /// The leaf of every key so far.
    pub positions: Vec<u32>,
    /// Words for new leaves.
    pub label_random: OsRandomWords,
    /// Words for keys.
    pub workload_random: OsRandomWords,
    /// Accesses so far.
    pub eviction_counter: u64,
    /// The paths that the last access evicted.
    pub background_paths: Vec<u32>,
    /// Paths of the rate.
    pub deterministic_numerator: usize,
    /// Timesteps of the rate.
    pub deterministic_denominator: usize,
}

impl Run {
    /// The first `positions` keys are stored, and the stash has room for all keys.
    pub open spec fn wf(&self) -> bool {
        &&& self.simulator.wf()
        &&& self.simulator.max_n == self.simulator.labels@.len()
        &&& self.simulator.max_n <= DUMMY_POS
        &&& is_pow2(self.simulator.max_n as int)
        &&& is_pow2(self.simulator.b as int)
        &&& self.simulator.labels@.len() < self.simulator.stash@.len()
        &&& keeps_labels(&self.simulator, self.positions@)
        &&& forall|k: int|
            0 <= k < self.positions@.len() ==> #[trigger] self.simulator.initialized@[k]
        &&& forall|k: int|
            self.positions@.len() <= k < self.simulator.labels@.len()
                ==> !#[trigger] self.simulator.initialized@[k]
        &&& 1 <= self.deterministic_denominator
        &&& self.label_random.wf()
        &&& self.workload_random.wf()
    }

    /// What no access changes.
    pub open spec fn same_frame(&self, other: &Self) -> bool {
        &&& self.simulator.same_frame(&other.simulator)
        &&& self.deterministic_numerator == other.deterministic_numerator
        &&& self.deterministic_denominator == other.deterministic_denominator
    }

    /// Nothing but random words went since `before`.
    pub open spec fn untouched(&self, before: &Self) -> bool {
        &&& self.same_frame(before)
        &&& self.simulator == before.simulator
        &&& self.positions == before.positions
        &&& self.eviction_counter == before.eviction_counter
    }

    /// The paths that the next access evicts besides its own.
    pub open spec fn due_paths(&self) -> Seq<u32> {
        rate_paths(
            self.eviction_counter as int,
            self.simulator.max_n as int,
            self.simulator.b as int,
            self.deterministic_numerator as int,
            self.deterministic_denominator as int,
        )
    }

    /// An access to `key` that moves its block to the leaf that `word` names, with the
    /// result `r`, leaves `after`.
    pub open spec fn accessed(&self, after: &Self, key: int, word: u32, r: SimUpdate) -> bool {
        &&& after.same_frame(self)
        &&& self.label_random.drew(&after.label_random, seq![word])
        &&& after.positions@ == self.positions@.update(
            key,
            (word as int % self.simulator.max_n as int) as u32,
        )
        &&& after.eviction_counter == count_after(self.eviction_counter)
        &&& after.background_paths@ == self.due_paths()
        &&& self.simulator.updated(
            &after.simulator,
            self.positions@[key],
            after.positions@[key],
            key as u32,
            self.due_paths(),
            r,
        )
    }

    /// Access `operation` of `workload`, with the result `r`, leaves `after`.
    pub open spec fn access_made(
        &self,
        after: &Self,
        workload: Workload,
        operation: int,
        r: SimUpdate,
    ) -> bool {
        exists|words: Seq<u32>, key: int, word: u32|
            {
                &&& #[trigger] workload.picks(operation, self.simulator.max_n as int, words, key)
                &&& self.workload_random.drew(&after.workload_random, words)
                &&& #[trigger] self.accessed(after, key, word, r)
            }
    }

    /// Access `i` of a sequence that starts with access `first` leads from state `i` to the
    /// state after it.
    pub open spec fn link(
        states: Seq<Self>,
        workload: Workload,
        first: int,
        results: Seq<SimUpdate>,
        i: int,
    ) -> bool {
        states[i].access_made(&states[i + 1], workload, first + i, results[i])
    }

    /// The accesses of `workload` from number `first` on, one for each of `results`, leave
    /// `after`.
    pub open spec fn accesses(
        &self,
        after: &Self,
        workload: Workload,
        first: int,
        results: Seq<SimUpdate>,
    ) -> bool {
        exists|states: Seq<Self>|
            #![trigger states.first()]
            {
                &&& states.len() == results.len() + 1
                &&& states.first() == *self
                &&& states.last() == *after
                &&& forall|i: int|
                    0 <= i < results.len() ==> #[trigger] Self::link(
                        states,
                        workload,
                        first,
                        results,
                        i,
                    )
            }
    }

    /// `count` accesses of `workload` from number `first` on leave `after`, and `results`
    /// are theirs. If they were not `done`, the words ran out at an access before the last
    /// was made, and `results` are those of the accesses until then.
    pub open spec fn ran(
        &self,
        after: &Self,
        workload: Workload,
        first: int,
        count: int,
        results: Seq<SimUpdate>,
        done: bool,
    ) -> bool {
        if done {
            results.len() == count && self.accesses(after, workload, first, results)
        } else {
            &&& results.len() < count
            &&& exists|mid: Self| #[trigger]
                self.accesses(&mid, workload, first, results) && after.untouched(&mid)
        }
    }

    /// One more access.
    proof fn lemma_one_more(
        &self,
        mid: &Self,
        after: &Self,
        workload: Workload,
        first: int,
        results: Seq<SimUpdate>,
        r: SimUpdate,
    )
        requires
            self.accesses(mid, workload, first, results),
            mid.access_made(after, workload, first + results.len(), r),
        ensures
            self.accesses(after, workload, first, results.push(r)),
    {
        let states = choose|states: Seq<Self>|
            #![trigger states.first()]
            {
                &&& states.len() == results.len() + 1
                &&& states.first() == *self
                &&& states.last() == *mid
                &&& forall|i: int|
                    0 <= i < results.len() ==> #[trigger] Self::link(
                        states,
                        workload,
                        first,
                        results,
                        i,
                    )
            };
        let more = states.push(*after);
        let all = results.push(r);
        assert(more.first() == *self);
        assert forall|i: int| 0 <= i < all.len() implies #[trigger] Self::link(
            more,
            workload,
            first,
            all,
            i,
        ) by {
            if i < results.len() {
                assert(Self::link(states, workload, first, results, i));
            }
        }
    }

    /// Without an access nothing changes.
    proof fn lemma_no_access(&self, workload: Workload, first: int)
        ensures
            self.accesses(self, workload, first, Seq::empty()),
    {
        let states = seq![*self];
        assert(states.first() == *self);
    }

    /// Storing the first key that is not stored, first at the leaf that `word` names and
    /// then at the leaf that `new_word` names, leaves `after`.
    pub open spec fn stored_with(
        &self,
        after: &Self,
        word: u32,
        new_word: u32,
        r: SimUpdate,
    ) -> bool {
        let n = self.simulator.max_n as int;
        let key = self.positions@.len();
        &&& after.same_frame(self)
        &&& self.label_random.drew(&after.label_random, seq![word] + seq![new_word])
        &&& after.workload_random == self.workload_random
        &&& after.positions@ == self.positions@.push((new_word as int % n) as u32)
        &&& after.eviction_counter == count_after(self.eviction_counter)
        &&& after.background_paths@ == self.due_paths()
        &&& self.simulator.updated(
            &after.simulator,
            (word as int % n) as u32,
            (new_word as int % n) as u32,
            key as u32,
            self.due_paths(),
            r,
        )
    }

    /// Storing one more key leads from state `i` to the state after it.
    pub open spec fn stored_next(states: Seq<Self>, i: int) -> bool {
        exists|word: u32, new_word: u32, r: SimUpdate| #[trigger]
            states[i].stored_with(&states[i + 1], word, new_word, r)
    }

    /// Storing `count` keys leaves `after`.
    pub open spec fn filled(&self, after: &Self, count: int) -> bool {
        exists|states: Seq<Self>|
            #![trigger states.first()]
            {
                &&& states.len() == count + 1
                &&& states.first() == *self
                &&& states.last() == *after
                &&& forall|i: int| 0 <= i < count ==> #[trigger] Self::stored_next(states, i)
            }
    }

    /// One more key.
    proof fn lemma_one_more_key(
        &self,
        mid: &Self,
        after: &Self,
        count: int,
        word: u32,
        new_word: u32,
        r: SimUpdate,
    )
        requires
            0 <= count,
            self.filled(mid, count),
            mid.stored_with(after, word, new_word, r),
        ensures
            self.filled(after, count + 1),
    {
        let states = choose|states: Seq<Self>|
            #![trigger states.first()]
            {
                &&& states.len() == count + 1
                &&& states.first() == *self
                &&& states.last() == *mid
                &&& forall|i: int| 0 <= i < count ==> #[trigger] Self::stored_next(states, i)
            };
        let more = states.push(*after);
        assert(more.first() == *self);
        assert forall|i: int| 0 <= i < count + 1 implies #[trigger] Self::stored_next(more, i) by {
            if i < count {
                assert(Self::stored_next(states, i));
                let (w, v, q) = choose|w: u32, v: u32, q: SimUpdate| #[trigger]
                    states[i].stored_with(&states[i + 1], w, v, q);
                assert(more[i].stored_with(&more[i + 1], w, v, q));
            } else {
                assert(more[i].stored_with(&more[i + 1], word, new_word, r));
            }
        }
    }

    /// A run with nothing stored, on a stash with one slot more than there are keys, that
    /// takes its words from `label_random` and `workload_random`.
    pub fn with_words(
        simulator: LaneOramSimulator,
        deterministic_numerator: usize,
        deterministic_denominator: usize,
        label_random: OsRandomWords,
        workload_random: OsRandomWords,
    ) -> (r: Self)
        requires
            simulator.wf(),
            simulator.max_n == simulator.labels@.len(),
            simulator.max_n <= DUMMY_POS,
            is_pow2(simulator.max_n as int),
            is_pow2(simulator.b as int),
            simulator.labels@.len() < simulator.stash@.len(),
            forall|k: int|
                0 <= k < simulator.labels@.len() ==> !#[trigger] simulator.initialized@[k],
            1 <= deterministic_denominator,
            label_random.wf(),
            workload_random.wf(),
        ensures
            r.wf(),
            r.simulator == simulator,
            r.positions@ == Seq::<u32>::empty(),
            r.label_random == label_random,
            r.workload_random == workload_random,
            r.eviction_counter == 0,
            r.background_paths@ == Seq::<u32>::empty(),
            r.deterministic_numerator == deterministic_numerator,
            r.deterministic_denominator == deterministic_denominator,
    {
        Run {
            simulator,
            positions: Vec::new(),
            label_random,
            workload_random,
            eviction_counter: 0,
            background_paths: Vec::new(),
            deterministic_numerator,
            deterministic_denominator,
        }
    }

    /// A run with nothing stored, on a stash with one slot more than there are keys.
    pub fn new(
        simulator: LaneOramSimulator,
        deterministic_numerator: usize,
        deterministic_denominator: usize,
    ) -> (r: Result<Self, RandomSourceFailed>)
        requires
            simulator.wf(),
            simulator.max_n == simulator.labels@.len(),
            simulator.max_n <= DUMMY_POS,
            is_pow2(simulator.max_n as int),
            is_pow2(simulator.b as int),
            simulator.labels@.len() < simulator.stash@.len(),
            forall|k: int|
                0 <= k < simulator.labels@.len() ==> !#[trigger] simulator.initialized@[k],
            1 <= deterministic_denominator,
        ensures
            r matches Ok(run) ==> run.wf() && run.simulator == simulator && run.positions@
                == Seq::<u32>::empty() && run.eviction_counter == 0
                && run.deterministic_numerator == deterministic_numerator
                && run.deterministic_denominator == deterministic_denominator
                && run.label_random.waiting().len() == OS_RANDOM_BATCH_WORDS
                && run.workload_random.waiting().len() == OS_RANDOM_BATCH_WORDS,
    {
        let label_random: OsRandomWords = match OsRandomWords::new() {
            Ok(words) => words,
            Err(error) => {
                return Err(error);
            },
        };
        let workload_random: OsRandomWords = match OsRandomWords::new() {
            Ok(words) => words,
            Err(error) => {
                return Err(error);
            },
        };
        Ok(
            Run::with_words(
                simulator,
                deterministic_numerator,
                deterministic_denominator,
                label_random,
                workload_random,
            ),
        )
    }

    /// One access to `key`. It finds the key exactly when that was stored, and never
    /// overflows the stash.
    fn step(&mut self, key: usize) -> (r: Result<SimUpdate, RandomSourceFailed>)
        requires
            old(self).simulator.wf(),
            old(self).simulator.max_n == old(self).simulator.labels@.len(),
            old(self).simulator.max_n <= DUMMY_POS,
            is_pow2(old(self).simulator.max_n as int),
            is_pow2(old(self).simulator.b as int),
            old(self).simulator.labels@.len() < old(self).simulator.stash@.len(),
            keeps_labels(&old(self).simulator, old(self).positions@),
            1 <= old(self).deterministic_denominator,
            old(self).label_random.wf(),
            old(self).workload_random.wf(),
            key < old(self).positions@.len(),
        ensures
            final(self).simulator.wf(),
            final(self).same_frame(old(self)),
            keeps_labels(&final(self).simulator, final(self).positions@),
            final(self).positions@.len() == old(self).positions@.len(),
            final(self).label_random.wf(),
            final(self).workload_random.wf(),
            final(self).workload_random == old(self).workload_random,
            old(self).label_random.waiting().len() > 0 ==> r is Ok,
            r is Err ==> final(self).untouched(old(self)) && final(self).label_random.waiting()
                == old(self).label_random.waiting(),
            r matches Ok(result) ==> {
                &&& result.found == old(self).simulator.initialized@[key as int]
                &&& !result.overflowed
                &&& result.stash_after < final(self).simulator.stash@.len() + 1
                &&& result.insertion_demand < final(self).simulator.stash@.len() + 1
                &&& final(self).simulator.initialized@ == old(self).simulator.initialized@.update(
                    key as int,
                    true,
                )
            },
            r matches Ok(result) ==> exists|word: u32| #[trigger]
                old(self).accessed(final(self), key as int, word, result),
    {
        let ghost before = *self;
        proof {
            self.simulator.lemma_roomy_stash(key as u32);
            self.simulator.stash.lemma_stash();
        }
        let b: usize = self.simulator.b;
        let r: Result<SimUpdate, RandomSourceFailed> = perform_update(
            &mut self.simulator,
            &mut self.positions,
            key,
            &mut self.label_random,
            &mut self.eviction_counter,
            b,
            self.deterministic_numerator,
            self.deterministic_denominator,
            &mut self.background_paths,
        );
        proof {
            self.simulator.stash.lemma_stash();
            before.simulator.lemma_demand();
            if let Ok(result) = r {
                let word = choose|word: u32| #[trigger]
                    before.label_random.drew(&self.label_random, seq![word]) && self.positions@
                        == before.positions@.update(
                        key as int,
                        (word as int % before.simulator.max_n as int) as u32,
                    );
                assert(before.accessed(self, key as int, word, result));
            }
        }
        r
    }

    /// Stores every key, one after another. If the words run out before that, the keys
    /// until then are stored.
    pub fn fill(&mut self) -> (r: Result<(), RandomSourceFailed>)
        requires
            old(self).wf(),
        ensures
            final(self).same_frame(old(self)),
            2 * (old(self).simulator.max_n - old(self).positions@.len()) <= old(self).label_random.waiting().len()
                ==> r is Ok,
            r is Ok ==> final(self).wf() && final(self).positions@.len()
                == old(self).simulator.max_n && old(self).filled(
                final(self),
                old(self).simulator.max_n - old(self).positions@.len(),
            ),
            r is Err ==> exists|mid: Self, count: int|
                {
                    &&& 0 <= count < old(self).simulator.max_n - old(self).positions@.len()
                    &&& #[trigger] old(self).filled(&mid, count)
                    &&& final(self).simulator == mid.simulator
                    &&& final(self).eviction_counter == mid.eviction_counter
                    &&& mid.positions@.is_prefix_of(final(self).positions@)
                },
    {
        let ghost before = *self;
        let ghost mut count: int = 0;
        let n: usize = self.simulator.max_n();
        proof {
            let states = seq![before];
            assert(states.first() == before);
        }
        while self.positions.len() < n
            invariant
                self.wf(),
                n == self.simulator.max_n,
                before == *old(self),
                self.same_frame(&before),
                0 <= count,
                self.positions@.len() == before.positions@.len() + count,
                before.filled(self, count),
                2 * count <= before.label_random.waiting().len()
                    ==> self.label_random.waiting().len() == before.label_random.waiting().len() - 2
                    * count,
            decreases n - self.positions@.len(),
        {
            let key: usize = self.positions.len();
            let ghost here = *self;
            let word: usize = match self.label_random.next_usize() {
                Ok(word) => word,
                Err(error) => {
                    assert(before.filled(&here, count));
                    return Err(error);
                },
            };
            self.positions.push((word % n) as u32);
            let ghost pushed = *self;
            match self.step(key) {
                Ok(_result) => {
                    proof {
                        let new_word = choose|w: u32| #[trigger]
                            pushed.accessed(self, key as int, w, _result);
                        here.label_random.lemma_drew(
                            &pushed.label_random,
                            &self.label_random,
                            seq![word as u32],
                            seq![new_word],
                        );
                        assert(self.positions@ =~= here.positions@.push(
                            (new_word as int % n as int) as u32,
                        ));
                        assert(here.stored_with(self, word as u32, new_word, _result));
                        before.lemma_one_more_key(
                            &here,
                            self,
                            count,
                            word as u32,
                            new_word,
                            _result,
                        );
                        assert forall|k: int|
                            0 <= k < self.positions@.len() implies #[trigger] self.simulator.initialized@[k] by {
                            if k < key {
                                assert(here.simulator.initialized@[k]);
                            }
                        }
                        assert forall|k: int|
                            self.positions@.len() <= k
                                < self.simulator.labels@.len() implies !#[trigger] self.simulator.initialized@[k] by {
                            assert(!here.simulator.initialized@[k]);
                        }
                        count = count + 1;
                    }
                },
                Err(error) => {
                    assert(before.filled(&here, count));
                    return Err(error);
                },
            }
        }
        Ok(())
    }

    /// One access of `workload`, number `operation`, with every key stored.
    pub fn access_next(&mut self, workload: Workload, operation: u64) -> (r: Result<
        SimUpdate,
        RandomSourceFailed,
    >)
        requires
            old(self).wf(),
            old(self).positions@.len() == old(self).simulator.max_n,
            workload == Workload::BitReverse ==> 2 <= old(self).simulator.max_n,
        ensures
            final(self).wf(),
            final(self).same_frame(old(self)),
            final(self).positions@.len() == old(self).positions@.len(),
            old(self).label_random.waiting().len() > 0 && (workload.random()
                ==> old(self).workload_random.waiting().len() > 0) ==> r is Ok,
            r matches Ok(result) ==> old(self).access_made(
                final(self),
                workload,
                operation as int,
                result,
            ),
            r matches Ok(result) ==> result.found && !result.overflowed && result.stash_after
                <= final(self).simulator.stash@.len() && result.insertion_demand <= final(self).simulator.stash@.len(),
            r is Err ==> final(self).untouched(old(self)),
    {
        let ghost before = *self;
        let n: usize = self.simulator.max_n();
        match workload.key(operation, n, &mut self.workload_random) {
            Ok(key) => {
                let ghost chosen = *self;
                let r: Result<SimUpdate, RandomSourceFailed> = self.step(key);
                proof {
                    if let Ok(result) = r {
                        let words = choose|words: Seq<u32>| #[trigger]
                            workload.picks(operation as int, n as int, words, key as int)
                                && before.workload_random.drew(&chosen.workload_random, words);
                        let word = choose|word: u32| #[trigger]
                            chosen.accessed(self, key as int, word, result);
                        assert(before.accessed(self, key as int, word, result));
                        assert(workload.picks(operation as int, n as int, words, key as int));
                    }
                    assert forall|k: int|
                        0 <= k < self.positions@.len() implies #[trigger] self.simulator.initialized@[k] by {
                        assert(before.simulator.initialized@[k]);
                    }
                }
                r
            },
            Err(error) => Err(error),
        }
    }

    /// Makes the accesses of `workload` up to `end`, without taking samples.
    pub fn warm_up(&mut self, workload: Workload, end: u64) -> (r: Result<(), RandomSourceFailed>)
        requires
            old(self).wf(),
            old(self).positions@.len() == old(self).simulator.max_n,
            workload == Workload::BitReverse ==> 2 <= old(self).simulator.max_n,
        ensures
            final(self).wf(),
            final(self).same_frame(old(self)),
            final(self).positions@.len() == old(self).positions@.len(),
            end <= old(self).label_random.waiting().len() && (workload.random() ==> end
                <= old(self).workload_random.waiting().len()) ==> r is Ok,
            exists|results: Seq<SimUpdate>| #[trigger]
                old(self).ran(final(self), workload, 0, end as int, results, r is Ok),
    {
        let ghost before = *self;
        let ghost mut results: Seq<SimUpdate> = Seq::empty();
        let mut operation: u64 = 0;
        proof {
            before.lemma_no_access(workload, 0);
        }
        while operation < end
            invariant
                operation <= end,
                self.wf(),
                before == *old(self),
                self.same_frame(&before),
                self.positions@.len() == before.positions@.len() == self.simulator.max_n,
                workload == Workload::BitReverse ==> 2 <= self.simulator.max_n,
                results.len() == operation,
                before.accesses(self, workload, 0, results),
                self.words_left(&before, workload, operation as int),
            decreases end - operation,
        {
            let ghost here = *self;
            match self.access_next(workload, operation) {
                Ok(result) => {
                    proof {
                        before.lemma_one_more(&here, self, workload, 0, results, result);
                        before.lemma_words_left(
                            &here,
                            self,
                            workload,
                            operation as int,
                            operation as int,
                            result,
                        );
                        results = results.push(result);
                    }
                },
                Err(error) => {
                    assert(before.accesses(&here, workload, 0, results));
                    assert(before.ran(self, workload, 0, end as int, results, false));
                    return Err(error);
                },
            }
            operation += 1;
        }
        assert(before.ran(self, workload, 0, end as int, results, true));
        Ok(())
    }

    /// As many words wait as waited at `before`, but for those of `count` accesses, as long
    /// as these were enough.
    spec fn words_left(&self, before: &Self, workload: Workload, count: int) -> bool {
        &&& count <= before.label_random.waiting().len() ==> self.label_random.waiting().len()
            == before.label_random.waiting().len() - count
        &&& workload.random() && count <= before.workload_random.waiting().len()
            ==> self.workload_random.waiting().len() == before.workload_random.waiting().len()
            - count
    }

    /// An access takes its words.
    proof fn lemma_words_left(
        &self,
        mid: &Self,
        after: &Self,
        workload: Workload,
        count: int,
        operation: int,
        r: SimUpdate,
    )
        requires
            0 <= count,
            mid.words_left(self, workload, count),
            mid.access_made(after, workload, operation, r),
        ensures
            after.words_left(self, workload, count + 1),
    {
    }

    /// Makes the next `operations` accesses of `workload` from number `first` on, and takes
    /// the samples of each.
    pub fn measure(&mut self, workload: Workload, first: u64, operations: u64) -> (r: Result<
        Measured,
        RandomSourceFailed,
    >)
        requires
            old(self).wf(),
            old(self).positions@.len() == old(self).simulator.max_n,
            workload == Workload::BitReverse ==> 2 <= old(self).simulator.max_n,
            first + operations <= u64::MAX,
        ensures
            final(self).wf(),
            final(self).same_frame(old(self)),
            final(self).positions@.len() == old(self).positions@.len(),
            operations <= old(self).label_random.waiting().len() && (workload.random()
                ==> operations <= old(self).workload_random.waiting().len()) ==> r is Ok,
            exists|results: Seq<SimUpdate>|
                {
                    &&& #[trigger] old(self).ran(
                        final(self),
                        workload,
                        first as int,
                        operations as int,
                        results,
                        r is Ok,
                    )
                    &&& r matches Ok(m) ==> m.shows(
                        stash_sizes(results),
                        stash_demands(results),
                        operations as int,
                        final(self).simulator.stash@.len() as int,
                    )
                },
    {
        let ghost before = *self;
        let ghost most = self.simulator.stash@.len() as int;
        let ghost mut results: Seq<SimUpdate> = Seq::empty();
        let mut measured: Measured = Measured::new();
        let mut i: u64 = 0;
        proof {
            before.lemma_no_access(workload, first as int);
            assert(stash_sizes(results) =~= Seq::empty());
            assert(stash_demands(results) =~= Seq::empty());
        }
        while i < operations
            invariant
                i <= operations,
                first + operations <= u64::MAX,
                self.wf(),
                before == *old(self),
                self.same_frame(&before),
                most == self.simulator.stash@.len(),
                most < usize::MAX,
                self.positions@.len() == before.positions@.len() == self.simulator.max_n,
                workload == Workload::BitReverse ==> 2 <= self.simulator.max_n,
                measured.post.count == i,
                measured.counts(i as int, most),
                measured.shows(stash_sizes(results), stash_demands(results), i as int, most),
                results.len() == i,
                before.accesses(self, workload, first as int, results),
                self.words_left(&before, workload, i as int),
            decreases operations - i,
        {
            let ghost here = *self;
            match self.access_next(workload, first + i) {
                Ok(result) => {
                    measured.record(result.stash_after, result.insertion_demand, Ghost(most));
                    proof {
                        before.lemma_one_more(&here, self, workload, first as int, results, result);
                        before.lemma_words_left(
                            &here,
                            self,
                            workload,
                            i as int,
                            first + i,
                            result,
                        );
                        assert(stash_sizes(results.push(result)) =~= stash_sizes(results).push(
                            result.stash_after,
                        ));
                        assert(stash_demands(results.push(result)) =~= stash_demands(results).push(
                            result.insertion_demand,
                        ));
                        results = results.push(result);
                    }
                },
                Err(error) => {
                    assert(before.accesses(&here, workload, first as int, results));
                    assert(before.ran(
                        self,
                        workload,
                        first as int,
                        operations as int,
                        results,
                        false,
                    ));
                    return Err(error);
                },
            }
            i += 1;
        }
        assert(before.ran(self, workload, first as int, operations as int, results, true));
        let r: Result<Measured, RandomSourceFailed> = Ok(measured);
        assert(r->Ok_0 == measured);
        r
    }
}

/// The stash sizes after accesses.
pub open spec fn stash_sizes(results: Seq<SimUpdate>) -> Seq<usize> {
    results.map_values(|r: SimUpdate| r.stash_after)
}

/// The stash sizes that accesses asked for.
pub open spec fn stash_demands(results: Seq<SimUpdate>) -> Seq<usize> {
    results.map_values(|r: SimUpdate| r.insertion_demand)
}

/// The smallest tree for a power of `b` leaves has exactly these leaves, and at most twice
/// as many nodes.
pub proof fn lemma_exact_tree(k: int, b: int, h: int)
    requires
        1 <= h <= k + 1,
        2 <= b,
    ensures
        levels_from(full_width(k, b), b, h) == k + 1,
        full_nodes(b, k + 1) <= 2 * full_width(k, b),
        k < full_nodes(b, k + 1),
    decreases k + 1 - h,
{
    lemma_wide_level(k, b);
    lemma_nodes_bound(k, b);
    if h <= k {
        lemma_full_width(h - 1, b);
        lemma_full_width_grows(h as int, k, b);
        let w = full_width(h - 1, b);
        assert(w < w * b) by (nonlinear_arith)
            requires
                w >= 1,
                b >= 2,
        ;
        lemma_exact_tree(k, b, h + 1);
    }
}

proof fn lemma_nodes_bound(k: int, b: int)
    requires
        0 <= k,
        2 <= b,
    ensures
        full_nodes(b, k + 1) <= 2 * full_width(k, b),
        k < full_nodes(b, k + 1),
        full_width(k, b) <= full_nodes(b, k + 1),
    decreases k,
{
    lemma_full_width(k, b);
    assert(full_nodes(b, k + 1) == full_nodes(b, k) + full_width(k, b));
    if k > 0 {
        lemma_nodes_bound(k - 1, b);
        lemma_full_width(k - 1, b);
        let w = full_width(k - 1, b);
        assert(w * b >= 2 * w) by (nonlinear_arith)
            requires
                w >= 1,
                b >= 2,
        ;
    } else {
        assert(full_nodes(b, 0) == 0);
    }
}

/// Starts the run that `args` asks for, or nothing when the machine cannot count its
/// slots.
pub fn start(args: &Args) -> (r: Result<Option<Run>, RandomSourceFailed>)
    requires
        refusal(args@) is None,
    ensures
        (r is Ok && r->Ok_0 is None) <==> (args.n > 0x8000_0000 || 2 * args.n * args.z
            > usize::MAX),
        r matches Ok(Some(run)) ==> {
            &&& run.wf()
            &&& run.simulator.max_n == args.n
            &&& run.simulator.z == args.z
            &&& run.simulator.b == args.b
            &&& run.simulator.stash@.len() == args.n + 1
            &&& run.positions@ == Seq::<u32>::empty()
            &&& run.deterministic_numerator == args.deterministic_numerator
            &&& run.deterministic_denominator == args.deterministic_denominator
            &&& run.eviction_counter == 0
            &&& run.label_random.waiting().len() == OS_RANDOM_BATCH_WORDS
            &&& run.workload_random.waiting().len() == OS_RANDOM_BATCH_WORDS
            &&& forall|k: int|
                0 <= k < run.simulator.labels@.len() ==> !#[trigger] run.simulator.initialized@[k]
        },
{
    let n: usize = args.n;
    let z: usize = args.z;
    let b: usize = args.b;
    let ghost f = b as int;
    let ghost k = choose|k: nat| #[trigger] pow(f, k) == n;
    proof {
        reveal(is_pow2);
        assert(full_width(k as int, f) == n);
        lemma_exact_tree(k as int, f, 1);
    }
    if n > 0x8000_0000 {
        return Ok(None);
    }
    let slots: Option<usize> = match n.checked_mul(2) {
        Some(nodes) => nodes.checked_mul(z),
        None => None,
    };
    if slots.is_none() {
        proof {
            assert(2 * n <= 2 * n * z) by (nonlinear_arith)
                requires
                    1 <= z,
                    0 <= n,
            ;
            assert(n * 2 * z == 2 * n * z);
        }
        return Ok(None);
    }
    proof {
        let nodes = full_nodes(f, k as int + 1);
        assert(n * 2 * z == 2 * n * z);
        assert(nodes * z <= 2 * n * z) by (nonlinear_arith)
            requires
                nodes <= 2 * n,
                0 <= z,
        ;
        assert((k + 1) * z <= nodes * z) by (nonlinear_arith)
            requires
                k + 1 <= nodes,
                0 <= z,
        ;
        assert(2 * n <= 2 * n * z) by (nonlinear_arith)
            requires
                1 <= z,
                0 <= n,
        ;
    }
    let simulator: LaneOramSimulator = LaneOramSimulator::new(n, z, b, n + 1);
    match Run::new(simulator, args.deterministic_numerator, args.deterministic_denominator) {
        Ok(run) => Ok(Some(run)),
        Err(error) => Err(error),
    }
}

} // verus!
