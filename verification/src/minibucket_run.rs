//! Accesses of the stash experiment for lanes of minibuckets.
use vstd::arithmetic::power::pow;
use vstd::arithmetic::power2::is_pow2;
use vstd::prelude::*;
use crate::heap_tree::{full_width, lemma_full_width, lemma_full_width_grows};
use crate::lane_security_run::lemma_exact_tree;
use crate::minibucket_args::{refusal, Args, PathSchedule, QueuePolicy, Workload};
use crate::minibucket_sim::{MinibucketLaneSimulator, SimUpdate};
use crate::os_random::{OsRandomWords, RandomSourceFailed, OS_RANDOM_BATCH_WORDS};
use crate::path_schedules::{
    deterministic_path_group, digits_of, leaf_at, lemma_digits_of, lemma_digits_of_power,
    lemma_reversed_bound,
    one_deterministic_path, paper_deterministic_paths, paths_before, radix_deterministic_paths,
    rate_deterministic_paths,
};
use crate::stash_samples::Measured;
use crate::wide_heap_tree::full_nodes;

verus! {

/// A schedule under which the accessed path itself is evicted.
pub open spec fn evicts_accessed(schedule: PathSchedule) -> bool {
    schedule != PathSchedule::PaperRandom && schedule != PathSchedule::PaperDeterministic
}

/// A schedule that counts its accesses.
pub open spec fn counts_accesses(schedule: PathSchedule) -> bool {
    match schedule {
        PathSchedule::Same | PathSchedule::AccessPlusUniform | PathSchedule::PaperRandom => false,
        _ => true,
    }
}

/// The numbers that a schedule needs: a tree with leaves enough, and a rate.
pub open spec fn schedulable(
    schedule: PathSchedule,
    n: int,
    b: int,
    denominator: int,
) -> bool {
    &&& 1 <= n <= 0x1_0000_0000
    &&& is_pow2(n)
    &&& 2 <= b
    &&& is_pow2(b)
    &&& 1 <= denominator
    &&& match schedule {
        PathSchedule::PaperRandom | PathSchedule::PaperDeterministic
        | PathSchedule::AccessPlusPaperDeterministic | PathSchedule::AccessPlusTwoDeterministic => 2
            <= n,
        PathSchedule::AccessPlusRadixDeterministic => b <= n,
        _ => true,
    }
}

/// `count` leaves in order from step `first` on.
pub open spec fn leaves_from(first: int, count: int, n: int, b: int) -> Seq<u32> {
    Seq::new(count as nat, |i: int| leaf_at(first + i, n, b) as u32)
}

/// The other paths that access number `counter` evicts, with two words for chance.
pub open spec fn background(
    schedule: PathSchedule,
    counter: int,
    n: int,
    b: int,
    numerator: int,
    denominator: int,
    first_word: int,
    second_word: int,
) -> Seq<u32> {
    match schedule {
        PathSchedule::Same => Seq::empty(),
        PathSchedule::AccessPlusUniform => seq![(first_word % n) as u32],
        PathSchedule::PaperRandom => seq![
            (first_word % (n / 2)) as u32,
            (n / 2 + second_word % (n / 2)) as u32,
        ],
        PathSchedule::PaperDeterministic
        | PathSchedule::AccessPlusPaperDeterministic => leaves_from(2 * counter, 2, n, 2),
        PathSchedule::AccessPlusOneDeterministic => leaves_from(counter, 1, n, b),
        PathSchedule::AccessPlusTwoDeterministic => leaves_from(counter * 2, 2, n, b),
        PathSchedule::AccessPlusRateDeterministic => leaves_from(
            paths_before(counter, numerator, denominator),
            paths_before(counter + 1, numerator, denominator) - paths_before(
                counter,
                numerator,
                denominator,
            ),
            n,
            b,
        ),
        PathSchedule::AccessPlusRadixDeterministic => leaves_from(counter * b, b, n, b),
    }
}

/// How many words a schedule draws for the other paths of an access.
pub open spec fn draws(schedule: PathSchedule) -> int {
    match schedule {
        PathSchedule::PaperRandom => 2,
        PathSchedule::AccessPlusUniform => 1,
        _ => 0,
    }
}

/// Word `i` of `words`, or zero.
pub open spec fn word_at(words: Seq<u32>, i: int) -> int {
    if i < words.len() {
        words[i] as int
    } else {
        0
    }
}

/// [`background`] with the words `chance`, as many as the schedule draws.
pub open spec fn background_drawn(
    schedule: PathSchedule,
    counter: int,
    n: int,
    b: int,
    numerator: int,
    denominator: int,
    chance: Seq<u32>,
) -> Seq<u32> {
    background(
        schedule,
        counter,
        n,
        b,
        numerator,
        denominator,
        word_at(chance, 0),
        word_at(chance, 1),
    )
}

/// An access to `key` that moves its block to the leaf that `word` names and puts it into
/// the stash that `queue` names, with the result `r`, leaves `after` and `moved`.
pub open spec fn update_made(
    simulator: &MinibucketLaneSimulator,
    after: &MinibucketLaneSimulator,
    positions: Seq<u32>,
    moved: Seq<u32>,
    key: int,
    word: u32,
    queue: u32,
    schedule: PathSchedule,
    paths: Seq<u32>,
    r: SimUpdate,
) -> bool {
    &&& moved == positions.update(key, (word as int % simulator.max_n as int) as u32)
    &&& simulator.updated(
        after,
        positions[key],
        moved[key],
        key as u32,
        queue as int,
        evicts_accessed(schedule),
        paths,
        r,
    )
}

/// A leaf in order is a leaf of the tree.
pub(crate) proof fn lemma_leaf(step: int, n: int, b: int)
    requires
        0 <= step,
        1 <= n <= 0x1_0000_0000,
        2 <= b,
    ensures
        0 <= leaf_at(step, n, b) < n,
        leaf_at(step, n, b) <= u32::MAX,
{
    lemma_digits_of(n, b);
    vstd::arithmetic::div_mod::lemma_mod_bound(step, n);
    lemma_reversed_bound(step % n, b, digits_of(n, b));
}

/// The other paths that an access evicts. The counter goes on where the schedule counts
/// its accesses.
pub fn background_paths(
    schedule: PathSchedule,
    counter: &mut u64,
    n: usize,
    b: usize,
    numerator: usize,
    denominator: usize,
    first_word: usize,
    second_word: usize,
    paths: &mut Vec<u32>,
)
    requires
        schedulable(schedule, n as int, b as int, denominator as int),
    ensures
        final(paths)@ == background(
            schedule,
            *old(counter) as int,
            n as int,
            b as int,
            numerator as int,
            denominator as int,
            first_word as int,
            second_word as int,
        ),
        forall|i: int| 0 <= i < final(paths)@.len() ==> #[trigger] final(paths)@[i] < n,
        *final(counter) == (if counts_accesses(schedule) {
            if *old(counter) == u64::MAX {
                0u64
            } else {
                (*old(counter) + 1) as u64
            }
        } else {
            *old(counter)
        }),
{
    let now: u64 = *counter;
    let ghost goal = background(
        schedule,
        now as int,
        n as int,
        b as int,
        numerator as int,
        denominator as int,
        first_word as int,
        second_word as int,
    );
    paths.clear();
    match schedule {
        PathSchedule::Same => {},
        PathSchedule::AccessPlusUniform => {
            paths.push((first_word % n) as u32);
        },
        PathSchedule::PaperRandom => {
            let half: usize = n / 2;
            paths.push((first_word % half) as u32);
            paths.push((half + second_word % half) as u32);
        },
        PathSchedule::PaperDeterministic | PathSchedule::AccessPlusPaperDeterministic => {
            let pair: [u32; 2] = paper_deterministic_paths(now, n);
            paths.push(pair[0]);
            paths.push(pair[1]);
            *counter = next_count(now);
        },
        PathSchedule::AccessPlusOneDeterministic => {
            paths.push(one_deterministic_path(now, n, b));
            *counter = next_count(now);
        },
        PathSchedule::AccessPlusTwoDeterministic => {
            proof {
                reveal(is_pow2);
                assert(is_pow2(1));
                assert(is_pow2(2));
            }
            deterministic_path_group(now, n, b, 2, paths);
            *counter = next_count(now);
        },
        PathSchedule::AccessPlusRateDeterministic => {
            rate_deterministic_paths(now, n, b, numerator, denominator, paths);
            *counter = next_count(now);
        },
        PathSchedule::AccessPlusRadixDeterministic => {
            radix_deterministic_paths(now, n, b, paths);
            *counter = next_count(now);
        },
    }
    proof {
        assert(0 <= now * numerator) by (nonlinear_arith);
        vstd::arithmetic::div_mod::lemma_div_pos_is_pos(now * numerator, denominator as int);
        assert(0 <= now * b) by (nonlinear_arith);
        assert forall|step: int| 0 <= step implies 0 <= #[trigger] leaf_at(
            step,
            n as int,
            b as int,
        ) < n && leaf_at(step, n as int, b as int) <= u32::MAX by {
            lemma_leaf(step, n as int, b as int);
        }
        assert forall|step: int| 0 <= step implies 0 <= #[trigger] leaf_at(step, n as int, 2) < n
            && leaf_at(step, n as int, 2) <= u32::MAX by {
            lemma_leaf(step, n as int, 2);
        }
        assert(paths@ =~= goal);
    }
}

/// The count after `now`, around again after the last.
pub open spec fn count_after(now: u64) -> u64 {
    if now == u64::MAX {
        0u64
    } else {
        (now + 1) as u64
    }
}

/// [`count_after`] `now`.
pub(crate) fn next_count(now: u64) -> (r: u64)
    ensures
        r == count_after(now),
{
    now.wrapping_add(1)
}

/// One access to `key`: its block moves to the leaf that `word` names and waits in the
/// stash that `queue` names.
pub fn access(
    simulator: &mut MinibucketLaneSimulator,
    positions: &mut Vec<u32>,
    key: usize,
    word: usize,
    queue: usize,
    schedule: PathSchedule,
    paths: &Vec<u32>,
) -> (r: SimUpdate)
    requires
        old(simulator).wf(),
        old(positions)@.len() <= old(simulator).max_n,
        key < old(positions)@.len(),
        old(positions)@[key as int] < old(simulator).max_n,
        old(simulator).initialized@[key as int] ==> old(simulator).labels@[key as int]
            == old(positions)@[key as int],
        forall|i: int| 0 <= i < paths@.len() ==> #[trigger] paths@[i] < old(simulator).max_n,
    ensures
        final(positions)@ == old(positions)@.update(
            key as int,
            (word as int % old(simulator).max_n as int) as u32,
        ),
        old(simulator).updated(
            final(simulator),
            old(positions)@[key as int],
            (word as int % old(simulator).max_n as int) as u32,
            key as u32,
            queue as int,
            evicts_accessed(schedule),
            paths@,
            r,
        ),
{
    let old_pos: u32 = positions[key];
    let new_pos: u32 = (word % simulator.max_n()) as u32;
    let evict_accessed_path: bool = match schedule {
        PathSchedule::PaperRandom | PathSchedule::PaperDeterministic => false,
        _ => true,
    };
    let result: SimUpdate = simulator.update_with_schedule(
        old_pos,
        new_pos,
        key as u32,
        queue,
        evict_accessed_path,
        paths.as_slice(),
    );
    positions.set(key, new_pos);
    result
}

/// One access to `key` with random words: one for the new leaf, one for the stash and, as
/// the schedule needs, up to two for other paths.
pub fn perform_update(
    simulator: &mut MinibucketLaneSimulator,
    positions: &mut Vec<u32>,
    key: usize,
    random: &mut OsRandomWords,
    queue_random: &mut OsRandomWords,
    eviction_random: &mut OsRandomWords,
    eviction_counter: &mut u64,
    path_schedule: PathSchedule,
    b: usize,
    deterministic_numerator: usize,
    deterministic_denominator: usize,
    radix_paths: &mut Vec<u32>,
) -> (r: Result<SimUpdate, RandomSourceFailed>)
    requires
        old(simulator).wf(),
        old(positions)@.len() <= old(simulator).max_n,
        key < old(positions)@.len(),
        old(positions)@[key as int] < old(simulator).max_n,
        old(simulator).initialized@[key as int] ==> old(simulator).labels@[key as int]
            == old(positions)@[key as int],
        schedulable(
            path_schedule,
            old(simulator).max_n as int,
            b as int,
            deterministic_denominator as int,
        ),
        old(random).wf(),
        old(queue_random).wf(),
        old(eviction_random).wf(),
    ensures
        final(random).wf(),
        final(queue_random).wf(),
        final(eviction_random).wf(),
        old(random).waiting().len() >= 1 && old(queue_random).waiting().len() >= 1 && old(
            eviction_random,
        ).waiting().len() >= draws(path_schedule) ==> r is Ok,
        r matches Ok(result) ==> exists|word: u32, queue: u32, chance: Seq<u32>|
            {
                &&& #[trigger] update_made(
                    old(simulator),
                    final(simulator),
                    old(positions)@,
                    final(positions)@,
                    key as int,
                    word,
                    queue,
                    path_schedule,
                    final(radix_paths)@,
                    result,
                )
                &&& final(radix_paths)@ == #[trigger] background_drawn(
                    path_schedule,
                    *old(eviction_counter) as int,
                    old(simulator).max_n as int,
                    b as int,
                    deterministic_numerator as int,
                    deterministic_denominator as int,
                    chance,
                )
                &&& chance.len() == draws(path_schedule)
                &&& old(random).drew(final(random), seq![word])
                &&& old(queue_random).drew(final(queue_random), seq![queue])
                &&& old(eviction_random).drew(final(eviction_random), chance)
            },
        r is Ok ==> *final(eviction_counter) == (if counts_accesses(path_schedule) {
            count_after(*old(eviction_counter))
        } else {
            *old(eviction_counter)
        }),
        r is Ok && old(random).waiting().len() > 0 ==> final(positions)@[key as int] == old(random).waiting()[0] as int % old(simulator).max_n as int,
        r is Err ==> *final(simulator) == *old(simulator) && *final(positions) == *old(positions)
            && *final(eviction_counter) == *old(eviction_counter),
{
    let word: usize = match random.next_usize() {
        Ok(word) => word,
        Err(error) => {
            return Err(error);
        },
    };
    let queue: usize = match queue_random.next_usize() {
        Ok(queue) => queue,
        Err(error) => {
            return Err(error);
        },
    };
    let mut first_word: usize = 0;
    let mut second_word: usize = 0;
    let ghost eviction0 = *eviction_random;
    let ghost mut chance: Seq<u32> = Seq::empty();
    assert(eviction0.waiting() =~= eviction0.waiting().skip(0));
    let draws_one: bool = match path_schedule {
        PathSchedule::AccessPlusUniform | PathSchedule::PaperRandom => true,
        _ => false,
    };
    if draws_one {
        first_word = match eviction_random.next_usize() {
            Ok(word) => word,
            Err(error) => {
                return Err(error);
            },
        };
        proof {
            chance = seq![first_word as u32];
        }
    }
    let ghost eviction1 = *eviction_random;
    let draws_two: bool = match path_schedule {
        PathSchedule::PaperRandom => true,
        _ => false,
    };
    if draws_two {
        second_word = match eviction_random.next_usize() {
            Ok(word) => word,
            Err(error) => {
                return Err(error);
            },
        };
        proof {
            eviction0.lemma_drew(
                &eviction1,
                eviction_random,
                chance,
                seq![second_word as u32],
            );
            chance = chance + seq![second_word as u32];
        }
    }
    background_paths(
        path_schedule,
        eviction_counter,
        simulator.max_n(),
        b,
        deterministic_numerator,
        deterministic_denominator,
        first_word,
        second_word,
        radix_paths,
    );
    let ghost paths = radix_paths@;
    let result: SimUpdate = access(
        simulator,
        positions,
        key,
        word,
        queue,
        path_schedule,
        radix_paths,
    );
    proof {
        assert(paths == background_drawn(
            path_schedule,
            *old(eviction_counter) as int,
            old(simulator).max_n as int,
            b as int,
            deterministic_numerator as int,
            deterministic_denominator as int,
            chance,
        ));
        assert(update_made(
            old(simulator),
            simulator,
            old(positions)@,
            positions@,
            key as int,
            word as u32,
            queue as u32,
            path_schedule,
            radix_paths@,
            result,
        ));
    }
    let r: Result<SimUpdate, RandomSourceFailed> = Ok(result);
    assert(r->Ok_0 == result);
    r
}

/// The positions of an experiment: a leaf for each of the keys so far, that of the block
/// where there is one.
pub open spec fn keeps_labels(simulator: &MinibucketLaneSimulator, positions: Seq<u32>) -> bool {
    &&& positions.len() <= simulator.max_n
    &&& forall|k: int|
        0 <= k < positions.len() ==> {
            &&& #[trigger] positions[k] < simulator.max_n
            &&& simulator.initialized@[k] ==> simulator.labels@[k] == positions[k]
        }
}

/// A run of the experiment.
#[derive(Debug)]
pub struct Run {
    /// The simulator.
    pub simulator: MinibucketLaneSimulator,
    /// The leaf of every key so far.
    pub positions: Vec<u32>,
    /// Words for new leaves.
    pub label_random: OsRandomWords,
    /// Words for keys.
    pub workload_random: OsRandomWords,
    /// Words for stashes.
    pub queue_random: OsRandomWords,
    /// Words for evicted paths.
    pub eviction_random: OsRandomWords,
    /// Accesses so far, where the schedule counts them.
    pub eviction_counter: u64,
    /// The paths that the last access evicted besides its own.
    pub radix_paths: Vec<u32>,
    /// Which paths are evicted.
    pub path_schedule: PathSchedule,
    /// Paths of the rate.
    pub deterministic_numerator: usize,
    /// Timesteps of the rate.
    pub deterministic_denominator: usize,
}

impl Run {
    /// The stashes have room for all keys, and the schedule can be kept.
    pub open spec fn ready(&self) -> bool {
        &&& self.simulator.wf()
        &&& self.simulator.max_n < self.simulator.stash_capacity < usize::MAX
        &&& is_pow2(self.simulator.max_n as int)
        &&& schedulable(
            self.path_schedule,
            self.simulator.max_n as int,
            self.simulator.b as int,
            self.deterministic_denominator as int,
        )
        &&& keeps_labels(&self.simulator, self.positions@)
        &&& self.label_random.wf()
        &&& self.workload_random.wf()
        &&& self.queue_random.wf()
        &&& self.eviction_random.wf()
    }

    /// The first `positions` keys are stored.
    pub open spec fn wf(&self) -> bool {
        &&& self.ready()
        &&& forall|k: int|
            0 <= k < self.positions@.len() ==> #[trigger] self.simulator.initialized@[k]
        &&& forall|k: int|
            self.positions@.len() <= k < self.simulator.max_n
                ==> !#[trigger] self.simulator.initialized@[k]
    }

    /// What no access changes.
    pub open spec fn same_frame(&self, other: &Self) -> bool {
        &&& self.simulator.same_frame(&other.simulator)
        &&& self.path_schedule == other.path_schedule
        &&& self.deterministic_numerator == other.deterministic_numerator
        &&& self.deterministic_denominator == other.deterministic_denominator
    }

    /// Nothing but random words went since `before`.
    pub open spec fn untouched(&self, before: &Self) -> bool {
        &&& self.same_frame(before)
        &&& self.simulator == before.simulator
        &&& self.positions == before.positions
        &&& self.eviction_counter == before.eviction_counter
    }

    /// The paths that the next access evicts besides its own, with `chance` for words.
    pub open spec fn due_paths(&self, chance: Seq<u32>) -> Seq<u32> {
        background_drawn(
            self.path_schedule,
            self.eviction_counter as int,
            self.simulator.max_n as int,
            self.simulator.b as int,
            self.deterministic_numerator as int,
            self.deterministic_denominator as int,
            chance,
        )
    }

    /// The count after the next access.
    pub open spec fn due_count(&self) -> u64 {
        if counts_accesses(self.path_schedule) {
            count_after(self.eviction_counter)
        } else {
            self.eviction_counter
        }
    }

    /// An access to `key` that moves its block to the leaf that `word` names and puts it
    /// into the stash that `queue` names, with `chance` for other paths and the result `r`,
    /// leaves `after`.
    pub open spec fn accessed(
        &self,
        after: &Self,
        key: int,
        word: u32,
        queue: u32,
        chance: Seq<u32>,
        r: SimUpdate,
    ) -> bool {
        &&& after.same_frame(self)
        &&& self.label_random.drew(&after.label_random, seq![word])
        &&& self.queue_random.drew(&after.queue_random, seq![queue])
        &&& chance.len() == draws(self.path_schedule)
        &&& self.eviction_random.drew(&after.eviction_random, chance)
        &&& after.eviction_counter == self.due_count()
        &&& after.radix_paths@ == self.due_paths(chance)
        &&& update_made(
            &self.simulator,
            &after.simulator,
            self.positions@,
            after.positions@,
            key,
            word,
            queue,
            self.path_schedule,
            self.due_paths(chance),
            r,
        )
    }

    /// Access `operation` of `workload`, with the result `r`, leaves `after`.
    pub open spec fn access_made(
        &self,
        after: &Self,
        workload: Workload,
        operation: int,
        r: SimUpdate,
    ) -> bool {
        exists|words: Seq<u32>, key: int, word: u32, queue: u32, chance: Seq<u32>|
            {
                &&& #[trigger] workload.picks(operation, self.simulator.max_n as int, words, key)
                &&& self.workload_random.drew(&after.workload_random, words)
                &&& #[trigger] self.accessed(after, key, word, queue, chance, r)
            }
    }

    /// Access `i` of a sequence that starts with access `first` leads from state `i` to the
    /// state after it.
    pub open spec fn link(
        states: Seq<Self>,
        workload: Workload,
        first: int,
        results: Seq<SimUpdate>,
        i: int,
    ) -> bool {
        states[i].access_made(&states[i + 1], workload, first + i, results[i])
    }

    /// The accesses of `workload` from number `first` on, one for each of `results`, leave
    /// `after`.
    pub open spec fn accesses(
        &self,
        after: &Self,
        workload: Workload,
        first: int,
        results: Seq<SimUpdate>,
    ) -> bool {
        exists|states: Seq<Self>|
            #![trigger states.first()]
            {
                &&& states.len() == results.len() + 1
                &&& states.first() == *self
                &&& states.last() == *after
                &&& forall|i: int|
                    0 <= i < results.len() ==> #[trigger] Self::link(
                        states,
                        workload,
                        first,
                        results,
                        i,
                    )
            }
    }

    /// `count` accesses of `workload` from number `first` on leave `after`, and `results`
    /// are theirs. If they were not `done`, the words ran out at an access before the last
    /// was made, and `results` are those of the accesses until then.
    pub open spec fn ran(
        &self,
        after: &Self,
        workload: Workload,
        first: int,
        count: int,
        results: Seq<SimUpdate>,
        done: bool,
    ) -> bool {
        if done {
            results.len() == count && self.accesses(after, workload, first, results)
        } else {
            &&& results.len() < count
            &&& exists|mid: Self| #[trigger]
                self.accesses(&mid, workload, first, results) && after.untouched(&mid)
        }
    }

    /// The words of `count` accesses of `workload` wait.
    pub open spec fn words_wait(&self, workload: Workload, count: int) -> bool {
        &&& count <= self.label_random.waiting().len()
        &&& count <= self.queue_random.waiting().len()
        &&& draws(self.path_schedule) * count <= self.eviction_random.waiting().len()
        &&& workload == Workload::Uniform ==> count <= self.workload_random.waiting().len()
    }

    /// As many words wait as waited at `before`, but for those of `count` accesses, as long
    /// as these were enough.
    spec fn words_left(&self, before: &Self, workload: Workload, count: int) -> bool {
        before.words_wait(workload, count) ==> {
            &&& self.label_random.waiting().len() == before.label_random.waiting().len() - count
            &&& self.queue_random.waiting().len() == before.queue_random.waiting().len() - count
            &&& self.eviction_random.waiting().len() == before.eviction_random.waiting().len()
                - draws(before.path_schedule) * count
            &&& workload == Workload::Uniform ==> self.workload_random.waiting().len()
                == before.workload_random.waiting().len() - count
        }
    }

    /// An access takes its words.
    proof fn lemma_words_left(
        &self,
        mid: &Self,
        after: &Self,
        workload: Workload,
        count: int,
        operation: int,
        r: SimUpdate,
    )
        requires
            0 <= count,
            mid.same_frame(self),
            mid.words_left(self, workload, count),
            mid.access_made(after, workload, operation, r),
        ensures
            after.words_left(self, workload, count + 1),
    {
        let n = draws(self.path_schedule);
        assert(n * (count + 1) == n * count + n) by (nonlinear_arith);
    }

    /// As long as the words of one more access wait, an access finds its words.
    proof fn lemma_words_wait(&self, mid: &Self, workload: Workload, count: int, whole: int)
        requires
            0 <= count < whole,
            mid.same_frame(self),
            mid.words_left(self, workload, count),
            self.words_wait(workload, whole),
        ensures
            mid.words_wait(workload, 1),
    {
        let n = draws(self.path_schedule);
        assert(n * count + n <= n * whole) by (nonlinear_arith)
            requires
                0 <= n,
                count + 1 <= whole,
        ;
        assert(n * 1 == n);
    }

    /// One more access.
    proof fn lemma_one_more(
        &self,
        mid: &Self,
        after: &Self,
        workload: Workload,
        first: int,
        results: Seq<SimUpdate>,
        r: SimUpdate,
    )
        requires
            self.accesses(mid, workload, first, results),
            mid.access_made(after, workload, first + results.len(), r),
        ensures
            self.accesses(after, workload, first, results.push(r)),
    {
        let states = choose|states: Seq<Self>|
            #![trigger states.first()]
            {
                &&& states.len() == results.len() + 1
                &&& states.first() == *self
                &&& states.last() == *mid
                &&& forall|i: int|
                    0 <= i < results.len() ==> #[trigger] Self::link(
                        states,
                        workload,
                        first,
                        results,
                        i,
                    )
            };
        let more = states.push(*after);
        let all = results.push(r);
        assert(more.first() == *self);
        assert forall|i: int| 0 <= i < all.len() implies #[trigger] Self::link(
            more,
            workload,
            first,
            all,
            i,
        ) by {
            if i < results.len() {
                assert(Self::link(states, workload, first, results, i));
            }
        }
    }

    /// Without an access nothing changes.
    proof fn lemma_no_access(&self, workload: Workload, first: int)
        ensures
            self.accesses(self, workload, first, Seq::empty()),
    {
        let states = seq![*self];
        assert(states.first() == *self);
    }

    /// Storing the first key that is not stored, first at the leaf that `word` names and
    /// then at the leaf that `new_word` names, leaves `after`.
    pub open spec fn stored_with(
        &self,
        after: &Self,
        word: u32,
        new_word: u32,
        queue: u32,
        chance: Seq<u32>,
        r: SimUpdate,
    ) -> bool {
        let n = self.simulator.max_n as int;
        let key = self.positions@.len() as int;
        &&& after.same_frame(self)
        &&& self.label_random.drew(&after.label_random, seq![word] + seq![new_word])
        &&& self.queue_random.drew(&after.queue_random, seq![queue])
        &&& chance.len() == draws(self.path_schedule)
        &&& self.eviction_random.drew(&after.eviction_random, chance)
        &&& after.workload_random == self.workload_random
        &&& after.eviction_counter == self.due_count()
        &&& after.radix_paths@ == self.due_paths(chance)
        &&& update_made(
            &self.simulator,
            &after.simulator,
            self.positions@.push((word as int % n) as u32),
            after.positions@,
            key,
            new_word,
            queue,
            self.path_schedule,
            self.due_paths(chance),
            r,
        )
    }

    /// Storing one more key leads from state `i` to the state after it.
    pub open spec fn stored_next(states: Seq<Self>, i: int) -> bool {
        exists|word: u32, new_word: u32, queue: u32, chance: Seq<u32>, r: SimUpdate| #[trigger]
            states[i].stored_with(&states[i + 1], word, new_word, queue, chance, r)
    }

    /// Storing `count` keys leaves `after`.
    pub open spec fn filled(&self, after: &Self, count: int) -> bool {
        exists|states: Seq<Self>|
            #![trigger states.first()]
            {
                &&& states.len() == count + 1
                &&& states.first() == *self
                &&& states.last() == *after
                &&& forall|i: int| 0 <= i < count ==> #[trigger] Self::stored_next(states, i)
            }
    }

    /// One more key.
    proof fn lemma_one_more_key(
        &self,
        mid: &Self,
        after: &Self,
        count: int,
        word: u32,
        new_word: u32,
        queue: u32,
        chance: Seq<u32>,
        r: SimUpdate,
    )
        requires
            0 <= count,
            self.filled(mid, count),
            mid.stored_with(after, word, new_word, queue, chance, r),
        ensures
            self.filled(after, count + 1),
    {
        let states = choose|states: Seq<Self>|
            #![trigger states.first()]
            {
                &&& states.len() == count + 1
                &&& states.first() == *self
                &&& states.last() == *mid
                &&& forall|i: int| 0 <= i < count ==> #[trigger] Self::stored_next(states, i)
            };
        let more = states.push(*after);
        assert(more.first() == *self);
        assert forall|i: int| 0 <= i < count + 1 implies #[trigger] Self::stored_next(more, i) by {
            if i < count {
                assert(Self::stored_next(states, i));
                let (w, v, u, c, q) = choose|w: u32, v: u32, u: u32, c: Seq<u32>, q: SimUpdate|
                    #[trigger] states[i].stored_with(&states[i + 1], w, v, u, c, q);
                assert(more[i].stored_with(&more[i + 1], w, v, u, c, q));
            } else {
                assert(more[i].stored_with(&more[i + 1], word, new_word, queue, chance, r));
            }
        }
    }

    /// The words for storing `count` keys wait.
    pub open spec fn fill_words_wait(&self, count: int) -> bool {
        &&& 2 * count <= self.label_random.waiting().len()
        &&& count <= self.queue_random.waiting().len()
        &&& draws(self.path_schedule) * count <= self.eviction_random.waiting().len()
    }

    /// As many words wait as waited at `before`, but for those of storing `count` keys, as
    /// long as these were enough.
    spec fn fill_words_left(&self, before: &Self, count: int) -> bool {
        before.fill_words_wait(count) ==> {
            &&& self.label_random.waiting().len() == before.label_random.waiting().len() - 2
                * count
            &&& self.queue_random.waiting().len() == before.queue_random.waiting().len() - count
            &&& self.eviction_random.waiting().len() == before.eviction_random.waiting().len()
                - draws(before.path_schedule) * count
        }
    }

    /// A run with nothing stored that takes its words from the given sources.
    pub fn with_words(
        simulator: MinibucketLaneSimulator,
        path_schedule: PathSchedule,
        deterministic_numerator: usize,
        deterministic_denominator: usize,
        label_random: OsRandomWords,
        workload_random: OsRandomWords,
        queue_random: OsRandomWords,
        eviction_random: OsRandomWords,
    ) -> (r: Self)
        requires
            simulator.wf(),
            simulator.max_n < simulator.stash_capacity < usize::MAX,
            schedulable(
                path_schedule,
                simulator.max_n as int,
                simulator.b as int,
                deterministic_denominator as int,
            ),
            forall|k: int| 0 <= k < simulator.max_n ==> !#[trigger] simulator.initialized@[k],
            label_random.wf(),
            workload_random.wf(),
            queue_random.wf(),
            eviction_random.wf(),
        ensures
            r.wf(),
            r.simulator == simulator,
            r.positions@ == Seq::<u32>::empty(),
            r.label_random == label_random,
            r.workload_random == workload_random,
            r.queue_random == queue_random,
            r.eviction_random == eviction_random,
            r.eviction_counter == 0,
            r.radix_paths@ == Seq::<u32>::empty(),
            r.path_schedule == path_schedule,
            r.deterministic_numerator == deterministic_numerator,
            r.deterministic_denominator == deterministic_denominator,
    {
        Run {
            simulator,
            positions: Vec::new(),
            label_random,
            workload_random,
            queue_random,
            eviction_random,
            eviction_counter: 0,
            radix_paths: Vec::new(),
            path_schedule,
            deterministic_numerator,
            deterministic_denominator,
        }
    }

    /// One access to `key`. It finds the key exactly when that was stored, and never
    /// overflows the stashes.
    fn step(&mut self, key: usize) -> (r: Result<SimUpdate, RandomSourceFailed>)
        requires
            old(self).ready(),
            key < old(self).positions@.len(),
        ensures
            final(self).ready(),
            final(self).same_frame(old(self)),
            final(self).positions@.len() == old(self).positions@.len(),
            final(self).workload_random == old(self).workload_random,
            old(self).label_random.waiting().len() >= 1 && old(self).queue_random.waiting().len()
                >= 1 && old(self).eviction_random.waiting().len() >= draws(
                old(self).path_schedule,
            ) ==> r is Ok,
            r is Err ==> final(self).untouched(old(self)),
            r matches Ok(result) ==> exists|word: u32, queue: u32, chance: Seq<u32>| #[trigger]
                old(self).accessed(final(self), key as int, word, queue, chance, result),
            r matches Ok(result) ==> {
                &&& result.found == old(self).simulator.initialized@[key as int]
                &&& !result.overflowed
                &&& result.stash_after <= final(self).simulator.stash_capacity
                &&& result.insertion_demand <= final(self).simulator.stash_capacity
                &&& final(self).simulator.initialized@ == old(self).simulator.initialized@.update(
                    key as int,
                    true,
                )
            },
    {
        let ghost before = *self;
        let ghost known = self.positions@;
        proof {
            self.simulator.lemma_roomy_stashes(key as u32);
            assert(known[key as int] < self.simulator.max_n);
        }
        let b: usize = self.simulator.b;
        let r: Result<SimUpdate, RandomSourceFailed> = perform_update(
            &mut self.simulator,
            &mut self.positions,
            key,
            &mut self.label_random,
            &mut self.queue_random,
            &mut self.eviction_random,
            &mut self.eviction_counter,
            self.path_schedule,
            b,
            self.deterministic_numerator,
            self.deterministic_denominator,
            &mut self.radix_paths,
        );
        proof {
            if let Ok(result) = r {
                let (word, queue, chance) = choose|word: u32, queue: u32, chance: Seq<u32>|
                    {
                        &&& #[trigger] update_made(
                            &before.simulator,
                            &self.simulator,
                            known,
                            self.positions@,
                            key as int,
                            word,
                            queue,
                            self.path_schedule,
                            self.radix_paths@,
                            result,
                        )
                        &&& self.radix_paths@ == #[trigger] background_drawn(
                            self.path_schedule,
                            before.eviction_counter as int,
                            before.simulator.max_n as int,
                            b as int,
                            self.deterministic_numerator as int,
                            self.deterministic_denominator as int,
                            chance,
                        )
                        &&& chance.len() == draws(self.path_schedule)
                        &&& before.label_random.drew(&self.label_random, seq![word])
                        &&& before.queue_random.drew(&self.queue_random, seq![queue])
                        &&& before.eviction_random.drew(&self.eviction_random, chance)
                    };
                assert(update_made(
                    &before.simulator,
                    &self.simulator,
                    known,
                    self.positions@,
                    key as int,
                    word,
                    queue,
                    self.path_schedule,
                    self.radix_paths@,
                    result,
                ));
                assert(before.accessed(self, key as int, word, queue, chance, result));
                self.simulator.lemma_load();
                assert forall|k: int| 0 <= k < self.positions@.len() implies {
                    &&& #[trigger] self.positions@[k] < self.simulator.max_n
                    &&& self.simulator.initialized@[k] ==> self.simulator.labels@[k]
                        == self.positions@[k]
                } by {
                    assert(known[k] < before.simulator.max_n);
                }
            }
        }
        r
    }

    /// Stores every key, one after another. If the words run out before that, the keys
    /// until then are stored.
    pub fn fill(&mut self) -> (r: Result<(), RandomSourceFailed>)
        requires
            old(self).wf(),
        ensures
            final(self).same_frame(old(self)),
            old(self).fill_words_wait(old(self).simulator.max_n - old(self).positions@.len())
                ==> r is Ok,
            r is Ok ==> final(self).wf() && final(self).positions@.len()
                == old(self).simulator.max_n && old(self).filled(
                final(self),
                old(self).simulator.max_n - old(self).positions@.len(),
            ),
            r is Err ==> exists|mid: Self, count: int|
                {
                    &&& 0 <= count < old(self).simulator.max_n - old(self).positions@.len()
                    &&& #[trigger] old(self).filled(&mid, count)
                    &&& final(self).simulator == mid.simulator
                    &&& final(self).eviction_counter == mid.eviction_counter
                    &&& mid.positions@.is_prefix_of(final(self).positions@)
                },
    {
        let ghost before = *self;
        let ghost mut count: int = 0;
        let n: usize = self.simulator.max_n();
        let ghost whole = n - before.positions@.len();
        let ghost each = draws(before.path_schedule);
        proof {
            let states = seq![before];
            assert(states.first() == before);
            assert(each * 0 == 0);
        }
        while self.positions.len() < n
            invariant
                self.wf(),
                n == self.simulator.max_n,
                before == *old(self),
                self.same_frame(&before),
                0 <= count,
                whole == n - before.positions@.len(),
                each == draws(before.path_schedule),
                self.positions@.len() == before.positions@.len() + count,
                before.filled(self, count),
                self.fill_words_left(&before, count),
            decreases n - self.positions@.len(),
        {
            let key: usize = self.positions.len();
            let ghost here = *self;
            proof {
                assert(0 <= each * count) by (nonlinear_arith)
                    requires
                        0 <= each,
                        0 <= count,
                ;
                assert(each * count + each <= each * whole) by (nonlinear_arith)
                    requires
                        0 <= each,
                        count + 1 <= whole,
                ;
                assert(each * (count + 1) == each * count + each) by (nonlinear_arith);
            }
            let word: usize = match self.label_random.next_usize() {
                Ok(word) => word,
                Err(error) => {
                    assert(before.filled(&here, count));
                    return Err(error);
                },
            };
            self.positions.push((word % n) as u32);
            let ghost pushed = *self;
            match self.step(key) {
                Ok(_result) => {
                    proof {
                        let (new_word, queue, chance) = choose|w: u32, u: u32, c: Seq<u32>|
                            #[trigger] pushed.accessed(self, key as int, w, u, c, _result);
                        here.label_random.lemma_drew(
                            &pushed.label_random,
                            &self.label_random,
                            seq![word as u32],
                            seq![new_word],
                        );
                        assert(here.stored_with(
                            self,
                            word as u32,
                            new_word,
                            queue,
                            chance,
                            _result,
                        ));
                        before.lemma_one_more_key(
                            &here,
                            self,
                            count,
                            word as u32,
                            new_word,
                            queue,
                            chance,
                            _result,
                        );
                        assert forall|k: int|
                            0 <= k < self.positions@.len() implies #[trigger] self.simulator.initialized@[k] by {
                            if k < key {
                                assert(here.simulator.initialized@[k]);
                            }
                        }
                        assert forall|k: int|
                            self.positions@.len() <= k
                                < self.simulator.max_n implies !#[trigger] self.simulator.initialized@[k] by {
                            assert(!here.simulator.initialized@[k]);
                        }
                        count = count + 1;
                    }
                },
                Err(error) => {
                    assert(before.filled(&here, count));
                    return Err(error);
                },
            }
        }
        Ok(())
    }

    /// One access of `workload`, number `operation`, with every key stored.
    pub fn access_next(&mut self, workload: Workload, operation: u64) -> (r: Result<
        SimUpdate,
        RandomSourceFailed,
    >)
        requires
            old(self).wf(),
            old(self).positions@.len() == old(self).simulator.max_n,
        ensures
            final(self).wf(),
            final(self).same_frame(old(self)),
            final(self).positions@.len() == old(self).positions@.len(),
            old(self).words_wait(workload, 1) ==> r is Ok,
            r matches Ok(result) ==> old(self).access_made(
                final(self),
                workload,
                operation as int,
                result,
            ),
            r matches Ok(result) ==> result.found && !result.overflowed && result.stash_after
                <= final(self).simulator.stash_capacity && result.insertion_demand <= final(self).simulator.stash_capacity,
            r is Err ==> final(self).untouched(old(self)),
    {
        let ghost before = *self;
        let n: usize = self.simulator.max_n();
        match workload.key(operation, n, &mut self.workload_random) {
            Ok(key) => {
                let ghost chosen = *self;
                let r: Result<SimUpdate, RandomSourceFailed> = self.step(key);
                proof {
                    if let Ok(result) = r {
                        let words = choose|words: Seq<u32>| #[trigger]
                            workload.picks(operation as int, n as int, words, key as int)
                                && before.workload_random.drew(&chosen.workload_random, words);
                        let (word, queue, chance) = choose|
                            word: u32,
                            queue: u32,
                            chance: Seq<u32>,
                        | #[trigger] chosen.accessed(self, key as int, word, queue, chance, result);
                        assert(before.accessed(self, key as int, word, queue, chance, result));
                        assert(workload.picks(operation as int, n as int, words, key as int));
                    }
                    assert forall|k: int|
                        0 <= k < self.positions@.len() implies #[trigger] self.simulator.initialized@[k] by {
                        assert(before.simulator.initialized@[k]);
                    }
                }
                r
            },
            Err(error) => Err(error),
        }
    }

    /// Makes the accesses of `workload` up to `end`, without taking samples.
    pub fn warm_up(&mut self, workload: Workload, end: u64) -> (r: Result<(), RandomSourceFailed>)
        requires
            old(self).wf(),
            old(self).positions@.len() == old(self).simulator.max_n,
        ensures
            final(self).wf(),
            final(self).same_frame(old(self)),
            final(self).positions@.len() == old(self).positions@.len(),
            old(self).words_wait(workload, end as int) ==> r is Ok,
            exists|results: Seq<SimUpdate>| #[trigger]
                old(self).ran(final(self), workload, 0, end as int, results, r is Ok),
    {
        let ghost before = *self;
        let ghost mut results: Seq<SimUpdate> = Seq::empty();
        let mut operation: u64 = 0;
        proof {
            before.lemma_no_access(workload, 0);
            assert(draws(before.path_schedule) * 0 == 0);
        }
        while operation < end
            invariant
                operation <= end,
                self.wf(),
                before == *old(self),
                self.same_frame(&before),
                self.positions@.len() == before.positions@.len() == self.simulator.max_n,
                results.len() == operation,
                before.accesses(self, workload, 0, results),
                self.words_left(&before, workload, operation as int),
            decreases end - operation,
        {
            let ghost here = *self;
            proof {
                if before.words_wait(workload, end as int) {
                    before.lemma_words_wait(&here, workload, operation as int, end as int);
                }
            }
            match self.access_next(workload, operation) {
                Ok(result) => {
                    proof {
                        before.lemma_one_more(&here, self, workload, 0, results, result);
                        before.lemma_words_left(
                            &here,
                            self,
                            workload,
                            operation as int,
                            operation as int,
                            result,
                        );
                        results = results.push(result);
                    }
                },
                Err(error) => {
                    assert(before.accesses(&here, workload, 0, results));
                    assert(before.ran(self, workload, 0, end as int, results, false));
                    return Err(error);
                },
            }
            operation += 1;
        }
        assert(before.ran(self, workload, 0, end as int, results, true));
        Ok(())
    }

    /// Makes `operations` accesses of `workload` from number `first` on. Gives the samples
    /// of each, and adds them to those of `all`.
    pub fn measure(
        &mut self,
        workload: Workload,
        first: u64,
        operations: u64,
        all: &mut Measured,
    ) -> (r: Result<Measured, RandomSourceFailed>)
        requires
            old(self).wf(),
            old(self).positions@.len() == old(self).simulator.max_n,
            first + operations <= u64::MAX,
            old(all).post.count + operations <= u64::MAX,
            old(all).counts(
                old(all).post.count as int,
                old(self).simulator.stash_capacity as int,
            ),
        ensures
            final(self).wf(),
            final(self).same_frame(old(self)),
            final(self).positions@.len() == old(self).positions@.len(),
            old(self).words_wait(workload, operations as int) ==> r is Ok,
            exists|results: Seq<SimUpdate>|
                {
                    let most = final(self).simulator.stash_capacity as int;
                    &&& #[trigger] old(self).ran(
                        final(self),
                        workload,
                        first as int,
                        operations as int,
                        results,
                        r is Ok,
                    )
                    &&& r matches Ok(m) ==> m.post.count == operations && m.shows(
                        stash_sizes(results),
                        stash_demands(results),
                        operations as int,
                        most,
                    )
                    &&& final(all).post.count == old(all).post.count + results.len()
                    &&& final(all).counts(final(all).post.count as int, most)
                    &&& forall|post: Seq<usize>, demand: Seq<usize>| #[trigger]
                        old(all).shows(post, demand, old(all).post.count as int, most)
                            ==> final(all).shows(
                            post + stash_sizes(results),
                            demand + stash_demands(results),
                            final(all).post.count as int,
                            most,
                        )
                },
    {
        let ghost before = *self;
        let ghost most = self.simulator.stash_capacity as int;
        let ghost mut results: Seq<SimUpdate> = Seq::empty();
        let ghost all0 = *all;
        let ghost count0 = all.post.count as int;
        let mut measured: Measured = Measured::new();
        let mut i: u64 = 0;
        proof {
            before.lemma_no_access(workload, first as int);
            assert(draws(before.path_schedule) * 0 == 0);
            assert(stash_sizes(results) =~= Seq::empty());
            assert(stash_demands(results) =~= Seq::empty());
            assert forall|post: Seq<usize>, demand: Seq<usize>| #[trigger]
                all0.shows(post, demand, count0, most) implies all.shows(
                post + stash_sizes(results),
                demand + stash_demands(results),
                count0,
                most,
            ) by {
                assert(post + stash_sizes(results) =~= post);
                assert(demand + stash_demands(results) =~= demand);
            }
        }
        while i < operations
            invariant
                i <= operations,
                first + operations <= u64::MAX,
                self.wf(),
                before == *old(self),
                all0 == *old(all),
                count0 == all0.post.count,
                self.same_frame(&before),
                most == self.simulator.stash_capacity,
                self.positions@.len() == before.positions@.len() == self.simulator.max_n,
                measured.post.count == i,
                measured.counts(i as int, most),
                measured.shows(stash_sizes(results), stash_demands(results), i as int, most),
                results.len() == i,
                before.accesses(self, workload, first as int, results),
                self.words_left(&before, workload, i as int),
                count0 + operations <= u64::MAX,
                all.post.count == count0 + i,
                all.counts(all.post.count as int, most),
                forall|post: Seq<usize>, demand: Seq<usize>| #[trigger]
                    all0.shows(post, demand, count0, most) ==> all.shows(
                        post + stash_sizes(results),
                        demand + stash_demands(results),
                        count0 + i,
                        most,
                    ),
            decreases operations - i,
        {
            let ghost here = *self;
            let ghost all1 = *all;
            proof {
                if before.words_wait(workload, operations as int) {
                    before.lemma_words_wait(&here, workload, i as int, operations as int);
                }
            }
            match self.access_next(workload, first + i) {
                Ok(result) => {
                    measured.record(result.stash_after, result.insertion_demand, Ghost(most));
                    all.record(result.stash_after, result.insertion_demand, Ghost(most));
                    proof {
                        before.lemma_one_more(&here, self, workload, first as int, results, result);
                        before.lemma_words_left(
                            &here,
                            self,
                            workload,
                            i as int,
                            first + i,
                            result,
                        );
                        let more = results.push(result);
                        assert(stash_sizes(more) =~= stash_sizes(results).push(result.stash_after));
                        assert(stash_demands(more) =~= stash_demands(results).push(
                            result.insertion_demand,
                        ));
                        assert forall|post: Seq<usize>, demand: Seq<usize>| #[trigger]
                            all0.shows(post, demand, count0, most) implies all.shows(
                            post + stash_sizes(more),
                            demand + stash_demands(more),
                            count0 + i + 1,
                            most,
                        ) by {
                            let p = post + stash_sizes(results);
                            let d = demand + stash_demands(results);
                            assert(all1.shows(p, d, count0 + i, most));
                            assert(post + stash_sizes(more) =~= p.push(result.stash_after));
                            assert(demand + stash_demands(more) =~= d.push(
                                result.insertion_demand,
                            ));
                        }
                        results = more;
                    }
                },
                Err(error) => {
                    assert(before.accesses(&here, workload, first as int, results));
                    assert(before.ran(
                        self,
                        workload,
                        first as int,
                        operations as int,
                        results,
                        false,
                    ));
                    return Err(error);
                },
            }
            i += 1;
        }
        assert(before.ran(self, workload, first as int, operations as int, results, true));
        let r: Result<Measured, RandomSourceFailed> = Ok(measured);
        assert(r->Ok_0 == measured);
        r
    }
}

/// The stash sizes after accesses.
pub open spec fn stash_sizes(results: Seq<SimUpdate>) -> Seq<usize> {
    results.map_values(|r: SimUpdate| r.stash_after)
}

/// The stash sizes that accesses asked for.
pub open spec fn stash_demands(results: Seq<SimUpdate>) -> Seq<usize> {
    results.map_values(|r: SimUpdate| r.insertion_demand)
}

/// Starts the run that `args` asks for, or nothing when the machine cannot count its
/// slots.
pub fn start(args: &Args) -> (r: Result<Option<Run>, RandomSourceFailed>)
    requires
        refusal(args@) is None,
    ensures
        (r is Ok && r->Ok_0 is None) <==> (args.n > 0x8000_0000 || 2 * args.n * (args.z * args.y)
            > usize::MAX),
        r matches Ok(Some(run)) ==> {
            &&& run.wf()
            &&& run.simulator.max_n == args.n
            &&& run.simulator.z == args.z
            &&& run.simulator.y == args.y
            &&& run.simulator.b == args.b
            &&& run.simulator.random_queues == (args.queue_policy == QueuePolicy::Random)
            &&& run.simulator.eviction_policy == args.eviction_policy
            &&& run.simulator.eviction_chains == args.eviction_chains
            &&& run.simulator.stash_capacity == args.n + 1
            &&& run.positions@ == Seq::<u32>::empty()
            &&& run.path_schedule == args.path_schedule
            &&& run.deterministic_numerator == args.deterministic_numerator
            &&& run.deterministic_denominator == args.deterministic_denominator
            &&& run.eviction_counter == 0
            &&& run.label_random.waiting().len() == OS_RANDOM_BATCH_WORDS
            &&& run.workload_random.waiting().len() == OS_RANDOM_BATCH_WORDS
            &&& run.queue_random.waiting().len() == OS_RANDOM_BATCH_WORDS
            &&& run.eviction_random.waiting().len() == OS_RANDOM_BATCH_WORDS
        },
{
    let n: usize = args.n;
    let b: usize = args.b;
    let ghost f = b as int;
    let ghost k = choose|k: nat| #[trigger] pow(f, k) == n;
    let ghost w = args.z * args.y;
    proof {
        reveal(is_pow2);
        assert(full_width(k as int, f) == n);
        lemma_exact_tree(k as int, f, 1);
        lemma_digits_of_power(k as int, f);
        lemma_full_width(0, f);
        if k > 0 {
            lemma_full_width_grows(1, k as int, f);
        }
        assert(1 <= w) by (nonlinear_arith)
            requires
                w == args.z * args.y,
                1 <= args.z,
                1 <= args.y,
        ;
        assert(2 * n <= 2 * n * w) by (nonlinear_arith)
            requires
                1 <= w,
                0 <= n,
        ;
        assert(w <= 2 * n * w) by (nonlinear_arith)
            requires
                1 <= n,
                0 <= w,
        ;
    }
    if n > 0x8000_0000 {
        return Ok(None);
    }
    let width: usize = match args.z.checked_mul(args.y) {
        Some(width) => width,
        None => {
            return Ok(None);
        },
    };
    let slots: Option<usize> = match n.checked_mul(2) {
        Some(nodes) => nodes.checked_mul(width),
        None => None,
    };
    assert(n * 2 * w == 2 * n * w);
    if slots.is_none() {
        return Ok(None);
    }
    proof {
        let nodes = full_nodes(f, k as int + 1);
        assert(nodes * w <= 2 * n * w) by (nonlinear_arith)
            requires
                nodes <= 2 * n,
                0 <= w,
        ;
        assert((k + 1) * w <= nodes * w) by (nonlinear_arith)
            requires
                k + 1 <= nodes,
                0 <= w,
        ;
    }
    let mut simulator: MinibucketLaneSimulator = MinibucketLaneSimulator::new(
        n,
        args.z,
        args.y,
        b,
        n + 1,
    );
    let random: bool = match args.queue_policy {
        QueuePolicy::Random => true,
        _ => false,
    };
    if random {
        simulator = simulator.with_random_queues();
    }
    let simulator: MinibucketLaneSimulator = simulator.with_eviction_strategy(
        args.eviction_policy,
        args.eviction_chains,
    );
    let label_random: OsRandomWords = match OsRandomWords::new() {
        Ok(words) => words,
        Err(error) => {
            return Err(error);
        },
    };
    let workload_random: OsRandomWords = match OsRandomWords::new() {
        Ok(words) => words,
        Err(error) => {
            return Err(error);
        },
    };
    let queue_random: OsRandomWords = match OsRandomWords::new() {
        Ok(words) => words,
        Err(error) => {
            return Err(error);
        },
    };
    let eviction_random: OsRandomWords = match OsRandomWords::new() {
        Ok(words) => words,
        Err(error) => {
            return Err(error);
        },
    };
    Ok(
        Some(
            Run::with_words(
                simulator,
                args.path_schedule,
                args.deterministic_numerator,
                args.deterministic_denominator,
                label_random,
                workload_random,
                queue_random,
                eviction_random,
            ),
        ),
    )
}

} // verus!
