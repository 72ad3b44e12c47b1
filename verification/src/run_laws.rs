//! What the runs of the stash experiments do over their accesses.
use vstd::prelude::*;
use crate::heap_tree::full_width;
use crate::lane_oram_sim::SimUpdate;
use crate::lane_security_args::Workload;
use crate::lane_security_run::{rate_paths, Run};
use crate::minibucket_args::{PathSchedule, Workload as MinibucketWorkload};
use crate::minibucket_run::{background, Run as MinibucketRun};
use crate::minibucket_sim::SimUpdate as MinibucketUpdate;
use crate::schedule_laws::{comes_up, halves, lemma_fixed_pace, lemma_rate_comes_up, pace};

verus! {

impl Run {
    /// The simulator makes the update of an access with the paths that the run shows
    /// afterwards as those of its last access.
    pub proof fn lemma_paths_shown(&self, after: &Self, key: int, word: u32, r: SimUpdate)
        requires
            0 <= key < self.positions@.len(),
            self.accessed(after, key, word, r),
        ensures
            self.simulator.updated(
                &after.simulator,
                self.positions@[key],
                after.positions@[key],
                key as u32,
                after.background_paths@,
                r,
            ),
            after.positions@.len() == self.positions@.len(),
            forall|k: int|
                0 <= k < self.positions@.len() && k != key ==> #[trigger] after.positions@[k]
                    == self.positions@[k],
    {
    }

    proof fn lemma_counter(
        states: Seq<Self>,
        workload: Workload,
        first: int,
        results: Seq<SimUpdate>,
        n: int,
    )
        requires
            states.len() == results.len() + 1,
            0 <= n <= results.len(),
            states[0].eviction_counter + results.len() <= u64::MAX,
            forall|i: int|
                0 <= i < results.len() ==> #[trigger] Self::link(
                    states,
                    workload,
                    first,
                    results,
                    i,
                ),
        ensures
            states[n].eviction_counter == states[0].eviction_counter + n,
            states[n].simulator.max_n == states[0].simulator.max_n,
            states[n].simulator.b == states[0].simulator.b,
            states[n].deterministic_numerator == states[0].deterministic_numerator,
            states[n].deterministic_denominator == states[0].deterministic_denominator,
            n < results.len() ==> states[n + 1].background_paths@ == rate_paths(
                states[0].eviction_counter + n,
                states[0].simulator.max_n as int,
                states[0].simulator.b as int,
                states[0].deterministic_numerator as int,
                states[0].deterministic_denominator as int,
            ),
        decreases n,
    {
        if n > 0 {
            Self::lemma_counter(states, workload, first, results, n - 1);
            assert(Self::link(states, workload, first, results, n - 1));
        }
        if n < results.len() {
            assert(Self::link(states, workload, first, results, n));
        }
    }

    /// Over the accesses of a run every leaf is evicted, once the rate has given them as many
    /// paths as there are leaves.
    pub proof fn lemma_run_reaches_every_leaf(
        states: Seq<Self>,
        workload: Workload,
        first: int,
        results: Seq<SimUpdate>,
        k: int,
        leaf: int,
    )
        requires
            states.len() == results.len() + 1,
            states[0].wf(),
            states[0].eviction_counter + results.len() <= u64::MAX,
            forall|i: int|
                0 <= i < results.len() ==> #[trigger] Self::link(
                    states,
                    workload,
                    first,
                    results,
                    i,
                ),
            0 <= k,
            states[0].simulator.max_n == full_width(k, states[0].simulator.b as int),
            (states[0].eviction_counter + results.len()) * states[0].deterministic_numerator
                / states[0].deterministic_denominator as int - states[0].eviction_counter
                * states[0].deterministic_numerator / states[0].deterministic_denominator as int
                >= states[0].simulator.max_n,
            0 <= leaf < states[0].simulator.max_n,
        ensures
            exists|i: int, j: int|
                0 <= i < results.len() && 0 <= j < states[i + 1].background_paths@.len()
                    && #[trigger] states[i + 1].background_paths@[j] == leaf,
    {
        let s = states[0];
        let c = s.eviction_counter as int;
        let end = c + results.len();
        let n = s.simulator.max_n as int;
        let b = s.simulator.b as int;
        let p = s.deterministic_numerator as int;
        let q = s.deterministic_denominator as int;
        lemma_rate_comes_up(c, end, k, b, p, q, |a: int| (0, 0), leaf);
        let (a, j) = choose|a: int, j: int|
            c <= a < end && 0 <= j < rate_paths(a, n, b, p, q).len() && #[trigger] rate_paths(
                a,
                n,
                b,
                p,
                q,
            )[j] == leaf;
        let i = a - c;
        Self::lemma_counter(states, workload, first, results, i);
        assert(states[i + 1].background_paths@[j] == leaf);
    }
}

impl MinibucketRun {
    /// The simulator makes the update of an access with the paths that the run shows
    /// afterwards as those of its last access.
    pub proof fn lemma_paths_shown(
        &self,
        after: &Self,
        key: int,
        word: u32,
        queue: u32,
        chance: Seq<u32>,
        r: MinibucketUpdate,
    )
        requires
            0 <= key < self.positions@.len(),
            self.accessed(after, key, word, queue, chance, r),
        ensures
            exists|evict_accessed_path: bool| #[trigger]
                self.simulator.updated(
                    &after.simulator,
                    self.positions@[key],
                    after.positions@[key],
                    key as u32,
                    queue as int,
                    evict_accessed_path,
                    after.radix_paths@,
                    r,
                ) && (!evict_accessed_path ==> after.radix_paths@.len() == 2),
            after.positions@.len() == self.positions@.len(),
            forall|k: int|
                0 <= k < self.positions@.len() && k != key ==> #[trigger] after.positions@[k]
                    == self.positions@[k],
    {
        let e = crate::minibucket_run::evicts_accessed(self.path_schedule);
        assert(self.simulator.updated(
            &after.simulator,
            self.positions@[key],
            after.positions@[key],
            key as u32,
            queue as int,
            e,
            after.radix_paths@,
            r,
        ));
    }

    /// A schedule that goes through the leaves in order.
    pub open spec fn in_order(&self) -> bool {
        pace(self.path_schedule, self.simulator.b as int) > 0 || self.path_schedule
            == PathSchedule::AccessPlusRateDeterministic
    }

    proof fn lemma_counter(
        states: Seq<Self>,
        workload: MinibucketWorkload,
        first: int,
        results: Seq<MinibucketUpdate>,
        n: int,
    )
        requires
            states.len() == results.len() + 1,
            0 <= n <= results.len(),
            states[0].in_order(),
            states[0].eviction_counter + results.len() <= u64::MAX,
            forall|i: int|
                0 <= i < results.len() ==> #[trigger] Self::link(
                    states,
                    workload,
                    first,
                    results,
                    i,
                ),
        ensures
            states[n].eviction_counter == states[0].eviction_counter + n,
            states[n].same_frame(&states[0]),
            n < results.len() ==> states[n + 1].radix_paths@ == background(
                states[0].path_schedule,
                states[0].eviction_counter + n,
                states[0].simulator.max_n as int,
                states[0].simulator.b as int,
                states[0].deterministic_numerator as int,
                states[0].deterministic_denominator as int,
                0,
                0,
            ),
        decreases n,
    {
        if n > 0 {
            Self::lemma_counter(states, workload, first, results, n - 1);
            assert(Self::link(states, workload, first, results, n - 1));
        }
        if n < results.len() {
            assert(Self::link(states, workload, first, results, n));
        }
    }

    /// Over the accesses of a run with a schedule that goes through the leaves in order,
    /// every leaf is evicted once the schedule has given them as many paths as there are
    /// leaves.
    pub proof fn lemma_run_reaches_every_leaf(
        states: Seq<Self>,
        workload: MinibucketWorkload,
        first: int,
        results: Seq<MinibucketUpdate>,
        k: int,
        leaf: int,
    )
        requires
            states.len() == results.len() + 1,
            states[0].ready(),
            states[0].in_order(),
            states[0].eviction_counter + results.len() <= u64::MAX,
            forall|i: int|
                0 <= i < results.len() ==> #[trigger] Self::link(
                    states,
                    workload,
                    first,
                    results,
                    i,
                ),
            0 <= k,
            states[0].simulator.max_n == full_width(
                k,
                if halves(states[0].path_schedule) {
                    2
                } else {
                    states[0].simulator.b as int
                },
            ),
            ({
                let s = states[0];
                let p = pace(s.path_schedule, s.simulator.b as int);
                if p > 0 {
                    &&& s.simulator.max_n as int % p == 0
                    &&& results.len() >= s.simulator.max_n as int / p
                } else {
                    (s.eviction_counter + results.len()) * s.deterministic_numerator
                        / s.deterministic_denominator as int - s.eviction_counter
                        * s.deterministic_numerator / s.deterministic_denominator as int
                        >= s.simulator.max_n
                }
            }),
            0 <= leaf < states[0].simulator.max_n,
        ensures
            exists|i: int, j: int|
                0 <= i < results.len() && 0 <= j < states[i + 1].radix_paths@.len()
                    && #[trigger] states[i + 1].radix_paths@[j] == leaf,
    {
        let st = states[0];
        let s = st.path_schedule;
        let c = st.eviction_counter as int;
        let n = st.simulator.max_n as int;
        let b = st.simulator.b as int;
        let p = st.deterministic_numerator as int;
        let q = st.deterministic_denominator as int;
        let words = |a: int| (0int, 0int);
        let end = if pace(s, b) > 0 {
            c + n / pace(s, b)
        } else {
            c + results.len()
        };
        if pace(s, b) > 0 {
            lemma_fixed_pace(s, c, k, b, p, q, words, leaf);
        } else {
            lemma_rate_comes_up(c, end, k, b, p, q, words, leaf);
        }
        assert(comes_up(s, c, end, n, b, p, q, words, leaf));
        let (a, j) = choose|a: int, j: int|
            c <= a < end && 0 <= j < background(s, a, n, b, p, q, words(a).0, words(a).1).len()
                && #[trigger] background(s, a, n, b, p, q, words(a).0, words(a).1)[j] == leaf;
        let i = a - c;
        Self::lemma_counter(states, workload, first, results, i);
        assert(states[i + 1].radix_paths@[j] == leaf);
    }
}

/// Every access of a run is measured once, in its place: the stash size after it and the
/// stash size that it asked for.
pub proof fn lemma_every_access_measured(results: Seq<SimUpdate>, i: int)
    requires
        0 <= i < results.len(),
    ensures
        crate::lane_security_run::stash_sizes(results).len() == results.len(),
        crate::lane_security_run::stash_demands(results).len() == results.len(),
        crate::lane_security_run::stash_sizes(results)[i] == results[i].stash_after,
        crate::lane_security_run::stash_demands(results)[i] == results[i].insertion_demand,
{
}

/// [`lemma_every_access_measured`] for lanes of minibuckets.
pub proof fn lemma_every_minibucket_access_measured(results: Seq<MinibucketUpdate>, i: int)
    requires
        0 <= i < results.len(),
    ensures
        crate::minibucket_run::stash_sizes(results).len() == results.len(),
        crate::minibucket_run::stash_demands(results).len() == results.len(),
        crate::minibucket_run::stash_sizes(results)[i] == results[i].stash_after,
        crate::minibucket_run::stash_demands(results)[i] == results[i].insertion_demand,
{
}

} // verus!
