//! Samples of a stash size: their histogram, sum and range.
use vstd::prelude::*;

verus! {

/// How many values are `k`.
pub open spec fn times(values: Seq<usize>, k: int) -> nat
    decreases values.len(),
{
    if values.len() == 0 {
        0
    } else {
        times(values.drop_last(), k) + (if values.last() == k {
            1nat
        } else {
            0nat
        })
    }
}

/// How many values are above `t`.
pub open spec fn exceeding(values: Seq<usize>, t: int) -> nat
    decreases values.len(),
{
    if values.len() == 0 {
        0
    } else {
        exceeding(values.drop_last(), t) + (if values.last() > t {
            1nat
        } else {
            0nat
        })
    }
}

/// The sum of values.
pub open spec fn total(values: Seq<usize>) -> nat
    decreases values.len(),
{
    if values.len() == 0 {
        0
    } else {
        total(values.drop_last()) + values.last() as nat
    }
}

/// One threshold higher leaves out the values at it.
pub proof fn lemma_exceeding_step(values: Seq<usize>, t: int)
    ensures
        exceeding(values, t - 1) == exceeding(values, t) + times(values, t),
    decreases values.len(),
{
    if values.len() > 0 {
        lemma_exceeding_step(values.drop_last(), t);
    }
}

/// Counts tell what occurs: a value is counted as often as there are places that hold it,
/// and values above a threshold are as many as there are places that hold one.
pub proof fn lemma_counts_occur(values: Seq<usize>, k: int)
    ensures
        times(values, k) > 0 <==> exists|i: int| 0 <= i < values.len() && #[trigger] values[i] == k,
        exceeding(values, k) > 0 <==> exists|i: int|
            0 <= i < values.len() && #[trigger] values[i] > k,
        exceeding(values, k) == values.len() <==> forall|i: int|
            0 <= i < values.len() ==> #[trigger] values[i] > k,
        times(values, k) + exceeding(values, k) <= values.len(),
    decreases values.len(),
{
    if values.len() > 0 {
        let front = values.drop_last();
        let n = front.len() as int;
        lemma_counts_occur(front, k);
        assert(forall|i: int| 0 <= i < n ==> #[trigger] front[i] == values[i]);
        assert(values[n] == values.last());
        if exists|i: int| 0 <= i < values.len() && #[trigger] values[i] == k {
            let i = choose|i: int| 0 <= i < values.len() && #[trigger] values[i] == k;
            if i < n {
                assert(front[i] == k);
            }
        }
        if times(front, k) > 0 {
            let i = choose|i: int| 0 <= i < n && #[trigger] front[i] == k;
            assert(values[i] == k);
        }
        if exists|i: int| 0 <= i < values.len() && #[trigger] values[i] > k {
            let i = choose|i: int| 0 <= i < values.len() && #[trigger] values[i] > k;
            if i < n {
                assert(front[i] > k);
            }
        }
        if exceeding(front, k) > 0 {
            let i = choose|i: int| 0 <= i < n && #[trigger] front[i] > k;
            assert(values[i] > k);
        }
        if forall|i: int| 0 <= i < values.len() ==> #[trigger] values[i] > k {
            assert forall|i: int| 0 <= i < n implies #[trigger] front[i] > k by {
                assert(values[i] > k);
            }
            assert(values[n] > k);
        }
        if exceeding(values, k) == values.len() {
            assert(exceeding(front, k) == front.len());
            assert forall|i: int| 0 <= i < values.len() implies #[trigger] values[i] > k by {
                if i < n {
                    assert(front[i] > k);
                }
            }
        }
    }
}

/// Counts do not depend on the order of two parts.
pub proof fn lemma_counts_add(a: Seq<usize>, b: Seq<usize>, k: int)
    ensures
        times(a + b, k) == times(a, k) + times(b, k),
        exceeding(a + b, k) == exceeding(a, k) + exceeding(b, k),
        total(a + b) == total(a) + total(b),
    decreases b.len(),
{
    if b.len() == 0 {
        assert(a + b =~= a);
    } else {
        lemma_counts_add(a, b.drop_last(), k);
        assert((a + b).drop_last() =~= a + b.drop_last());
    }
}

/// All values are above -1.
pub proof fn lemma_exceeding_all(values: Seq<usize>)
    ensures
        exceeding(values, -1) == values.len(),
    decreases values.len(),
{
    if values.len() > 0 {
        lemma_exceeding_all(values.drop_last());
    }
}

proof fn lemma_times_bound(values: Seq<usize>, k: int)
    ensures
        times(values, k) <= values.len(),
        (forall|i: int| 0 <= i < values.len() ==> #[trigger] values[i] != k) ==> times(values, k)
            == 0,
    decreases values.len(),
{
    if values.len() > 0 {
        let t = values.drop_last();
        lemma_times_bound(t, k);
        if forall|i: int| 0 <= i < values.len() ==> #[trigger] values[i] != k {
            assert(forall|i: int| 0 <= i < t.len() ==> t[i] == #[trigger] values[i]);
            assert(values[values.len() - 1] != k);
        }
    }
}

/// Samples of a stash size.
#[derive(Debug)]
pub struct StashSamples {
    /// How often each size came up.
    pub histogram: Vec<u64>,
    /// The sum of the sizes.
    pub sum: u128,
    /// The smallest size, or the largest number there is.
    pub minimum: usize,
    /// The largest size, or zero.
    pub maximum: usize,
    /// The number of samples.
    pub count: u64,
}

impl StashSamples {
    /// These are the samples `values`.
    pub open spec fn records(&self, values: Seq<usize>) -> bool {
        &&& self.count == values.len()
        &&& self.sum == total(values)
        &&& self.sum <= self.count * usize::MAX
        &&& forall|k: int|
            0 <= k < self.histogram@.len() ==> #[trigger] self.histogram@[k] == times(values, k)
        &&& forall|i: int|
            0 <= i < values.len() ==> #[trigger] values[i] < self.histogram@.len()
        &&& forall|i: int|
            0 <= i < values.len() ==> self.minimum <= #[trigger] values[i] <= self.maximum
        &&& values.len() == 0 ==> self.minimum == usize::MAX && self.maximum == 0
        &&& values.len() > 0 ==> values.contains(self.minimum) && values.contains(self.maximum)
    }

    /// No samples.
    pub fn new() -> (r: Self)
        ensures
            r.records(Seq::empty()),
            r.count == 0,
    {
        let r = StashSamples {
            histogram: Vec::new(),
            sum: 0,
            minimum: usize::MAX,
            maximum: 0,
            count: 0,
        };
        assert(r.count * usize::MAX == 0);
        r
    }

    /// Takes one more sample.
    pub fn record(&mut self, value: usize)
        requires
            value < usize::MAX,
            old(self).count < u64::MAX,
            exists|values: Seq<usize>| old(self).records(values),
        ensures
            forall|values: Seq<usize>| #[trigger]
                old(self).records(values) ==> final(self).records(values.push(value)),
            exists|values: Seq<usize>| final(self).records(values),
    {
        let ghost before = *self;
        let ghost some = choose|values: Seq<usize>| old(self).records(values);
        while self.histogram.len() <= value
            invariant
                value < usize::MAX,
                before.histogram@.len() <= self.histogram@.len(),
                self.sum == before.sum,
                self.minimum == before.minimum,
                self.maximum == before.maximum,
                self.count == before.count,
                forall|k: int|
                    0 <= k < before.histogram@.len() ==> #[trigger] self.histogram@[k]
                        == before.histogram@[k],
                forall|k: int|
                    before.histogram@.len() <= k < self.histogram@.len()
                        ==> #[trigger] self.histogram@[k] == 0,
            decreases value + 1 - self.histogram.len(),
        {
            self.histogram.push(0);
        }
        let ghost grown = self.histogram@;
        proof {
            assert forall|values: Seq<usize>, k: int|
                before.records(values) && 0 <= k < grown.len() implies #[trigger] times(values, k)
                == grown[k] by {
                lemma_times_bound(values, k);
                if k >= before.histogram@.len() {
                    assert forall|i: int| 0 <= i < values.len() implies #[trigger] values[i]
                        != k by {}
                } else {
                    assert(before.histogram@[k] == grown[k]);
                }
            }
            lemma_times_bound(some, value as int);
            assert(times(some, value as int) == grown[value as int]);
            assert(self.sum + value <= u128::MAX) by (nonlinear_arith)
                requires
                    self.sum <= self.count * usize::MAX,
                    self.count < u64::MAX,
                    value <= usize::MAX,
                    usize::MAX <= 0xffff_ffff_ffff_ffff,
            ;
        }
        let here: u64 = self.histogram[value];
        self.histogram.set(value, here + 1);
        self.sum = self.sum + value as u128;
        if value < self.minimum {
            self.minimum = value;
        }
        if value > self.maximum {
            self.maximum = value;
        }
        self.count += 1;
        proof {
            assert forall|values: Seq<usize>| #[trigger] before.records(values) implies self.records(
                values.push(value),
            ) by {
                let after = values.push(value);
                assert(after.drop_last() =~= values);
                assert((before.count + 1) * usize::MAX == before.count * usize::MAX + usize::MAX)
                    by (nonlinear_arith);
                assert forall|k: int| 0 <= k < self.histogram@.len() implies
                    #[trigger] self.histogram@[k] == times(after, k) by {
                    assert(times(values, k) == grown[k]);
                }
                assert forall|i: int| 0 <= i < after.len() implies #[trigger] after[i]
                    < self.histogram@.len() && self.minimum <= after[i] <= self.maximum by {
                    if i < values.len() {
                        assert(after[i] == values[i]);
                    }
                }
                assert(after[values.len() as int] == value);
                if self.minimum != value {
                    let i = choose|i: int| 0 <= i < values.len() && values[i] == self.minimum;
                    assert(after[i] == self.minimum);
                }
                if self.maximum != value {
                    let i = choose|i: int| 0 <= i < values.len() && values[i] == self.maximum;
                    assert(after[i] == self.maximum);
                }
            }
            assert(self.records(some.push(value)));
        }
    }

    /// How many samples are above each size up to the largest.
    pub fn exceed_counts(&self) -> (r: Vec<u64>)
        requires
            self.maximum < usize::MAX,
            exists|values: Seq<usize>| self.records(values),
        ensures
            r@.len() == self.maximum + 1,
            forall|values: Seq<usize>, t: int|
                self.records(values) && 0 <= t <= self.maximum ==> r@[t] == #[trigger] exceeding(
                    values,
                    t,
                ),
    {
        let ghost some = choose|values: Seq<usize>| self.records(values);
        let mut exceed_count: u64 = self.count;
        let mut counts: Vec<u64> = Vec::new();
        let mut threshold: usize = 0;
        proof {
            assert forall|values: Seq<usize>| #[trigger] self.records(values) implies exceed_count
                == exceeding(values, -1) by {
                lemma_exceeding_all(values);
            }
        }
        while threshold <= self.maximum
            invariant
                self.maximum < usize::MAX,
                threshold <= self.maximum + 1,
                counts@.len() == threshold,
                self.records(some),
                forall|values: Seq<usize>| #[trigger]
                    self.records(values) ==> exceed_count == exceeding(values, threshold - 1),
                forall|values: Seq<usize>, t: int|
                    self.records(values) && 0 <= t < threshold ==> counts@[t]
                        == #[trigger] exceeding(values, t),
            decreases self.maximum + 1 - threshold,
        {
            let here: u64 = if threshold < self.histogram.len() {
                self.histogram[threshold]
            } else {
                0
            };
            proof {
                assert forall|values: Seq<usize>| #[trigger] self.records(values) implies here
                    == times(values, threshold as int) && exceeding(values, threshold - 1)
                    == exceeding(values, threshold as int) + here by {
                    lemma_exceeding_step(values, threshold as int);
                    if threshold >= self.histogram@.len() {
                        lemma_times_bound(values, threshold as int);
                        assert forall|i: int| 0 <= i < values.len() implies #[trigger] values[i]
                            != threshold by {}
                    }
                }
                assert(self.records(some));
            }
            exceed_count = exceed_count - here;
            counts.push(exceed_count);
            threshold += 1;
        }
        counts
    }
}

/// What a run measured: the stash size after every access and the stash size that every
/// access asked for.
#[derive(Debug)]
pub struct Measured {
    /// Stash sizes after an access.
    pub post: StashSamples,
    /// Stash sizes asked for by an access.
    pub demand: StashSamples,
}

impl Measured {
    /// These are the samples of `count` accesses, none of them above `most`.
    pub open spec fn counts(&self, count: int, most: int) -> bool {
        exists|post: Seq<usize>, demand: Seq<usize>| #[trigger]
            self.shows(post, demand, count, most)
    }

    /// The samples are `post` and `demand`.
    pub open spec fn shows(
        &self,
        post: Seq<usize>,
        demand: Seq<usize>,
        count: int,
        most: int,
    ) -> bool {
        &&& self.post.records(post)
        &&& self.demand.records(demand)
        &&& post.len() == count
        &&& demand.len() == count
        &&& forall|i: int| 0 <= i < count ==> #[trigger] post[i] <= most
        &&& forall|i: int| 0 <= i < count ==> #[trigger] demand[i] <= most
    }

    /// No samples.
    pub fn new() -> (r: Self)
        ensures
            forall|most: int| #[trigger] r.counts(0, most),
            forall|most: int| #[trigger] r.shows(Seq::empty(), Seq::empty(), 0, most),
            r.post.count == 0,
    {
        let r = Measured { post: StashSamples::new(), demand: StashSamples::new() };
        proof {
            assert forall|most: int| #[trigger] r.counts(0, most) by {
                assert(r.shows(Seq::empty(), Seq::empty(), 0, most));
            }
        }
        r
    }

    /// Takes the samples of one more access.
    pub(crate) fn record(&mut self, stash_after: usize, insertion_demand: usize, Ghost(most): Ghost<int>)
        requires
            old(self).post.count < u64::MAX,
            old(self).counts(old(self).post.count as int, most),
            stash_after <= most,
            insertion_demand <= most,
            most < usize::MAX,
        ensures
            final(self).post.count == old(self).post.count + 1,
            final(self).counts(final(self).post.count as int, most),
            forall|post: Seq<usize>, demand: Seq<usize>| #[trigger]
                old(self).shows(post, demand, old(self).post.count as int, most) ==> final(self).shows(
                    post.push(stash_after),
                    demand.push(insertion_demand),
                    final(self).post.count as int,
                    most,
                ),
    {
        let ghost n = self.post.count as int;
        let ghost (post, demand) = choose|post: Seq<usize>, demand: Seq<usize>| #[trigger]
            self.shows(post, demand, n, most);
        let ghost before = *self;
        self.post.record(stash_after);
        self.demand.record(insertion_demand);
        proof {
            assert forall|p: Seq<usize>, d: Seq<usize>| #[trigger]
                before.shows(p, d, n, most) implies self.shows(
                p.push(stash_after),
                d.push(insertion_demand),
                n + 1,
                most,
            ) by {
                assert(self.post.records(p.push(stash_after)));
                assert(self.demand.records(d.push(insertion_demand)));
            }
            assert(self.shows(post.push(stash_after), demand.push(insertion_demand), n + 1, most));
            assert(self.post.count == n + 1);
        }
    }
}

} // verus!
