//! Arguments of the stash experiment for lanes of minibuckets.
use vstd::arithmetic::power2::is_pow2;
use vstd::prelude::*;
use crate::arguments::{
    decimal_up_to, is_exact_power, is_named, is_power_of, is_power_of_two, parse_count, parse_size,
    ArgumentError, Problem, Refusal,
};
use crate::os_random::{OsRandomWords, RandomSourceFailed};

verus! {

/// The order in which keys are accessed.
#[derive(Clone, Copy, Debug, PartialEq, Eq, Structural)]
pub enum Workload {
    /// One after another.
    Cycle,
    /// At random.
    Uniform,
}

impl Workload {
    /// The name on the command line.
    pub open spec fn label(self) -> Seq<char> {
        match self {
            Workload::Cycle => "cycle"@,
            Workload::Uniform => "uniform"@,
        }
    }

    /// What the text `s` names.
    pub open spec fn named(s: Seq<char>) -> Option<Self> {
        if s == "cycle"@ {
            Some(Workload::Cycle)
        } else if s == "uniform"@ {
            Some(Workload::Uniform)
        } else {
            None
        }
    }

    /// The name on the command line.
    pub fn name(self) -> (r: &'static str)
        ensures
            r@ == self.label(),
    {
        match self {
            Workload::Cycle => "cycle",
            Workload::Uniform => "uniform",
        }
    }

    /// Finds what `value` names.
    pub fn from_str(value: &String) -> (r: Result<Self, ArgumentError>)
        ensures
            match r {
                Ok(found) => Workload::named(value@) == Some(found),
                Err(e) => Workload::named(value@) is None && e@ == Problem::UnknownWorkload(value@),
            },
    {
        if is_named(value, "cycle") {
            Ok(Workload::Cycle)
        } else if is_named(value, "uniform") {
            Ok(Workload::Uniform)
        } else {
            Err(ArgumentError::UnknownWorkload(value.clone()))
        }
    }

    /// Every name names what it is the name of.
    pub proof fn lemma_name_round_trips(self)
        ensures
            Workload::named(self.label()) == Some(self),
    {
        reveal_strlit("cycle");
        reveal_strlit("uniform");
        assert("cycle"@.len() != "uniform"@.len());
    }
}

impl Workload {
    /// The key of access `operation` among `n`, with `word` for chance.
    pub open spec fn chosen(self, operation: int, n: int, word: int) -> int {
        match self {
            Workload::Cycle => operation % n,
            Workload::Uniform => word % n,
        }
    }

    /// Access `operation` among `n` is to `key` when `words` are drawn for it.
    pub open spec fn picks(self, operation: int, n: int, words: Seq<u32>, key: int) -> bool {
        &&& words.len() == (if self == Workload::Uniform {
            1int
        } else {
            0
        })
        &&& key == self.chosen(
            operation,
            n,
            if self == Workload::Uniform {
                words[0] as int
            } else {
                0
            },
        )
    }

    /// The key of access `operation` among `n`, with `word` for chance.
    pub fn pick(self, operation: u64, n: usize, word: usize) -> (r: usize)
        requires
            1 <= n,
            is_pow2(n as int),
        ensures
            r == self.chosen(operation as int, n as int, word as int),
            r < n,
    {
        match self {
            Workload::Cycle => (operation as u128 % n as u128) as usize,
            Workload::Uniform => word % n,
        }
    }

    /// The key of access `operation` among `n`, with the next random word for chance.
    pub fn key(self, operation: u64, n: usize, random: &mut OsRandomWords) -> (r: Result<
        usize,
        RandomSourceFailed,
    >)
        requires
            1 <= n,
            is_pow2(n as int),
            old(random).wf(),
        ensures
            final(random).wf(),
            self == Workload::Cycle ==> *final(random) == *old(random) && r == Ok::<
                usize,
                RandomSourceFailed,
            >(self.chosen(operation as int, n as int, 0) as usize),
            self == Workload::Uniform && old(random).waiting().len() > 0 ==> final(random).waiting()
                == old(random).waiting().drop_first() && r == Ok::<usize, RandomSourceFailed>(
                self.chosen(operation as int, n as int, old(random).waiting()[0] as int) as usize,
            ),
            r matches Ok(k) ==> k < n,
            r matches Ok(k) ==> exists|words: Seq<u32>| #[trigger]
                self.picks(operation as int, n as int, words, k as int) && old(random).drew(
                    final(random),
                    words,
                ),
            r is Err ==> final(random).waiting() == old(random).waiting(),
    {
        let drawn: Result<usize, RandomSourceFailed> = match self {
            Workload::Uniform => random.next_usize(),
            Workload::Cycle => {
                assert(random.waiting() =~= random.waiting().skip(0));
                Ok(0)
            },
        };
        match drawn {
            Ok(word) => {
                let key: usize = self.pick(operation, n, word);
                let ghost words = if self == Workload::Uniform {
                    seq![word as u32]
                } else {
                    Seq::empty()
                };
                assert(self.picks(operation as int, n as int, words, key as int));
                let r: Result<usize, RandomSourceFailed> = Ok(key);
                assert(r->Ok_0 == key);
                r
            },
            Err(error) => Err(error),
        }
    }
}

/// Where a block waits before it enters the tree.
#[derive(Clone, Copy, Debug, PartialEq, Eq, Structural)]
pub enum QueuePolicy {
    /// In one stash for all lanes.
    Shared,
    /// In the stash of a random lane.
    Random,
}

impl QueuePolicy {
    /// The name on the command line.
    pub open spec fn label(self) -> Seq<char> {
        match self {
            QueuePolicy::Shared => "shared"@,
            QueuePolicy::Random => "random"@,
        }
    }

    /// What the text `s` names.
    pub open spec fn named(s: Seq<char>) -> Option<Self> {
        if s == "shared"@ {
            Some(QueuePolicy::Shared)
        } else if s == "random"@ {
            Some(QueuePolicy::Random)
        } else {
            None
        }
    }

    /// The name on the command line.
    pub fn name(self) -> (r: &'static str)
        ensures
            r@ == self.label(),
    {
        match self {
            QueuePolicy::Shared => "shared",
            QueuePolicy::Random => "random",
        }
    }

    /// Finds what `value` names.
    pub fn from_str(value: &String) -> (r: Result<Self, ArgumentError>)
        ensures
            match r {
                Ok(found) => QueuePolicy::named(value@) == Some(found),
                Err(e) => QueuePolicy::named(value@) is None && e@ == Problem::UnknownQueuePolicy(value@),
            },
    {
        if is_named(value, "shared") {
            Ok(QueuePolicy::Shared)
        } else if is_named(value, "random") {
            Ok(QueuePolicy::Random)
        } else {
            Err(ArgumentError::UnknownQueuePolicy(value.clone()))
        }
    }

    /// Every name names what it is the name of.
    pub proof fn lemma_name_round_trips(self)
        ensures
            QueuePolicy::named(self.label()) == Some(self),
    {
        reveal_strlit("shared");
        reveal_strlit("random");
        assert("shared"@[0] != "random"@[0]);
    }
}

/// How a path is evicted.
#[derive(Clone, Copy, Debug, PartialEq, Eq, Structural)]
pub enum EvictionPolicy {
    /// One chain for each lane.
    Fixed,
    /// One chain over whole buckets.
    Pooled,
}

impl EvictionPolicy {
    /// The name on the command line.
    pub open spec fn label(self) -> Seq<char> {
        match self {
            EvictionPolicy::Fixed => "fixed"@,
            EvictionPolicy::Pooled => "pooled"@,
        }
    }

    /// What the text `s` names.
    pub open spec fn named(s: Seq<char>) -> Option<Self> {
        if s == "fixed"@ {
            Some(EvictionPolicy::Fixed)
        } else if s == "pooled"@ {
            Some(EvictionPolicy::Pooled)
        } else {
            None
        }
    }

    /// The name on the command line.
    pub fn name(self) -> (r: &'static str)
        ensures
            r@ == self.label(),
    {
        match self {
            EvictionPolicy::Fixed => "fixed",
            EvictionPolicy::Pooled => "pooled",
        }
    }

    /// Finds what `value` names.
    pub fn from_str(value: &String) -> (r: Result<Self, ArgumentError>)
        ensures
            match r {
                Ok(found) => EvictionPolicy::named(value@) == Some(found),
                Err(e) => EvictionPolicy::named(value@) is None && e@ == Problem::UnknownEvictionPolicy(value@),
            },
    {
        if is_named(value, "fixed") {
            Ok(EvictionPolicy::Fixed)
        } else if is_named(value, "pooled") {
            Ok(EvictionPolicy::Pooled)
        } else {
            Err(ArgumentError::UnknownEvictionPolicy(value.clone()))
        }
    }

    /// Every name names what it is the name of.
    pub proof fn lemma_name_round_trips(self)
        ensures
            EvictionPolicy::named(self.label()) == Some(self),
    {
        reveal_strlit("fixed");
        reveal_strlit("pooled");
        assert("fixed"@.len() != "pooled"@.len());
    }
}

/// Which paths an access evicts.
#[derive(Clone, Copy, Debug, PartialEq, Eq, Structural)]
pub enum PathSchedule {
    /// Only the accessed path.
    Same,
    /// The accessed path and a random one.
    AccessPlusUniform,
    /// A random path in each half of the tree.
    PaperRandom,
    /// The next path in each half of the tree.
    PaperDeterministic,
    /// The accessed path and the next one.
    AccessPlusOneDeterministic,
    /// The accessed path and the next two.
    AccessPlusTwoDeterministic,
    /// The accessed path and as many next paths as a rate says.
    AccessPlusRateDeterministic,
    /// The accessed path and the next path in each half of the tree.
    AccessPlusPaperDeterministic,
    /// The accessed path and the next path below each child of the root.
    AccessPlusRadixDeterministic,
}

impl PathSchedule {
    /// The name on the command line.
    pub open spec fn label(self) -> Seq<char> {
        match self {
            PathSchedule::Same => "same"@,
            PathSchedule::AccessPlusUniform => "access-plus-uniform"@,
            PathSchedule::PaperRandom => "paper-random"@,
            PathSchedule::PaperDeterministic => "paper-deterministic"@,
            PathSchedule::AccessPlusOneDeterministic => "access-plus-one-deterministic"@,
            PathSchedule::AccessPlusTwoDeterministic => "access-plus-two-deterministic"@,
            PathSchedule::AccessPlusRateDeterministic => "access-plus-rate-deterministic"@,
            PathSchedule::AccessPlusPaperDeterministic => "access-plus-paper-deterministic"@,
            PathSchedule::AccessPlusRadixDeterministic => "access-plus-radix-deterministic"@,
        }
    }

    /// What the text `s` names.
    pub open spec fn named(s: Seq<char>) -> Option<Self> {
        if s == "same"@ {
            Some(PathSchedule::Same)
        } else if s == "access-plus-uniform"@ {
            Some(PathSchedule::AccessPlusUniform)
        } else if s == "paper-random"@ {
            Some(PathSchedule::PaperRandom)
        } else if s == "paper-deterministic"@ {
            Some(PathSchedule::PaperDeterministic)
        } else if s == "access-plus-one-deterministic"@ {
            Some(PathSchedule::AccessPlusOneDeterministic)
        } else if s == "access-plus-two-deterministic"@ {
            Some(PathSchedule::AccessPlusTwoDeterministic)
        } else if s == "access-plus-rate-deterministic"@ {
            Some(PathSchedule::AccessPlusRateDeterministic)
        } else if s == "access-plus-paper-deterministic"@ {
            Some(PathSchedule::AccessPlusPaperDeterministic)
        } else if s == "access-plus-radix-deterministic"@ {
            Some(PathSchedule::AccessPlusRadixDeterministic)
        } else {
            None
        }
    }

    /// The name on the command line.
    pub fn name(self) -> (r: &'static str)
        ensures
            r@ == self.label(),
    {
        match self {
            PathSchedule::Same => "same",
            PathSchedule::AccessPlusUniform => "access-plus-uniform",
            PathSchedule::PaperRandom => "paper-random",
            PathSchedule::PaperDeterministic => "paper-deterministic",
            PathSchedule::AccessPlusOneDeterministic => "access-plus-one-deterministic",
            PathSchedule::AccessPlusTwoDeterministic => "access-plus-two-deterministic",
            PathSchedule::AccessPlusRateDeterministic => "access-plus-rate-deterministic",
            PathSchedule::AccessPlusPaperDeterministic => "access-plus-paper-deterministic",
            PathSchedule::AccessPlusRadixDeterministic => "access-plus-radix-deterministic",
        }
    }

    /// Finds what `value` names.
    pub fn from_str(value: &String) -> (r: Result<Self, ArgumentError>)
        ensures
            match r {
                Ok(found) => PathSchedule::named(value@) == Some(found),
                Err(e) => PathSchedule::named(value@) is None && e@ == Problem::UnknownPathSchedule(value@),
            },
    {
        if is_named(value, "same") {
            Ok(PathSchedule::Same)
        } else if is_named(value, "access-plus-uniform") {
            Ok(PathSchedule::AccessPlusUniform)
        } else if is_named(value, "paper-random") {
            Ok(PathSchedule::PaperRandom)
        } else if is_named(value, "paper-deterministic") {
            Ok(PathSchedule::PaperDeterministic)
        } else if is_named(value, "access-plus-one-deterministic") {
            Ok(PathSchedule::AccessPlusOneDeterministic)
        } else if is_named(value, "access-plus-two-deterministic") {
            Ok(PathSchedule::AccessPlusTwoDeterministic)
        } else if is_named(value, "access-plus-rate-deterministic") {
            Ok(PathSchedule::AccessPlusRateDeterministic)
        } else if is_named(value, "access-plus-paper-deterministic") {
            Ok(PathSchedule::AccessPlusPaperDeterministic)
        } else if is_named(value, "access-plus-radix-deterministic") {
            Ok(PathSchedule::AccessPlusRadixDeterministic)
        } else {
            Err(ArgumentError::UnknownPathSchedule(value.clone()))
        }
    }

    /// Every name names what it is the name of.
    pub proof fn lemma_name_round_trips(self)
        ensures
            PathSchedule::named(self.label()) == Some(self),
    {
        reveal_strlit("same");
        reveal_strlit("access-plus-uniform");
        reveal_strlit("paper-random");
        reveal_strlit("paper-deterministic");
        reveal_strlit("access-plus-one-deterministic");
        reveal_strlit("access-plus-two-deterministic");
        reveal_strlit("access-plus-rate-deterministic");
        reveal_strlit("access-plus-paper-deterministic");
        reveal_strlit("access-plus-radix-deterministic");
        assert("same"@.len() != "access-plus-uniform"@.len());
        assert("same"@.len() != "paper-random"@.len());
        assert("same"@.len() != "paper-deterministic"@.len());
        assert("same"@.len() != "access-plus-one-deterministic"@.len());
        assert("same"@.len() != "access-plus-two-deterministic"@.len());
        assert("same"@.len() != "access-plus-rate-deterministic"@.len());
        assert("same"@.len() != "access-plus-paper-deterministic"@.len());
        assert("same"@.len() != "access-plus-radix-deterministic"@.len());
        assert("access-plus-uniform"@.len() != "paper-random"@.len());
        assert("access-plus-uniform"@[0] != "paper-deterministic"@[0]);
        assert("access-plus-uniform"@.len() != "access-plus-one-deterministic"@.len());
        assert("access-plus-uniform"@.len() != "access-plus-two-deterministic"@.len());
        assert("access-plus-uniform"@.len() != "access-plus-rate-deterministic"@.len());
        assert("access-plus-uniform"@.len() != "access-plus-paper-deterministic"@.len());
        assert("access-plus-uniform"@.len() != "access-plus-radix-deterministic"@.len());
        assert("paper-random"@.len() != "paper-deterministic"@.len());
        assert("paper-random"@.len() != "access-plus-one-deterministic"@.len());
        assert("paper-random"@.len() != "access-plus-two-deterministic"@.len());
        assert("paper-random"@.len() != "access-plus-rate-deterministic"@.len());
        assert("paper-random"@.len() != "access-plus-paper-deterministic"@.len());
        assert("paper-random"@.len() != "access-plus-radix-deterministic"@.len());
        assert("paper-deterministic"@.len() != "access-plus-one-deterministic"@.len());
        assert("paper-deterministic"@.len() != "access-plus-two-deterministic"@.len());
        assert("paper-deterministic"@.len() != "access-plus-rate-deterministic"@.len());
        assert("paper-deterministic"@.len() != "access-plus-paper-deterministic"@.len());
        assert("paper-deterministic"@.len() != "access-plus-radix-deterministic"@.len());
        assert("access-plus-one-deterministic"@[12] != "access-plus-two-deterministic"@[12]);
        assert("access-plus-one-deterministic"@.len() != "access-plus-rate-deterministic"@.len());
        assert("access-plus-one-deterministic"@.len() != "access-plus-paper-deterministic"@.len());
        assert("access-plus-one-deterministic"@.len() != "access-plus-radix-deterministic"@.len());
        assert("access-plus-two-deterministic"@.len() != "access-plus-rate-deterministic"@.len());
        assert("access-plus-two-deterministic"@.len() != "access-plus-paper-deterministic"@.len());
        assert("access-plus-two-deterministic"@.len() != "access-plus-radix-deterministic"@.len());
        assert("access-plus-rate-deterministic"@.len() != "access-plus-paper-deterministic"@.len());
        assert("access-plus-rate-deterministic"@.len() != "access-plus-radix-deterministic"@.len());
        assert("access-plus-paper-deterministic"@[12] != "access-plus-radix-deterministic"@[12]);
    }
}

/// The arguments of one experiment.
#[derive(Debug)]
pub struct Args {
    /// Number of keys and of leaves.
    pub n: usize,
    /// Branching factor.
    pub b: usize,
    /// Lanes of a bucket.
    pub z: usize,
    /// Slots of a minibucket.
    pub y: usize,
    /// Accesses before the measurement.
    pub warmup: u64,
    /// Measured accesses.
    pub operations: u64,
    /// Order of the accesses.
    pub workload: Workload,
    /// Where blocks wait.
    pub queue_policy: QueuePolicy,
    /// How paths are evicted.
    pub eviction_policy: EvictionPolicy,
    /// Passes for each path.
    pub eviction_chains: usize,
    /// Which paths are evicted.
    pub path_schedule: PathSchedule,
    /// Paths of the rate.
    pub deterministic_numerator: usize,
    /// Timesteps of the rate.
    pub deterministic_denominator: usize,
    /// Accesses of an epoch, or zero.
    pub epoch_operations: u64,
    /// Where the epochs are written.
    pub epoch_output: String,
    /// Where the result is written.
    pub output: String,
}

/// What [`Args`] says, with numbers and texts as such.
pub struct Settings {
    pub n: nat,
    pub b: nat,
    pub z: nat,
    pub y: nat,
    pub warmup: nat,
    pub operations: nat,
    pub workload: Workload,
    pub queue_policy: QueuePolicy,
    pub eviction_policy: EvictionPolicy,
    pub eviction_chains: nat,
    pub path_schedule: PathSchedule,
    pub deterministic_numerator: nat,
    pub deterministic_denominator: nat,
    pub epoch_operations: nat,
    pub epoch_output: Seq<char>,
    pub output: Seq<char>,
}

impl View for Args {
    type V = Settings;

    /// The settings.
    open spec fn view(&self) -> Settings {
        Settings {
            n: self.n as nat,
            b: self.b as nat,
            z: self.z as nat,
            y: self.y as nat,
            warmup: self.warmup as nat,
            operations: self.operations as nat,
            workload: self.workload,
            queue_policy: self.queue_policy,
            eviction_policy: self.eviction_policy,
            eviction_chains: self.eviction_chains as nat,
            path_schedule: self.path_schedule,
            deterministic_numerator: self.deterministic_numerator as nat,
            deterministic_denominator: self.deterministic_denominator as nat,
            epoch_operations: self.epoch_operations as nat,
            epoch_output: self.epoch_output@,
            output: self.output@,
        }
    }
}

/// What an experiment does unless told otherwise.
pub open spec fn default_settings() -> Settings {
    Settings {
        n: 4096,
        b: 2,
        z: 2,
        y: 2,
        warmup: 4194304,
        operations: 16777216,
        workload: Workload::Cycle,
        queue_policy: QueuePolicy::Shared,
        eviction_policy: EvictionPolicy::Fixed,
        eviction_chains: 1,
        path_schedule: PathSchedule::Same,
        deterministic_numerator: 1,
        deterministic_denominator: 1,
        epoch_operations: 0,
        epoch_output: ""@,
        output: "lane_oram_minibucket_security.csv"@,
    }
}

/// A number that must not be above `limit`.
pub open spec fn number(value: Seq<char>, limit: nat) -> Result<nat, Problem> {
    match decimal_up_to(value, limit) {
        Some(v) => Ok(v),
        None => Err(Problem::InvalidNumber(value)),
    }
}

/// The settings after one argument.
pub open spec fn with_argument(s: Settings, name: Seq<char>, value: Seq<char>) -> Result<
    Settings,
    Problem,
> {
    if name == "--n"@ {
        match number(value, usize::MAX as nat) {
            Ok(n) => Ok(Settings { n, ..s }),
            Err(e) => Err(e),
        }
    } else if name == "--b"@ {
        match number(value, usize::MAX as nat) {
            Ok(b) => Ok(Settings { b, ..s }),
            Err(e) => Err(e),
        }
    } else if name == "--z"@ {
        match number(value, usize::MAX as nat) {
            Ok(z) => Ok(Settings { z, ..s }),
            Err(e) => Err(e),
        }
    } else if name == "--y"@ {
        match number(value, usize::MAX as nat) {
            Ok(y) => Ok(Settings { y, ..s }),
            Err(e) => Err(e),
        }
    } else if name == "--queue-policy"@ {
        match QueuePolicy::named(value) {
            Some(queue_policy) => Ok(Settings { queue_policy, ..s }),
            None => Err(Problem::UnknownQueuePolicy(value)),
        }
    } else if name == "--eviction-policy"@ {
        match EvictionPolicy::named(value) {
            Some(eviction_policy) => Ok(Settings { eviction_policy, ..s }),
            None => Err(Problem::UnknownEvictionPolicy(value)),
        }
    } else if name == "--eviction-chains"@ {
        match number(value, usize::MAX as nat) {
            Ok(eviction_chains) => Ok(Settings { eviction_chains, ..s }),
            Err(e) => Err(e),
        }
    } else if name == "--path-schedule"@ {
        match PathSchedule::named(value) {
            Some(path_schedule) => Ok(Settings { path_schedule, ..s }),
            None => Err(Problem::UnknownPathSchedule(value)),
        }
    } else if name == "--deterministic-numerator"@ {
        match number(value, usize::MAX as nat) {
            Ok(deterministic_numerator) => Ok(Settings { deterministic_numerator, ..s }),
            Err(e) => Err(e),
        }
    } else if name == "--deterministic-denominator"@ {
        match number(value, usize::MAX as nat) {
            Ok(deterministic_denominator) => Ok(Settings { deterministic_denominator, ..s }),
            Err(e) => Err(e),
        }
    } else if name == "--epoch-operations"@ {
        match number(value, u64::MAX as nat) {
            Ok(epoch_operations) => Ok(Settings { epoch_operations, ..s }),
            Err(e) => Err(e),
        }
    } else if name == "--epoch-output"@ {
        Ok(Settings { epoch_output: value, ..s })
    } else if name == "--warmup"@ {
        match number(value, u64::MAX as nat) {
            Ok(warmup) => Ok(Settings { warmup, ..s }),
            Err(e) => Err(e),
        }
    } else if name == "--operations"@ {
        match number(value, u64::MAX as nat) {
            Ok(operations) => Ok(Settings { operations, ..s }),
            Err(e) => Err(e),
        }
    } else if name == "--workload"@ {
        match Workload::named(value) {
            Some(workload) => Ok(Settings { workload, ..s }),
            None => Err(Problem::UnknownWorkload(value)),
        }
    } else if name == "--output"@ {
        Ok(Settings { output: value, ..s })
    } else {
        Err(Problem::UnknownArgument(name))
    }
}

/// The settings after the first `n` pairs of a name and a value.
pub open spec fn with_arguments(args: Seq<String>, n: int) -> Result<Settings, Problem>
    decreases n,
{
    if n <= 0 {
        Ok(default_settings())
    } else {
        match with_arguments(args, n - 1) {
            Ok(s) => with_argument(s, args[2 * n - 2]@, args[2 * n - 1]@),
            Err(e) => Err(e),
        }
    }
}

/// The first rule that settings break.
pub open spec fn refusal(s: Settings) -> Option<Refusal> {
    if !is_pow2(s.n as int) || s.z == 0 || s.y == 0 || s.operations == 0 || s.eviction_chains == 0
        || s.deterministic_denominator == 0 {
        Some(Refusal::Sizes)
    } else if s.eviction_policy == EvictionPolicy::Pooled && s.queue_policy == QueuePolicy::Random {
        Some(Refusal::PooledQueues)
    } else if s.b < 2 || !is_pow2(s.b as int) {
        Some(Refusal::BranchingFactor)
    } else if paper(s.path_schedule) && (s.b != 2 || s.n < 2) {
        Some(Refusal::PaperSchedule)
    } else if next_paths(s.path_schedule) && s.n < 2 {
        Some(Refusal::DeterministicSchedule)
    } else if s.path_schedule == PathSchedule::AccessPlusRateDeterministic
        && s.deterministic_numerator == 0 {
        Some(Refusal::ZeroRate)
    } else if s.epoch_operations == 0 && s.epoch_output.len() > 0 {
        Some(Refusal::EpochOutput)
    } else if s.epoch_operations != 0 && (s.epoch_output.len() == 0 || s.epoch_operations
        > s.operations || s.operations % s.epoch_operations != 0) {
        Some(Refusal::EpochSize)
    } else if !is_power_of(s.n as int, s.b as int) {
        Some(Refusal::ExactPower)
    } else {
        None
    }
}

/// A schedule with a path in each half of a binary tree.
pub open spec fn paper(schedule: PathSchedule) -> bool {
    schedule == PathSchedule::PaperRandom || schedule == PathSchedule::PaperDeterministic
        || schedule == PathSchedule::AccessPlusPaperDeterministic
}

/// A schedule that goes through the paths in order.
pub open spec fn next_paths(schedule: PathSchedule) -> bool {
    schedule == PathSchedule::AccessPlusOneDeterministic || schedule
        == PathSchedule::AccessPlusTwoDeterministic || schedule
        == PathSchedule::AccessPlusRateDeterministic || schedule
        == PathSchedule::AccessPlusRadixDeterministic
}

/// What arguments say: the settings, or the first problem with them.
pub open spec fn outcome(args: Seq<String>) -> Result<Settings, Problem> {
    let pairs = args.len() as int / 2;
    match with_arguments(args, pairs) {
        Ok(s) => if args.len() % 2 != 0 {
            Err(Problem::MissingValue(args.last()@))
        } else {
            match refusal(s) {
                Some(r) => Err(Problem::Refused(r)),
                None => Ok(s),
            }
        },
        Err(e) => Err(e),
    }
}

/// A problem with an argument stays.
proof fn lemma_problem_stays(args: Seq<String>, i: int, n: int)
    requires
        0 <= i <= n,
        with_arguments(args, i) is Err,
    ensures
        with_arguments(args, n) == with_arguments(args, i),
    decreases n,
{
    if i < n {
        lemma_problem_stays(args, i, n - 1);
    }
}

impl Args {
    /// The arguments of an experiment that was told nothing.
    pub fn new() -> (r: Self)
        ensures
            r@ == default_settings(),
    {
        Args {
            n: 4096,
            b: 2,
            z: 2,
            y: 2,
            warmup: 4194304,
            operations: 16777216,
            workload: Workload::Cycle,
            queue_policy: QueuePolicy::Shared,
            eviction_policy: EvictionPolicy::Fixed,
            eviction_chains: 1,
            path_schedule: PathSchedule::Same,
            deterministic_numerator: 1,
            deterministic_denominator: 1,
            epoch_operations: 0,
            epoch_output: "".to_owned(),
            output: "lane_oram_minibucket_security.csv".to_owned(),
        }
    }

    /// Takes one argument.
    fn set(&mut self, name: &String, value: &String) -> (r: Result<(), ArgumentError>)
        ensures
            match r {
                Ok(()) => with_argument(old(self)@, name@, value@) == Ok::<Settings, Problem>(
                    final(self)@,
                ),
                Err(e) => with_argument(old(self)@, name@, value@) == Err::<Settings, Problem>(e@),
            },
    {
        if is_named(name, "--n") {
            match parse_size(value) {
                Ok(n) => {
                    self.n = n;
                },
                Err(error) => {
                    return Err(error);
                },
            }
        } else if is_named(name, "--b") {
            match parse_size(value) {
                Ok(b) => {
                    self.b = b;
                },
                Err(error) => {
                    return Err(error);
                },
            }
        } else if is_named(name, "--z") {
            match parse_size(value) {
                Ok(z) => {
                    self.z = z;
                },
                Err(error) => {
                    return Err(error);
                },
            }
        } else if is_named(name, "--y") {
            match parse_size(value) {
                Ok(y) => {
                    self.y = y;
                },
                Err(error) => {
                    return Err(error);
                },
            }
        } else if is_named(name, "--queue-policy") {
            match QueuePolicy::from_str(value) {
                Ok(queue_policy) => {
                    self.queue_policy = queue_policy;
                },
                Err(error) => {
                    return Err(error);
                },
            }
        } else if is_named(name, "--eviction-policy") {
            match EvictionPolicy::from_str(value) {
                Ok(eviction_policy) => {
                    self.eviction_policy = eviction_policy;
                },
                Err(error) => {
                    return Err(error);
                },
            }
        } else if is_named(name, "--eviction-chains") {
            match parse_size(value) {
                Ok(eviction_chains) => {
                    self.eviction_chains = eviction_chains;
                },
                Err(error) => {
                    return Err(error);
                },
            }
        } else if is_named(name, "--path-schedule") {
            match PathSchedule::from_str(value) {
                Ok(path_schedule) => {
                    self.path_schedule = path_schedule;
                },
                Err(error) => {
                    return Err(error);
                },
            }
        } else if is_named(name, "--deterministic-numerator") {
            match parse_size(value) {
                Ok(deterministic_numerator) => {
                    self.deterministic_numerator = deterministic_numerator;
                },
                Err(error) => {
                    return Err(error);
                },
            }
        } else if is_named(name, "--deterministic-denominator") {
            match parse_size(value) {
                Ok(deterministic_denominator) => {
                    self.deterministic_denominator = deterministic_denominator;
                },
                Err(error) => {
                    return Err(error);
                },
            }
        } else if is_named(name, "--epoch-operations") {
            match parse_count(value) {
                Ok(epoch_operations) => {
                    self.epoch_operations = epoch_operations;
                },
                Err(error) => {
                    return Err(error);
                },
            }
        } else if is_named(name, "--epoch-output") {
            self.epoch_output = value.clone();
        } else if is_named(name, "--warmup") {
            match parse_count(value) {
                Ok(warmup) => {
                    self.warmup = warmup;
                },
                Err(error) => {
                    return Err(error);
                },
            }
        } else if is_named(name, "--operations") {
            match parse_count(value) {
                Ok(operations) => {
                    self.operations = operations;
                },
                Err(error) => {
                    return Err(error);
                },
            }
        } else if is_named(name, "--workload") {
            match Workload::from_str(value) {
                Ok(workload) => {
                    self.workload = workload;
                },
                Err(error) => {
                    return Err(error);
                },
            }
        } else if is_named(name, "--output") {
            self.output = value.clone();
        } else {
            return Err(ArgumentError::UnknownArgument(name.clone()));
        }
        Ok(())
    }

    /// Whether the values go together.
    pub fn check(&self) -> (r: Result<(), Refusal>)
        ensures
            match r {
                Ok(()) => refusal(self@) is None,
                Err(broken) => refusal(self@) == Some(broken),
            },
    {
        if !is_power_of_two(self.n) || self.z == 0 || self.y == 0 || self.operations == 0
            || self.eviction_chains == 0 || self.deterministic_denominator == 0 {
            return Err(Refusal::Sizes);
        }
        if self.eviction_policy == EvictionPolicy::Pooled && self.queue_policy
            == QueuePolicy::Random {
            return Err(Refusal::PooledQueues);
        }
        if self.b < 2 || !is_power_of_two(self.b) {
            return Err(Refusal::BranchingFactor);
        }
        let in_halves: bool = self.path_schedule == PathSchedule::PaperRandom || self.path_schedule
            == PathSchedule::PaperDeterministic || self.path_schedule
            == PathSchedule::AccessPlusPaperDeterministic;
        if in_halves && (self.b != 2 || self.n < 2) {
            return Err(Refusal::PaperSchedule);
        }
        let in_order: bool = self.path_schedule == PathSchedule::AccessPlusOneDeterministic
            || self.path_schedule == PathSchedule::AccessPlusTwoDeterministic || self.path_schedule
            == PathSchedule::AccessPlusRateDeterministic || self.path_schedule
            == PathSchedule::AccessPlusRadixDeterministic;
        if in_order && self.n < 2 {
            return Err(Refusal::DeterministicSchedule);
        }
        if self.path_schedule == PathSchedule::AccessPlusRateDeterministic
            && self.deterministic_numerator == 0 {
            return Err(Refusal::ZeroRate);
        }
        let no_epoch_output: bool = is_named(&self.epoch_output, "");
        proof {
            reveal_strlit("");
            assert(self.epoch_output@ == ""@ <==> self.epoch_output@.len() == 0) by {
                if self.epoch_output@.len() == 0 {
                    assert(self.epoch_output@ =~= ""@);
                }
            }
        }
        if self.epoch_operations == 0 && !no_epoch_output {
            return Err(Refusal::EpochOutput);
        }
        if self.epoch_operations != 0 && (no_epoch_output || self.epoch_operations
            > self.operations || self.operations % self.epoch_operations != 0) {
            return Err(Refusal::EpochSize);
        }
        proof {
            reveal(is_pow2);
        }
        if !is_exact_power(self.n, self.b) {
            return Err(Refusal::ExactPower);
        }
        Ok(())
    }

    /// Parses arguments, without the name of the program.
    pub fn parse(arguments: &Vec<String>) -> (r: Result<Self, ArgumentError>)
        ensures
            match r {
                Ok(args) => outcome(arguments@) == Ok::<Settings, Problem>(args@),
                Err(e) => outcome(arguments@) == Err::<Settings, Problem>(e@),
            },
    {
        let mut result: Args = Args::new();
        let ghost pairs = arguments@.len() as int / 2;
        let mut i: usize = 0;
        while i < arguments.len()
            invariant
                i <= arguments.len(),
                i % 2 == 0,
                pairs == arguments@.len() as int / 2,
                with_arguments(arguments@, i as int / 2) == Ok::<Settings, Problem>(result@),
            decreases arguments.len() - i,
        {
            if arguments.len() - i < 2 {
                return Err(ArgumentError::MissingValue(arguments[i].clone()));
            }
            let ghost k = i as int / 2;
            let ghost before = result@;
            let taken: Result<(), ArgumentError> = result.set(&arguments[i], &arguments[i + 1]);
            proof {
                assert(with_arguments(arguments@, k + 1) == with_argument(
                    before,
                    arguments@[i as int]@,
                    arguments@[i + 1]@,
                ));
            }
            match taken {
                Ok(()) => {},
                Err(error) => {
                    proof {
                        lemma_problem_stays(arguments@, k + 1, pairs);
                    }
                    return Err(error);
                },
            }
            i += 2;
        }
        match result.check() {
            Ok(()) => Ok(result),
            Err(broken) => Err(ArgumentError::Refused(broken)),
        }
    }
}

} // verus!
