//! Arguments of the stash experiment for lane ORAM.
use vstd::arithmetic::power2::is_pow2;
use vstd::prelude::*;
use crate::arguments::{
    decimal_up_to, is_exact_power, is_named, is_power_of, is_power_of_two, parse_count, parse_size,
    ArgumentError, Problem, Refusal,
};
use crate::os_random::{OsRandomWords, RandomSourceFailed};
use crate::path_schedules::{count_digits, digits_of, lemma_digits_of, reverse_digits, reversed};

verus! {

/// The multiplier of the affine order.
pub const AFFINE_STEP: u128 = 0x9e37_79b1;

/// The order in which keys are accessed.
#[derive(Clone, Copy, Debug, PartialEq, Eq, Structural)]
pub enum Workload {
    /// One after another.
    Cycle,
    /// One after another, from the last.
    Reverse,
    /// By multiples of a constant.
    Affine,
    /// By their reversed bits.
    BitReverse,
    /// At random.
    Uniform,
    /// At random among the first sixteen.
    Hot16,
    /// Always the first.
    Same,
}

impl Workload {
    /// The name on the command line.
    pub open spec fn label(self) -> Seq<char> {
        match self {
            Workload::Cycle => "cycle"@,
            Workload::Reverse => "reverse"@,
            Workload::Affine => "affine"@,
            Workload::BitReverse => "bit-reverse"@,
            Workload::Uniform => "uniform"@,
            Workload::Hot16 => "hot16"@,
            Workload::Same => "same"@,
        }
    }

    /// What the text `s` names.
    pub open spec fn named(s: Seq<char>) -> Option<Self> {
        if s == "cycle"@ {
            Some(Workload::Cycle)
        } else if s == "reverse"@ {
            Some(Workload::Reverse)
        } else if s == "affine"@ {
            Some(Workload::Affine)
        } else if s == "bit-reverse"@ {
            Some(Workload::BitReverse)
        } else if s == "uniform"@ {
            Some(Workload::Uniform)
        } else if s == "hot16"@ {
            Some(Workload::Hot16)
        } else if s == "same"@ {
            Some(Workload::Same)
        } else {
            None
        }
    }

    /// The name on the command line.
    pub fn name(self) -> (r: &'static str)
        ensures
            r@ == self.label(),
    {
        match self {
            Workload::Cycle => "cycle",
            Workload::Reverse => "reverse",
            Workload::Affine => "affine",
            Workload::BitReverse => "bit-reverse",
            Workload::Uniform => "uniform",
            Workload::Hot16 => "hot16",
            Workload::Same => "same",
        }
    }

    /// Finds what `value` names.
    pub fn from_str(value: &String) -> (r: Result<Self, ArgumentError>)
        ensures
            match r {
                Ok(found) => Workload::named(value@) == Some(found),
                Err(e) => Workload::named(value@) is None && e@ == Problem::UnknownWorkload(value@),
            },
    {
        if is_named(value, "cycle") {
            Ok(Workload::Cycle)
        } else if is_named(value, "reverse") {
            Ok(Workload::Reverse)
        } else if is_named(value, "affine") {
            Ok(Workload::Affine)
        } else if is_named(value, "bit-reverse") {
            Ok(Workload::BitReverse)
        } else if is_named(value, "uniform") {
            Ok(Workload::Uniform)
        } else if is_named(value, "hot16") {
            Ok(Workload::Hot16)
        } else if is_named(value, "same") {
            Ok(Workload::Same)
        } else {
            Err(ArgumentError::UnknownWorkload(value.clone()))
        }
    }

    /// Every name names what it is the name of.
    pub proof fn lemma_name_round_trips(self)
        ensures
            Workload::named(self.label()) == Some(self),
    {
        reveal_strlit("cycle");
        reveal_strlit("reverse");
        reveal_strlit("affine");
        reveal_strlit("bit-reverse");
        reveal_strlit("uniform");
        reveal_strlit("hot16");
        reveal_strlit("same");
        assert("cycle"@.len() != "reverse"@.len());
        assert("cycle"@.len() != "affine"@.len());
        assert("cycle"@.len() != "bit-reverse"@.len());
        assert("cycle"@.len() != "uniform"@.len());
        assert("cycle"@[0] != "hot16"@[0]);
        assert("cycle"@.len() != "same"@.len());
        assert("reverse"@.len() != "affine"@.len());
        assert("reverse"@.len() != "bit-reverse"@.len());
        assert("reverse"@[0] != "uniform"@[0]);
        assert("reverse"@.len() != "hot16"@.len());
        assert("reverse"@.len() != "same"@.len());
        assert("affine"@.len() != "bit-reverse"@.len());
        assert("affine"@.len() != "uniform"@.len());
        assert("affine"@.len() != "hot16"@.len());
        assert("affine"@.len() != "same"@.len());
        assert("bit-reverse"@.len() != "uniform"@.len());
        assert("bit-reverse"@.len() != "hot16"@.len());
        assert("bit-reverse"@.len() != "same"@.len());
        assert("uniform"@.len() != "hot16"@.len());
        assert("uniform"@.len() != "same"@.len());
        assert("hot16"@.len() != "same"@.len());
    }
}

impl Workload {
    /// The key of access `operation` among `n`, with `word` for chance.
    pub open spec fn chosen(self, operation: int, n: int, word: int) -> int {
        match self {
            Workload::Cycle => operation % n,
            Workload::Reverse => n - 1 - operation % n,
            Workload::Affine => (operation * AFFINE_STEP) % n,
            Workload::BitReverse => reversed(operation % n, 2, digits_of(n, 2)),
            Workload::Uniform => word % n,
            Workload::Hot16 => word % (if n < 16 {
                n
            } else {
                16
            }),
            Workload::Same => 0,
        }
    }

    /// The order rests on chance.
    pub open spec fn random(self) -> bool {
        self == Workload::Uniform || self == Workload::Hot16
    }

    /// Access `operation` among `n` is to `key` when `words` are drawn for it.
    pub open spec fn picks(self, operation: int, n: int, words: Seq<u32>, key: int) -> bool {
        &&& words.len() == (if self.random() {
            1int
        } else {
            0
        })
        &&& key == self.chosen(
            operation,
            n,
            if self.random() {
                words[0] as int
            } else {
                0
            },
        )
    }

    /// The key of access `operation` among `n`, with `word` for chance.
    pub fn pick(self, operation: u64, n: usize, word: usize) -> (r: usize)
        requires
            1 <= n,
            is_pow2(n as int),
            self == Workload::BitReverse ==> 2 <= n,
        ensures
            r == self.chosen(operation as int, n as int, word as int),
            r < n,
    {
        let step: usize = (operation as u128 % n as u128) as usize;
        match self {
            Workload::Cycle => step,
            Workload::Reverse => n - 1 - step,
            Workload::Affine => {
                proof {
                    assert(operation * AFFINE_STEP <= 0xffff_ffff_ffff_ffff * 0x9e37_79b1)
                        by (nonlinear_arith)
                        requires
                            0 <= operation <= 0xffff_ffff_ffff_ffff,
                            AFFINE_STEP == 0x9e37_79b1,
                    ;
                }
                ((operation as u128 * AFFINE_STEP) % n as u128) as usize
            },
            Workload::BitReverse => {
                proof {
                    lemma_digits_of(n as int, 2);
                    crate::path_schedules::lemma_reversed_bound(
                        step as int,
                        2,
                        digits_of(n as int, 2),
                    );
                }
                let digits: u32 = count_digits(n, 2);
                reverse_digits(step, 2, digits)
            },
            Workload::Uniform => word % n,
            Workload::Hot16 => word % (if n < 16 {
                n
            } else {
                16
            }),
            Workload::Same => 0,
        }
    }

    /// The key of access `operation` among `n`, with the next random word for chance.
    pub fn key(self, operation: u64, n: usize, random: &mut OsRandomWords) -> (r: Result<
        usize,
        RandomSourceFailed,
    >)
        requires
            1 <= n,
            is_pow2(n as int),
            self == Workload::BitReverse ==> 2 <= n,
            old(random).wf(),
        ensures
            final(random).wf(),
            !self.random() ==> *final(random) == *old(random) && r == Ok::<usize, RandomSourceFailed>(
                self.chosen(operation as int, n as int, 0) as usize,
            ),
            self.random() && old(random).waiting().len() > 0 ==> final(random).waiting() == old(
                random,
            ).waiting().drop_first() && r == Ok::<usize, RandomSourceFailed>(
                self.chosen(operation as int, n as int, old(random).waiting()[0] as int) as usize,
            ),
            r matches Ok(k) ==> k < n,
            r matches Ok(k) ==> exists|words: Seq<u32>| #[trigger]
                self.picks(operation as int, n as int, words, k as int) && old(random).drew(
                    final(random),
                    words,
                ),
            r is Err ==> final(random).waiting() == old(random).waiting(),
    {
        let drawn: Result<usize, RandomSourceFailed> = match self {
            Workload::Uniform | Workload::Hot16 => random.next_usize(),
            _ => {
                assert(random.waiting() =~= random.waiting().skip(0));
                Ok(0)
            },
        };
        match drawn {
            Ok(word) => {
                let key: usize = self.pick(operation, n, word);
                let ghost words = if self.random() {
                    seq![word as u32]
                } else {
                    Seq::empty()
                };
                assert(self.picks(operation as int, n as int, words, key as int));
                let r: Result<usize, RandomSourceFailed> = Ok(key);
                assert(r->Ok_0 == key);
                r
            },
            Err(error) => Err(error),
        }
    }
}

/// The arguments of one experiment.
#[derive(Debug)]
pub struct Args {
    /// Number of keys and of leaves.
    pub n: usize,
    /// Branching factor.
    pub b: usize,
    /// Lanes of a bucket.
    pub z: usize,
    /// Accesses before the measurement.
    pub warmup: u64,
    /// Measured accesses.
    pub operations: u64,
    /// Order of the accesses.
    pub workload: Workload,
    /// Paths of the rate.
    pub deterministic_numerator: usize,
    /// Timesteps of the rate.
    pub deterministic_denominator: usize,
    /// Where the result is written.
    pub output: String,
}

/// What [`Args`] says, with numbers and texts as such.
pub struct Settings {
    pub n: nat,
    pub b: nat,
    pub z: nat,
    pub warmup: nat,
    pub operations: nat,
    pub workload: Workload,
    pub deterministic_numerator: nat,
    pub deterministic_denominator: nat,
    pub output: Seq<char>,
}

impl View for Args {
    type V = Settings;

    /// The settings.
    open spec fn view(&self) -> Settings {
        Settings {
            n: self.n as nat,
            b: self.b as nat,
            z: self.z as nat,
            warmup: self.warmup as nat,
            operations: self.operations as nat,
            workload: self.workload,
            deterministic_numerator: self.deterministic_numerator as nat,
            deterministic_denominator: self.deterministic_denominator as nat,
            output: self.output@,
        }
    }
}

/// What an experiment does unless told otherwise.
pub open spec fn default_settings() -> Settings {
    Settings {
        n: 4096,
        b: 2,
        z: 3,
        warmup: 16777216,
        operations: 268435456,
        workload: Workload::Cycle,
        deterministic_numerator: 0,
        deterministic_denominator: 1,
        output: "lane_oram_security.csv"@,
    }
}

/// A number that must not be above `limit`.
pub open spec fn number(value: Seq<char>, limit: nat) -> Result<nat, Problem> {
    match decimal_up_to(value, limit) {
        Some(v) => Ok(v),
        None => Err(Problem::InvalidNumber(value)),
    }
}

/// The settings after one argument.
pub open spec fn with_argument(s: Settings, name: Seq<char>, value: Seq<char>) -> Result<
    Settings,
    Problem,
> {
    if name == "--n"@ {
        match number(value, usize::MAX as nat) {
            Ok(n) => Ok(Settings { n, ..s }),
            Err(e) => Err(e),
        }
    } else if name == "--b"@ {
        match number(value, usize::MAX as nat) {
            Ok(b) => Ok(Settings { b, ..s }),
            Err(e) => Err(e),
        }
    } else if name == "--z"@ {
        match number(value, usize::MAX as nat) {
            Ok(z) => Ok(Settings { z, ..s }),
            Err(e) => Err(e),
        }
    } else if name == "--warmup"@ {
        match number(value, u64::MAX as nat) {
            Ok(warmup) => Ok(Settings { warmup, ..s }),
            Err(e) => Err(e),
        }
    } else if name == "--operations"@ {
        match number(value, u64::MAX as nat) {
            Ok(operations) => Ok(Settings { operations, ..s }),
            Err(e) => Err(e),
        }
    } else if name == "--workload"@ {
        match Workload::named(value) {
            Some(workload) => Ok(Settings { workload, ..s }),
            None => Err(Problem::UnknownWorkload(value)),
        }
    } else if name == "--deterministic-numerator"@ {
        match number(value, usize::MAX as nat) {
            Ok(deterministic_numerator) => Ok(Settings { deterministic_numerator, ..s }),
            Err(e) => Err(e),
        }
    } else if name == "--deterministic-denominator"@ {
        match number(value, usize::MAX as nat) {
            Ok(deterministic_denominator) => Ok(Settings { deterministic_denominator, ..s }),
            Err(e) => Err(e),
        }
    } else if name == "--output"@ {
        Ok(Settings { output: value, ..s })
    } else {
        Err(Problem::UnknownArgument(name))
    }
}

/// The settings after the first `n` pairs of a name and a value.
pub open spec fn with_arguments(args: Seq<String>, n: int) -> Result<Settings, Problem>
    decreases n,
{
    if n <= 0 {
        Ok(default_settings())
    } else {
        match with_arguments(args, n - 1) {
            Ok(s) => with_argument(s, args[2 * n - 2]@, args[2 * n - 1]@),
            Err(e) => Err(e),
        }
    }
}

/// The first rule that settings break.
pub open spec fn refusal(s: Settings) -> Option<Refusal> {
    if !is_pow2(s.n as int) {
        Some(Refusal::KeyCount)
    } else if !is_pow2(s.b as int) || s.b < 2 {
        Some(Refusal::BranchingFactor)
    } else if s.z == 0 || s.operations == 0 || s.deterministic_denominator == 0 {
        Some(Refusal::ZeroCount)
    } else if !is_power_of(s.n as int, s.b as int) {
        Some(Refusal::ExactPower)
    } else {
        None
    }
}

/// What arguments say: the settings, or the first problem with them.
pub open spec fn outcome(args: Seq<String>) -> Result<Settings, Problem> {
    let pairs = args.len() as int / 2;
    match with_arguments(args, pairs) {
        Ok(s) => if args.len() % 2 != 0 {
            Err(Problem::MissingValue(args.last()@))
        } else {
            match refusal(s) {
                Some(r) => Err(Problem::Refused(r)),
                None => Ok(s),
            }
        },
        Err(e) => Err(e),
    }
}

/// A problem with an argument stays.
proof fn lemma_problem_stays(args: Seq<String>, i: int, n: int)
    requires
        0 <= i <= n,
        with_arguments(args, i) is Err,
    ensures
        with_arguments(args, n) == with_arguments(args, i),
    decreases n,
{
    if i < n {
        lemma_problem_stays(args, i, n - 1);
    }
}

impl Args {
    /// The arguments of an experiment that was told nothing.
    pub fn new() -> (r: Self)
        ensures
            r@ == default_settings(),
    {
        Args {
            n: 4096,
            b: 2,
            z: 3,
            warmup: 16777216,
            operations: 268435456,
            workload: Workload::Cycle,
            deterministic_numerator: 0,
            deterministic_denominator: 1,
            output: "lane_oram_security.csv".to_owned(),
        }
    }

    /// Takes one argument.
    fn set(&mut self, name: &String, value: &String) -> (r: Result<(), ArgumentError>)
        ensures
            match r {
                Ok(()) => with_argument(old(self)@, name@, value@) == Ok::<Settings, Problem>(
                    final(self)@,
                ),
                Err(e) => with_argument(old(self)@, name@, value@) == Err::<Settings, Problem>(e@),
            },
    {
        if is_named(name, "--n") {
            match parse_size(value) {
                Ok(n) => {
                    self.n = n;
                },
                Err(error) => {
                    return Err(error);
                },
            }
        } else if is_named(name, "--b") {
            match parse_size(value) {
                Ok(b) => {
                    self.b = b;
                },
                Err(error) => {
                    return Err(error);
                },
            }
        } else if is_named(name, "--z") {
            match parse_size(value) {
                Ok(z) => {
                    self.z = z;
                },
                Err(error) => {
                    return Err(error);
                },
            }
        } else if is_named(name, "--warmup") {
            match parse_count(value) {
                Ok(warmup) => {
                    self.warmup = warmup;
                },
                Err(error) => {
                    return Err(error);
                },
            }
        } else if is_named(name, "--operations") {
            match parse_count(value) {
                Ok(operations) => {
                    self.operations = operations;
                },
                Err(error) => {
                    return Err(error);
                },
            }
        } else if is_named(name, "--workload") {
            match Workload::from_str(value) {
                Ok(workload) => {
                    self.workload = workload;
                },
                Err(error) => {
                    return Err(error);
                },
            }
        } else if is_named(name, "--deterministic-numerator") {
            match parse_size(value) {
                Ok(deterministic_numerator) => {
                    self.deterministic_numerator = deterministic_numerator;
                },
                Err(error) => {
                    return Err(error);
                },
            }
        } else if is_named(name, "--deterministic-denominator") {
            match parse_size(value) {
                Ok(deterministic_denominator) => {
                    self.deterministic_denominator = deterministic_denominator;
                },
                Err(error) => {
                    return Err(error);
                },
            }
        } else if is_named(name, "--output") {
            self.output = value.clone();
        } else {
            return Err(ArgumentError::UnknownArgument(name.clone()));
        }
        Ok(())
    }

    /// Whether the values go together.
    pub fn check(&self) -> (r: Result<(), Refusal>)
        ensures
            match r {
                Ok(()) => refusal(self@) is None,
                Err(broken) => refusal(self@) == Some(broken),
            },
    {
        if !is_power_of_two(self.n) {
            return Err(Refusal::KeyCount);
        }
        if !is_power_of_two(self.b) || self.b < 2 {
            return Err(Refusal::BranchingFactor);
        }
        if self.z == 0 || self.operations == 0 || self.deterministic_denominator == 0 {
            return Err(Refusal::ZeroCount);
        }
        proof {
            reveal(is_pow2);
        }
        if !is_exact_power(self.n, self.b) {
            return Err(Refusal::ExactPower);
        }
        Ok(())
    }

    /// Parses arguments, without the name of the program.
    pub fn parse(arguments: &Vec<String>) -> (r: Result<Self, ArgumentError>)
        ensures
            match r {
                Ok(args) => outcome(arguments@) == Ok::<Settings, Problem>(args@),
                Err(e) => outcome(arguments@) == Err::<Settings, Problem>(e@),
            },
    {
        let mut result: Args = Args::new();
        let ghost pairs = arguments@.len() as int / 2;
        let mut i: usize = 0;
        while i < arguments.len()
            invariant
                i <= arguments.len(),
                i % 2 == 0,
                pairs == arguments@.len() as int / 2,
                with_arguments(arguments@, i as int / 2) == Ok::<Settings, Problem>(result@),
            decreases arguments.len() - i,
        {
            if arguments.len() - i < 2 {
                return Err(ArgumentError::MissingValue(arguments[i].clone()));
            }
            let ghost k = i as int / 2;
            let ghost before = result@;
            let taken: Result<(), ArgumentError> = result.set(&arguments[i], &arguments[i + 1]);
            proof {
                assert(with_arguments(arguments@, k + 1) == with_argument(
                    before,
                    arguments@[i as int]@,
                    arguments@[i + 1]@,
                ));
            }
            match taken {
                Ok(()) => {},
                Err(error) => {
                    proof {
                        lemma_problem_stays(arguments@, k + 1, pairs);
                    }
                    return Err(error);
                },
            }
            i += 2;
        }
        match result.check() {
            Ok(()) => Ok(result),
            Err(broken) => Err(ArgumentError::Refused(broken)),
        }
    }
}

} // verus!
