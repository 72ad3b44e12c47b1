//! Command line arguments: pairs of a name and a value.
use std::num::ParseIntError;
use vstd::arithmetic::power::pow;
use vstd::arithmetic::power2::is_pow2;
use vstd::prelude::*;

verus! {

/// `std::num::ParseIntError`, why a text is no number.
#[verifier::external_type_specification]
#[verifier::external_body]
pub struct ExParseIntError(std::num::ParseIntError);

/// The value of a row of decimal digits.
pub open spec fn digits_value(s: Seq<char>) -> nat
    decreases s.len(),
{
    if s.len() == 0 {
        0
    } else {
        (digits_value(s.drop_last()) * 10 + (s.last() as int - '0' as int)) as nat
    }
}

/// A row of one or more decimal digits.
pub open spec fn all_digits(s: Seq<char>) -> bool {
    s.len() > 0 && forall|i: int| 0 <= i < s.len() ==> '0' <= #[trigger] s[i] <= '9'
}

/// The number that a text stands for: an optional plus sign and decimal digits.
pub open spec fn decimal(s: Seq<char>) -> Option<nat> {
    let t = if s.len() > 0 && s[0] == '+' {
        s.drop_first()
    } else {
        s
    };
    if all_digits(t) {
        Some(digits_value(t))
    } else {
        None
    }
}

/// The number that a text stands for, if it is at most `limit`.
pub open spec fn decimal_up_to(s: Seq<char>, limit: nat) -> Option<nat> {
    match decimal(s) {
        Some(v) => if v <= limit {
            Some(v)
        } else {
            None
        },
        None => None,
    }
}

/// `str::parse::<usize>`: the number that the text stands for, where it is one and fits.
#[verifier::external_body]
fn parse_usize(value: &str) -> (r: Result<usize, ParseIntError>)
    ensures
        match r {
            Ok(v) => decimal_up_to(value@, usize::MAX as nat) == Some(v as nat),
            Err(_) => decimal_up_to(value@, usize::MAX as nat) is None,
        },
{
    value.parse::<usize>()
}

/// `str::parse::<u64>`: the number that the text stands for, where it is one and fits.
#[verifier::external_body]
fn parse_u64(value: &str) -> (r: Result<u64, ParseIntError>)
    ensures
        match r {
            Ok(v) => decimal_up_to(value@, u64::MAX as nat) == Some(v as nat),
            Err(_) => decimal_up_to(value@, u64::MAX as nat) is None,
        },
{
    value.parse::<u64>()
}

/// Why arguments were not taken.
#[derive(Debug)]
pub enum ArgumentError {
    /// A name without a value.
    MissingValue(String),
    /// A name that means nothing.
    UnknownArgument(String),
    /// A value that is no number, or one that is too large.
    InvalidNumber(String, ParseIntError),
    /// No workload has this name.
    UnknownWorkload(String),
    /// No queue policy has this name.
    UnknownQueuePolicy(String),
    /// No eviction policy has this name.
    UnknownEvictionPolicy(String),
    /// No path schedule has this name.
    UnknownPathSchedule(String),
    /// The values do not go together.
    Refused(Refusal),
}

/// A rule that the values of the arguments break.
#[derive(Clone, Copy, Debug, PartialEq, Eq, Structural)]
pub enum Refusal {
    /// The number of keys is no power of two, or a size or count is zero.
    Sizes,
    /// Pooled eviction with more than one queue.
    PooledQueues,
    /// The branching factor is no power of two, or less than two.
    BranchingFactor,
    /// A schedule for binary trees with at least two leaves.
    PaperSchedule,
    /// A schedule for trees with at least two leaves.
    DeterministicSchedule,
    /// A rate of nothing.
    ZeroRate,
    /// An epoch output without epochs.
    EpochOutput,
    /// Epochs without an output, or that do not divide the operations.
    EpochSize,
    /// The number of keys is no power of two.
    KeyCount,
    /// A count is zero.
    ZeroCount,
    /// The number of keys is no power of the branching factor.
    ExactPower,
}

/// What [`ArgumentError`] says, with texts as sequences.
pub enum Problem {
    MissingValue(Seq<char>),
    UnknownArgument(Seq<char>),
    InvalidNumber(Seq<char>),
    UnknownWorkload(Seq<char>),
    UnknownQueuePolicy(Seq<char>),
    UnknownEvictionPolicy(Seq<char>),
    UnknownPathSchedule(Seq<char>),
    Refused(Refusal),
}

impl View for ArgumentError {
    type V = Problem;

    /// The problem.
    open spec fn view(&self) -> Problem {
        match *self {
            ArgumentError::MissingValue(s) => Problem::MissingValue(s@),
            ArgumentError::UnknownArgument(s) => Problem::UnknownArgument(s@),
            ArgumentError::InvalidNumber(s, e) => Problem::InvalidNumber(s@),
            ArgumentError::UnknownWorkload(s) => Problem::UnknownWorkload(s@),
            ArgumentError::UnknownQueuePolicy(s) => Problem::UnknownQueuePolicy(s@),
            ArgumentError::UnknownEvictionPolicy(s) => Problem::UnknownEvictionPolicy(s@),
            ArgumentError::UnknownPathSchedule(s) => Problem::UnknownPathSchedule(s@),
            ArgumentError::Refused(r) => Problem::Refused(r),
        }
    }
}

/// Parses a number that fits in a `usize`.
pub fn parse_size(value: &String) -> (r: Result<usize, ArgumentError>)
    ensures
        match r {
            Ok(v) => decimal_up_to(value@, usize::MAX as nat) == Some(v as nat),
            Err(e) => decimal_up_to(value@, usize::MAX as nat) is None && e@
                == Problem::InvalidNumber(value@),
        },
{
    match parse_usize(value.as_str()) {
        Ok(v) => Ok(v),
        Err(error) => Err(ArgumentError::InvalidNumber(value.clone(), error)),
    }
}

/// Parses a number that fits in a `u64`.
pub fn parse_count(value: &String) -> (r: Result<u64, ArgumentError>)
    ensures
        match r {
            Ok(v) => decimal_up_to(value@, u64::MAX as nat) == Some(v as nat),
            Err(e) => decimal_up_to(value@, u64::MAX as nat) is None && e@
                == Problem::InvalidNumber(value@),
        },
{
    match parse_u64(value.as_str()) {
        Ok(v) => Ok(v),
        Err(error) => Err(ArgumentError::InvalidNumber(value.clone(), error)),
    }
}

/// Whether an argument is the text `name`.
pub fn is_named(argument: &String, name: &str) -> (r: bool)
    ensures
        r == (argument@ == name@),
{
    *argument == name.to_owned()
}

/// Whether `n` is a power of two.
pub fn is_power_of_two(n: usize) -> (r: bool)
    ensures
        r == is_pow2(n as int),
{
    let mut rest: usize = n;
    if rest == 0 {
        proof {
            reveal(is_pow2);
        }
        return false;
    }
    while rest % 2 == 0
        invariant
            0 < rest,
            is_pow2(rest as int) == is_pow2(n as int),
        decreases rest,
    {
        proof {
            reveal(is_pow2);
        }
        rest = rest / 2;
    }
    proof {
        reveal(is_pow2);
    }
    rest == 1
}

/// `n` is a power of `b`.
pub open spec fn is_power_of(n: int, b: int) -> bool {
    exists|k: nat| #[trigger] pow(b, k) == n
}

/// Whether `n` is a power of `b`.
pub fn is_exact_power(n: usize, b: usize) -> (r: bool)
    requires
        1 <= n,
        2 <= b,
    ensures
        r == is_power_of(n as int, b as int),
{
    let mut rest: usize = n;
    let ghost f = b as int;
    while rest % b == 0
        invariant
            1 <= rest,
            f == b,
            2 <= f,
            is_power_of(rest as int, f) == is_power_of(n as int, f),
        decreases rest,
    {
        proof {
            let q = rest as int / f;
            vstd::arithmetic::div_mod::lemma_fundamental_div_mod(rest as int, f);
            assert(1 <= q < rest) by (nonlinear_arith)
                requires
                    rest == f * q,
                    1 <= rest,
                    2 <= f,
            ;
            if is_power_of(rest as int, f) {
                let k = choose|k: nat| #[trigger] pow(f, k) == rest;
                vstd::arithmetic::power::lemma_pow0(f);
                if k == 0 {
                    assert(false) by (nonlinear_arith)
                        requires
                            rest == 1,
                            rest == f * q,
                            1 <= q,
                            2 <= f,
                    ;
                }
                let m = (k - 1) as nat;
                reveal(pow);
                assert(pow(f, k) == f * pow(f, m));
                assert(pow(f, m) == q) by (nonlinear_arith)
                    requires
                        f * pow(f, m) == f * q,
                        2 <= f,
                ;
            }
            if is_power_of(q, f) {
                let k = choose|k: nat| #[trigger] pow(f, k) == q;
                reveal(pow);
                assert(pow(f, (k + 1) as nat) == f * pow(f, k));
                assert(pow(f, (k + 1) as nat) == rest);
            }
        }
        rest = rest / b;
    }
    proof {
        vstd::arithmetic::power::lemma_pow0(f);
        if rest == 1 {
            assert(pow(f, 0) == rest);
        } else if is_power_of(rest as int, f) {
            let k = choose|k: nat| #[trigger] pow(f, k) == rest;
            let m = (k - 1) as nat;
            reveal(pow);
            assert(pow(f, k) == f * pow(f, m));
            vstd::arithmetic::div_mod::lemma_mod_multiples_basic(pow(f, m), f);
            assert(f * pow(f, m) == pow(f, m) * f) by (nonlinear_arith);
        }
    }
    rest == 1
}

} // verus!
