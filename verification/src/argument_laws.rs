//! What holds of all command line arguments of the experiments, and of their workloads.
use vstd::arithmetic::power::pow;
use vstd::prelude::*;
use crate::arguments::decimal;
use crate::heap_tree::{full_width, lemma_full_width, lemma_full_width_grows};
use crate::lane_security_args;
use crate::minibucket_args;
use crate::minibucket_run::schedulable;
use crate::path_schedules::{lemma_digits_of_power, lemma_reversal_undoes_itself};

verus! {

/// An argument changes the setting that it names and no other.
pub proof fn lemma_lane_argument_is_for(s: lane_security_args::Settings, a: Seq<char>, v: Seq<char>)
    requires
        lane_security_args::with_argument(s, a, v) is Ok,
    ensures
        ({
            let x = lane_security_args::with_argument(s, a, v)->Ok_0;
            &&& x.n != s.n ==> a == "--n"@
            &&& x.b != s.b ==> a == "--b"@
            &&& x.z != s.z ==> a == "--z"@
            &&& x.workload != s.workload ==> a == "--workload"@
            &&& x.deterministic_numerator != s.deterministic_numerator ==> a == "--deterministic-numerator"@
            &&& x.deterministic_denominator != s.deterministic_denominator ==> a == "--deterministic-denominator"@
            &&& x.warmup != s.warmup ==> a == "--warmup"@
            &&& x.operations != s.operations ==> a == "--operations"@
            &&& x.output != s.output ==> a == "--output"@
        }),
{
}

/// An argument that comes again replaces what it said before.
pub proof fn lemma_lane_argument_again(
    s: lane_security_args::Settings,
    a: Seq<char>,
    v: Seq<char>,
    w: Seq<char>,
)
    requires
        lane_security_args::with_argument(s, a, v) is Ok,
    ensures
        lane_security_args::with_argument(lane_security_args::with_argument(s, a, v)->Ok_0, a, w)
            == lane_security_args::with_argument(s, a, w),
{
}

proof fn lemma_lane_number(v: Seq<char>, w: Seq<char>, limit: nat)
    requires
        lane_security_args::number(v, limit) is Ok,
        lane_security_args::number(v, limit) == lane_security_args::number(w, limit),
    ensures
        decimal(v) is Some,
        decimal(v) == decimal(w),
{
}

proof fn lemma_lane_workload_named(v: Seq<char>, w: Seq<char>)
    requires
        lane_security_args::Workload::named(v) is Some,
        lane_security_args::Workload::named(v) == lane_security_args::Workload::named(w),
    ensures
        v == w,
{
}

/// No argument is passed over: values that say different things lead to different settings.
/// Two values say the same if they are the same text, or the same number.
pub proof fn lemma_lane_argument_counts(
    s: lane_security_args::Settings,
    a: Seq<char>,
    v: Seq<char>,
    w: Seq<char>,
)
    requires
        lane_security_args::with_argument(s, a, v) is Ok,
        lane_security_args::with_argument(s, a, v) == lane_security_args::with_argument(s, a, w),
    ensures
        v == w || (decimal(v) is Some && decimal(v) == decimal(w)),
{
    if a == "--n"@ {
        lemma_lane_number(v, w, usize::MAX as nat);
    } else if a == "--b"@ {
        lemma_lane_number(v, w, usize::MAX as nat);
    } else if a == "--z"@ {
        lemma_lane_number(v, w, usize::MAX as nat);
    } else if a == "--warmup"@ {
        lemma_lane_number(v, w, u64::MAX as nat);
    } else if a == "--operations"@ {
        lemma_lane_number(v, w, u64::MAX as nat);
    } else if a == "--workload"@ {
        lemma_lane_workload_named(v, w);
    } else if a == "--deterministic-numerator"@ {
        lemma_lane_number(v, w, usize::MAX as nat);
    } else if a == "--deterministic-denominator"@ {
        lemma_lane_number(v, w, usize::MAX as nat);
    } else if a == "--output"@ {
        assert(v == w);
    }
}

/// What one argument says goes for whatever the others said: whether it is taken, and the
/// problem if it is not, rest on its name and value alone.
pub proof fn lemma_lane_argument_alone(
    s: lane_security_args::Settings,
    t: lane_security_args::Settings,
    a: Seq<char>,
    v: Seq<char>,
)
    ensures
        lane_security_args::with_argument(s, a, v) is Ok <==> lane_security_args::with_argument(t, a, v) is Ok,
        lane_security_args::with_argument(s, a, v) is Err ==> lane_security_args::with_argument(s, a, v)
            == lane_security_args::with_argument(t, a, v),
{
}

/// An argument changes the setting that it names and no other.
pub proof fn lemma_minibucket_argument_is_for(s: minibucket_args::Settings, a: Seq<char>, v: Seq<char>)
    requires
        minibucket_args::with_argument(s, a, v) is Ok,
    ensures
        ({
            let x = minibucket_args::with_argument(s, a, v)->Ok_0;
            &&& x.n != s.n ==> a == "--n"@
            &&& x.b != s.b ==> a == "--b"@
            &&& x.z != s.z ==> a == "--z"@
            &&& x.y != s.y ==> a == "--y"@
            &&& x.queue_policy != s.queue_policy ==> a == "--queue-policy"@
            &&& x.eviction_policy != s.eviction_policy ==> a == "--eviction-policy"@
            &&& x.eviction_chains != s.eviction_chains ==> a == "--eviction-chains"@
            &&& x.path_schedule != s.path_schedule ==> a == "--path-schedule"@
            &&& x.deterministic_numerator != s.deterministic_numerator ==> a == "--deterministic-numerator"@
            &&& x.deterministic_denominator != s.deterministic_denominator ==> a == "--deterministic-denominator"@
            &&& x.epoch_operations != s.epoch_operations ==> a == "--epoch-operations"@
            &&& x.epoch_output != s.epoch_output ==> a == "--epoch-output"@
            &&& x.warmup != s.warmup ==> a == "--warmup"@
            &&& x.operations != s.operations ==> a == "--operations"@
            &&& x.workload != s.workload ==> a == "--workload"@
            &&& x.output != s.output ==> a == "--output"@
        }),
{
}

/// An argument that comes again replaces what it said before.
pub proof fn lemma_minibucket_argument_again(
    s: minibucket_args::Settings,
    a: Seq<char>,
    v: Seq<char>,
    w: Seq<char>,
)
    requires
        minibucket_args::with_argument(s, a, v) is Ok,
    ensures
        minibucket_args::with_argument(minibucket_args::with_argument(s, a, v)->Ok_0, a, w)
            == minibucket_args::with_argument(s, a, w),
{
    if a == "--n"@ {
    } else if a == "--b"@ {
    } else if a == "--z"@ {
    } else if a == "--y"@ {
    } else if a == "--queue-policy"@ {
    } else if a == "--eviction-policy"@ {
    } else if a == "--eviction-chains"@ {
    } else if a == "--path-schedule"@ {
    } else if a == "--deterministic-numerator"@ {
    } else if a == "--deterministic-denominator"@ {
    } else if a == "--epoch-operations"@ {
    } else if a == "--epoch-output"@ {
    } else if a == "--warmup"@ {
    } else if a == "--operations"@ {
    } else if a == "--workload"@ {
    } else if a == "--output"@ {
    }
}

proof fn lemma_minibucket_number(v: Seq<char>, w: Seq<char>, limit: nat)
    requires
        minibucket_args::number(v, limit) is Ok,
        minibucket_args::number(v, limit) == minibucket_args::number(w, limit),
    ensures
        decimal(v) is Some,
        decimal(v) == decimal(w),
{
}

proof fn lemma_minibucket_workload_named(v: Seq<char>, w: Seq<char>)
    requires
        minibucket_args::Workload::named(v) is Some,
        minibucket_args::Workload::named(v) == minibucket_args::Workload::named(w),
    ensures
        v == w,
{
}

proof fn lemma_minibucket_queue_named(v: Seq<char>, w: Seq<char>)
    requires
        minibucket_args::QueuePolicy::named(v) is Some,
        minibucket_args::QueuePolicy::named(v) == minibucket_args::QueuePolicy::named(w),
    ensures
        v == w,
{
}

proof fn lemma_minibucket_eviction_named(v: Seq<char>, w: Seq<char>)
    requires
        minibucket_args::EvictionPolicy::named(v) is Some,
        minibucket_args::EvictionPolicy::named(v) == minibucket_args::EvictionPolicy::named(w),
    ensures
        v == w,
{
}

proof fn lemma_minibucket_schedule_named(v: Seq<char>, w: Seq<char>)
    requires
        minibucket_args::PathSchedule::named(v) is Some,
        minibucket_args::PathSchedule::named(v) == minibucket_args::PathSchedule::named(w),
    ensures
        v == w,
{
}

/// No argument is passed over: values that say different things lead to different settings.
/// Two values say the same if they are the same text, or the same number.
pub proof fn lemma_minibucket_argument_counts(
    s: minibucket_args::Settings,
    a: Seq<char>,
    v: Seq<char>,
    w: Seq<char>,
)
    requires
        minibucket_args::with_argument(s, a, v) is Ok,
        minibucket_args::with_argument(s, a, v) == minibucket_args::with_argument(s, a, w),
    ensures
        v == w || (decimal(v) is Some && decimal(v) == decimal(w)),
{
    if a == "--n"@ {
        lemma_minibucket_number(v, w, usize::MAX as nat);
    } else if a == "--b"@ {
        lemma_minibucket_number(v, w, usize::MAX as nat);
    } else if a == "--z"@ {
        lemma_minibucket_number(v, w, usize::MAX as nat);
    } else if a == "--y"@ {
        lemma_minibucket_number(v, w, usize::MAX as nat);
    } else if a == "--queue-policy"@ {
        lemma_minibucket_queue_named(v, w);
    } else if a == "--eviction-policy"@ {
        lemma_minibucket_eviction_named(v, w);
    } else if a == "--eviction-chains"@ {
        lemma_minibucket_number(v, w, usize::MAX as nat);
    } else if a == "--path-schedule"@ {
        lemma_minibucket_schedule_named(v, w);
    } else if a == "--deterministic-numerator"@ {
        lemma_minibucket_number(v, w, usize::MAX as nat);
    } else if a == "--deterministic-denominator"@ {
        lemma_minibucket_number(v, w, usize::MAX as nat);
    } else if a == "--epoch-operations"@ {
        lemma_minibucket_number(v, w, u64::MAX as nat);
    } else if a == "--epoch-output"@ {
        assert(v == w);
    } else if a == "--warmup"@ {
        lemma_minibucket_number(v, w, u64::MAX as nat);
    } else if a == "--operations"@ {
        lemma_minibucket_number(v, w, u64::MAX as nat);
    } else if a == "--workload"@ {
        lemma_minibucket_workload_named(v, w);
    } else if a == "--output"@ {
        assert(v == w);
    }
}

/// What one argument says goes for whatever the others said: whether it is taken, and the
/// problem if it is not, rest on its name and value alone.
pub proof fn lemma_minibucket_argument_alone(
    s: minibucket_args::Settings,
    t: minibucket_args::Settings,
    a: Seq<char>,
    v: Seq<char>,
)
    ensures
        minibucket_args::with_argument(s, a, v) is Ok <==> minibucket_args::with_argument(t, a, v) is Ok,
        minibucket_args::with_argument(s, a, v) is Err ==> minibucket_args::with_argument(s, a, v)
            == minibucket_args::with_argument(t, a, v),
{
}

/// What is a multiple of a power of two after a multiplication by an odd number was one
/// before.
proof fn lemma_odd_factor(k: int, d: int, odd: int)
    requires
        0 <= k,
        odd % 2 == 1,
        (d * odd) % full_width(k, 2) == 0,
    ensures
        d % full_width(k, 2) == 0,
    decreases k,
{
    lemma_full_width(0, 2);
    if k > 0 {
        let w = full_width(k - 1, 2);
        lemma_full_width(k - 1, 2);
        let n = full_width(k, 2);
        assert(n == 2 * w);
        let x = d * odd;
        let q = x / n;
        vstd::arithmetic::div_mod::lemma_fundamental_div_mod(x, n);
        assert(x == 2 * (w * q)) by (nonlinear_arith)
            requires
                x == n * q,
                n == 2 * w,
        ;
        let h = odd / 2;
        assert(odd == 2 * h + 1);
        assert(d * odd == 2 * (d * h) + d) by (nonlinear_arith)
            requires
                odd == 2 * h + 1,
        ;
        let e = d / 2;
        assert(d == 2 * e);
        assert(e * odd == w * q) by (nonlinear_arith)
            requires
                d * odd == 2 * (w * q),
                d == 2 * e,
        ;
        vstd::arithmetic::div_mod::lemma_fundamental_div_mod_converse(e * odd, w, q, 0);
        lemma_odd_factor(k - 1, e, odd);
        vstd::arithmetic::div_mod::lemma_fundamental_div_mod(e, w);
        let r = e / w;
        assert(d == n * r) by (nonlinear_arith)
            requires
                d == 2 * e,
                e == w * r,
                n == 2 * w,
        ;
        vstd::arithmetic::div_mod::lemma_fundamental_div_mod_converse(d, n, r, 0);
    } else {
        vstd::arithmetic::div_mod::lemma_mod_bound(d, 1);
    }
}

/// Numbers less than `n` apart with the same remainder are the same.
proof fn lemma_near(i: int, j: int, n: int)
    requires
        1 <= n,
        -n < i - j < n,
        (i - j) % n == 0,
    ensures
        i == j,
{
    let q = (i - j) / n;
    vstd::arithmetic::div_mod::lemma_fundamental_div_mod(i - j, n);
    assert(q == 0) by (nonlinear_arith)
        requires
            i - j == n * q,
            -n < i - j < n,
            1 <= n,
    ;
}

/// A workload that does not rest on chance, and is not always to the same key, comes to every
/// key once among as many accesses as there are keys: no two of them are to the same.
pub proof fn lemma_lane_workload_round(
    workload: lane_security_args::Workload,
    i: int,
    j: int,
    k: int,
    word: int,
    other: int,
)
    requires
        !workload.random(),
        workload != lane_security_args::Workload::Same,
        0 <= k,
        0 <= i < j < i + full_width(k, 2),
    ensures
        0 <= workload.chosen(i, full_width(k, 2), word) < full_width(k, 2),
        workload.chosen(i, full_width(k, 2), word) != workload.chosen(j, full_width(k, 2), other),
{
    let n = full_width(k, 2);
    lemma_full_width(k, 2);
    vstd::arithmetic::div_mod::lemma_mod_bound(i, n);
    vstd::arithmetic::div_mod::lemma_mod_bound(j, n);
    vstd::arithmetic::div_mod::lemma_mod_equivalence(i, j, n);
    if i % n == j % n {
        lemma_near(i, j, n);
    }
    match workload {
        lane_security_args::Workload::Affine => {
            let a = 0x9e37_79b1int;
            vstd::arithmetic::div_mod::lemma_mod_bound(i * a, n);
            vstd::arithmetic::div_mod::lemma_mod_equivalence(i * a, j * a, n);
            if (i * a) % n == (j * a) % n {
                assert(i * a - j * a == (i - j) * a) by (nonlinear_arith);
                lemma_odd_factor(k, i - j, a);
                lemma_near(i, j, n);
            }
        },
        lane_security_args::Workload::BitReverse => {
            lemma_digits_of_power(k, 2);
            lemma_reversal_undoes_itself(i % n, 2, k);
            lemma_reversal_undoes_itself(j % n, 2, k);
            crate::path_schedules::lemma_reversed_bound(i % n, 2, k);
        },
        _ => {},
    }
}

/// A workload by chance comes to every key that it may come to, the same one exactly for
/// words whose difference is a multiple of the number of those keys: all of them, or the
/// first sixteen.
pub proof fn lemma_lane_workload_chance(
    workload: lane_security_args::Workload,
    i: int,
    j: int,
    n: int,
    word: int,
    other: int,
)
    requires
        workload.random(),
        1 <= n,
        0 <= word,
        0 <= other,
    ensures
        ({
            let keys = if workload == lane_security_args::Workload::Hot16 && n > 16 {
                16
            } else {
                n
            };
            &&& 0 <= workload.chosen(i, n, word) < keys
            &&& word < keys ==> workload.chosen(i, n, word) == word
            &&& workload.chosen(i, n, word) == workload.chosen(j, n, other) <==> (word - other)
                % keys == 0
        }),
{
    let keys = if workload == lane_security_args::Workload::Hot16 && n > 16 {
        16
    } else {
        n
    };
    vstd::arithmetic::div_mod::lemma_mod_bound(word, keys);
    vstd::arithmetic::div_mod::lemma_mod_equivalence(word, other, keys);
    if word < keys {
        vstd::arithmetic::div_mod::lemma_small_mod(word as nat, keys as nat);
    }
}

/// The two workloads of the minibucket experiment are those of the same name.
pub proof fn lemma_workloads_agree(operation: int, n: int, word: int)
    ensures
        minibucket_args::Workload::Cycle.chosen(operation, n, word)
            == lane_security_args::Workload::Cycle.chosen(operation, n, word),
        minibucket_args::Workload::Uniform.chosen(operation, n, word)
            == lane_security_args::Workload::Uniform.chosen(operation, n, word),
        minibucket_args::Workload::Cycle.label() == lane_security_args::Workload::Cycle.label(),
        minibucket_args::Workload::Uniform.label() == lane_security_args::Workload::Uniform.label(),
{
}

/// Settings that are not refused make an experiment: the tree has a power of the branching
/// factor as leaves, every count that must be is positive, and the path schedule can go on
/// with these sizes.
pub proof fn lemma_minibucket_settings(s: minibucket_args::Settings)
    requires
        minibucket_args::refusal(s) is None,
        s.n <= 0x1_0000_0000,
    ensures
        schedulable(
            s.path_schedule,
            s.n as int,
            s.b as int,
            s.deterministic_denominator as int,
        ),
        exists|k: int| 0 <= k && s.n == #[trigger] full_width(k, s.b as int),
        s.z >= 1,
        s.y >= 1,
        s.operations >= 1,
        s.eviction_chains >= 1,
        s.epoch_operations > 0 ==> s.operations % s.epoch_operations == 0,
{
    let b = s.b as int;
    let e = choose|e: nat| s.n as int == #[trigger] pow(b, e);
    lemma_width_is_power(e as int, b);
    assert(s.n == full_width(e as int, b));
    lemma_full_width(0, b);
    if e >= 1 {
        lemma_full_width_grows(1, e as int, b);
        lemma_full_width(0, b);
        assert(full_width(1, b) == b);
    }
}

/// Settings that are not refused make an experiment: the tree has a power of the branching
/// factor as leaves, and every count that must be is positive.
pub proof fn lemma_lane_settings(s: lane_security_args::Settings)
    requires
        lane_security_args::refusal(s) is None,
    ensures
        exists|k: int| 0 <= k && s.n == #[trigger] full_width(k, s.b as int),
        s.b >= 2,
        s.z >= 1,
        s.operations >= 1,
        s.deterministic_denominator >= 1,
{
    let b = s.b as int;
    let e = choose|e: nat| s.n as int == #[trigger] pow(b, e);
    lemma_width_is_power(e as int, b);
    assert(s.n == full_width(e as int, b));
}

proof fn lemma_width_is_power(k: int, b: int)
    requires
        0 <= k,
        2 <= b,
    ensures
        full_width(k, b) == pow(b, k as nat),
    decreases k,
{
    lemma_full_width(0, b);
    if k > 0 {
        lemma_width_is_power(k - 1, b);
        lemma_full_width(k - 1, b);
        reveal(pow);
        assert(b * full_width(k - 1, b) == full_width(k - 1, b) * b) by (nonlinear_arith);
    } else {
        reveal(pow);
    }
}

} // verus!
