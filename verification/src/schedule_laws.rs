//! What the eviction schedules promise: which leaves come up, and how soon.
use vstd::prelude::*;
use crate::heap_tree::{full_width, lemma_full_width};
use crate::lane_security_run::rate_paths;
use crate::minibucket_args::PathSchedule;
use crate::minibucket_run::{background, evicts_accessed, lemma_leaf};
use crate::path_schedules::{
    leaf_at, lemma_consecutive_leaves, lemma_leaf_under_root_child, lemma_rate_leaves_no_gap,
    paths_before,
};

verus! {

/// How many paths a schedule of fixed pace evicts besides the accessed one.
pub open spec fn pace(schedule: PathSchedule, b: int) -> int {
    match schedule {
        PathSchedule::PaperDeterministic => 2,
        PathSchedule::AccessPlusPaperDeterministic => 2,
        PathSchedule::AccessPlusOneDeterministic => 1,
        PathSchedule::AccessPlusTwoDeterministic => 2,
        PathSchedule::AccessPlusRadixDeterministic => b,
        _ => 0,
    }
}

/// A schedule that goes through the leaves of a binary tree, whatever the branching factor.
pub open spec fn halves(schedule: PathSchedule) -> bool {
    schedule == PathSchedule::PaperDeterministic || schedule
        == PathSchedule::AccessPlusPaperDeterministic
}

/// Some access from number `first` to `end` evicts the leaf.
pub open spec fn comes_up(
    schedule: PathSchedule,
    first: int,
    end: int,
    n: int,
    b: int,
    numerator: int,
    denominator: int,
    words: spec_fn(int) -> (int, int),
    leaf: int,
) -> bool {
    exists|a: int, i: int|
        first <= a < end && 0 <= i < background(
            schedule,
            a,
            n,
            b,
            numerator,
            denominator,
            words(a).0,
            words(a).1,
        ).len() && #[trigger] background(
            schedule,
            a,
            n,
            b,
            numerator,
            denominator,
            words(a).0,
            words(a).1,
        )[i] == leaf
}

/// A schedule of fixed pace evicts as many paths with every access, and every leaf comes up
/// once in as many accesses as it takes to evict each leaf once, whenever they start.
pub proof fn lemma_fixed_pace(
    schedule: PathSchedule,
    first: int,
    k: int,
    b: int,
    numerator: int,
    denominator: int,
    words: spec_fn(int) -> (int, int),
    leaf: int,
)
    requires
        pace(schedule, b) > 0,
        2 <= b,
        0 <= k,
        0 <= first,
        full_width(k, if halves(schedule) { 2 } else { b }) <= 0x1_0000_0000,
        full_width(k, if halves(schedule) { 2 } else { b }) % pace(schedule, b) == 0,
        0 <= leaf < full_width(k, if halves(schedule) { 2 } else { b }),
    ensures
        ({
            let n = full_width(k, if halves(schedule) { 2 } else { b });
            let p = pace(schedule, b);
            &&& forall|a: int| #[trigger]
                background(
                    schedule,
                    a,
                    n,
                    b,
                    numerator,
                    denominator,
                    words(a).0,
                    words(a).1,
                ).len() == p
            &&& comes_up(
                schedule,
                first,
                first + n / p,
                n,
                b,
                numerator,
                denominator,
                words,
                leaf,
            )
        }),
{
    let base = if halves(schedule) {
        2
    } else {
        b
    };
    let n = full_width(k, base);
    let p = pace(schedule, b);
    let start = p * first;
    assert(0 <= start) by (nonlinear_arith)
        requires
            start == p * first,
            0 < p,
            0 <= first,
    ;
    lemma_full_width(k, base);
    lemma_consecutive_leaves(start, leaf, k, base);
    let t = choose|t: int| start <= t < start + n && #[trigger] leaf_at(t, n, base) == leaf;
    let a = t / p;
    let i = t % p;
    vstd::arithmetic::div_mod::lemma_fundamental_div_mod(t, p);
    vstd::arithmetic::div_mod::lemma_mod_bound(t, p);
    vstd::arithmetic::div_mod::lemma_fundamental_div_mod(n, p);
    assert(first <= a < first + n / p) by (nonlinear_arith)
        requires
            t == p * a + i,
            0 <= i < p,
            p * first <= t,
            t < p * first + n,
            n == p * (n / p),
    ;
    let paths = background(
        schedule,
        a,
        n,
        b,
        numerator,
        denominator,
        words(a).0,
        words(a).1,
    );
    assert(a * p == p * a) by (nonlinear_arith);
    lemma_leaf(t, n, base);
    assert(paths.len() == p);
    assert(paths[i] == leaf);
}

/// Which of the accesses at a rate takes step `t` of the sequence of leaves.
proof fn lemma_rate_step(first: int, end: int, numerator: int, denominator: int, t: int) -> (a: int)
    requires
        0 <= first <= end,
        0 <= numerator,
        1 <= denominator,
        paths_before(first, numerator, denominator) <= t < paths_before(
            end,
            numerator,
            denominator,
        ),
    ensures
        first <= a < end,
        paths_before(a, numerator, denominator) <= t < paths_before(a + 1, numerator, denominator),
    decreases end - first,
{
    if t < paths_before(first + 1, numerator, denominator) {
        if first == end {
            assert(false);
        }
        first
    } else {
        lemma_rate_step(first + 1, end, numerator, denominator, t)
    }
}

/// At a rate of `numerator` paths in `denominator` accesses, every leaf comes up among any
/// accesses to which the rate gives as many paths as there are leaves.
pub proof fn lemma_rate_comes_up(
    first: int,
    end: int,
    k: int,
    b: int,
    numerator: int,
    denominator: int,
    words: spec_fn(int) -> (int, int),
    leaf: int,
)
    requires
        2 <= b,
        0 <= k,
        0 <= first <= end,
        0 <= numerator,
        1 <= denominator,
        full_width(k, b) <= 0x1_0000_0000,
        end * numerator / denominator - first * numerator / denominator >= full_width(k, b),
        0 <= leaf < full_width(k, b),
    ensures
        comes_up(
            PathSchedule::AccessPlusRateDeterministic,
            first,
            end,
            full_width(k, b),
            b,
            numerator,
            denominator,
            words,
            leaf,
        ),
        exists|a: int, i: int|
            first <= a < end && 0 <= i < rate_paths(
                a,
                full_width(k, b),
                b,
                numerator,
                denominator,
            ).len() && #[trigger] rate_paths(a, full_width(k, b), b, numerator, denominator)[i]
                == leaf,
{
    let n = full_width(k, b);
    let start = paths_before(first, numerator, denominator);
    lemma_rate_leaves_no_gap(first, numerator, denominator);
    lemma_full_width(k, b);
    lemma_consecutive_leaves(start, leaf, k, b);
    let t = choose|t: int| start <= t < start + n && #[trigger] leaf_at(t, n, b) == leaf;
    let a = lemma_rate_step(first, end, numerator, denominator, t);
    let i = t - paths_before(a, numerator, denominator);
    lemma_leaf(t, n, b);
    let s = PathSchedule::AccessPlusRateDeterministic;
    let paths = background(s, a, n, b, numerator, denominator, words(a).0, words(a).1);
    assert(paths[i] == leaf);
    assert(rate_paths(a, n, b, numerator, denominator)[i] == leaf);
}

/// The number of paths of the first `end` accesses at a rate.
pub open spec fn paths_of(
    end: int,
    n: int,
    b: int,
    numerator: int,
    denominator: int,
) -> nat
    decreases end,
{
    if end <= 0 {
        0
    } else {
        paths_of(end - 1, n, b, numerator, denominator) + rate_paths(
            end - 1,
            n,
            b,
            numerator,
            denominator,
        ).len()
    }
}

/// At a rate of `numerator` paths in `denominator` accesses, any number of whole rounds of
/// `denominator` accesses evicts `numerator` paths each.
pub proof fn lemma_rate_is_kept(
    end: int,
    rounds: int,
    n: int,
    b: int,
    numerator: int,
    denominator: int,
)
    requires
        0 <= end,
        0 <= rounds,
        0 <= numerator,
        1 <= denominator,
    ensures
        paths_of(end, n, b, numerator, denominator) == end * numerator / denominator,
        paths_of(rounds * denominator, n, b, numerator, denominator) == rounds * numerator,
    decreases end,
{
    lemma_paths_of(end, n, b, numerator, denominator);
    assert(0 <= rounds * denominator) by (nonlinear_arith)
        requires
            0 <= rounds,
            1 <= denominator,
    ;
    lemma_paths_of(rounds * denominator, n, b, numerator, denominator);
    lemma_rate_leaves_no_gap(rounds, numerator, denominator);
}

proof fn lemma_paths_of(end: int, n: int, b: int, numerator: int, denominator: int)
    requires
        0 <= end,
        0 <= numerator,
        1 <= denominator,
    ensures
        paths_of(end, n, b, numerator, denominator) == paths_before(end, numerator, denominator),
    decreases end,
{
    lemma_rate_leaves_no_gap(end, numerator, denominator);
    if end > 0 {
        lemma_paths_of(end - 1, n, b, numerator, denominator);
        lemma_rate_leaves_no_gap(end - 1, numerator, denominator);
    }
}

/// A schedule that leaves the accessed path alone, and one that has the pairs of it, evicts
/// one path in each half of the tree.
pub proof fn lemma_both_halves(
    schedule: PathSchedule,
    counter: int,
    k: int,
    b: int,
    numerator: int,
    denominator: int,
    first_word: int,
    second_word: int,
)
    requires
        0 < k,
        0 <= counter,
        2 <= b,
        full_width(k, 2) <= 0x1_0000_0000,
        !evicts_accessed(schedule) || halves(schedule),
    ensures
        ({
            let n = full_width(k, 2);
            let paths = background(
                schedule,
                counter,
                n,
                b,
                numerator,
                denominator,
                first_word,
                second_word,
            );
            &&& paths.len() == 2
            &&& paths[0] < n / 2
            &&& n / 2 <= paths[1] < n
        }),
{
    let n = full_width(k, 2);
    let w = full_width(k - 1, 2);
    lemma_full_width(k - 1, 2);
    assert(n == 2 * w && n / 2 == w) by {
        assert(n == w * 2);
    }
    if halves(schedule) {
        let t = 2 * counter;
        lemma_leaf_under_root_child(t, k, 2);
        lemma_leaf_under_root_child(t + 1, k, 2);
        lemma_leaf(t, n, 2);
        lemma_leaf(t + 1, n, 2);
        let x = leaf_at(t, n, 2);
        let y = leaf_at(t + 1, n, 2);
        vstd::arithmetic::div_mod::lemma_fundamental_div_mod(x, w);
        vstd::arithmetic::div_mod::lemma_fundamental_div_mod(y, w);
        vstd::arithmetic::div_mod::lemma_mod_bound(x, w);
        vstd::arithmetic::div_mod::lemma_mod_bound(y, w);
        assert(x / w == 0 && y / w == 1);
        assert(w * 0 == 0 && w * 1 == w);
    } else {
        vstd::arithmetic::div_mod::lemma_mod_bound(first_word, w);
        vstd::arithmetic::div_mod::lemma_mod_bound(second_word, w);
    }
}

/// The radix schedule evicts one path under each child of the root.
pub proof fn lemma_radix_children(
    counter: int,
    k: int,
    b: int,
    numerator: int,
    denominator: int,
    first_word: int,
    second_word: int,
    child: int,
)
    requires
        0 < k,
        0 <= counter,
        2 <= b,
        full_width(k, b) <= 0x1_0000_0000,
        0 <= child < b,
    ensures
        ({
            let n = full_width(k, b);
            let paths = background(
                PathSchedule::AccessPlusRadixDeterministic,
                counter,
                n,
                b,
                numerator,
                denominator,
                first_word,
                second_word,
            );
            &&& paths.len() == b
            &&& paths[child] as int / full_width(k - 1, b) == child
        }),
{
    let n = full_width(k, b);
    let t = counter * b + child;
    assert(0 <= counter * b) by (nonlinear_arith)
        requires
            0 <= counter,
            2 <= b,
    ;
    lemma_full_width(k - 1, b);
    lemma_leaf_under_root_child(t, k, b);
    vstd::arithmetic::div_mod::lemma_fundamental_div_mod_converse(t, b, counter, child);
    assert(b * counter == counter * b) by (nonlinear_arith);
    lemma_leaf(t, n, b);
}

/// A path that chance picks may be any leaf, and as many words pick each: words pick the
/// same leaf exactly if they differ by a multiple of the number of leaves.
pub proof fn lemma_uniform_path(
    counter: int,
    n: int,
    b: int,
    numerator: int,
    denominator: int,
    word: int,
    other: int,
    second_word: int,
)
    requires
        1 <= n <= 0x1_0000_0000,
        0 <= word,
        0 <= other,
    ensures
        ({
            let s = PathSchedule::AccessPlusUniform;
            let x = background(s, counter, n, b, numerator, denominator, word, second_word);
            let y = background(s, counter, n, b, numerator, denominator, other, second_word);
            &&& x.len() == 1
            &&& x[0] < n
            &&& word < n ==> x[0] == word
            &&& x[0] == y[0] <==> (word - other) % n == 0
        }),
{
    vstd::arithmetic::div_mod::lemma_mod_bound(word, n);
    vstd::arithmetic::div_mod::lemma_mod_bound(other, n);
    vstd::arithmetic::div_mod::lemma_mod_equivalence(word, other, n);
    if word < n {
        vstd::arithmetic::div_mod::lemma_small_mod(word as nat, n as nat);
    }
}

} // verus!
