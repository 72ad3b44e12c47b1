//! What the queue length frequencies of the mock lane ORAM count.
use vstd::prelude::*;
use crate::heap_tree::full_width;
use crate::test_lane_oram::{
    occurrences, queue_lengths, simulated_key, simulated_step, simulation, tabulates, InsertResult,
    TestLaneOram,
};

verus! {

/// The sum of the numbers that a table has for the keys below `n`.
pub open spec fn table_sum(table: Map<usize, usize>, n: int) -> int
    decreases n,
{
    if n <= 0 {
        0
    } else {
        table_sum(table, n - 1) + (if table.contains_key((n - 1) as usize) {
            table[(n - 1) as usize] as int
        } else {
            0
        })
    }
}

/// How many values of `s` are below `n`.
spec fn below(s: Seq<usize>, n: int) -> int
    decreases s.len(),
{
    if s.len() == 0 {
        0
    } else {
        below(s.drop_last(), n) + (if s.last() < n {
            1int
        } else {
            0
        })
    }
}

proof fn lemma_below(s: Seq<usize>, n: int)
    requires
        0 <= n <= usize::MAX,
    ensures
        below(s, 0) == 0,
        below(s, n + 1) == below(s, n) + occurrences(s, n as usize),
        (forall|i: int| 0 <= i < s.len() ==> #[trigger] s[i] < n) ==> below(s, n) == s.len(),
    decreases s.len(),
{
    if s.len() > 0 {
        let t = s.drop_last();
        lemma_below(t, n);
        if forall|i: int| 0 <= i < s.len() ==> #[trigger] s[i] < n {
            assert forall|i: int| 0 <= i < t.len() implies #[trigger] t[i] < n by {
                assert(s[i] < n);
            }
            assert(s[s.len() - 1] < n);
        }
    }
}

proof fn lemma_table_sum(table: Map<usize, usize>, s: Seq<usize>, n: int)
    requires
        0 <= n <= usize::MAX,
        tabulates(table, s),
    ensures
        table_sum(table, n) == below(s, n),
    decreases n,
{
    lemma_below(s, 0);
    if n > 0 {
        let k = (n - 1) as usize;
        lemma_table_sum(table, s, n - 1);
        lemma_below(s, n - 1);
        if !table.contains_key(k) {
            assert(!s.contains(k));
            lemma_absent(s, k);
        }
    }
}

proof fn lemma_absent(s: Seq<usize>, k: usize)
    requires
        !s.contains(k),
    ensures
        occurrences(s, k) == 0,
    decreases s.len(),
{
    if s.len() > 0 {
        let t = s.drop_last();
        if t.contains(k) {
            let i = choose|i: int| 0 <= i < t.len() && t[i] == k;
            assert(s[i] == k);
        }
        assert(s[s.len() - 1] == s.last());
        lemma_absent(t, k);
    }
}

/// The frequencies of a simulation count every insert after the first of every key, and no
/// other: their sum is the number of iterations, and there is one for each queue length that
/// an ORAM of the simulation had after such an insert.
pub proof fn lemma_frequencies(
    states: Seq<TestLaneOram>,
    results: Seq<InsertResult>,
    table: Map<usize, usize>,
    levels: int,
    branching_factor: int,
    slots_per_node: int,
    keys_per_leaf: int,
    iterations: int,
    n: int,
)
    requires
        0 <= keys_per_leaf * full_width(levels, branching_factor),
        0 <= iterations,
        simulation(
            states,
            results,
            levels,
            branching_factor,
            slots_per_node,
            keys_per_leaf,
            iterations,
        ),
        tabulates(
            table,
            queue_lengths(results, keys_per_leaf * full_width(levels, branching_factor)),
        ),
        0 <= n <= usize::MAX,
        forall|k: usize| #[trigger] table.contains_key(k) ==> k < n,
    ensures
        table_sum(table, n) == iterations,
        forall|i: int|
            0 <= i < iterations ==> table.contains_key(
                (#[trigger] states[keys_per_leaf * full_width(levels, branching_factor) + i
                    + 1]).queue@.len() as usize,
            ),
{
    let first = keys_per_leaf * full_width(levels, branching_factor);
    let s = queue_lengths(results, first);
    assert(s.len() == iterations);
    assert forall|i: int| 0 <= i < s.len() implies #[trigger] s[i] < n by {
        assert(s.contains(s[i]));
        assert(table.contains_key(s[i]));
    }
    lemma_table_sum(table, s, n);
    lemma_below(s, n);
    assert forall|i: int| 0 <= i < iterations implies table.contains_key(
        (#[trigger] states[first + i + 1]).queue@.len() as usize,
    ) by {
        assert(simulated_step(states, results, first, first + i));
        assert(s[i] == results[first + i].queue_len);
        assert(s.contains(s[i]));
    }
}

/// The keys come up in turn: among as many consecutive inserts as there are keys, no two are
/// of the same key.
pub proof fn lemma_keys_in_turn(key_count: int, i: int, j: int)
    requires
        0 < key_count <= usize::MAX,
        0 <= i < j < i + key_count,
    ensures
        simulated_key(key_count, i) < key_count,
        simulated_key(key_count, i) != simulated_key(key_count, j),
{
    vstd::arithmetic::div_mod::lemma_mod_bound(i, key_count);
    vstd::arithmetic::div_mod::lemma_mod_bound(j, key_count);
    vstd::arithmetic::div_mod::lemma_mod_equivalence(i, j, key_count);
    if i % key_count == j % key_count {
        let q = (i - j) / key_count;
        vstd::arithmetic::div_mod::lemma_fundamental_div_mod(i - j, key_count);
        assert(false) by (nonlinear_arith)
            requires
                i - j == key_count * q,
                -key_count < i - j < 0,
                0 < key_count,
        ;
    }
    if i < key_count {
        vstd::arithmetic::div_mod::lemma_small_mod(i as nat, key_count as nat);
    }
    if j < key_count {
        vstd::arithmetic::div_mod::lemma_small_mod(j as nat, key_count as nat);
    }
    if i >= key_count {
        vstd::arithmetic::div_mod::lemma_mod_sub_multiples_vanish(i, key_count);
    }
    if j >= key_count {
        vstd::arithmetic::div_mod::lemma_mod_sub_multiples_vanish(j, key_count);
    }
}

} // verus!
