//! How often a block occurs among slots.
//!
//! An oblivious RAM moves blocks between slots. That none is lost or doubled is
//! stated by counting, for every block, the slots that hold it.
use vstd::prelude::*;
use crate::oblivious::ObliviousBlock;

verus! {

/// 1 when slot `c` holds block `b`, and 0 otherwise.
pub open spec fn hit<B: ObliviousBlock>(c: B, b: B) -> int {
    if c == b && !b.vacant() {
        1
    } else {
        0
    }
}

/// The number of slots of `s` that hold block `b`.
pub open spec fn tally<B: ObliviousBlock>(s: Seq<B>, b: B) -> int
    decreases s.len(),
{
    if s.len() == 0 {
        0
    } else {
        tally(s.drop_last(), b) + hit(s.last(), b)
    }
}

/// The number of slots of the groups `g` that hold block `b`.
pub open spec fn tally_groups<B: ObliviousBlock>(g: Seq<Seq<B>>, b: B) -> int
    decreases g.len(),
{
    if g.len() == 0 {
        0
    } else {
        tally_groups(g.drop_last(), b) + tally(g.last(), b)
    }
}

/// Changing one slot changes the count by what left and what came.
pub proof fn lemma_tally_update<B: ObliviousBlock>(s: Seq<B>, i: int, c: B, b: B)
    requires
        0 <= i < s.len(),
    ensures
        tally(s.update(i, c), b) == tally(s, b) - hit(s[i], b) + hit(c, b),
    decreases s.len(),
{
    let t = s.update(i, c);
    if i == s.len() - 1 {
        assert(t.drop_last() =~= s.drop_last());
    } else {
        lemma_tally_update(s.drop_last(), i, c, b);
        assert(t.drop_last() =~= s.drop_last().update(i, c));
    }
}

/// The count over two runs of slots is the sum of the two counts.
pub proof fn lemma_tally_concat<B: ObliviousBlock>(s: Seq<B>, t: Seq<B>, b: B)
    ensures
        tally(s + t, b) == tally(s, b) + tally(t, b),
    decreases t.len(),
{
    if t.len() == 0 {
        assert(s + t =~= s);
    } else {
        lemma_tally_concat(s, t.drop_last(), b);
        assert((s + t).drop_last() =~= s + t.drop_last());
    }
}

/// A count is at least zero, and positive exactly when some slot holds the block.
pub proof fn lemma_tally_positive<B: ObliviousBlock>(s: Seq<B>, b: B)
    ensures
        tally(s, b) >= 0,
        tally(s, b) > 0 <==> (!b.vacant() && s.contains(b)),
    decreases s.len(),
{
    if s.len() > 0 {
        lemma_tally_positive(s.drop_last(), b);
        if s.drop_last().contains(b) {
            let i = choose|i: int| 0 <= i < s.drop_last().len() && s.drop_last()[i] == b;
            assert(s[i] == b);
        }
        if s.contains(b) && s.last() != b {
            let i = choose|i: int| 0 <= i < s.len() && s[i] == b;
            assert(s.drop_last()[i] == b);
        }
        if s.last() == b {
            assert(s[s.len() - 1] == b);
        }
    }
}

/// Two slots that hold the same block count twice.
pub proof fn lemma_tally_twice<B: ObliviousBlock>(s: Seq<B>, i: int, j: int, b: B)
    requires
        0 <= i < j < s.len(),
        s[i] == b,
        s[j] == b,
        !b.vacant(),
    ensures
        tally(s, b) >= 2,
    decreases s.len(),
{
    if j == s.len() - 1 {
        lemma_tally_positive(s.drop_last(), b);
        assert(s.drop_last()[i] == b);
    } else {
        lemma_tally_twice(s.drop_last(), i, j, b);
    }
}

/// Slots that are all vacant hold no block.
pub proof fn lemma_tally_vacant<B: ObliviousBlock>(s: Seq<B>, b: B)
    requires
        forall|i: int| 0 <= i < s.len() ==> (#[trigger] s[i]).vacant(),
    ensures
        tally(s, b) == 0,
    decreases s.len(),
{
    if s.len() > 0 {
        assert(s[s.len() - 1].vacant());
        assert forall|i: int| 0 <= i < s.drop_last().len() implies (
        #[trigger] s.drop_last()[i]).vacant() by {
            assert(s[i].vacant());
        }
        lemma_tally_vacant(s.drop_last(), b);
    }
}

/// Changing one group changes the count by what left and what came.
pub proof fn lemma_tally_groups_update<B: ObliviousBlock>(g: Seq<Seq<B>>, i: int, s: Seq<B>, b: B)
    requires
        0 <= i < g.len(),
    ensures
        tally_groups(g.update(i, s), b) == tally_groups(g, b) - tally(g[i], b) + tally(s, b),
    decreases g.len(),
{
    let t = g.update(i, s);
    if i == g.len() - 1 {
        assert(t.drop_last() =~= g.drop_last());
    } else {
        lemma_tally_groups_update(g.drop_last(), i, s, b);
        assert(t.drop_last() =~= g.drop_last().update(i, s));
    }
}

/// The count over two runs of groups is the sum of the two counts.
pub proof fn lemma_tally_groups_concat<B: ObliviousBlock>(g: Seq<Seq<B>>, t: Seq<Seq<B>>, b: B)
    ensures
        tally_groups(g + t, b) == tally_groups(g, b) + tally_groups(t, b),
    decreases t.len(),
{
    if t.len() == 0 {
        assert(g + t =~= g);
    } else {
        lemma_tally_groups_concat(g, t.drop_last(), b);
        assert((g + t).drop_last() =~= g + t.drop_last());
    }
}

/// A count over groups is at least zero, and positive exactly when some group
/// holds the block.
pub proof fn lemma_tally_groups_positive<B: ObliviousBlock>(g: Seq<Seq<B>>, b: B)
    ensures
        tally_groups(g, b) >= 0,
        tally_groups(g, b) > 0 <==> exists|i: int|
            0 <= i < g.len() && !b.vacant() && (#[trigger] g[i]).contains(b),
    decreases g.len(),
{
    if g.len() > 0 {
        let p = g.drop_last();
        lemma_tally_groups_positive(p, b);
        lemma_tally_positive(g.last(), b);
        if tally_groups(p, b) > 0 {
            let i = choose|i: int| 0 <= i < p.len() && !b.vacant() && (#[trigger] p[i]).contains(b);
            assert(g[i].contains(b));
        }
        if exists|i: int| 0 <= i < g.len() && !b.vacant() && (#[trigger] g[i]).contains(b) {
            let i = choose|i: int| 0 <= i < g.len() && !b.vacant() && (#[trigger] g[i]).contains(b);
            if i < g.len() - 1 {
                assert(p[i].contains(b));
            }
        }
        if tally(g.last(), b) > 0 {
            assert(g[g.len() - 1].contains(b));
        }
    }
}

/// Changing the groups at the distinct places `at`, and no others, changes the
/// count by what those groups lost and gained.
pub proof fn lemma_tally_scatter<B: ObliviousBlock>(
    g: Seq<Seq<B>>,
    after: Seq<Seq<B>>,
    at: Seq<int>,
    b: B,
)
    requires
        after.len() == g.len(),
        forall|i: int| 0 <= i < at.len() ==> 0 <= #[trigger] at[i] < g.len(),
        forall|i: int, j: int| 0 <= i < j < at.len() ==> #[trigger] at[i] != #[trigger] at[j],
        forall|k: int| 0 <= k < g.len() && !at.contains(k) ==> #[trigger] after[k] == g[k],
    ensures
        tally_groups(after, b) == tally_groups(g, b) - tally_groups(
            at.map_values(|k: int| g[k]),
            b,
        ) + tally_groups(at.map_values(|k: int| after[k]), b),
    decreases at.len(),
{
    let old_rows = at.map_values(|k: int| g[k]);
    let new_rows = at.map_values(|k: int| after[k]);
    if at.len() == 0 {
        assert(after =~= g);
    } else {
        let rest = at.drop_last();
        let last = at.last();
        assert(at[at.len() - 1] == last);
        let mid = after.update(last, g[last]);
        assert forall|k: int| 0 <= k < g.len() && !rest.contains(k) implies #[trigger] mid[k]
            == g[k] by {
            if k != last {
                if at.contains(k) {
                    let i = choose|i: int| 0 <= i < at.len() && at[i] == k;
                    assert(rest[i] == k);
                }
            }
        }
        assert forall|i: int| 0 <= i < rest.len() implies 0 <= #[trigger] rest[i] < g.len() by {
            assert(rest[i] == at[i]);
        }
        assert forall|i: int, j: int| 0 <= i < j < rest.len() implies #[trigger] rest[i]
            != #[trigger] rest[j] by {
            assert(rest[i] == at[i] && rest[j] == at[j]);
        }
        lemma_tally_scatter(g, mid, rest, b);
        lemma_tally_groups_update(after, last, g[last], b);
        assert(old_rows.drop_last() =~= rest.map_values(|k: int| g[k]));
        assert(new_rows.drop_last() =~= rest.map_values(|k: int| mid[k])) by {
            assert forall|i: int| 0 <= i < rest.len() implies new_rows.drop_last()[i]
                == rest.map_values(|k: int| mid[k])[i] by {
                assert(at[i] != at[at.len() - 1]);
            }
        }
    }
}

/// Every slot as a group of its own.
pub open spec fn singles<B>(s: Seq<B>) -> Seq<Seq<B>> {
    Seq::new(s.len(), |i: int| seq![s[i]])
}

proof fn lemma_tally_singles<B: ObliviousBlock>(s: Seq<B>, b: B)
    ensures
        tally_groups(singles(s), b) == tally(s, b),
    decreases s.len(),
{
    if s.len() > 0 {
        lemma_tally_singles(s.drop_last(), b);
        assert(singles(s).drop_last() =~= singles(s.drop_last()));
        let one = seq![s.last()];
        assert(one.drop_last() =~= Seq::empty());
        assert(tally(one.drop_last(), b) == 0);
    }
}

/// Changing the slots at the distinct places `at`, and no others, changes the count by
/// what those slots lost and gained.
pub proof fn lemma_tally_scatter_slots<B: ObliviousBlock>(
    s: Seq<B>,
    after: Seq<B>,
    at: Seq<int>,
    b: B,
)
    requires
        after.len() == s.len(),
        forall|i: int| 0 <= i < at.len() ==> 0 <= #[trigger] at[i] < s.len(),
        forall|i: int, j: int| 0 <= i < j < at.len() ==> #[trigger] at[i] != #[trigger] at[j],
        forall|k: int| 0 <= k < s.len() && !at.contains(k) ==> #[trigger] after[k] == s[k],
    ensures
        tally(after, b) == tally(s, b) - tally(at.map_values(|k: int| s[k]), b) + tally(
            at.map_values(|k: int| after[k]),
            b,
        ),
{
    let g = singles(s);
    let h = singles(after);
    lemma_tally_scatter(g, h, at, b);
    lemma_tally_singles(s, b);
    lemma_tally_singles(after, b);
    lemma_tally_singles(at.map_values(|k: int| s[k]), b);
    lemma_tally_singles(at.map_values(|k: int| after[k]), b);
    assert(at.map_values(|k: int| g[k]) =~= singles(at.map_values(|k: int| s[k])));
    assert(at.map_values(|k: int| h[k]) =~= singles(at.map_values(|k: int| after[k])));
}

/// The groups at distinct places hold at most what all groups hold.
pub proof fn lemma_tally_gather<B: ObliviousBlock>(g: Seq<Seq<B>>, at: Seq<int>, b: B)
    requires
        forall|i: int| 0 <= i < at.len() ==> 0 <= #[trigger] at[i] < g.len(),
        forall|i: int, j: int| 0 <= i < j < at.len() ==> #[trigger] at[i] != #[trigger] at[j],
    ensures
        0 <= tally_groups(at.map_values(|k: int| g[k]), b) <= tally_groups(g, b),
{
    let after = Seq::new(
        g.len(),
        |k: int|
            if at.contains(k) {
                Seq::<B>::empty()
            } else {
                g[k]
            },
    );
    lemma_tally_scatter(g, after, at, b);
    let none = at.map_values(|k: int| after[k]);
    assert forall|i: int| 0 <= i < none.len() implies (#[trigger] none[i]).len() == 0 by {
        assert(at.contains(at[i]));
    }
    lemma_tally_groups_positive(none, b);
    lemma_tally_groups_positive(after, b);
    lemma_tally_groups_positive(at.map_values(|k: int| g[k]), b);
    if tally_groups(none, b) > 0 {
        let i = choose|i: int| 0 <= i < none.len() && !b.vacant() && (#[trigger] none[i]).contains(b);
        assert(none[i].len() == 0);
    }
}

/// A block that two places of the groups hold counts twice.
pub proof fn lemma_tally_groups_twice<B: ObliviousBlock>(
    g: Seq<Seq<B>>,
    i: int,
    j: int,
    i2: int,
    j2: int,
    b: B,
)
    requires
        0 <= i < g.len(),
        0 <= j < g[i].len(),
        0 <= i2 < g.len(),
        0 <= j2 < g[i2].len(),
        i < i2 || (i == i2 && j < j2),
        g[i][j] == b,
        g[i2][j2] == b,
        !b.vacant(),
    ensures
        tally_groups(g, b) >= 2,
    decreases g.len(),
{
    let p = g.drop_last();
    if i2 == g.len() - 1 {
        lemma_tally_groups_positive(p, b);
        if i == i2 {
            lemma_tally_twice(g[i], j, j2, b);
        } else {
            lemma_tally_positive(g[i2], b);
            assert(g[i2].contains(b));
            assert(p[i].contains(b)) by {
                assert(p[i][j] == b);
            }
        }
    } else {
        lemma_tally_positive(g.last(), b);
        lemma_tally_groups_twice(p, i, j, i2, j2, b);
    }
}

// ---------------------------------------------------------------------------
// What a count of blocks says of keys.
// ---------------------------------------------------------------------------
/// Every key has at most one block, and that block is in one slot.
pub open spec fn one_per_key<B: ObliviousBlock, Key>(
    count: spec_fn(B) -> int,
    key: spec_fn(B) -> Key,
) -> bool {
    &&& forall|b: B| 0 <= #[trigger] count(b) <= 1
    &&& forall|b: B, c: B|
        (#[trigger] count(b)) > 0 && (#[trigger] count(c)) > 0 && key(b) == key(c) ==> b == c
}

/// The block of every key that has one.
pub open spec fn by_key<B: ObliviousBlock, Key>(
    count: spec_fn(B) -> int,
    key: spec_fn(B) -> Key,
) -> Map<Key, B> {
    Map::new(
        |k: Key| exists|b: B| (#[trigger] count(b)) > 0 && key(b) == k,
        |k: Key| choose|b: B| (#[trigger] count(b)) > 0 && key(b) == k,
    )
}

/// A counted block is the block of its key.
pub proof fn lemma_by_key<B: ObliviousBlock, Key>(
    count: spec_fn(B) -> int,
    key: spec_fn(B) -> Key,
    b: B,
)
    requires
        one_per_key(count, key),
        count(b) > 0,
    ensures
        by_key(count, key).contains_key(key(b)),
        by_key(count, key)[key(b)] == b,
{
    let k = key(b);
    let c = choose|c: B| (#[trigger] count(c)) > 0 && key(c) == k;
    assert(count(c) > 0 && key(c) == k);
}

/// Among groups whose blocks are all counted, two places never hold blocks of one key.
pub proof fn lemma_one_place_per_key<B: ObliviousBlock, Key>(
    g: Seq<Seq<B>>,
    count: spec_fn(B) -> int,
    key: spec_fn(B) -> Key,
)
    requires
        one_per_key(count, key),
        forall|b: B| #[trigger] tally_groups(g, b) <= count(b),
    ensures
        forall|i: int, j: int, i2: int, j2: int|
            #![trigger g[i][j], g[i2][j2]]
            0 <= i < g.len() && 0 <= j < g[i].len() && 0 <= i2 < g.len() && 0 <= j2 < g[i2].len()
                && !g[i][j].vacant() && !g[i2][j2].vacant() && key(g[i][j]) == key(g[i2][j2])
                ==> i == i2 && j == j2,
{
    assert forall|i: int, j: int, i2: int, j2: int|
        #![trigger g[i][j], g[i2][j2]]
        0 <= i < g.len() && 0 <= j < g[i].len() && 0 <= i2 < g.len() && 0 <= j2 < g[i2].len()
            && !g[i][j].vacant() && !g[i2][j2].vacant() && key(g[i][j]) == key(
            g[i2][j2],
        ) implies i == i2 && j == j2 by {
        let b = g[i][j];
        let c = g[i2][j2];
        lemma_tally_groups_positive(g, b);
        lemma_tally_groups_positive(g, c);
        assert(g[i].contains(b));
        assert(g[i2].contains(c));
        assert(tally_groups(g, b) <= count(b));
        assert(tally_groups(g, c) <= count(c));
        assert(count(b) > 0 && count(c) > 0);
        assert(count(b) <= 1);
        if i < i2 || (i == i2 && j < j2) {
            lemma_tally_groups_twice(g, i, j, i2, j2, b);
        } else if i2 < i || j2 < j {
            lemma_tally_groups_twice(g, i2, j2, i, j, b);
        }
    }
}

/// Counts that agree on every block describe the same keys.
pub proof fn lemma_by_key_same<B: ObliviousBlock, Key>(
    count: spec_fn(B) -> int,
    after: spec_fn(B) -> int,
    key: spec_fn(B) -> Key,
)
    requires
        one_per_key(count, key),
        forall|b: B| #[trigger] after(b) == count(b),
    ensures
        one_per_key(after, key),
        by_key(after, key) == by_key(count, key),
{
    assert(after =~= count);
}

/// Taking out the block of a key takes out the key.
pub proof fn lemma_by_key_remove<B: ObliviousBlock, Key>(
    count: spec_fn(B) -> int,
    after: spec_fn(B) -> int,
    key: spec_fn(B) -> Key,
    old_block: B,
)
    requires
        one_per_key(count, key),
        count(old_block) > 0,
        !old_block.vacant(),
        forall|b: B| #[trigger] after(b) == count(b) - hit(old_block, b),
    ensures
        one_per_key(after, key),
        by_key(after, key) == by_key(count, key).remove(key(old_block)),
{
    let m = by_key(count, key);
    let n = by_key(after, key);
    let k0 = key(old_block);
    assert forall|b: B, c: B|
        (#[trigger] after(b)) > 0 && (#[trigger] after(c)) > 0 && key(b) == key(c) implies b
        == c by {
        assert(count(b) > 0 && count(c) > 0);
    }
    assert forall|b: B| 0 <= #[trigger] after(b) <= 1 by {
        assert(0 <= count(b) <= 1);
    }
    assert forall|k: Key| n.contains_key(k) <==> m.remove(k0).contains_key(k) by {
        if n.contains_key(k) {
            let b = choose|b: B| (#[trigger] after(b)) > 0 && key(b) == k;
            assert(count(b) > 0 && count(old_block) > 0);
            assert(b != old_block);
        }
        if m.contains_key(k) && k != k0 {
            let b = choose|b: B| (#[trigger] count(b)) > 0 && key(b) == k;
            assert(after(b) > 0);
        }
    }
    assert forall|k: Key| n.contains_key(k) implies n[k] == m.remove(k0)[k] by {
        let b = choose|b: B| (#[trigger] after(b)) > 0 && key(b) == k;
        assert(count(b) > 0);
        lemma_by_key(count, key, b);
        lemma_by_key(after, key, b);
    }
    assert(n =~= m.remove(k0));
}

/// Putting in a block of an absent key puts in the key.
pub proof fn lemma_by_key_insert<B: ObliviousBlock, Key>(
    count: spec_fn(B) -> int,
    after: spec_fn(B) -> int,
    key: spec_fn(B) -> Key,
    new_block: B,
)
    requires
        one_per_key(count, key),
        !by_key(count, key).contains_key(key(new_block)),
        !new_block.vacant(),
        forall|b: B| #[trigger] after(b) == count(b) + hit(new_block, b),
    ensures
        one_per_key(after, key),
        by_key(after, key) == by_key(count, key).insert(key(new_block), new_block),
{
    let m = by_key(count, key);
    let n = by_key(after, key);
    let k0 = key(new_block);
    assert forall|b: B| key(b) == k0 implies #[trigger] count(b) == 0 by {
        assert(0 <= count(b) <= 1);
        if count(b) > 0 {
            lemma_by_key(count, key, b);
        }
    }
    assert forall|b: B| 0 <= #[trigger] after(b) <= 1 by {
        assert(0 <= count(b) <= 1);
    }
    assert(after(new_block) == 1) by {
        assert(count(new_block) == 0);
    }
    assert forall|b: B, c: B|
        (#[trigger] after(b)) > 0 && (#[trigger] after(c)) > 0 && key(b) == key(c) implies b
        == c by {
        assert(count(b) >= 0 && count(c) >= 0);
        if key(b) == k0 {
            assert(count(b) == 0 && count(c) == 0);
        }
    }
    assert forall|k: Key| n.contains_key(k) <==> m.insert(k0, new_block).contains_key(k) by {
        if n.contains_key(k) && k != k0 {
            let b = choose|b: B| (#[trigger] after(b)) > 0 && key(b) == k;
            assert(count(b) > 0);
        }
        if m.contains_key(k) {
            let b = choose|b: B| (#[trigger] count(b)) > 0 && key(b) == k;
            assert(after(b) > 0);
        }
        if k == k0 {
            assert(after(new_block) > 0);
        }
    }
    assert forall|k: Key| n.contains_key(k) implies n[k] == m.insert(k0, new_block)[k] by {
        if k == k0 {
            lemma_by_key(after, key, new_block);
        } else {
            let b = choose|b: B| (#[trigger] after(b)) > 0 && key(b) == k;
            assert(count(b) > 0);
            lemma_by_key(count, key, b);
            lemma_by_key(after, key, b);
        }
    }
    assert(n =~= m.insert(k0, new_block));
}

} // verus!
