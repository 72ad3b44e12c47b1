//! What an access of a tree-based oblivious RAM does to its slots.
//!
//! An access opens a path, takes the block of its key out of the working array, puts a
//! block into the first vacant stash slot, lets blocks move down the path, and puts the
//! path back. Evictions along the next public paths may follow.
use vstd::prelude::*;
use crate::circuit::column_settled;
use crate::oblivious::ObliviousBlock;
use crate::path_store::{holds_key, PathBlock, PathState};
use crate::suffix::shared_bits;

verus! {

/// The nodes of the tree when the path in the working array is put back.
pub open spec fn put_back<B: PathBlock>(st: PathState<B>, p: int) -> Seq<Seq<B>> {
    Seq::new(
        st.nodes.len(),
        |k: int|
            if st.geo.path(p).contains(k) {
                st.row(st.geo.path(p).index_of(k))
            } else {
                st.nodes[k]
            },
    )
}

/// The first vacant slot from `i` to `n`, or `n`.
pub open spec fn first_vacant<B: ObliviousBlock>(s: Seq<B>, i: int, n: int) -> int
    decreases n - i,
{
    if i >= n || s[i].vacant() {
        i
    } else {
        first_vacant(s, i + 1, n)
    }
}

/// The working array with `block` in the first vacant stash slot, if there is one.
pub open spec fn with_block<B: ObliviousBlock>(work: Seq<B>, s: int, block: B) -> Seq<B> {
    let i = first_vacant(work, 0, s);
    if i < s {
        work.update(i, block)
    } else {
        work
    }
}

/// The working array without the block of `key`.
pub open spec fn without_key<B: PathBlock>(work: Seq<B>, key: u32) -> Seq<B> {
    Seq::new(
        work.len(),
        |i: int|
            if holds_key(work[i], key) {
                work[i].vacated()
            } else {
                work[i]
            },
    )
}

/// How deep the block of each slot may go on the path to leaf `p` of a binary tree.
pub open spec fn path_depths<B: PathBlock>(s: Seq<B>, p: int) -> Seq<i64> {
    Seq::new(
        s.len(),
        |i: int|
            if s[i].vacant() {
                (-1) as i64
            } else {
                shared_bits(s[i].leaf_of(), p, 32) as i64
            },
    )
}

/// One pass of Circuit ORAM over the open path to leaf `p` turns `st` into `after`, and
/// the path is put back.
pub open spec fn settles<B: PathBlock>(st: PathState<B>, after: PathState<B>, p: int) -> bool {
    let t = st.with_work(after.work);
    &&& column_settled(
        st.work,
        path_depths(st.work, p),
        after.work,
        st.s + st.w,
        st.w,
        st.geo.h,
    )
    &&& after == PathState { nodes: put_back(t, p), ..t }
}

/// State `i` of `states` comes from the one before it by opening the path to leaf `p`,
/// one pass over it and putting it back.
pub open spec fn eviction<B: PathBlock>(states: Seq<PathState<B>>, i: int, p: int) -> bool {
    settles(states[i - 1].with_work(states[i - 1].opened(p)), states[i], p)
}

/// `n` evictions turn `st` into `after`: the first along the path to leaf `first`, each
/// further one along the path to the leaf that follows, with the first leaf behind the last.
pub open spec fn evictions<B: PathBlock>(
    st: PathState<B>,
    after: PathState<B>,
    first: int,
    n: int,
) -> bool {
    exists|states: Seq<PathState<B>>|
        #![trigger states.first()]
        {
            &&& states.len() == n + 1
            &&& states.first() == st
            &&& states.last() == after
            &&& forall|i: int|
                1 <= i <= n ==> #[trigger] eviction(
                    states,
                    i,
                    (first + (i - 1)) % st.geo.leaves,
                )
        }
}

/// From the open path to leaf `p` of `st`, `after` is reached by putting `block` into the
/// stash, a pass over the path, and `n` evictions from leaf `first` on.
pub open spec fn finishes<B: PathBlock>(
    st: PathState<B>,
    after: PathState<B>,
    p: int,
    block: B,
    first: int,
    n: int,
) -> bool {
    exists|mid: PathState<B>| #[trigger]
        settles(st.with_work(with_block(st.work, st.s, block)), mid, p) && evictions(
            mid,
            after,
            first,
            n,
        )
}

/// An access along the path to leaf `p` turns `st` into `after`: it replaces the block of
/// `key` by `block`, makes a pass over the path, and `n` evictions from leaf `first` on
/// follow.
pub open spec fn access<B: PathBlock>(
    st: PathState<B>,
    after: PathState<B>,
    p: int,
    key: u32,
    block: B,
    first: int,
    n: int,
) -> bool {
    finishes(st.with_work(without_key(st.opened(p), key)), after, p, block, first, n)
}

pub(crate) proof fn lemma_first_vacant<B: ObliviousBlock>(s: Seq<B>, i: int, n: int)
    requires
        i <= n,
    ensures
        i <= first_vacant(s, i, n) <= n,
        first_vacant(s, i, n) < n ==> s[first_vacant(s, i, n)].vacant(),
        forall|k: int| i <= k < first_vacant(s, i, n) ==> !(#[trigger] s[k]).vacant(),
    decreases n - i,
{
    if i < n && !s[i].vacant() {
        lemma_first_vacant(s, i + 1, n);
    }
}

/// The first vacant stash slot is the one that takes a block.
pub(crate) proof fn lemma_put_is_first<B: ObliviousBlock>(
    before: Seq<B>,
    s: int,
    block: B,
    after: Seq<B>,
    written: bool,
)
    requires
        0 <= s <= before.len(),
        written == exists|i: int| 0 <= i < s && (#[trigger] before[i]).vacant(),
        written ==> exists|i: int|
            0 <= i < s && (#[trigger] before[i]).vacant() && (forall|k: int|
                0 <= k < i ==> !(#[trigger] before[k]).vacant()) && after == before.update(
                i,
                block,
            ),
        !written ==> after == before,
    ensures
        after == with_block(before, s, block),
{
    lemma_first_vacant(before, 0, s);
    let f = first_vacant(before, 0, s);
    if written {
        let i = choose|i: int|
            0 <= i < s && (#[trigger] before[i]).vacant() && (forall|k: int|
                0 <= k < i ==> !(#[trigger] before[k]).vacant()) && after == before.update(
                i,
                block,
            );
        if f < i {
            assert(!before[f].vacant());
        } else if i < f {
            assert(!before[i].vacant());
        }
    } else if f < s {
        assert(before[f].vacant());
    }
}

/// Taking out the only block of a key is taking out every block of it.
pub(crate) proof fn lemma_taken<B: PathBlock>(
    before: Seq<B>,
    key: u32,
    after: Seq<B>,
    found: bool,
)
    requires
        forall|i: int, j: int|
            0 <= i < before.len() && 0 <= j < before.len() && holds_key(#[trigger] before[i], key)
                && holds_key(#[trigger] before[j], key) ==> i == j,
        found == exists|i: int| 0 <= i < before.len() && holds_key(#[trigger] before[i], key),
        found ==> exists|i: int|
            0 <= i < before.len() && holds_key(#[trigger] before[i], key) && after
                == before.update(i, before[i].vacated()),
        !found ==> after == before,
    ensures
        after == without_key(before, key),
{
    assert(after =~= without_key(before, key));
}

/// Writing the rows of the working array into the nodes on a path puts the path back.
pub(crate) proof fn lemma_rows_put_back<B: PathBlock>(
    st: PathState<B>,
    nodes: Seq<Seq<B>>,
    p: int,
)
    requires
        0 <= st.geo.h,
        nodes.len() == st.nodes.len(),
        forall|d: int|
            0 <= d < st.geo.h ==> nodes[#[trigger] (st.geo.index)(d, p)] == st.row(d),
        forall|k: int|
            0 <= k < nodes.len() && !st.geo.path(p).contains(k) ==> #[trigger] nodes[k]
                == st.nodes[k],
    ensures
        nodes == put_back(st, p),
{
    let at = st.geo.path(p);
    assert forall|k: int| 0 <= k < nodes.len() implies #[trigger] nodes[k] == put_back(st, p)[k] by {
        if at.contains(k) {
            let d = at.index_of(k);
            assert(0 <= d < at.len() && at[d] == k);
            assert(nodes[(st.geo.index)(d, p)] == st.row(d));
        }
    }
    assert(nodes =~= put_back(st, p));
}

/// Without evictions nothing changes.
pub(crate) proof fn lemma_no_eviction<B: PathBlock>(st: PathState<B>, first: int)
    ensures
        evictions(st, st, first, 0),
{
    let states = seq![st];
    assert(states.first() == st);
}

/// One more eviction, along the path whose turn it is.
pub(crate) proof fn lemma_one_more_eviction<B: PathBlock>(
    st: PathState<B>,
    mid: PathState<B>,
    after: PathState<B>,
    first: int,
    n: int,
)
    requires
        0 <= n,
        evictions(st, mid, first, n),
        settles(
            mid.with_work(mid.opened((first + n) % st.geo.leaves)),
            after,
            (first + n) % st.geo.leaves,
        ),
    ensures
        evictions(st, after, first, n + 1),
{
    let states = choose|states: Seq<PathState<B>>|
        #![trigger states.first()]
        {
            &&& states.len() == n + 1
            &&& states.first() == st
            &&& states.last() == mid
            &&& forall|i: int|
                1 <= i <= n ==> #[trigger] eviction(
                    states,
                    i,
                    (first + (i - 1)) % st.geo.leaves,
                )
        };
    let more = states.push(after);
    assert(more.first() == st);
    assert forall|i: int| 1 <= i <= n + 1 implies #[trigger] eviction(
        more,
        i,
        (first + (i - 1)) % st.geo.leaves,
    ) by {
        if i <= n {
            assert(eviction(states, i, (first + (i - 1)) % st.geo.leaves));
        }
    }
}

} // verus!
