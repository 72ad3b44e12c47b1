//! What the passes of Circuit ORAM over a path, and the evictions that follow, achieve.
//!
//! The laws speak of an array that holds the stash and behind it the buckets of a path, root
//! first. They count the blocks from a level on, and say on the slots alone when a pass
//! brings one more block that deep.
use vstd::prelude::*;
use crate::circuit::{column_fits, column_settled, column_size, lemma_column_origin};
use crate::circuit_laws::{lemma_column_progress, live};
use crate::lane_laws::lemma_put_back_opened;
use crate::oblivious::ObliviousBlock;
use crate::path_access::{access, eviction, evictions, lemma_first_vacant, path_depths};
use crate::path_access::{settles, with_block, without_key};
use crate::path_store::{lemma_row_of, PathBlock, PathState};
use crate::suffix::{lemma_shared_bits, meets};

verus! {

/// A slot at level `l` is vacant.
pub open spec fn level_open<B: PathBlock>(work: Seq<B>, s: int, w: int, l: int) -> bool {
    exists|j: int| 0 <= j < w && (#[trigger] work[s + l * w + j]).vacant()
}

/// A block of the stash, or of a level above `l`, may go to level `l` of the path to leaf
/// `p`: the lowest `l` bits of the two leaves agree.
pub open spec fn level_ready<B: PathBlock>(work: Seq<B>, s: int, w: int, p: int, l: int) -> bool {
    exists|i: int|
        0 <= i < s + l * w && !(#[trigger] work[i]).vacant() && meets(work[i].leaf_of(), p, l)
}

/// A pass over the path to leaf `p` makes `after` of `work`. From every level below the root
/// on it loses no block and brings one at most. It brings one where the level has a vacant
/// slot and a block above may go there, and none where no block above may. The stash and the
/// root only lose blocks.
pub open spec fn path_progress<B: PathBlock>(
    work: Seq<B>,
    after: Seq<B>,
    s: int,
    w: int,
    h: int,
    p: int,
) -> bool {
    &&& after.len() == work.len()
    &&& forall|i: int|
        0 <= i < s + w ==> #[trigger] after[i] == work[i] || after[i].vacant()
    &&& forall|l: int|
        1 <= l < h ==> {
            let was = live(work.skip(s + l * w));
            let now = live(#[trigger] after.skip(s + l * w));
            &&& was <= now <= was + 1
            &&& level_open(work, s, w, l) && level_ready(work, s, w, p, l) ==> now == was + 1
            &&& !level_ready(work, s, w, p, l) ==> now == was
        }
}

/// Every block belongs to some leaf.
pub open spec fn rooted<B: PathBlock>(s: Seq<B>) -> bool {
    forall|i: int| 0 <= i < s.len() && !(#[trigger] s[i]).vacant() ==> 0 <= s[i].leaf_of()
}

/// [`rooted`] for stash, working array and tree.
pub open spec fn store_rooted<B: PathBlock>(st: PathState<B>) -> bool {
    &&& rooted(st.work)
    &&& forall|k: int| 0 <= k < st.nodes.len() ==> rooted(#[trigger] st.nodes[k])
}

/// A pass makes progress.
proof fn lemma_pass<B: PathBlock>(
    work: Seq<B>,
    after: Seq<B>,
    s: int,
    w: int,
    h: int,
    p: int,
)
    requires
        0 <= s,
        1 <= w,
        1 <= h <= 32,
        0 <= p,
        work.len() == s + h * w,
        rooted(work),
        column_settled(work, path_depths(work, p), after, s + w, w, h),
    ensures
        path_progress(work, after, s, w, h, p),
        rooted(after),
{
    let d = path_depths(work, p);
    let n0 = s + w;
    assert(h * w == w + (h - 1) * w) by (nonlinear_arith);
    assert(column_size(work, n0, w, h));
    assert forall|k: int| 0 <= k < work.len() && !(#[trigger] work[k]).vacant() implies d[k] >= 0 && (
    forall|l: int| 0 <= l <= 32 ==> (l <= d[k] <==> #[trigger] meets(work[k].leaf_of(), p, l))) by {
        lemma_shared_bits(work[k].leaf_of(), p, 32);
    }
    assert(column_fits(work, d, n0)) by {
        assert forall|k: int| 0 <= k < work.len() implies {
            &&& -1 <= #[trigger] d[k]
            &&& work[k].vacant() ==> d[k] == -1
            &&& k >= n0 && !work[k].vacant() ==> d[k] != -1
        } by {
            if !work[k].vacant() {
                assert(d[k] >= 0);
            }
        }
    }
    assert forall|i: int| 0 <= i < n0 implies #[trigger] after[i] == work[i] || after[i].vacant() by {
        if !after[i].vacant() {
            lemma_column_origin(work, d, after, n0, w, h, 0, i);
        }
    }
    assert forall|i: int| 0 <= i < after.len() && !(#[trigger] after[i]).vacant() implies 0
        <= after[i].leaf_of() by {
        if i < n0 {
            assert(after[i] == work[i]);
        } else {
            lemma_row_of(i - s, w, h);
            let l = (i - s) / w;
            assert(n0 + (l - 1) * w == s + l * w && n0 + l * w == s + l * w + w && l >= 1)
                by (nonlinear_arith)
                requires
                    n0 == s + w,
                    i >= n0,
                    i - s == l * w + (i - s) % w,
                    (i - s) % w < w,
                    w >= 1,
            ;
            lemma_column_origin(work, d, after, n0, w, h, l, i);
            if after[i] != work[i] {
                let k = choose|k: int|
                    0 <= k < work.len() && after[i] == #[trigger] work[k] && d[k] >= l;
                assert(0 <= work[k].leaf_of());
            }
        }
    }
    assert forall|l: int| 1 <= l < h implies {
        let was = live(work.skip(s + l * w));
        let now = live(#[trigger] after.skip(s + l * w));
        &&& was <= now <= was + 1
        &&& level_open(work, s, w, l) && level_ready(work, s, w, p, l) ==> now == was + 1
        &&& !level_ready(work, s, w, p, l) ==> now == was
    } by {
        lemma_column_progress(work, d, after, n0, w, h, l);
        let start = n0 + (l - 1) * w;
        assert(start == s + l * w) by (nonlinear_arith)
            requires
                start == s + w + (l - 1) * w,
        ;
        if level_open(work, s, w, l) {
            let j = choose|j: int| 0 <= j < w && (#[trigger] work[s + l * w + j]).vacant();
            assert(start <= start + j < start + w && work[start + j].vacant());
        }
        if level_ready(work, s, w, p, l) {
            let i = choose|i: int|
                0 <= i < s + l * w && !(#[trigger] work[i]).vacant() && meets(
                    work[i].leaf_of(),
                    p,
                    l,
                );
            assert(d[i] >= l);
        }
        if exists|i: int| 0 <= i < start && #[trigger] d[i] >= l {
            let i = choose|i: int| 0 <= i < start && #[trigger] d[i] >= l;
            assert(!work[i].vacant());
            assert(meets(work[i].leaf_of(), p, l));
        }
    }
}

/// From the array `work`, with the stash and the path to leaf `p` of the store `st`, a pass
/// leads to the store `after`, and no other path changes.
pub open spec fn store_progress<B: PathBlock>(
    st: PathState<B>,
    work: Seq<B>,
    after: PathState<B>,
    p: int,
) -> bool {
    &&& path_progress(work, after.opened(p), st.s, st.w, st.geo.h, p)
    &&& after.geo == st.geo
    &&& after.s == st.s
    &&& after.w == st.w
    &&& after.nodes.len() == st.nodes.len()
    &&& forall|k: int|
        0 <= k < st.nodes.len() && !st.geo.path(p).contains(k) ==> #[trigger] after.nodes[k]
            == st.nodes[k]
}

/// A pass over an open path, which is then put back.
proof fn lemma_settles<B: PathBlock>(st: PathState<B>, after: PathState<B>, p: int)
    requires
        st.shape(),
        st.geo.h <= 32,
        0 <= p < st.geo.leaves,
        store_rooted(st),
        settles(st, after, p),
    ensures
        after.shape(),
        store_rooted(after),
        store_progress(st, st.work, after, p),
{
    let t = st.with_work(after.work);
    lemma_pass(st.work, after.work, st.s, st.w, st.geo.h, p);
    lemma_put_back_opened(t, p);
    assert forall|k: int| 0 <= k < after.nodes.len() implies rooted(#[trigger] after.nodes[k]) by {
        let at = st.geo.path(p);
        if at.contains(k) {
            let d = at.index_of(k);
            assert(0 <= d < at.len() && at[d] == k);
            assert(after.nodes[k] == t.row(d));
            assert forall|j: int| 0 <= j < st.w && !(#[trigger] t.row(d)[j]).vacant() implies 0 <= t.row(
                d,
            )[j].leaf_of() by {
                crate::path_store::lemma_row_place(d, j, st.w, st.geo.h);
                assert(t.row(d)[j] == after.work[st.s + d * st.w + j]);
            }
        } else {
            assert(after.nodes[k] == st.nodes[k]);
        }
    }
}

/// Opening a path leaves the store in order.
proof fn lemma_opens<B: PathBlock>(st: PathState<B>, p: int)
    requires
        st.shape(),
        0 <= p < st.geo.leaves,
        store_rooted(st),
    ensures
        st.with_work(st.opened(p)).shape(),
        store_rooted(st.with_work(st.opened(p))),
{
    st.lemma_opened(p);
    let o = st.with_work(st.opened(p));
    assert forall|i: int| 0 <= i < o.work.len() && !(#[trigger] o.work[i]).vacant() implies 0
        <= o.work[i].leaf_of() by {
        if i < st.s {
            assert(o.stash()[i] == st.stash()[i]);
            assert(st.work[i] == o.work[i]);
        } else {
            lemma_row_of(i - st.s, st.w, st.geo.h);
            let d = (i - st.s) / st.w;
            let j = (i - st.s) % st.w;
            assert(o.slot(d, j) == st.nodes[(st.geo.index)(d, p)][j]);
            assert(rooted(st.nodes[(st.geo.index)(d, p)]));
        }
    }
}

/// State `i` of `states` comes from the one before it by progress along the path to leaf
/// `p`.
pub open spec fn path_step<B: PathBlock>(states: Seq<PathState<B>>, i: int, p: int) -> bool {
    store_progress(states[i - 1], states[i - 1].opened(p), states[i], p)
}

/// Progress along `n` paths one after another, the first that to leaf `first`, each further
/// one that to the leaf that follows, with the first leaf behind the last.
pub open spec fn paths_progress<B: PathBlock>(
    st: PathState<B>,
    after: PathState<B>,
    first: int,
    n: int,
) -> bool {
    exists|states: Seq<PathState<B>>|
        #![trigger states.first()]
        {
            &&& states.len() == n + 1
            &&& states.first() == st
            &&& states.last() == after
            &&& forall|i: int|
                1 <= i <= n ==> #[trigger] path_step(
                    states,
                    i,
                    (first + (i - 1)) % st.geo.leaves,
                )
        }
}

proof fn lemma_chain<B: PathBlock>(
    states: Seq<PathState<B>>,
    st: PathState<B>,
    first: int,
    n: int,
    i: int,
)
    requires
        st.shape(),
        st.geo.h <= 32,
        store_rooted(st),
        states.len() == n + 1,
        states[0] == st,
        0 <= i <= n,
        forall|k: int|
            1 <= k <= n ==> #[trigger] eviction(states, k, (first + (k - 1)) % st.geo.leaves),
    ensures
        states[i].shape(),
        store_rooted(states[i]),
        states[i].geo == st.geo,
        i >= 1 ==> path_step(states, i, (first + (i - 1)) % st.geo.leaves),
    decreases i,
{
    if i > 0 {
        lemma_chain(states, st, first, n, i - 1);
        let p = (first + (i - 1)) % st.geo.leaves;
        vstd::arithmetic::div_mod::lemma_mod_bound(first + (i - 1), st.geo.leaves);
        assert(eviction(states, i, p));
        lemma_opens(states[i - 1], p);
        lemma_settles(states[i - 1].with_work(states[i - 1].opened(p)), states[i], p);
    }
}

/// Evictions make progress along their paths.
pub proof fn lemma_evictions_progress<B: PathBlock>(
    st: PathState<B>,
    after: PathState<B>,
    first: int,
    n: int,
)
    requires
        st.shape(),
        st.geo.h <= 32,
        store_rooted(st),
        0 <= n,
        evictions(st, after, first, n),
    ensures
        paths_progress(st, after, first, n),
{
    let states = choose|states: Seq<PathState<B>>|
        #![trigger states.first()]
        {
            &&& states.len() == n + 1
            &&& states.first() == st
            &&& states.last() == after
            &&& forall|i: int|
                1 <= i <= n ==> #[trigger] eviction(
                    states,
                    i,
                    (first + (i - 1)) % st.geo.leaves,
                )
        };
    assert(states[0] == st);
    assert forall|i: int| 1 <= i <= n implies #[trigger] path_step(
        states,
        i,
        (first + (i - 1)) % st.geo.leaves,
    ) by {
        lemma_chain(states, st, first, n, i);
    }
    assert(states.first() == st);
}

/// Progress of an access along the path to leaf `p` that leaves `block` in place of the
/// block of `key`, and along `n` further paths.
pub open spec fn access_progress<B: PathBlock>(
    st: PathState<B>,
    after: PathState<B>,
    p: int,
    key: u32,
    block: B,
    first: int,
    n: int,
) -> bool {
    exists|mid: PathState<B>| #[trigger]
        store_progress(st, with_block(without_key(st.opened(p), key), st.s, block), mid, p)
            && paths_progress(mid, after, first, n)
}

/// An access makes progress along the accessed path, and so do the evictions after it along
/// theirs.
pub proof fn lemma_access_progress<B: PathBlock>(
    st: PathState<B>,
    after: PathState<B>,
    p: int,
    key: u32,
    block: B,
    first: int,
    n: int,
)
    requires
        st.shape(),
        st.geo.h <= 32,
        0 <= p < st.geo.leaves,
        store_rooted(st),
        0 <= block.leaf_of(),
        0 <= n,
        access(st, after, p, key, block, first, n),
    ensures
        access_progress(st, after, p, key, block, first, n),
{
    let o = st.opened(p);
    lemma_opens(st, p);
    let taken = without_key(o, key);
    let put = with_block(taken, st.s, block);
    lemma_first_vacant(taken, 0, st.s);
    let t = st.with_work(taken);
    let u = t.with_work(put);
    assert(rooted(put)) by {
        assert forall|i: int| 0 <= i < put.len() && !(#[trigger] put[i]).vacant() implies 0
            <= put[i].leaf_of() by {
            o[i].lemma_vacancy();
            assert(put[i] == block || put[i] == taken[i]);
            if put[i] == taken[i] {
                assert(taken[i] == o[i]);
                assert(st.with_work(o).work[i] == o[i]);
            }
        }
    }
    let mid = choose|mid: PathState<B>| #[trigger]
        settles(t.with_work(with_block(t.work, t.s, block)), mid, p) && evictions(
            mid,
            after,
            first,
            n,
        );
    lemma_settles(u, mid, p);
    lemma_evictions_progress(mid, after, first, n);
    assert(store_progress(st, put, mid, p));
}

} // verus!
