//! Accesses and evictions of packed ORAM trees, for any layout of their slots.
use vstd::prelude::*;
use crate::circuit::{carries, column_settled, evict_column, exchanged, has_room, level_blank};
use crate::circuit::{holds, lemma_first_step, lemma_levels_fit, lemma_peak, lemma_step};
use crate::circuit::{level_peaks, level_room, peak, peak_slot, plan_targets};
use crate::circuit::{scan_level, settled, target_of};
use crate::heap_tree::{full_level_width, full_width, lemma_binary_level_start};
use crate::heap_tree::{lemma_full_width, lemma_full_width_grows};
use crate::oblivious::{both, cmov_bool, cmov_i64, either, exchange, ObliviousBlock};
use crate::path_access::lemma_put_is_first;
use crate::pooled::{last_with, lemma_none_with, lemma_one_with, passed_on, placed, without_key};
use crate::pooled::{at, batch_nodes, batch_stash, depth_column, evicted, evicted_lanes};
use crate::pooled::{lane_depths, lane_levels, lane_settled_slot, lane_target};
use crate::pooled::{lemma_at, lemma_batch_sequential, lemma_batch_unique, lemma_depths_fit};
use crate::pooled::{lemma_evicted, lemma_open, lemma_settled_column, lemma_takes_own};
use crate::pooled::{nodes_shape, on_lanes, open_ok, opened, path_lane, pool_ok, pooled_depth};
use crate::pooled::{key_of, lemma_one_slot_per_key, lemma_opened_is_stored, may_lie};
use crate::pooled::{open_count, pool_map, pooled_count};
use crate::pooled::{settled_column, takes_from, write_lane, PooledBlock};
use crate::prelude::filled;
use crate::tally::{by_key, hit, lemma_by_key_insert, lemma_by_key_remove, lemma_by_key_same};
use crate::tally::{lemma_tally_update, one_per_key, tally};

verus! {

broadcast use vstd::array::group_array_axioms;

/// Storage of a packed ORAM: a working array of slots, which starts with the stash, and
/// buckets of sixteen slots.
pub trait PooledStore: Sized {
    /// The blocks.
    type Block: PooledBlock;

    /// The slots of the working array.
    spec fn slots(&self) -> Seq<Self::Block>;

    /// The slots of every bucket.
    spec fn rows(&self) -> Seq<Seq<Self::Block>>;

    /// The numbers beside the storage.
    spec fn frame(&self) -> (int, int, int, int, int);

    /// The layout is intact.
    spec fn store_ok(&self) -> bool;

    /// Reads a slot of the working array.
    fn slot(&self, i: usize) -> (r: Self::Block)
        requires
            self.store_ok(),
            i < self.slots().len(),
        ensures
            r == self.slots()[i as int],
    ;

    /// Writes a slot of the working array.
    fn set_slot(&mut self, i: usize, b: Self::Block)
        requires
            old(self).store_ok(),
            i < old(self).slots().len(),
        ensures
            final(self).store_ok(),
            final(self).slots() == old(self).slots().update(i as int, b),
            final(self).rows() == old(self).rows(),
            final(self).frame() == old(self).frame(),
    ;

    /// Reads a slot of a bucket.
    fn node_slot(&self, n: usize, k: usize) -> (r: Self::Block)
        requires
            self.store_ok(),
            n < self.rows().len(),
            k < 16,
        ensures
            r == self.rows()[n as int][k as int],
    ;

    /// Writes a slot of a bucket.
    fn set_node_slot(&mut self, n: usize, k: usize, b: Self::Block)
        requires
            old(self).store_ok(),
            n < old(self).rows().len(),
            k < 16,
        ensures
            final(self).store_ok(),
            final(self).slots() == old(self).slots(),
            final(self).rows() == old(self).rows().update(
                n as int,
                old(self).rows()[n as int].update(k as int, b),
            ),
            final(self).frame() == old(self).frame(),
    ;
}

/// The array index of the node on `path` at `depth` of a binary tree.
pub fn tree_index(depth: usize, path: u64) -> (r: usize)
    requires
        full_width(depth as int, 2) <= usize::MAX / 2,
    ensures
        r == full_width(depth as int, 2) - 1 + path as int % full_width(depth as int, 2),
{
    let w: usize = full_level_width(depth, 2);
    proof {
        lemma_full_width(depth as int, 2);
        vstd::arithmetic::div_mod::lemma_mod_bound(path as int, w as int);
    }
    (w - 1) + (path % w as u64) as usize
}

/// The buckets can be numbered, and positions are wide enough.
pub open spec fn height_ok<B: PooledBlock>(h: int) -> bool {
    &&& 2 <= h <= B::pos_bits() <= 64
    &&& full_width(h, 2) <= usize::MAX
}

/// The index of the bucket on `path` at `depth`.
fn bucket_index(h: usize, depth: usize, path: u64) -> (r: usize)
    requires
        full_width(h as int, 2) <= usize::MAX,
        depth < h,
        path < full_width(h - 1, 2),
    ensures
        r == at(h as int, depth as int, path as int),
        r < full_width(h as int, 2) - 1,
{
    proof {
        lemma_full_width_grows(depth as int, h - 1, 2);
        lemma_full_width(h - 1, 2);
        if depth > 0 {
            lemma_full_width_grows(depth - 1, h - 1, 2);
        }
        lemma_binary_level_start(depth as int, full_width(h - 1, 2));
        lemma_at(h as int, path as int);
        assert(0 <= at(h as int, depth as int, path as int) < full_width(h as int, 2) - 1);
    }
    tree_index(depth, path)
}

/// Copies the slots of a lane on a path into the working array, behind the stash.
pub fn read_lane_path<St: PooledStore>(
    st: &mut St,
    s: usize,
    h: usize,
    path: u64,
    lane: usize,
)
    requires
        old(st).store_ok(),
        nodes_shape(old(st).rows(), h as int),
        full_width(h as int, 2) <= usize::MAX,
        path < full_width(h - 1, 2),
        lane < 8,
        old(st).slots().len() == s + 2 * h <= usize::MAX,
    ensures
        final(st).store_ok(),
        final(st).rows() == old(st).rows(),
        final(st).frame() == old(st).frame(),
        final(st).slots() == opened(
            old(st).slots().take(s as int),
            old(st).rows(),
            h as int,
            path as int,
            lane as int,
        ),
{
    let ghost slots0 = st.slots();
    let ghost rows0 = st.rows();
    let ghost want = path_lane(rows0, h as int, path as int, lane as int);
    let mut d: usize = 0;
    while d < h
        invariant
            d <= h,
            st.store_ok(),
            st.rows() == rows0,
            st.frame() == old(st).frame(),
            nodes_shape(rows0, h as int),
            full_width(h as int, 2) <= usize::MAX,
            path < full_width(h - 1, 2),
            lane < 8,
            slots0.len() == s + 2 * h <= usize::MAX,
            want == path_lane(rows0, h as int, path as int, lane as int),
            st.slots().len() == slots0.len(),
            st.slots().take(s as int) == slots0.take(s as int),
            forall|k: int| 0 <= k < 2 * d ==> #[trigger] st.slots()[s + k] == want[k],
        decreases h - d,
    {
        let n: usize = bucket_index(h, d, path);
        let ghost before = st.slots();
        let first = st.node_slot(n, 2 * lane);
        let second = st.node_slot(n, 2 * lane + 1);
        st.set_slot(s + 2 * d, first);
        st.set_slot(s + 2 * d + 1, second);
        proof {
            assert(st.slots().take(s as int) =~= before.take(s as int));
            assert forall|k: int| 0 <= k < 2 * (d + 1) implies #[trigger] st.slots()[s + k]
                == want[k] by {
                if k < 2 * d {
                    assert(before[s + k] == want[k]);
                } else {
                    assert(k / 2 == d);
                }
            }
        }
        d += 1;
    }
    proof {
        let stash = slots0.take(s as int);
        assert forall|k: int| 0 <= k < slots0.len() implies st.slots()[k] == (stash + want)[k] by {
            if k < s {
                assert(st.slots().take(s as int)[k] == stash[k]);
            } else {
                assert(st.slots()[s + (k - s)] == want[k - s]);
            }
        }
        assert(st.slots() =~= stash + want);
    }
}

/// Writes the slots behind the stash back to a lane of a path.
pub fn write_lane_path<St: PooledStore>(
    st: &mut St,
    s: usize,
    h: usize,
    path: u64,
    lane: usize,
)
    requires
        old(st).store_ok(),
        nodes_shape(old(st).rows(), h as int),
        full_width(h as int, 2) <= usize::MAX,
        path < full_width(h - 1, 2),
        lane < 8,
        old(st).slots().len() == s + 2 * h <= usize::MAX,
    ensures
        final(st).store_ok(),
        final(st).slots() == old(st).slots(),
        final(st).frame() == old(st).frame(),
        final(st).rows() == write_lane(
            old(st).rows(),
            h as int,
            path as int,
            lane as int,
            old(st).slots().skip(s as int),
            h as int,
        ),
        nodes_shape(final(st).rows(), h as int),
{
    let ghost slots0 = st.slots();
    let ghost rows0 = st.rows();
    let ghost part = slots0.skip(s as int);
    let mut d: usize = 0;
    while d < h
        invariant
            d <= h,
            st.store_ok(),
            st.slots() == slots0,
            st.frame() == old(st).frame(),
            nodes_shape(rows0, h as int),
            full_width(h as int, 2) <= usize::MAX,
            path < full_width(h - 1, 2),
            lane < 8,
            slots0.len() == s + 2 * h <= usize::MAX,
            part == slots0.skip(s as int),
            st.rows() == write_lane(
                rows0,
                h as int,
                path as int,
                lane as int,
                part,
                d as int,
            ),
        decreases h - d,
    {
        let n: usize = bucket_index(h, d, path);
        proof {
            crate::pooled::lemma_write_lane(
                rows0,
                h as int,
                path as int,
                lane as int,
                part,
                d as int,
            );
        }
        let ghost before = st.rows();
        let first = st.slot(s + 2 * d);
        let second = st.slot(s + 2 * d + 1);
        st.set_node_slot(n, 2 * lane, first);
        st.set_node_slot(n, 2 * lane + 1, second);
        proof {
            assert(first == part[2 * d as int]);
            assert(second == part[2 * d as int + 1]);
            assert(st.rows() =~= before.update(
                n as int,
                before[n as int].update(2 * lane as int, first).update(
                    2 * lane as int + 1,
                    second,
                ),
            ));
        }
        d += 1;
    }
    proof {
        crate::pooled::lemma_write_lane(
            rows0,
            h as int,
            path as int,
            lane as int,
            part,
            h as int,
        );
    }
}

/// The depth of a block of a lane.
fn block_depth<B: PooledBlock>(b: &B, in_stash: bool, lane: usize, path: u64) -> (r: i64)
    requires
        path < full_width(B::pos_bits(), 2),
        lane < 8,
    ensures
        r == pooled_depth(*b, in_stash, lane as int, path as int),
{
    let shared: i64 = b.shared_with(path);
    let elsewhere: bool = both(in_stash, b.lane_index() != lane);
    let mut depth: i64 = shared;
    cmov_i64(&mut depth, -1, either(b.is_vacant(), elsewhere));
    depth
}

/// The depths of the first `n` slots of the working array.
pub fn slot_depths<St: PooledStore>(
    st: &St,
    n: usize,
    s: usize,
    path: u64,
    lane: usize,
) -> (r: Vec<i64>)
    requires
        st.store_ok(),
        path < full_width(St::Block::pos_bits(), 2),
        lane < 8,
        n <= st.slots().len(),
    ensures
        r@ == depth_column(st.slots(), s as int, lane as int, path as int).take(n as int),
{
    let ghost want = depth_column(st.slots(), s as int, lane as int, path as int);
    let mut depths: Vec<i64> = Vec::new();
    let mut i: usize = 0;
    while i < n
        invariant
            i <= n <= st.slots().len(),
            st.store_ok(),
            path < full_width(St::Block::pos_bits(), 2),
            lane < 8,
            want == depth_column(st.slots(), s as int, lane as int, path as int),
            depths@ == want.take(i as int),
        decreases n - i,
    {
        let block = st.slot(i);
        let depth: i64 = block_depth(&block, i < s, lane, path);
        depths.push(depth);
        assert(want.take(i + 1) =~= want.take(i as int).push(depth));
        i += 1;
    }
    depths
}

/// Runs one pass over the loaded lane.
pub fn evict_working<St: PooledStore>(st: &mut St, s: usize, h: usize, path: u64, lane: usize)
    requires
        old(st).store_ok(),
        1 <= h <= i64::MAX,
        path < full_width(St::Block::pos_bits(), 2),
        lane < 8,
        old(st).slots().len() == s + 2 * h <= usize::MAX,
    ensures
        final(st).store_ok(),
        final(st).rows() == old(st).rows(),
        final(st).frame() == old(st).frame(),
        column_settled(
            old(st).slots(),
            depth_column(old(st).slots(), s as int, lane as int, path as int),
            final(st).slots(),
            s + 2,
            2,
            h as int,
        ),
        forall|b: St::Block| #[trigger]
            tally(final(st).slots(), b) == tally(old(st).slots(), b),
        level_blank(old(st).slots()) ==> final(st).slots() == settled_column(
            old(st).slots(),
            depth_column(old(st).slots(), s as int, lane as int, path as int),
            s + 2,
            h as int,
        ),
{
    let ghost slots0 = st.slots();
    let ghost d0 = depth_column(slots0, s as int, lane as int, path as int);
    let n: usize = s + 2 * h;
    proof {
        lemma_depths_fit(slots0, s as int, h as int, path as int, lane as int);
    }
    let depths: Vec<i64> = slot_depths(st, n, s, path, lane);
    assert(d0.take(n as int) =~= d0);
    let mut col: Vec<St::Block> = Vec::new();
    let mut i: usize = 0;
    while i < n
        invariant
            i <= n == slots0.len(),
            st.store_ok(),
            st.slots() == slots0,
            col@ == slots0.take(i as int),
        decreases n - i,
    {
        let block = st.slot(i);
        col.push(block);
        assert(slots0.take(i + 1) =~= slots0.take(i as int).push(block));
        i += 1;
    }
    assert(slots0.take(n as int) =~= slots0);
    let ghost fresh = |c: St::Block|
        level_blank(slots0) ==> c.vacant() ==> c == St::Block::blank();
    proof {
        assert forall|b: St::Block| fresh(b) implies fresh(#[trigger] b.vacated()) by {
            b.lemma_pooled();
        }
    }
    evict_column(&mut col, &depths, s + 2, 2, h, Ghost(fresh));
    let ghost after = col@;
    proof {
        if level_blank(slots0) {
            lemma_settled_column(slots0, d0, after, s + 2, h as int);
        }
    }
    i = 0;
    while i < n
        invariant
            i <= n == st.slots().len() == after.len() == col.len(),
            after == col@,
            st.store_ok(),
            st.rows() == old(st).rows(),
            st.frame() == old(st).frame(),
            forall|k: int| 0 <= k < i ==> #[trigger] st.slots()[k] == after[k],
        decreases n - i,
    {
        st.set_slot(i, col[i]);
        i += 1;
    }
    assert(st.slots() =~= after);
}

/// Takes the last block of `key` out of the working array, the fresh slot when there is
/// none, and passes every other such block on to the next of their slots.
pub fn remove_key<St: PooledStore>(
    st: &mut St,
    n: usize,
    key: <St::Block as PooledBlock>::Key,
) -> (r: St::Block)
    requires
        old(st).store_ok(),
        n == old(st).slots().len(),
    ensures
        final(st).store_ok(),
        final(st).rows() == old(st).rows(),
        final(st).frame() == old(st).frame(),
        r == last_with(old(st).slots(), key),
        final(st).slots() == passed_on(old(st).slots(), key),
{
    let ghost slots0 = st.slots();
    let ghost want = passed_on(slots0, key);
    let mut result = St::Block::fresh();
    let mut i: usize = 0;
    while i < n
        invariant
            i <= n == slots0.len(),
            st.store_ok(),
            st.rows() == old(st).rows(),
            st.frame() == old(st).frame(),
            want == passed_on(slots0, key),
            result == last_with(slots0.take(i as int), key),
            st.slots() == want.take(i as int) + slots0.skip(i as int),
        decreases n - i,
    {
        let mut item = st.slot(i);
        let matched: bool = item.has_key(key);
        exchange(&mut result, &mut item, matched);
        st.set_slot(i, item);
        proof {
            assert(slots0.take(i + 1).drop_last() =~= slots0.take(i as int));
            assert(slots0.take(i + 1).last() == slots0[i as int]);
            assert(st.slots() =~= want.take(i + 1) + slots0.skip(i + 1));
        }
        i += 1;
    }
    proof {
        assert(slots0.take(n as int) =~= slots0);
        assert(st.slots() =~= want);
    }
    result
}

/// Puts a block into the first vacant slot of the stash.
pub fn insert_block<St: PooledStore>(st: &mut St, s: usize, block: &St::Block) -> (written: bool)
    requires
        old(st).store_ok(),
        s <= old(st).slots().len(),
    ensures
        final(st).store_ok(),
        final(st).rows() == old(st).rows(),
        final(st).frame() == old(st).frame(),
        written == exists|i: int| 0 <= i < s && (#[trigger] old(st).slots()[i]).vacant(),
        !written ==> final(st).slots() == old(st).slots(),
        written ==> exists|i: int|
            0 <= i < s && (#[trigger] old(st).slots()[i]).vacant() && (forall|k: int|
                0 <= k < i ==> !(#[trigger] old(st).slots()[k]).vacant()) && final(st).slots()
                == old(st).slots().update(i, *block),
{
    let ghost slots0 = st.slots();
    let ghost mut f: int = 0;
    let mut written: bool = false;
    let mut i: usize = 0;
    while i < s
        invariant
            i <= s <= slots0.len(),
            st.store_ok(),
            st.rows() == old(st).rows(),
            st.frame() == old(st).frame(),
            !written ==> st.slots() == slots0 && forall|k: int|
                0 <= k < i ==> !(#[trigger] slots0[k]).vacant(),
            written ==> 0 <= f < i && slots0[f].vacant() && (forall|k: int|
                0 <= k < f ==> !(#[trigger] slots0[k]).vacant()) && st.slots() == slots0.update(
                f,
                *block,
            ),
        decreases s - i,
    {
        let ghost before = st.slots();
        let mut item = st.slot(i);
        let write: bool = both(item.is_vacant(), !written);
        item.select(block, write);
        st.set_slot(i, item);
        cmov_bool(&mut written, true, write);
        proof {
            if write {
                f = i as int;
                assert(st.slots() =~= slots0.update(f, *block));
            } else {
                assert(st.slots() =~= before);
            }
        }
        i += 1;
    }
    written
}

/// Loads a lane of a path, runs one pass over it and writes it back.
pub fn evict_path<St: PooledStore>(st: &mut St, s: usize, h: usize, path: u64, lane: usize)
    requires
        old(st).store_ok(),
        height_ok::<St::Block>(h as int),
        pool_ok(old(st).slots().take(s as int), old(st).rows(), h as int),
        path < full_width(h - 1, 2),
        lane < 8,
        old(st).slots().len() == s + 2 * h <= usize::MAX,
    ensures
        final(st).store_ok(),
        final(st).frame() == old(st).frame(),
        final(st).slots().len() == old(st).slots().len(),
        (final(st).slots().take(s as int), final(st).rows()) == evicted(
            old(st).slots().take(s as int),
            old(st).rows(),
            h as int,
            path as int,
            lane as int,
        ),
        pool_ok(final(st).slots().take(s as int), final(st).rows(), h as int),
{
    let ghost stash = st.slots().take(s as int);
    let ghost rows0 = st.rows();
    read_lane_path(st, s, h, path, lane);
    proof {
        lemma_open(stash, rows0, h as int, path as int, lane as int);
        lemma_evicted(stash, rows0, h as int, path as int, lane as int);
        lemma_full_width_grows(h - 1, St::Block::pos_bits(), 2);
    }
    evict_working(st, s, h, path, lane);
    write_lane_path(st, s, h, path, lane);
}

// ---------------------------------------------------------------------------
// All lanes of one path at once.
// ---------------------------------------------------------------------------
/// Bit `l` of a mask.
pub open spec fn bit(mask: u8, l: int) -> bool {
    (mask >> (l as u8)) & 1u8 == 1u8
}

/// Sets bit `l` of a mask that does not have it.
fn with_bit(mask: u8, l: usize, on: bool) -> (r: u8)
    requires
        l < 8,
        !bit(mask, l as int),
    ensures
        forall|j: int|
            0 <= j < 8 ==> #[trigger] bit(r, j) == (if j == l {
                on
            } else {
                bit(mask, j)
            }),
{
    let s: u8 = l as u8;
    let set: u8 = mask | (1u8 << s);
    proof {
        assert forall|j: int| 0 <= j < 8 implies #[trigger] bit(set, j) == (j == l || bit(
            mask,
            j,
        )) by {
            let t = j as u8;
            assert(((mask | (1u8 << s)) >> t) & 1u8 == 1u8 <==> (s == t || (mask >> t) & 1u8
                == 1u8)) by (bit_vector)
                requires
                    s < 8,
                    t < 8,
            ;
        }
    }
    if on {
        set
    } else {
        mask
    }
}

/// Reads bit `l` of a mask.
fn test_bit(mask: u8, l: usize) -> (r: bool)
    requires
        l < 8,
    ensures
        r == bit(mask, l as int),
{
    (mask >> (l as u8)) & 1 == 1
}

proof fn lemma_no_bits(l: int)
    requires
        0 <= l < 8,
    ensures
        !bit(0u8, l),
{
    let t = l as u8;
    assert((0u8 >> t) & 1u8 == 0u8) by (bit_vector)
        requires
            t < 8,
    ;
}

/// What the planning of a pass needs of one bucket, for every lane.
#[derive(Debug)]
pub struct LevelMetadata {
    /// The depth of the block that can go deepest, or -1.
    pub deepest: [i64; 8],
    /// Whether that block is in slot one.
    pub source_slot_1: u8,
    /// Whether slot zero is vacant.
    pub empty_slot_0: u8,
    /// Whether slot one is vacant.
    pub empty_slot_1: u8,
}

/// The depths of the two slots of a lane.
pub open spec fn pair_depths<B: PooledBlock>(row: Seq<B>, lane: int, path: int) -> Seq<i64> {
    seq![
        pooled_depth(row[2 * lane], false, lane, path),
        pooled_depth(row[2 * lane + 1], false, lane, path),
    ]
}

/// The metadata describes the lane.
pub open spec fn metadata_fits<B: PooledBlock>(
    m: LevelMetadata,
    row: Seq<B>,
    lane: int,
    path: int,
) -> bool {
    let d = pair_depths(row, lane, path);
    &&& m.deepest[lane] == peak(d)
    &&& bit(m.source_slot_1, lane) == (peak_slot(d) == 1)
    &&& bit(m.empty_slot_0, lane) == row[2 * lane].vacant()
    &&& bit(m.empty_slot_1, lane) == row[2 * lane + 1].vacant()
}

proof fn lemma_pair(d: Seq<i64>)
    requires
        d.len() == 2,
        d[0] >= -1,
        d[1] >= -1,
    ensures
        peak(d) == (if d[1] > d[0] {
            d[1]
        } else {
            d[0]
        }),
        peak_slot(d) == (if d[1] > d[0] {
            1int
        } else {
            0int
        }),
        has_room(d) == (d[0] == -1 || d[1] == -1),
{
    reveal_with_fuel(peak, 3);
    reveal_with_fuel(peak_slot, 3);
    assert(d.drop_last().drop_last() =~= Seq::empty());
    assert(d.drop_last().last() == d[0]);
    if d[0] == -1 {
        assert(has_room(d));
    }
    if d[1] == -1 {
        assert(has_room(d));
    }
}

/// Describes the sixteen slots of a bucket.
pub fn level_metadata<B: PooledBlock>(row: &Vec<B>, path: u64) -> (r: LevelMetadata)
    requires
        row.len() == 16,
        path < full_width(B::pos_bits(), 2),
    ensures
        forall|lane: int| 0 <= lane < 8 ==> #[trigger] metadata_fits(r, row@, lane, path as int),
{
    let mut deepest: [i64; 8] = [-1i64; 8];
    let mut source_slot_1: u8 = 0;
    let mut empty_slot_0: u8 = 0;
    let mut empty_slot_1: u8 = 0;
    let mut lane: usize = 0;
    proof {
        assert forall|l: int| 0 <= l < 8 implies !bit(0u8, l) by {
            lemma_no_bits(l);
        }
    }
    while lane < 8
        invariant
            lane <= 8,
            row.len() == 16,
            path < full_width(B::pos_bits(), 2),
            forall|l: int|
                0 <= l < lane ==> #[trigger] metadata_fits(
                    LevelMetadata { deepest, source_slot_1, empty_slot_0, empty_slot_1 },
                    row@,
                    l,
                    path as int,
                ),
            forall|l: int|
                lane <= l < 8 ==> !#[trigger] bit(source_slot_1, l) && !bit(empty_slot_0, l)
                    && !bit(empty_slot_1, l),
        decreases 8 - lane,
    {
        let ghost m0 = LevelMetadata { deepest, source_slot_1, empty_slot_0, empty_slot_1 };
        assert(!bit(source_slot_1, lane as int) && !bit(empty_slot_0, lane as int) && !bit(
            empty_slot_1,
            lane as int,
        ));
        let first: B = row[2 * lane];
        let second: B = row[2 * lane + 1];
        let depth_0: i64 = block_depth(&first, false, lane, path);
        let depth_1: i64 = block_depth(&second, false, lane, path);
        let second_deeper: bool = depth_1 > depth_0;
        let mut best: i64 = depth_0;
        cmov_i64(&mut best, depth_1, second_deeper);
        deepest[lane] = best;
        source_slot_1 = with_bit(source_slot_1, lane, second_deeper);
        empty_slot_0 = with_bit(empty_slot_0, lane, first.is_vacant());
        empty_slot_1 = with_bit(empty_slot_1, lane, second.is_vacant());
        proof {
            let m1 = LevelMetadata { deepest, source_slot_1, empty_slot_0, empty_slot_1 };
            let d = pair_depths(row@, lane as int, path as int);
            first.lemma_pooled();
            second.lemma_pooled();
            crate::suffix::lemma_shared_bits(first.pos_int(), path as int, B::pos_bits());
            crate::suffix::lemma_shared_bits(second.pos_int(), path as int, B::pos_bits());
            lemma_pair(d);
            assert forall|l: int| 0 <= l < lane + 1 implies #[trigger] metadata_fits(
                m1,
                row@,
                l,
                path as int,
            ) by {
                if l < lane {
                    assert(metadata_fits(m0, row@, l, path as int));
                    assert(bit(source_slot_1, l) == bit(m0.source_slot_1, l));
                }
            }
            assert forall|l: int| lane + 1 <= l < 8 implies !#[trigger] bit(source_slot_1, l)
                && !bit(empty_slot_0, l) && !bit(empty_slot_1, l) by {
                assert(!bit(m0.source_slot_1, l));
            }
        }
        lane += 1;
    }
    LevelMetadata { deepest, source_slot_1, empty_slot_0, empty_slot_1 }
}

/// The passes over all lanes of one path.
#[derive(Debug)]
pub struct BatchEvictionPlan {
    /// The slot of stash and root that each lane takes a block from, or -1.
    pub root_source: [i64; 8],
    /// The level that the block of each level moves to, or -1, for each lane.
    pub target: Vec<[i64; 8]>,
    /// For each level, whether the moving block is in slot one.
    pub source_slot_1: Vec<u8>,
    /// For each level, whether slot zero is vacant.
    pub empty_slot_0: Vec<u8>,
    /// For each level, whether slot one is vacant.
    pub empty_slot_1: Vec<u8>,
}

/// The plan says of one lane what a pass over it does.
pub open spec fn plan_fits<B: PooledBlock>(
    plan: BatchEvictionPlan,
    stash: Seq<B>,
    nodes: Seq<Seq<B>>,
    h: int,
    pos: int,
    lane: int,
) -> bool {
    let d = lane_depths(stash, nodes, h, pos, lane);
    &&& forall|level: int|
        0 <= level < h ==> #[trigger] plan.target@[level]@[lane] == lane_target(
            stash,
            nodes,
            h,
            pos,
            lane,
            level,
        )
    &&& plan.root_source@[lane] == (if peak(d[0]) >= 0 {
        peak_slot(d[0])
    } else {
        -1
    })
    &&& forall|level: int|
        1 <= level < h ==> bit(#[trigger] plan.source_slot_1@[level], lane) == (peak_slot(d[level])
            == 1)
    &&& forall|level: int|
        1 <= level < h ==> bit(#[trigger] plan.empty_slot_0@[level], lane) == (d[level][0] == -1)
    &&& forall|level: int|
        1 <= level < h ==> bit(#[trigger] plan.empty_slot_1@[level], lane) == (d[level][1] == -1)
}

/// The plan has an entry for every level.
pub open spec fn plan_size(plan: BatchEvictionPlan, h: int) -> bool {
    &&& plan.target.len() == h
    &&& plan.source_slot_1.len() == h
    &&& plan.empty_slot_0.len() == h
    &&& plan.empty_slot_1.len() == h
}

/// The levels of a lane, slot by slot.
proof fn lemma_lane_levels<B: PooledBlock>(
    stash: Seq<B>,
    nodes: Seq<Seq<B>>,
    h: int,
    pos: int,
    lane: int,
)
    requires
        pool_ok(stash, nodes, h),
        0 <= pos < full_width(h - 1, 2),
        0 <= lane < 8,
    ensures
        ({
            let s = stash.len() as int;
            let g = lane_levels(stash, nodes, h, pos, lane);
            let d = lane_depths(stash, nodes, h, pos, lane);
            let col = opened(stash, nodes, h, pos, lane);
            &&& crate::circuit::depths_fit(g, d)
            &&& g.len() == h
            &&& g[0] == col.take(s + 2)
            &&& d[0] == depth_column(col, s, lane, pos).take(s + 2)
            &&& forall|e: int|
                #![trigger g[e]]
                #![trigger d[e]]
                1 <= e < h ==> {
                    &&& g[e] == seq![
                        nodes[at(h, e, pos)][2 * lane],
                        nodes[at(h, e, pos)][2 * lane + 1],
                    ]
                    &&& d[e] == pair_depths(nodes[at(h, e, pos)], lane, pos)
                }
            &&& forall|j: int| 0 <= j < s ==> #[trigger] col[j] == stash[j]
            &&& col[s] == nodes[at(h, 0, pos)][2 * lane]
            &&& col[s + 1] == nodes[at(h, 0, pos)][2 * lane + 1]
        }),
{
    let s = stash.len() as int;
    let g = lane_levels(stash, nodes, h, pos, lane);
    let d = lane_depths(stash, nodes, h, pos, lane);
    let col = opened(stash, nodes, h, pos, lane);
    let dc = depth_column(col, s, lane, pos);
    lemma_open(stash, nodes, h, pos, lane);
    lemma_depths_fit(col, s, h, pos, lane);
    lemma_levels_fit(col, dc, s + 2, 2, h);
    assert forall|e: int|
        #![trigger g[e]]
        #![trigger d[e]]
        1 <= e < h implies {
        &&& g[e] == seq![nodes[at(h, e, pos)][2 * lane], nodes[at(h, e, pos)][2 * lane + 1]]
        &&& d[e] == pair_depths(nodes[at(h, e, pos)], lane, pos)
    } by {
        let k = s + 2 * e;
        assert((k - s) / 2 == e && (k + 1 - s) / 2 == e && (k - s) % 2 == 0 && (k + 1 - s) % 2
            == 1);
        assert(col[k] == nodes[at(h, e, pos)][2 * lane]);
        assert(col[k + 1] == nodes[at(h, e, pos)][2 * lane + 1]);
        assert(g[e] =~= seq![
            nodes[at(h, e, pos)][2 * lane],
            nodes[at(h, e, pos)][2 * lane + 1],
        ]);
        assert(d[e] =~= pair_depths(nodes[at(h, e, pos)], lane, pos));
    }
}

/// Plans the passes over all lanes of one path, from the state before any of them.
pub fn prepare_plan<St: PooledStore>(st: &St, s: usize, h: usize, path: u64) -> (r:
    BatchEvictionPlan)
    requires
        st.store_ok(),
        height_ok::<St::Block>(h as int),
        pool_ok(st.slots().take(s as int), st.rows(), h as int),
        path < full_width(h - 1, 2),
        s <= st.slots().len(),
        s + 2 <= i64::MAX,
        s + 2 <= usize::MAX,
    ensures
        plan_size(r, h as int),
        forall|lane: int|
            0 <= lane < 8 ==> #[trigger] plan_fits(
                r,
                st.slots().take(s as int),
                st.rows(),
                h as int,
                path as int,
                lane,
            ),
{
    let ghost stash = st.slots().take(s as int);
    let ghost nodes = st.rows();
    proof {
        lemma_full_width_grows(h - 1, St::Block::pos_bits(), 2);
        lemma_at(h as int, path as int);
    }
    // Every bucket of the path, for all lanes.
    let mut metadata: Vec<LevelMetadata> = Vec::new();
    let mut source_slot_1: Vec<u8> = Vec::new();
    let mut empty_slot_0: Vec<u8> = Vec::new();
    let mut empty_slot_1: Vec<u8> = Vec::new();
    let mut root: Vec<St::Block> = Vec::new();
    let mut level: usize = 0;
    while level < h
        invariant
            level <= h,
            st.store_ok(),
            height_ok::<St::Block>(h as int),
            nodes == st.rows(),
            nodes_shape(nodes, h as int),
            path < full_width(h - 1, 2),
            path < full_width(St::Block::pos_bits(), 2),
            metadata.len() == level,
            source_slot_1.len() == level,
            empty_slot_0.len() == level,
            empty_slot_1.len() == level,
            level > 0 ==> root@ == nodes[at(h as int, 0, path as int)],
            forall|e: int, lane: int|
                #![trigger metadata_fits(metadata@[e], nodes[at(h as int, e, path as int)], lane, path as int)]
                0 <= e < level && 0 <= lane < 8 ==> metadata_fits(
                    metadata@[e],
                    nodes[at(h as int, e, path as int)],
                    lane,
                    path as int,
                ),
            forall|e: int|
                0 <= e < level ==> #[trigger] source_slot_1@[e] == metadata@[e].source_slot_1,
            forall|e: int|
                0 <= e < level ==> #[trigger] empty_slot_0@[e] == metadata@[e].empty_slot_0,
            forall|e: int|
                0 <= e < level ==> #[trigger] empty_slot_1@[e] == metadata@[e].empty_slot_1,
        decreases h - level,
    {
        let n: usize = bucket_index(h, level, path);
        let row: Vec<St::Block> = read_row(st, n);
        let m: LevelMetadata = level_metadata(&row, path);
        proof {
            assert(nodes[n as int].len() == 16);
            assert(row@ == nodes[n as int]);
        }
        source_slot_1.push(m.source_slot_1);
        empty_slot_0.push(m.empty_slot_0);
        empty_slot_1.push(m.empty_slot_1);
        metadata.push(m);
        if level == 0 {
            root = row;
        }
        level += 1;
    }
    // Every lane.
    let mut target: Vec<[i64; 8]> = filled([-1i64; 8], h);
    let mut root_source: [i64; 8] = [-1i64; 8];
    let mut lane: usize = 0;
    while lane < 8
        invariant
            lane <= 8,
            st.store_ok(),
            height_ok::<St::Block>(h as int),
            stash == st.slots().take(s as int),
            nodes == st.rows(),
            pool_ok(stash, nodes, h as int),
            path < full_width(h - 1, 2),
            path < full_width(St::Block::pos_bits(), 2),
            s <= st.slots().len(),
            s + 2 <= i64::MAX,
            s + 2 <= usize::MAX,
            root@ == nodes[at(h as int, 0, path as int)],
            metadata.len() == h,
            source_slot_1.len() == h,
            empty_slot_0.len() == h,
            empty_slot_1.len() == h,
            target.len() == h,
            forall|e: int, l: int|
                #![trigger metadata_fits(metadata@[e], nodes[at(h as int, e, path as int)], l, path as int)]
                0 <= e < h && 0 <= l < 8 ==> metadata_fits(
                    metadata@[e],
                    nodes[at(h as int, e, path as int)],
                    l,
                    path as int,
                ),
            forall|e: int|
                0 <= e < h ==> #[trigger] source_slot_1@[e] == metadata@[e].source_slot_1,
            forall|e: int|
                0 <= e < h ==> #[trigger] empty_slot_0@[e] == metadata@[e].empty_slot_0,
            forall|e: int|
                0 <= e < h ==> #[trigger] empty_slot_1@[e] == metadata@[e].empty_slot_1,
            forall|l: int, e: int|
                #![trigger target@[e]@[l]]
                0 <= l < lane && 0 <= e < h ==> target@[e]@[l] == lane_target(
                    stash,
                    nodes,
                    h as int,
                    path as int,
                    l,
                    e,
                ),
            forall|l: int|
                0 <= l < lane ==> #[trigger] root_source@[l] == (if peak(
                    lane_depths(stash, nodes, h as int, path as int, l)[0],
                ) >= 0 {
                    peak_slot(lane_depths(stash, nodes, h as int, path as int, l)[0])
                } else {
                    -1
                }),
        decreases 8 - lane,
    {
        let ghost d = lane_depths(stash, nodes, h as int, path as int, lane as int);
        let ghost col = opened(stash, nodes, h as int, path as int, lane as int);
        let ghost dc = depth_column(col, s as int, lane as int, path as int);
        proof {
            lemma_lane_levels(stash, nodes, h as int, path as int, lane as int);
            lemma_at(h as int, path as int);
            assert(nodes[at(h as int, 0, path as int)].len() == 16);
        }
        let mut top: Vec<i64> = slot_depths(st, s, s, path, lane);
        top.push(block_depth(&root[2 * lane], false, lane, path));
        top.push(block_depth(&root[2 * lane + 1], false, lane, path));
        proof {
            assert forall|j: int| 0 <= j < s implies #[trigger] top@[j] == dc[j] by {
                assert(col[j] == stash[j]);
                assert(stash[j] == st.slots()[j]);
            }
            assert(top@ =~= d[0]);
            assert(d.len() == h);
            assert forall|j: int| 0 <= j < top.len() implies -1 <= #[trigger] top[j] by {
                assert(d[0][j] >= -1);
            }
        }
        let (deepest, slot, vacancy) = scan_level(&top);
        let mut source: i64 = -1;
        proof {
            lemma_peak(d[0]);
        }
        cmov_i64(&mut source, slot as i64, deepest >= 0);
        root_source[lane] = source;
        let mut peaks: Vec<i64> = Vec::new();
        let mut room: Vec<bool> = Vec::new();
        peaks.push(deepest);
        room.push(vacancy);
        level = 1;
        while level < h
            invariant
                1 <= level <= h,
                lane < 8,
                metadata.len() == h,
                pool_ok(stash, nodes, h as int),
                path < full_width(h - 1, 2),
                d == lane_depths(stash, nodes, h as int, path as int, lane as int),
                peaks.len() == level,
                room.len() == level,
                forall|e: int| 0 <= e < level ==> #[trigger] peaks[e] == peak(d[e]),
                forall|e: int| 0 <= e < level ==> #[trigger] room[e] == has_room(d[e]),
                forall|e: int, l: int|
                    #![trigger metadata_fits(metadata@[e], nodes[at(h as int, e, path as int)], l, path as int)]
                    0 <= e < h && 0 <= l < 8 ==> metadata_fits(
                        metadata@[e],
                        nodes[at(h as int, e, path as int)],
                        l,
                        path as int,
                    ),
            decreases h - level,
        {
            let m: &LevelMetadata = &metadata[level];
            let empty: bool = either(
                test_bit(m.empty_slot_0, lane),
                test_bit(m.empty_slot_1, lane),
            );
            peaks.push(m.deepest[lane]);
            room.push(empty);
            proof {
                lemma_lane_levels(stash, nodes, h as int, path as int, lane as int);
                let row = nodes[at(h as int, level as int, path as int)];
                assert(metadata_fits(metadata@[level as int], row, lane as int, path as int));
                assert(d[level as int] == pair_depths(row, lane as int, path as int));
                lemma_pair_room(row, lane as int, path as int);
            }
            level += 1;
        }
        proof {
            assert(peaks@ =~= level_peaks(d));
            assert(room@ =~= level_room(d));
            assert forall|e: int| 0 <= e < peaks.len() implies -1 <= #[trigger] peaks[e] by {
                lemma_peak(d[e]);
            }
        }
        let planned: Vec<i64> = plan_targets(&peaks, &room);
        level = 0;
        while level < h
            invariant
                level <= h,
                lane < 8,
                target.len() == h,
                planned.len() == h,
                d == lane_depths(stash, nodes, h as int, path as int, lane as int),
                forall|e: int|
                    0 <= e < h ==> #[trigger] planned[e] == target_of(
                        level_peaks(d),
                        level_room(d),
                        e,
                    ),
                forall|l: int, e: int|
                    #![trigger target@[e]@[l]]
                    0 <= l < lane && 0 <= e < h ==> target@[e]@[l] == lane_target(
                        stash,
                        nodes,
                        h as int,
                        path as int,
                        l,
                        e,
                    ),
                forall|e: int|
                    0 <= e < level ==> (#[trigger] target@[e])@[lane as int] == lane_target(
                        stash,
                        nodes,
                        h as int,
                        path as int,
                        lane as int,
                        e,
                    ),
            decreases h - level,
        {
            let mut row: [i64; 8] = target[level];
            row[lane] = planned[level];
            target.set(level, row);
            level += 1;
        }
        lane += 1;
    }
    let r = BatchEvictionPlan { root_source, target, source_slot_1, empty_slot_0, empty_slot_1 };
    proof {
        assert forall|l: int| 0 <= l < 8 implies #[trigger] plan_fits(
            r,
            stash,
            nodes,
            h as int,
            path as int,
            l,
        ) by {
            let d = lane_depths(stash, nodes, h as int, path as int, l);
            lemma_lane_levels(stash, nodes, h as int, path as int, l);
            assert forall|e: int| 1 <= e < h implies {
                &&& bit(#[trigger] r.source_slot_1@[e], l) == (peak_slot(d[e]) == 1)
                &&& bit(r.empty_slot_0@[e], l) == (d[e][0] == -1)
                &&& bit(r.empty_slot_1@[e], l) == (d[e][1] == -1)
            } by {
                let row = nodes[at(h as int, e, path as int)];
                assert(metadata_fits(metadata@[e], row, l, path as int));
                assert(d[e] == pair_depths(row, l, path as int));
                lemma_pair_room(row, l, path as int);
                assert(r.source_slot_1@[e] == metadata@[e].source_slot_1);
                assert(r.empty_slot_0@[e] == metadata@[e].empty_slot_0);
                assert(r.empty_slot_1@[e] == metadata@[e].empty_slot_1);
            }
            assert forall|e: int| 1 <= e < h implies bit(#[trigger] r.empty_slot_0@[e], l) == (
            d[e][0] == -1) by {
                assert(bit(r.source_slot_1@[e], l) == (peak_slot(d[e]) == 1));
            }
            assert forall|e: int| 1 <= e < h implies bit(#[trigger] r.empty_slot_1@[e], l) == (
            d[e][1] == -1) by {
                assert(bit(r.source_slot_1@[e], l) == (peak_slot(d[e]) == 1));
            }
        }
    }
    r
}

/// Exchanges the carried block with the two slots of a lane at one level.
fn move_pair<B: PooledBlock>(
    first: &mut B,
    second: &mut B,
    held: &mut B,
    has_target: bool,
    source_is_slot_1: bool,
    place: bool,
    empty_0: bool,
    empty_1: bool,
)
    requires
        empty_0 == old(first).vacant(),
        empty_1 == old(second).vacant(),
        !(has_target && place),
        old(first).vacant() ==> *old(first) == B::blank(),
        old(second).vacant() ==> *old(second) == B::blank(),
        old(held).vacant() ==> *old(held) == B::blank(),
    ensures
        exchanged(
            seq![*old(first), *old(second)],
            *old(held),
            seq![*final(first), *final(second)],
            *final(held),
            if source_is_slot_1 {
                1int
            } else {
                0int
            },
            has_target,
            place,
        ),
        final(first).vacant() ==> *final(first) == B::blank(),
        final(second).vacant() ==> *final(second) == B::blank(),
        final(held).vacant() ==> *final(held) == B::blank(),
{
    let ghost row = seq![*first, *second];
    let ghost held0 = *held;
    let take_0: bool = both(has_target, !source_is_slot_1);
    let put_0: bool = both(place, empty_0);
    exchange(held, first, either(take_0, put_0));
    let take_1: bool = both(has_target, source_is_slot_1);
    let put_1: bool = both(both(place, empty_1), !put_0);
    exchange(held, second, either(take_1, put_1));
    proof {
        let after = seq![*first, *second];
        if has_target {
            let slot = if source_is_slot_1 {
                1int
            } else {
                0int
            };
            assert(after =~= row.update(slot, held0));
        } else if place {
            assert forall|f: int|
                0 <= f < row.len() && row[f].vacant() && (forall|i: int|
                    0 <= i < f ==> !(#[trigger] row[i]).vacant()) implies {
                &&& held.vacant()
                &&& #[trigger] after[f] == held0
                &&& forall|j: int|
                    0 <= j < row.len() && j != f ==> holds(
                        #[trigger] after[j],
                        if row[j].vacant() {
                            None
                        } else {
                            Some(row[j])
                        },
                    )
            } by {
                if f == 1 {
                    assert(!row[0].vacant());
                }
            }
        } else {
            assert(after =~= row);
        }
    }
}

/// Whether the slots of `lane` at depth `e` were moved, when all lanes above `depth`
/// were and `cur` lanes at `depth`.
pub open spec fn moved(lane: int, e: int, depth: int, cur: int) -> bool {
    e < depth || (e == depth && lane < cur)
}

/// The buckets part way through a batch.
pub open spec fn rows_progress<B: PooledBlock>(
    stash: Seq<B>,
    nodes: Seq<Seq<B>>,
    h: int,
    pos: int,
    depth: int,
    cur: int,
    rows: Seq<Seq<B>>,
) -> bool {
    &&& nodes_shape(rows, h)
    &&& forall|lane: int, e: int, j: int|
        #![trigger lane_settled_slot(stash, nodes, h, pos, lane, e, j)]
        0 <= lane < 8 && 0 <= e < h && 0 <= j < 2 && moved(lane, e, depth, cur) ==> rows[at(
            h,
            e,
            pos,
        )][2 * lane + j] == lane_settled_slot(stash, nodes, h, pos, lane, e, j)
    &&& forall|lane: int, e: int, j: int|
        #![trigger rows[at(h, e, pos)][2 * lane + j]]
        0 <= lane < 8 && 0 <= e < h && 0 <= j < 2 && !moved(lane, e, depth, cur) ==> rows[at(
            h,
            e,
            pos,
        )][2 * lane + j] == nodes[at(h, e, pos)][2 * lane + j]
    &&& forall|n: int, k: int|
        #![trigger rows[n][k]]
        0 <= n < nodes.len() && 0 <= k < 16 && !on_lanes(h, pos, 8, n, k) ==> rows[n][k]
            == nodes[n][k]
}

/// Moving the two slots of one lane advances the batch.
proof fn lemma_rows_step<B: PooledBlock>(
    stash: Seq<B>,
    nodes: Seq<Seq<B>>,
    h: int,
    pos: int,
    depth: int,
    cur: int,
    rows: Seq<Seq<B>>,
    first: B,
    second: B,
)
    requires
        0 <= pos < full_width(h - 1, 2),
        nodes_shape(nodes, h),
        0 <= depth < h,
        0 <= cur < 8,
        rows_progress(stash, nodes, h, pos, depth, cur, rows),
        first == lane_settled_slot(stash, nodes, h, pos, cur, depth, 0),
        second == lane_settled_slot(stash, nodes, h, pos, cur, depth, 1),
    ensures
        ({
            let n = at(h, depth, pos);
            rows_progress(
                stash,
                nodes,
                h,
                pos,
                depth,
                cur + 1,
                rows.update(n, rows[n].update(2 * cur, first).update(2 * cur + 1, second)),
            )
        }),
{
    let m = at(h, depth, pos);
    let after = rows.update(m, rows[m].update(2 * cur, first).update(2 * cur + 1, second));
    lemma_at(h, pos);
    assert(0 <= m < nodes.len());
    assert(rows[m].len() == 16);
    assert forall|n: int| 0 <= n < after.len() implies (#[trigger] after[n]).len() == 16 by {
        assert(rows[n].len() == 16);
    }
    assert forall|lane: int, e: int, j: int|
        #![trigger lane_settled_slot(stash, nodes, h, pos, lane, e, j)]
        0 <= lane < 8 && 0 <= e < h && 0 <= j < 2 && moved(lane, e, depth, cur + 1) implies after[at(
        h,
        e,
        pos,
    )][2 * lane + j] == lane_settled_slot(stash, nodes, h, pos, lane, e, j) by {
        if e == depth && lane == cur {
            assert(j == 0 || j == 1);
        } else {
            assert(moved(lane, e, depth, cur));
            if e != depth {
                assert(at(h, e, pos) != m);
            }
        }
    }
    assert forall|lane: int, e: int, j: int|
        #![trigger after[at(h, e, pos)][2 * lane + j]]
        0 <= lane < 8 && 0 <= e < h && 0 <= j < 2 && !moved(lane, e, depth, cur + 1) implies after[at(
        h,
        e,
        pos,
    )][2 * lane + j] == nodes[at(h, e, pos)][2 * lane + j] by {
        if e != depth {
            assert(at(h, e, pos) != m);
        }
        assert(rows[at(h, e, pos)][2 * lane + j] == nodes[at(h, e, pos)][2 * lane + j]);
    }
    assert forall|n: int, k: int|
        #![trigger after[n][k]]
        0 <= n < nodes.len() && 0 <= k < 16 && !on_lanes(h, pos, 8, n, k) implies after[n][k]
        == nodes[n][k] by {
        if n == m {
            assert(at(h, depth, pos) == n);
            assert(on_lanes(h, pos, 8, n, k));
        }
        assert(rows[n][k] == nodes[n][k]);
    }
}

/// What the pass of a lane leaves in a slot of the path, level by level.
proof fn lemma_lane_settled_slot<B: PooledBlock>(
    stash: Seq<B>,
    nodes: Seq<Seq<B>>,
    h: int,
    pos: int,
    lane: int,
    e: int,
    j: int,
    c: B,
)
    requires
        pool_ok(stash, nodes, h),
        0 <= pos < full_width(h - 1, 2),
        0 <= lane < 8,
        0 <= e < h,
        0 <= j < 2,
        c.vacant() ==> c == B::blank(),
        holds(
            c,
            settled(
                lane_levels(stash, nodes, h, pos, lane),
                lane_depths(stash, nodes, h, pos, lane),
                e,
                if e == 0 {
                    stash.len() + j
                } else {
                    j
                },
            ),
        ),
    ensures
        c == lane_settled_slot(stash, nodes, h, pos, lane, e, j),
{
    let s = stash.len() as int;
    let k = s + 2 * e + j;
    if e > 0 {
        assert((k - (s + 2)) / 2 + 1 == e && (k - (s + 2)) % 2 == j);
    }
}

/// What a lane holds once the stash was scanned up to `idx`.
pub open spec fn routed<B: PooledBlock>(
    stash: Seq<B>,
    nodes: Seq<Seq<B>>,
    h: int,
    pos: int,
    lane: int,
    idx: int,
    held: B,
) -> bool {
    let src = peak_slot(lane_depths(stash, nodes, h, pos, lane)[0]);
    held == (if lane_target(stash, nodes, h, pos, lane, 0) != -1 && src < idx {
        stash[src]
    } else {
        B::blank()
    })
}

/// Moves the blocks of one lane at one level.
#[verifier::spinoff_prover]
fn move_lane_at_depth<St: PooledStore>(
    st: &mut St,
    n: usize,
    depth: usize,
    h: usize,
    path: u64,
    lane: usize,
    plan: &BatchEvictionPlan,
    held: &mut St::Block,
    dst: &mut i64,
    Ghost(stash): Ghost<Seq<St::Block>>,
    Ghost(nodes): Ghost<Seq<Seq<St::Block>>>,
)
    requires
        old(st).store_ok(),
        1 <= depth < h <= 64,
        lane < 8,
        path < full_width(h - 1, 2),
        pool_ok(stash, nodes, h as int),
        plan_size(*plan, h as int),
        plan_fits(*plan, stash, nodes, h as int, path as int, lane as int),
        n == at(h as int, depth as int, path as int),
        n < old(st).rows().len() == nodes.len(),
        old(st).rows()[n as int][2 * lane] == nodes[n as int][2 * lane],
        old(st).rows()[n as int][2 * lane + 1] == nodes[n as int][2 * lane + 1],
        carries(
            lane_levels(stash, nodes, h as int, path as int, lane as int),
            lane_depths(stash, nodes, h as int, path as int, lane as int),
            depth as int,
            *old(held),
            *old(dst) as int,
        ),
        old(held).vacant() ==> *old(held) == St::Block::blank(),
    ensures
        final(st).store_ok(),
        final(st).frame() == old(st).frame(),
        final(st).slots() == old(st).slots(),
        final(st).rows() == old(st).rows().update(
            n as int,
            old(st).rows()[n as int].update(
                2 * lane as int,
                lane_settled_slot(
                    stash,
                    nodes,
                    h as int,
                    path as int,
                    lane as int,
                    depth as int,
                    0,
                ),
            ).update(
                2 * lane as int + 1,
                lane_settled_slot(
                    stash,
                    nodes,
                    h as int,
                    path as int,
                    lane as int,
                    depth as int,
                    1,
                ),
            ),
        ),
        carries(
            lane_levels(stash, nodes, h as int, path as int, lane as int),
            lane_depths(stash, nodes, h as int, path as int, lane as int),
            depth + 1,
            *final(held),
            *final(dst) as int,
        ),
        final(held).vacant() ==> *final(held) == St::Block::blank(),
{
    let ghost before = st.rows();
    let ghost hh = h as int;
    let ghost p = path as int;
    let ghost l = lane as int;
    let ghost e = depth as int;
    let ghost g = lane_levels(stash, nodes, hh, p, l);
    let ghost d = lane_depths(stash, nodes, hh, p, l);
    let ghost held0 = *held;
    let ghost dst0 = *dst as int;
    let target: i64 = plan.target[depth][lane];
    let has_target: bool = target != -1;
    let place: bool = both(*dst == depth as i64, !has_target);
    let source_is_slot_1: bool = test_bit(plan.source_slot_1[depth], lane);
    let empty_0: bool = test_bit(plan.empty_slot_0[depth], lane);
    let empty_1: bool = test_bit(plan.empty_slot_1[depth], lane);
    let mut first = st.node_slot(n, 2 * lane);
    let mut second = st.node_slot(n, 2 * lane + 1);
    proof {
        assert(plan.target@[e]@[l] == lane_target(stash, nodes, hh, p, l, e));
        assert(bit(plan.source_slot_1@[e], l) == (peak_slot(d[e]) == 1));
        assert(bit(plan.empty_slot_0@[e], l) == (d[e][0] == -1));
        assert(bit(plan.empty_slot_1@[e], l) == (d[e][1] == -1));
        lemma_lane_levels(stash, nodes, hh, p, l);
        lemma_pair_room(nodes[n as int], l, p);
        lemma_pair(d[e]);
        assert(nodes[n as int].len() == 16);
        assert(level_blank(nodes[n as int]));
        assert(g[e] == seq![first, second]);
    }
    move_pair(
        &mut first,
        &mut second,
        held,
        has_target,
        source_is_slot_1,
        place,
        empty_0,
        empty_1,
    );
    st.set_node_slot(n, 2 * lane, first);
    st.set_node_slot(n, 2 * lane + 1, second);
    cmov_i64(dst, target, either(has_target, place));
    proof {
        let after = seq![first, second];
        lemma_step(g, d, e, held0, dst0, after, *held);
        assert(holds(after[0], settled(g, d, e, 0)));
        assert(holds(after[1], settled(g, d, e, 1)));
        lemma_lane_settled_slot(stash, nodes, hh, p, l, e, 0, first);
        lemma_lane_settled_slot(stash, nodes, hh, p, l, e, 1, second);
        assert(st.rows() =~= before.update(
            n as int,
            before[n as int].update(2 * l, first).update(2 * l + 1, second),
        ));
    }
}

/// Runs the planned passes over all lanes of one path, level by level: every lane ends
/// as if the lanes were passed over one after another.
#[verifier::spinoff_prover]
#[verifier::rlimit(40)]
pub fn move_batch<St: PooledStore>(
    st: &mut St,
    s: usize,
    h: usize,
    path: u64,
    plan: &BatchEvictionPlan,
)
    requires
        old(st).store_ok(),
        height_ok::<St::Block>(h as int),
        pool_ok(old(st).slots().take(s as int), old(st).rows(), h as int),
        path < full_width(h - 1, 2),
        s <= old(st).slots().len() <= usize::MAX,
        s + 2 <= i64::MAX,
        s + 2 <= usize::MAX,
        plan_size(*plan, h as int),
        forall|lane: int|
            0 <= lane < 8 ==> #[trigger] plan_fits(
                *plan,
                old(st).slots().take(s as int),
                old(st).rows(),
                h as int,
                path as int,
                lane,
            ),
    ensures
        final(st).store_ok(),
        final(st).frame() == old(st).frame(),
        final(st).slots().len() == old(st).slots().len(),
        (final(st).slots().take(s as int), final(st).rows()) == evicted_lanes(
            old(st).slots().take(s as int),
            old(st).rows(),
            h as int,
            path as int,
            8,
        ),
        pool_ok(final(st).slots().take(s as int), final(st).rows(), h as int),
{
    let ghost stash = st.slots().take(s as int);
    let ghost nodes = st.rows();
    let ghost p = path as int;
    let ghost hh = h as int;
    proof {
        St::Block::blank().lemma_pooled();
        lemma_at(hh, p);
        assert forall|lane: int| 0 <= lane < 8 implies #[trigger] routed(
            stash,
            nodes,
            hh,
            p,
            lane,
            0,
            St::Block::blank(),
        ) by {
            lemma_lane_levels(stash, nodes, hh, p, lane);
            lemma_first_step(
                lane_levels(stash, nodes, hh, p, lane),
                lane_depths(stash, nodes, hh, p, lane),
            );
        }
    }
    // Scan the stash once, routing each selected block to the lane that takes it.
    let mut held: Vec<St::Block> = filled(St::Block::fresh(), 8);
    let mut idx: usize = 0;
    while idx < s
        invariant
            idx <= s,
            s + 2 <= i64::MAX,
            hh == h,
            p == path,
            st.store_ok(),
            st.frame() == old(st).frame(),
            st.rows() == nodes,
            st.slots().len() == old(st).slots().len(),
            s <= st.slots().len(),
            stash == old(st).slots().take(s as int),
            pool_ok(stash, nodes, hh),
            path < full_width(h - 1, 2),
            plan_size(*plan, hh),
            h >= 2,
            St::Block::blank().vacant(),
            forall|lane: int|
                0 <= lane < 8 ==> #[trigger] plan_fits(*plan, stash, nodes, hh, p, lane),
            held.len() == 8,
            forall|lane: int|
                0 <= lane < 8 ==> routed(
                    stash,
                    nodes,
                    hh,
                    p,
                    lane,
                    idx as int,
                    #[trigger] held@[lane],
                ),
            forall|j: int|
                0 <= j < idx ==> #[trigger] st.slots()[j] == (if exists|lane: int|
                    0 <= lane < 8 && #[trigger] takes_from(stash, nodes, hh, p, lane, j) {
                    St::Block::blank()
                } else {
                    stash[j]
                }),
            forall|j: int| idx <= j < s ==> #[trigger] st.slots()[j] == stash[j],
        decreases s - idx,
    {
        let mut value = st.slot(idx);
        let mut lane: usize = 0;
        while lane < 8
            invariant
                lane <= 8,
                idx < s,
                s + 2 <= i64::MAX,
                hh == h,
                p == path,
                stash.len() == s,
                pool_ok(stash, nodes, hh),
                path < full_width(h - 1, 2),
                plan_size(*plan, hh),
                h >= 2,
                forall|l: int|
                    0 <= l < 8 ==> #[trigger] plan_fits(*plan, stash, nodes, hh, p, l),
                held.len() == 8,
                forall|l: int|
                    0 <= l < 8 ==> routed(
                        stash,
                        nodes,
                        hh,
                        p,
                        l,
                        if l < lane {
                            idx + 1
                        } else {
                            idx as int
                        },
                        #[trigger] held@[l],
                    ),
                value == (if exists|l: int|
                    0 <= l < lane && #[trigger] takes_from(stash, nodes, hh, p, l, idx as int) {
                    St::Block::blank()
                } else {
                    stash[idx as int]
                }),
            decreases 8 - lane,
        {
            let ghost value0 = value;
            let selected: bool = both(
                plan.target[0][lane] != -1,
                plan.root_source[lane] == idx as i64,
            );
            proof {
                assert(plan_fits(*plan, stash, nodes, hh, p, lane as int));
                assert(plan.target@[0]@[lane as int] == lane_target(
                    stash,
                    nodes,
                    hh,
                    p,
                    lane as int,
                    0,
                ));
                lemma_lane_levels(stash, nodes, hh, p, lane as int);
                lemma_first_step(
                    lane_levels(stash, nodes, hh, p, lane as int),
                    lane_depths(stash, nodes, hh, p, lane as int),
                );
                lemma_peak(lane_depths(stash, nodes, hh, p, lane as int)[0]);
                assert(selected == takes_from(stash, nodes, hh, p, lane as int, idx as int));
                if selected {
                    lemma_takes_own(stash, nodes, hh, p, lane as int, idx as int);
                    if exists|l: int|
                        0 <= l < lane && #[trigger] takes_from(
                            stash,
                            nodes,
                            hh,
                            p,
                            l,
                            idx as int,
                        ) {
                        let l = choose|l: int|
                            0 <= l < lane && #[trigger] takes_from(
                                stash,
                                nodes,
                                hh,
                                p,
                                l,
                                idx as int,
                            );
                        lemma_takes_own(stash, nodes, hh, p, l, idx as int);
                    }
                }
                assert(routed(stash, nodes, hh, p, lane as int, idx as int, held@[lane as int]));
            }
            let mut mine = held[lane];
            exchange(&mut mine, &mut value, selected);
            held.set(lane, mine);
            proof {
                if exists|l: int|
                    0 <= l < lane + 1 && #[trigger] takes_from(
                        stash,
                        nodes,
                        hh,
                        p,
                        l,
                        idx as int,
                    ) {
                    let l = choose|l: int|
                        0 <= l < lane + 1 && #[trigger] takes_from(
                            stash,
                            nodes,
                            hh,
                            p,
                            l,
                            idx as int,
                        );
                    assert(l == lane || takes_from(stash, nodes, hh, p, l, idx as int));
                }
            }
            lane += 1;
        }
        let ghost before = st.slots();
        st.set_slot(idx, value);
        idx += 1;
    }
    // The root buckets: a lane whose block is there still holds nothing.
    let root: usize = bucket_index(h, 0, path);
    let mut lane: usize = 0;
    let ghost slots1 = st.slots();
    proof {
        assert(rows_progress(stash, nodes, hh, p, 0, 0, st.rows()));
    }
    while lane < 8
        invariant
            lane <= 8,
            s + 2 <= i64::MAX,
            s + 2 <= usize::MAX,
            hh == h,
            p == path,
            h >= 2,
            st.store_ok(),
            st.frame() == old(st).frame(),
            st.slots() == slots1,
            stash.len() == s,
            pool_ok(stash, nodes, hh),
            path < full_width(h - 1, 2),
            plan_size(*plan, hh),
            root == at(hh, 0, p),
            root < nodes.len(),
            St::Block::blank().vacant(),
            forall|l: int|
                0 <= l < 8 ==> #[trigger] plan_fits(*plan, stash, nodes, hh, p, l),
            held.len() == 8,
            forall|l: int|
                lane <= l < 8 ==> routed(
                    stash,
                    nodes,
                    hh,
                    p,
                    l,
                    s as int,
                    #[trigger] held@[l],
                ),
            forall|l: int|
                0 <= l < lane ==> carries(
                    lane_levels(stash, nodes, hh, p, l),
                    lane_depths(stash, nodes, hh, p, l),
                    1,
                    #[trigger] held@[l],
                    lane_target(stash, nodes, hh, p, l, 0),
                ),
            forall|l: int|
                0 <= l < lane && (#[trigger] held@[l]).vacant() ==> held@[l]
                    == St::Block::blank(),
            rows_progress(stash, nodes, hh, p, 0, lane as int, st.rows()),
        decreases 8 - lane,
    {
        let ghost before = st.rows();
        let ghost g = lane_levels(stash, nodes, hh, p, lane as int);
        let ghost d = lane_depths(stash, nodes, hh, p, lane as int);
        let ghost col = opened(stash, nodes, hh, p, lane as int);
        let active: bool = plan.target[0][lane] != -1;
        let select_0: bool = both(active, plan.root_source[lane] == s as i64);
        let select_1: bool = both(active, plan.root_source[lane] == s as i64 + 1);
        let mut mine = held[lane];
        let ghost mine0 = mine;
        let mut first = st.node_slot(root, 2 * lane);
        let mut second = st.node_slot(root, 2 * lane + 1);
        proof {
            lemma_at(hh, p);
            assert(plan_fits(*plan, stash, nodes, hh, p, lane as int));
            assert(plan.target@[0]@[lane as int] == lane_target(
                stash,
                nodes,
                hh,
                p,
                lane as int,
                0,
            ));
            lemma_lane_levels(stash, nodes, hh, p, lane as int);
            lemma_first_step(g, d);
            lemma_peak(d[0]);
            assert(before[at(hh, 0, p)][2 * lane as int + 0] == nodes[at(hh, 0, p)][2
                * lane as int + 0]);
            assert(before[at(hh, 0, p)][2 * lane as int + 1] == nodes[at(hh, 0, p)][2
                * lane as int + 1]);
            assert(first == col[s as int]);
            assert(second == col[s + 1]);
            lemma_open(stash, nodes, hh, p, lane as int);
            assert(routed(stash, nodes, hh, p, lane as int, s as int, mine0));
            assert(g[0][s as int] == first);
            assert(g[0][s + 1] == second);
        }
        exchange(&mut mine, &mut first, select_0);
        exchange(&mut mine, &mut second, select_1);
        st.set_node_slot(root, 2 * lane, first);
        st.set_node_slot(root, 2 * lane + 1, second);
        held.set(lane, mine);
        proof {
            let l = lane as int;
            let src = peak_slot(d[0]);
            if active {
                if src < s {
                    assert(g[0][src] == col[src]);
                    assert(col[src] == stash[src]);
                }
                assert(mine == g[0][src]);
            }
            assert(holds(first, settled(g, d, 0, s as int)));
            assert(holds(second, settled(g, d, 0, s + 1)));
            lemma_lane_settled_slot(stash, nodes, hh, p, l, 0, 0, first);
            lemma_lane_settled_slot(stash, nodes, hh, p, l, 0, 1, second);
            lemma_rows_step(stash, nodes, hh, p, 0, l, before, first, second);
            assert(st.rows() =~= before.update(
                root as int,
                before[root as int].update(2 * l, first).update(2 * l + 1, second),
            ));
        }
        lane += 1;
    }
    // The levels below, all lanes at one level before any goes on.
    let mut dst: [i64; 8] = plan.target[0];
    proof {
        assert forall|l: int| 0 <= l < 8 implies #[trigger] dst@[l] == lane_target(
            stash,
            nodes,
            hh,
            p,
            l,
            0,
        ) by {
            assert(plan_fits(*plan, stash, nodes, hh, p, l));
            assert(plan.target@[0]@[l] == lane_target(stash, nodes, hh, p, l, 0));
        }
        lemma_rows_next_level(stash, nodes, hh, p, 0, st.rows());
    }
    let mut depth: usize = 1;
    while depth < h
        invariant
            1 <= depth <= h,
            hh == h,
            p == path,
            height_ok::<St::Block>(hh),
            st.store_ok(),
            st.frame() == old(st).frame(),
            st.slots() == slots1,
            stash.len() == s,
            pool_ok(stash, nodes, hh),
            path < full_width(h - 1, 2),
            plan_size(*plan, hh),
            forall|l: int|
                0 <= l < 8 ==> #[trigger] plan_fits(*plan, stash, nodes, hh, p, l),
            held.len() == 8,
            forall|l: int|
                0 <= l < 8 ==> carries(
                    lane_levels(stash, nodes, hh, p, l),
                    lane_depths(stash, nodes, hh, p, l),
                    depth as int,
                    #[trigger] held@[l],
                    dst@[l] as int,
                ),
            forall|l: int|
                0 <= l < 8 && (#[trigger] held@[l]).vacant() ==> held@[l] == St::Block::blank(),
            rows_progress(stash, nodes, hh, p, depth as int, 0, st.rows()),
        decreases h - depth,
    {
        let n: usize = bucket_index(h, depth, path);
        lane = 0;
        while lane < 8
            invariant
                lane <= 8,
                1 <= depth < h,
                hh == h,
                p == path,
                h <= 64,
                st.store_ok(),
                st.frame() == old(st).frame(),
                st.slots() == slots1,
                stash.len() == s,
                pool_ok(stash, nodes, hh),
                path < full_width(h - 1, 2),
                plan_size(*plan, hh),
                n == at(hh, depth as int, p),
                n < nodes.len(),
                forall|l: int|
                    0 <= l < 8 ==> #[trigger] plan_fits(*plan, stash, nodes, hh, p, l),
                held.len() == 8,
                forall|l: int|
                    0 <= l < 8 ==> carries(
                        lane_levels(stash, nodes, hh, p, l),
                        lane_depths(stash, nodes, hh, p, l),
                        if l < lane {
                            depth + 1
                        } else {
                            depth as int
                        },
                        #[trigger] held@[l],
                        dst@[l] as int,
                    ),
                forall|l: int|
                    0 <= l < 8 && (#[trigger] held@[l]).vacant() ==> held@[l]
                        == St::Block::blank(),
                rows_progress(stash, nodes, hh, p, depth as int, lane as int, st.rows()),
            decreases 8 - lane,
        {
            let ghost before = st.rows();
            let mut mine = held[lane];
            let mut goal: i64 = dst[lane];
            proof {
                assert(before[at(hh, depth as int, p)][2 * lane as int + 0] == nodes[at(
                    hh,
                    depth as int,
                    p,
                )][2 * lane as int + 0]);
                assert(before[at(hh, depth as int, p)][2 * lane as int + 1] == nodes[at(
                    hh,
                    depth as int,
                    p,
                )][2 * lane as int + 1]);
                assert(plan_fits(*plan, stash, nodes, hh, p, lane as int));
            }
            move_lane_at_depth(
                st,
                n,
                depth,
                h,
                path,
                lane,
                plan,
                &mut mine,
                &mut goal,
                Ghost(stash),
                Ghost(nodes),
            );
            held.set(lane, mine);
            dst[lane] = goal;
            proof {
                lemma_rows_step(
                    stash,
                    nodes,
                    hh,
                    p,
                    depth as int,
                    lane as int,
                    before,
                    lane_settled_slot(stash, nodes, hh, p, lane as int, depth as int, 0),
                    lane_settled_slot(stash, nodes, hh, p, lane as int, depth as int, 1),
                );
            }
            lane += 1;
        }
        proof {
            lemma_rows_next_level(stash, nodes, hh, p, depth as int, st.rows());
        }
        depth += 1;
    }
    proof {
        let stash2 = st.slots().take(s as int);
        lemma_batch_sequential(stash, nodes, hh, p, 8);
        let want = evicted_lanes(stash, nodes, hh, p, 8);
        assert(batch_stash(stash, nodes, hh, p, 8, stash2)) by {
            assert forall|j: int| 0 <= j < s implies #[trigger] stash2[j] == (if exists|l: int|
                0 <= l < 8 && #[trigger] takes_from(stash, nodes, hh, p, l, j) {
                St::Block::blank()
            } else {
                stash[j]
            }) by {
                assert(stash2[j] == st.slots()[j]);
            }
        }
        assert(batch_nodes(stash, nodes, hh, p, 8, st.rows())) by {
            assert forall|l: int, e: int, j: int|
                #![trigger lane_settled_slot(stash, nodes, hh, p, l, e, j)]
                0 <= l < 8 && 0 <= e < h && 0 <= j < 2 implies st.rows()[at(hh, e, p)][2 * l + j]
                == lane_settled_slot(stash, nodes, hh, p, l, e, j) by {
                assert(moved(l, e, hh, 0));
            }
        }
        lemma_batch_unique(stash, nodes, hh, p, 8, stash2, st.rows(), want.0, want.1);
    }
}

/// All lanes moved at one level is no lane moved at the next.
proof fn lemma_rows_next_level<B: PooledBlock>(
    stash: Seq<B>,
    nodes: Seq<Seq<B>>,
    h: int,
    pos: int,
    depth: int,
    rows: Seq<Seq<B>>,
)
    requires
        rows_progress(stash, nodes, h, pos, depth, 8, rows),
    ensures
        rows_progress(stash, nodes, h, pos, depth + 1, 0, rows),
{
    assert forall|lane: int, e: int, j: int|
        #![trigger lane_settled_slot(stash, nodes, h, pos, lane, e, j)]
        0 <= lane < 8 && 0 <= e < h && 0 <= j < 2 && moved(lane, e, depth + 1, 0) implies rows[at(
        h,
        e,
        pos,
    )][2 * lane + j] == lane_settled_slot(stash, nodes, h, pos, lane, e, j) by {
        assert(moved(lane, e, depth, 8));
    }
    assert forall|lane: int, e: int, j: int|
        #![trigger rows[at(h, e, pos)][2 * lane + j]]
        0 <= lane < 8 && 0 <= e < h && 0 <= j < 2 && !moved(lane, e, depth + 1, 0) implies rows[at(
        h,
        e,
        pos,
    )][2 * lane + j] == nodes[at(h, e, pos)][2 * lane + j] by {
        assert(!moved(lane, e, depth, 8));
    }
}

/// In a bucket a slot has depth -1 exactly when it is vacant.
proof fn lemma_pair_room<B: PooledBlock>(row: Seq<B>, lane: int, path: int)
    requires
        0 <= path,
    ensures
        ({
            let d = pair_depths(row, lane, path);
            &&& (d[0] == -1) == row[2 * lane].vacant()
            &&& (d[1] == -1) == row[2 * lane + 1].vacant()
            &&& d[0] >= -1
            &&& d[1] >= -1
            &&& has_room(d) == (row[2 * lane].vacant() || row[2 * lane + 1].vacant())
        }),
{
    let a = row[2 * lane];
    let b = row[2 * lane + 1];
    a.lemma_pooled();
    b.lemma_pooled();
    crate::suffix::lemma_shared_bits(a.pos_int(), path, B::pos_bits());
    crate::suffix::lemma_shared_bits(b.pos_int(), path, B::pos_bits());
    lemma_pair(pair_depths(row, lane, path));
}

/// Copies the slots of a bucket.
fn read_row<St: PooledStore>(st: &St, n: usize) -> (r: Vec<St::Block>)
    requires
        st.store_ok(),
        n < st.rows().len(),
        st.rows()[n as int].len() == 16,
    ensures
        r@ == st.rows()[n as int],
{
    let mut r: Vec<St::Block> = Vec::new();
    let mut k: usize = 0;
    while k < 16
        invariant
            k <= 16,
            st.store_ok(),
            n < st.rows().len(),
            st.rows()[n as int].len() == 16,
            r@ == st.rows()[n as int].take(k as int),
        decreases 16 - k,
    {
        let block = st.node_slot(n, k);
        r.push(block);
        assert(st.rows()[n as int].take(k + 1) =~= st.rows()[n as int].take(k as int).push(block));
        k += 1;
    }
    assert(st.rows()[n as int].take(16) =~= st.rows()[n as int]);
    r
}

// ---------------------------------------------------------------------------
// Accesses.
// ---------------------------------------------------------------------------
/// The block of `key` is in the stash or in the loaded lane.
pub open spec fn visible<B: PooledBlock>(
    stash: Seq<B>,
    nodes: Seq<Seq<B>>,
    h: int,
    pos: int,
    lane: int,
    key: B::Key,
) -> bool {
    exists|i: int|
        0 <= i < opened(stash, nodes, h, pos, lane).len() && !(#[trigger] opened(
            stash,
            nodes,
            h,
            pos,
            lane,
        )[i]).vacant() && opened(stash, nodes, h, pos, lane)[i].block_key() == key
}

/// The stash has a vacant slot, or one that holds the block of `key`.
pub open spec fn room_for<B: PooledBlock>(stash: Seq<B>, key: B::Key) -> bool {
    exists|i: int|
        0 <= i < stash.len() && ((#[trigger] stash[i]).vacant() || stash[i].block_key() == key)
}

/// Stash slots are filled only below `m`.
pub open spec fn filled_below<B: ObliviousBlock>(stash: Seq<B>, m: int) -> bool {
    forall|i: int| m <= i < stash.len() && 0 <= i ==> (#[trigger] stash[i]).vacant()
}

/// Loads the lane of `key` on a path and takes the block of `key` out.
pub fn open_and_remove<St: PooledStore>(
    st: &mut St,
    s: usize,
    h: usize,
    path: u64,
    lane: usize,
    key: <St::Block as PooledBlock>::Key,
) -> (r: St::Block)
    requires
        old(st).store_ok(),
        height_ok::<St::Block>(h as int),
        pool_ok(old(st).slots().take(s as int), old(st).rows(), h as int),
        path < full_width(h - 1, 2),
        lane < 8,
        old(st).slots().len() == s + 2 * h <= usize::MAX,
        St::Block::blank().block_key() != key,
    ensures
        final(st).store_ok(),
        final(st).frame() == old(st).frame(),
        final(st).rows() == old(st).rows(),
        final(st).slots().len() == old(st).slots().len(),
        open_ok(
            final(st).slots(),
            final(st).rows(),
            s as int,
            h as int,
            path as int,
            lane as int,
        ),
        ({
            let stash = old(st).slots().take(s as int);
            let nodes = old(st).rows();
            let map = pool_map(stash, nodes);
            let found = visible(stash, nodes, h as int, path as int, lane as int, key);
            let count = open_count(
                final(st).slots(),
                final(st).rows(),
                h as int,
                path as int,
                lane as int,
            );
            &&& found == !r.vacant()
            &&& found ==> map.contains_key(key) && map[key] == r && r.block_key() == key
            &&& !found ==> r == St::Block::blank()
            &&& one_per_key(count, key_of::<St::Block>())
            &&& by_key(count, key_of::<St::Block>()) == (if found {
                map.remove(key)
            } else {
                map
            })
            &&& (exists|i: int| 0 <= i < s && (#[trigger] final(st).slots()[i]).vacant())
                == room_for(stash, key)
            &&& forall|i: int|
                0 <= i < s && (#[trigger] stash[i]).vacant() ==> final(st).slots()[i].vacant()
            &&& final(st).slots() == without_key(
                opened(stash, nodes, h as int, path as int, lane as int),
                key,
            )
        }),
{
    let ghost stash = st.slots().take(s as int);
    let ghost nodes = st.rows();
    let ghost hh = h as int;
    let ghost p = path as int;
    let ghost l = lane as int;
    read_lane_path(st, s, h, path, lane);
    let ghost col = st.slots();
    proof {
        lemma_open(stash, nodes, hh, p, l);
        lemma_one_slot_per_key(stash, nodes, hh, p, l);
        assert forall|i: int, j: int|
            0 <= i < col.len() && 0 <= j < col.len() && (#[trigger] col[i]).block_key() == key && (
            #[trigger] col[j]).block_key() == key implies i == j by {
            assert(!col[i].vacant() && !col[j].vacant());
        }
    }
    let r = remove_key(st, s + 2 * h, key);
    proof {
        St::Block::blank().lemma_pooled();
        if exists|i: int| 0 <= i < col.len() && (#[trigger] col[i]).block_key() == key {
            let i = choose|i: int| 0 <= i < col.len() && (#[trigger] col[i]).block_key() == key;
            lemma_one_with(col, key, i);
        } else {
            lemma_none_with(col, key);
        }
        let after = st.slots();
        let before = pooled_count(stash, nodes);
        let count = open_count(after, nodes, hh, p, l);
        St::Block::blank().lemma_pooled();
        assert(after =~= without_key(col, key));
        if r.block_key() == key {
            let i = choose|i: int|
                0 <= i < col.len() && r == #[trigger] col[i] && after == col.update(
                    i,
                    St::Block::blank(),
                );
            assert(!r.vacant());
            lemma_opened_is_stored(stash, nodes, hh, p, l, i);
            lemma_changed_open(col, nodes, s as int, hh, p, l, i, St::Block::blank());
            assert forall|b: St::Block| #[trigger] count(b) == before(b) - hit(r, b) by {
                assert(open_count(col, nodes, hh, p, l)(b) == before(b));
                assert(open_count(after, nodes, hh, p, l)(b) == open_count(
                    col,
                    nodes,
                    hh,
                    p,
                    l,
                )(b) - hit(col[i], b) + hit(St::Block::blank(), b));
            }
            lemma_by_key_remove(before, count, key_of::<St::Block>(), r);
            assert(opened(stash, nodes, hh, p, l)[i] == r);
        } else {
            lemma_by_key_same(before, count, key_of::<St::Block>());
        }
        assert forall|i: int| 0 <= i < s implies (#[trigger] after[i]).vacant() == (
        stash[i].vacant() || stash[i].block_key() == key) by {
            assert(col[i] == stash[i]);
        }
        if room_for(stash, key) {
            let i = choose|i: int|
                0 <= i < stash.len() && ((#[trigger] stash[i]).vacant() || stash[i].block_key()
                    == key);
            assert(after[i].vacant());
        }
        if exists|i: int| 0 <= i < s && (#[trigger] after[i]).vacant() {
            let i = choose|i: int| 0 <= i < s && (#[trigger] after[i]).vacant();
            assert(stash[i].vacant() || stash[i].block_key() == key);
        }
        assert forall|i: int| 0 <= i < s && (#[trigger] stash[i]).vacant() implies after[i].vacant() by {
            assert(after[i].vacant() == (stash[i].vacant() || stash[i].block_key() == key));
        }
    }
    r
}

/// Changing one slot of a loaded column.
proof fn lemma_changed_open<B: PooledBlock>(
    col: Seq<B>,
    nodes: Seq<Seq<B>>,
    s: int,
    h: int,
    pos: int,
    lane: int,
    i: int,
    b: B,
)
    requires
        open_ok(col, nodes, s, h, pos, lane),
        0 <= i < col.len(),
        b.vacant() ==> b == B::blank(),
        !b.vacant() ==> i < s && b.pos_int() < full_width(h - 1, 2),
    ensures
        open_ok(col.update(i, b), nodes, s, h, pos, lane),
        forall|c: B| #[trigger]
            open_count(col.update(i, b), nodes, h, pos, lane)(c) == open_count(
                col,
                nodes,
                h,
                pos,
                lane,
            )(c) - hit(col[i], c) + hit(b, c),
{
    let after = col.update(i, b);
    assert forall|c: B| #[trigger]
        open_count(after, nodes, h, pos, lane)(c) == open_count(col, nodes, h, pos, lane)(c) - hit(
            col[i],
            c,
        ) + hit(b, c) by {
        lemma_tally_update(col, i, b, c);
    }
    assert forall|k: int|
        0 <= k < after.take(s).len() && !(#[trigger] after.take(s)[k]).vacant() implies after.take(
        s,
    )[k].pos_int() < full_width(h - 1, 2) by {
        if k != i {
            assert(after.take(s)[k] == col.take(s)[k]);
        }
    }
    assert forall|k: int| s <= k < after.len() implies may_lie(
        #[trigger] after[k],
        h,
        (k - s) / 2,
        pos,
        lane,
    ) by {
        if k != i {
            assert(after[k] == col[k]);
        }
    }
}

/// Puts a block into the stash, runs one pass over the loaded lane and writes it back.
pub fn place_and_evict<St: PooledStore>(
    st: &mut St,
    s: usize,
    h: usize,
    path: u64,
    lane: usize,
    block: &St::Block,
) -> (inserted: bool)
    requires
        old(st).store_ok(),
        height_ok::<St::Block>(h as int),
        open_ok(
            old(st).slots(),
            old(st).rows(),
            s as int,
            h as int,
            path as int,
            lane as int,
        ),
        s + 2 * h <= usize::MAX,
        one_per_key(
            open_count(old(st).slots(), old(st).rows(), h as int, path as int, lane as int),
            key_of::<St::Block>(),
        ),
        !block.vacant(),
        block.pos_int() < full_width(h - 1, 2),
        !by_key(
            open_count(old(st).slots(), old(st).rows(), h as int, path as int, lane as int),
            key_of::<St::Block>(),
        ).contains_key(block.block_key()),
    ensures
        final(st).store_ok(),
        final(st).frame() == old(st).frame(),
        final(st).slots().len() == old(st).slots().len(),
        pool_ok(final(st).slots().take(s as int), final(st).rows(), h as int),
        inserted == exists|i: int| 0 <= i < s && (#[trigger] old(st).slots()[i]).vacant(),
        pool_map(final(st).slots().take(s as int), final(st).rows()) == (if inserted {
            by_key(
                open_count(old(st).slots(), old(st).rows(), h as int, path as int, lane as int),
                key_of::<St::Block>(),
            ).insert(block.block_key(), *block)
        } else {
            by_key(
                open_count(old(st).slots(), old(st).rows(), h as int, path as int, lane as int),
                key_of::<St::Block>(),
            )
        }),
        forall|m: int| #[trigger]
            filled_below(old(st).slots().take(s as int), m) && 0 <= m ==> filled_below(
                final(st).slots().take(s as int),
                m + 1,
            ),
        forall|n: int, k: int|
            #![trigger final(st).rows()[n][k]]
            0 <= n < old(st).rows().len() && 0 <= k < 16 && k / 2 != lane as int
                ==> final(st).rows()[n][k] == old(st).rows()[n][k],
        (final(st).slots().take(s as int), final(st).rows()) == placed(
            old(st).slots(),
            old(st).rows(),
            s as int,
            h as int,
            path as int,
            lane as int,
            *block,
        ),
{
    let ghost col = st.slots();
    let ghost nodes = st.rows();
    let ghost hh = h as int;
    let ghost p = path as int;
    let ghost l = lane as int;
    let ghost count0 = open_count(col, nodes, hh, p, l);
    let inserted: bool = insert_block(st, s, block);
    let ghost put = st.slots();
    let ghost count1 = open_count(put, nodes, hh, p, l);
    proof {
        if inserted {
            let i = choose|i: int|
                0 <= i < s && (#[trigger] col[i]).vacant() && (forall|k: int|
                    0 <= k < i ==> !(#[trigger] col[k]).vacant()) && put == col.update(i, *block);
            lemma_changed_open(col, nodes, s as int, hh, p, l, i, *block);
            assert forall|b: St::Block| #[trigger] count1(b) == count0(b) + hit(*block, b) by {}
            lemma_by_key_insert(count0, count1, key_of::<St::Block>(), *block);
        }
        lemma_depths_fit(put, s as int, hh, p, l);
        lemma_put_is_first(col, s as int, *block, put, inserted);
        lemma_full_width_grows(h - 1, St::Block::pos_bits(), 2);
    }
    evict_working(st, s, h, path, lane);
    let ghost after = st.slots();
    let ghost count2 = open_count(after, nodes, hh, p, l);
    proof {
        let d = depth_column(put, s as int, l, p);
        St::Block::blank().lemma_pooled();
        crate::pooled::lemma_settled_column_settles(put, d, s + 2, hh);
        crate::pooled::lemma_evict_open(put, after, nodes, s as int, hh, p, l);
        assert forall|b: St::Block| #[trigger] count2(b) == count1(b) by {
            crate::circuit::lemma_column_conserves(put, d, after, s + 2, 2, hh, b);
        }
        lemma_by_key_same(count1, count2, key_of::<St::Block>());
        crate::pooled::lemma_close(after, nodes, s as int, hh, p, l);
        crate::pooled::lemma_write_lane(nodes, hh, p, l, after.skip(s as int), hh);
    }
    write_lane_path(st, s, h, path, lane);
    proof {
        assert forall|m: int| #[trigger]
            filled_below(col.take(s as int), m) && 0 <= m implies filled_below(
            st.slots().take(s as int),
            m + 1,
        ) by {
            let stash = st.slots().take(s as int);
            assert forall|i: int| m + 1 <= i < stash.len() && 0 <= i implies (
            #[trigger] stash[i]).vacant() by {
                assert(col.take(s as int)[i].vacant());
                assert(col[i].vacant());
                assert(col.take(s as int)[m].vacant());
                assert(col[m].vacant());
                assert(put[i].vacant());
                assert(stash[i] == after[i]);
            }
        }
        assert forall|n: int, k: int|
            #![trigger st.rows()[n][k]]
            0 <= n < nodes.len() && 0 <= k < 16 && k / 2 != l implies st.rows()[n][k]
            == nodes[n][k] by {
            assert(!crate::pooled::on_lane(hh, p, l, hh, n, k));
        }
    }
    inserted
}

/// Runs one pass over every lane of a path, planned from the state before any of them.
pub fn evict_batch<St: PooledStore>(st: &mut St, s: usize, h: usize, path: u64)
    requires
        old(st).store_ok(),
        height_ok::<St::Block>(h as int),
        pool_ok(old(st).slots().take(s as int), old(st).rows(), h as int),
        path < full_width(h - 1, 2),
        s <= old(st).slots().len() <= usize::MAX,
        s + 2 <= i64::MAX,
        s + 2 <= usize::MAX,
    ensures
        final(st).store_ok(),
        final(st).frame() == old(st).frame(),
        final(st).slots().len() == old(st).slots().len(),
        (final(st).slots().take(s as int), final(st).rows()) == evicted_lanes(
            old(st).slots().take(s as int),
            old(st).rows(),
            h as int,
            path as int,
            8,
        ),
        pool_ok(final(st).slots().take(s as int), final(st).rows(), h as int),
        pool_map(final(st).slots().take(s as int), final(st).rows()) == pool_map(
            old(st).slots().take(s as int),
            old(st).rows(),
        ),
        forall|m: int| #[trigger]
            filled_below(old(st).slots().take(s as int), m) ==> filled_below(
                final(st).slots().take(s as int),
                m,
            ),
{
    let ghost stash = st.slots().take(s as int);
    let ghost nodes = st.rows();
    let plan: BatchEvictionPlan = prepare_plan(st, s, h, path);
    move_batch(st, s, h, path, &plan);
    proof {
        lemma_batch_sequential(stash, nodes, h as int, path as int, 8);
        let after = st.slots().take(s as int);
        assert forall|m: int| #[trigger] filled_below(stash, m) implies filled_below(after, m) by {
            assert forall|i: int| m <= i < after.len() && 0 <= i implies (
            #[trigger] after[i]).vacant() by {
                assert(stash[i].vacant());
                assert(after[i] == stash[i] || after[i].vacant());
            }
        }
    }
}

} // verus!
