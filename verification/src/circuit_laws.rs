//! What an eviction pass achieves.
//!
//! A pass is good for nothing unless blocks get deeper by it. The laws here count the
//! blocks from a level on: a pass never lowers that number, raises it by one at most, and
//! does raise it wherever the level has a vacant slot and a block above it may go there.
use vstd::prelude::*;
use crate::circuit::{bound_for, column_fits, column_settled, column_size, depths_fit, donor};
use crate::circuit::{first_room, has_room, holds, lane_settled, lemma_bound_for};
use crate::circuit::{lemma_first_room, lemma_levels_fit, lemma_peak, level_peaks, level_room};
use crate::circuit::{level_settled, levels, peak, peak_slot, received, receives, row_settled};
use crate::circuit::{settled, target_of};
use crate::oblivious::ObliviousBlock;

verus! {

/// 1 for a slot that holds a block, and 0 for a vacant one.
pub open spec fn weight<B: ObliviousBlock>(c: B) -> int {
    if c.vacant() {
        0
    } else {
        1
    }
}

/// The number of slots of `s` that hold a block.
pub open spec fn live<B: ObliviousBlock>(s: Seq<B>) -> int
    decreases s.len(),
{
    if s.len() == 0 {
        0
    } else {
        live(s.drop_last()) + weight(s.last())
    }
}

/// The number of blocks from level `l` on.
pub open spec fn live_from<B: ObliviousBlock>(lane: Seq<Seq<B>>, l: int) -> int
    decreases lane.len() - l,
{
    if l >= lane.len() {
        0
    } else {
        live(lane[l]) + live_from(lane, l + 1)
    }
}

/// Changing one slot changes the count by what left and what came.
pub proof fn lemma_live_update<B: ObliviousBlock>(s: Seq<B>, i: int, c: B)
    requires
        0 <= i < s.len(),
    ensures
        live(s.update(i, c)) == live(s) - weight(s[i]) + weight(c),
    decreases s.len(),
{
    let t = s.update(i, c);
    if i == s.len() - 1 {
        assert(t.drop_last() =~= s.drop_last());
    } else {
        lemma_live_update(s.drop_last(), i, c);
        assert(t.drop_last() =~= s.drop_last().update(i, c));
    }
}

/// The count over two runs of slots is the sum of the two counts.
pub proof fn lemma_live_concat<B: ObliviousBlock>(s: Seq<B>, t: Seq<B>)
    ensures
        live(s + t) == live(s) + live(t),
    decreases t.len(),
{
    if t.len() == 0 {
        assert(s + t =~= s);
    } else {
        lemma_live_concat(s, t.drop_last());
        assert((s + t).drop_last() =~= s + t.drop_last());
    }
}

/// Slots of which the same ones are vacant hold as many blocks.
pub proof fn lemma_live_alike<B: ObliviousBlock>(x: Seq<B>, y: Seq<B>)
    requires
        x.len() == y.len(),
        forall|j: int| 0 <= j < x.len() ==> (#[trigger] x[j]).vacant() == y[j].vacant(),
    ensures
        live(x) == live(y),
    decreases x.len(),
{
    if x.len() > 0 {
        let n = x.len() - 1;
        assert(x[n].vacant() == y[n].vacant());
        assert forall|j: int| 0 <= j < n implies (#[trigger] x.drop_last()[j]).vacant()
            == y.drop_last()[j].vacant() by {
            assert(x[j].vacant() == y[j].vacant());
        }
        lemma_live_alike(x.drop_last(), y.drop_last());
    }
}

/// The count is at least zero and at most the number of slots, which it reaches when no
/// slot is vacant.
pub proof fn lemma_live_bounds<B: ObliviousBlock>(s: Seq<B>)
    ensures
        0 <= live(s) <= s.len(),
        live(s) == s.len() <==> forall|i: int| 0 <= i < s.len() ==> !(#[trigger] s[i]).vacant(),
        live(s) == 0 <==> forall|i: int| 0 <= i < s.len() ==> (#[trigger] s[i]).vacant(),
    decreases s.len(),
{
    if s.len() > 0 {
        let t = s.drop_last();
        lemma_live_bounds(t);
        assert(forall|i: int| 0 <= i < t.len() ==> #[trigger] t[i] == s[i]);
        assert(s.last() == s[s.len() - 1]);
        if live(s) == s.len() {
            assert forall|i: int| 0 <= i < s.len() implies !(#[trigger] s[i]).vacant() by {
                if i < t.len() {
                    assert(!t[i].vacant());
                }
            }
        }
        if live(s) == 0 {
            assert forall|i: int| 0 <= i < s.len() implies (#[trigger] s[i]).vacant() by {
                if i < t.len() {
                    assert(t[i].vacant());
                }
            }
        }
        if forall|i: int| 0 <= i < s.len() ==> !(#[trigger] s[i]).vacant() {
            assert forall|i: int| 0 <= i < t.len() implies !(#[trigger] t[i]).vacant() by {
                assert(!s[i].vacant());
            }
        }
        if forall|i: int| 0 <= i < s.len() ==> (#[trigger] s[i]).vacant() {
            assert forall|i: int| 0 <= i < t.len() implies (#[trigger] t[i]).vacant() by {
                assert(s[i].vacant());
            }
        }
    }
}

/// 1 when a pass carries a block into `level`.
spec fn crosses(d: Seq<Seq<i64>>, level: int) -> int {
    if level >= 1 && bound_for(level_peaks(d), level_room(d), level) != -1 {
        1
    } else {
        0
    }
}

proof fn lemma_row_count<B: ObliviousBlock>(
    lane: Seq<Seq<B>>,
    d: Seq<Seq<i64>>,
    row: Seq<B>,
    l: int,
)
    requires
        depths_fit(lane, d),
        0 <= l < lane.len(),
        row_settled(lane, d, row, l),
    ensures
        live(row) + crosses(d, l + 1) == live(lane[l]) + crosses(d, l),
{
    let peaks = level_peaks(d);
    let room = level_room(d);
    let x = lane[l];
    let gives = target_of(peaks, room, l) != -1;
    let takes = l > 0 && receives(peaks, room, l);
    assert(x.len() == d[l].len());
    lemma_bound_for(peaks, room, l + 1);
    lemma_peak(d[l]);
    if l > 0 {
        lemma_bound_for(peaks, room, l);
    }
    assert forall|j: int| 0 <= j < row.len() implies holds(
        #[trigger] row[j],
        settled(lane, d, l, j),
    ) by {}
    if gives || takes {
        let p = if gives {
            peak_slot(d[l])
        } else {
            first_room(d[l])
        };
        if gives {
            assert(peaks[l] >= l + 1);
            assert(d[l][p] >= 0);
        } else {
            lemma_first_room(d[l]);
            assert(d[l][p] == -1);
        }
        let y = x.update(p, row[p]);
        lemma_live_update(x, p, row[p]);
        assert forall|j: int| 0 <= j < row.len() implies (#[trigger] row[j]).vacant()
            == y[j].vacant() by {
            assert(holds(row[j], settled(lane, d, l, j)));
        }
        lemma_live_alike(row, y);
        assert(holds(row[p], settled(lane, d, l, p)));
    } else {
        assert forall|j: int| 0 <= j < row.len() implies (#[trigger] row[j]).vacant()
            == x[j].vacant() by {
            assert(holds(row[j], settled(lane, d, l, j)));
        }
        lemma_live_alike(row, x);
    }
}

proof fn lemma_count_from<B: ObliviousBlock>(
    lane: Seq<Seq<B>>,
    d: Seq<Seq<i64>>,
    after: Seq<Seq<B>>,
    level: int,
)
    requires
        depths_fit(lane, d),
        lane_settled(lane, d, after),
        0 <= level <= lane.len(),
    ensures
        live_from(after, level) == live_from(lane, level) + crosses(d, level),
    decreases lane.len() - level,
{
    if level < lane.len() {
        assert(level_settled(lane, d, after, level));
        lemma_row_count(lane, d, after[level], level);
        lemma_count_from(lane, d, after, level + 1);
    }
}

/// A block above `level` may go there.
pub open spec fn reaches(d: Seq<Seq<i64>>, level: int) -> bool {
    exists|l: int, j: int|
        #![trigger d[l][j]]
        0 <= l < level && 0 <= j < d[l].len() && d[l][j] >= level
}

/// A level has a vacant slot.
pub open spec fn open_level<B: ObliviousBlock>(lane: Seq<Seq<B>>, level: int) -> bool {
    exists|j: int| 0 <= j < lane[level].len() && (#[trigger] lane[level][j]).vacant()
}

/// A block above `level` may go as deep as level `e`.
pub open spec fn reaches_to(d: Seq<Seq<i64>>, level: int, e: int) -> bool {
    exists|l: int, j: int|
        #![trigger d[l][j]]
        0 <= l < level && 0 <= j < d[l].len() && d[l][j] >= e
}

proof fn lemma_reaches(d: Seq<Seq<i64>>, level: int, e: int)
    requires
        1 <= level <= d.len(),
        0 <= e,
        reaches_to(d, level, e) || (level == e && reaches(d, level)),
    ensures
        peak(level_peaks(d).take(level)) >= e,
{
    let (l, i) = choose|l: int, i: int|
        #![trigger d[l][i]]
        0 <= l < level && 0 <= i < d[l].len() && d[l][i] >= e;
    let peaks = level_peaks(d);
    let above = peaks.take(level);
    lemma_peak(d[l]);
    lemma_peak(above);
    assert(d[l][peak_slot(d[l])] == peak(d[l]));
    assert(above[l] == peak(d[l]));
}

/// A pass carries a block past every level between a vacant slot and a block above that may
/// go there: where level `e`, on or below `level`, has a vacant slot and a block above
/// `level` may go to `e`, one more block is from `level` on.
pub proof fn lemma_pass_reaches<B: ObliviousBlock>(
    lane: Seq<Seq<B>>,
    d: Seq<Seq<i64>>,
    after: Seq<Seq<B>>,
    level: int,
    e: int,
)
    requires
        depths_fit(lane, d),
        lane_settled(lane, d, after),
        1 <= level <= e < lane.len(),
        open_level(lane, e),
        reaches_to(d, level, e),
    ensures
        live_from(after, level) == live_from(lane, level) + 1,
{
    let j = choose|j: int| 0 <= j < lane[e].len() && (#[trigger] lane[e][j]).vacant();
    assert(d[e][j] == -1);
    assert(has_room(d[e]));
    lemma_carries_on(d, level, e, level);
    lemma_count_from(lane, d, after, level);
}

proof fn lemma_carries_on(d: Seq<Seq<i64>>, level: int, e: int, k: int)
    requires
        1 <= level <= k <= e < d.len(),
        has_room(d[e]),
        reaches_to(d, level, e),
    ensures
        bound_for(level_peaks(d), level_room(d), k) != -1,
    decreases e - k,
{
    let peaks = level_peaks(d);
    let room = level_room(d);
    let (l, i) = choose|l: int, i: int|
        #![trigger d[l][i]]
        0 <= l < level && 0 <= i < d[l].len() && d[l][i] >= e;
    assert(reaches_to(d, k, e)) by {
        assert(0 <= l < k && d[l][i] >= e);
    }
    lemma_reaches(d, k, e);
    if k < e {
        lemma_carries_on(d, level, e, k + 1);
    }
}

/// A pass makes progress. The number of blocks from a level on never falls and rises by
/// one at most. It rises where the level has a vacant slot and a block above it may go
/// there, and it stays where no block above the level may go there.
pub proof fn lemma_pass_progress<B: ObliviousBlock>(
    lane: Seq<Seq<B>>,
    d: Seq<Seq<i64>>,
    after: Seq<Seq<B>>,
    level: int,
)
    requires
        depths_fit(lane, d),
        lane_settled(lane, d, after),
        1 <= level < lane.len(),
    ensures
        live_from(lane, level) <= live_from(after, level) <= live_from(lane, level) + 1,
        open_level(lane, level) && reaches(d, level) ==> live_from(after, level) == live_from(
            lane,
            level,
        ) + 1,
        !reaches(d, level) ==> live_from(after, level) == live_from(lane, level),
{
    let peaks = level_peaks(d);
    let room = level_room(d);
    lemma_count_from(lane, d, after, level);
    lemma_bound_for(peaks, room, level);
    lemma_bound_for(peaks, room, level + 1);
    let above = peaks.take(level);
    lemma_peak(above);
    if open_level(lane, level) && reaches(d, level) {
        let j = choose|j: int| 0 <= j < lane[level].len() && (#[trigger] lane[level][j]).vacant();
        assert(d[level][j] == -1);
        assert(has_room(d[level]));
        let (l, i) = choose|l: int, i: int|
            #![trigger d[l][i]]
            0 <= l < level && 0 <= i < d[l].len() && d[l][i] >= level;
        lemma_peak(d[l]);
        assert(peak(d[l]) >= level);
        if peak(d[l]) > i64::MAX {
            assert(d[l][peak_slot(d[l])] == peak(d[l]));
        }
        assert(above[l] == peaks[l] == peak(d[l]));
        assert(peak(above) >= level);
        assert(room[level]);
    }
    if crosses(d, level) == 1 {
        let to = bound_for(peaks, room, level);
        let m = donor(peaks, to);
        lemma_peak(d[m]);
        assert(d[m][peak_slot(d[m])] >= level);
    }
}

/// The slot that a block comes from when it gets to `level`: above the level it is the
/// first of those whose blocks may go deepest.
pub open spec fn source(d: Seq<Seq<i64>>, level: int, l: int, j: int) -> bool {
    &&& 0 <= l < level
    &&& 0 <= j < d[l].len()
    &&& d[l][j] >= level
    &&& forall|m: int, k: int|
        #![trigger d[m][k]]
        0 <= m < level && 0 <= k < d[m].len() ==> d[m][k] <= d[l][j] && (m < l || (m == l && k < j)
            ==> d[m][k] < d[l][j])
}

/// A pass moves the right blocks to the right slots. Whatever slot gets another block than
/// it had, the block comes from the first slot, among those above, whose block may go
/// deepest; a slot that was vacant is the first vacant one of its level; and a slot that
/// gives its block up is the first of its level whose block may go deepest. Below the root
/// such a slot gets a block where one above may go there.
pub proof fn lemma_pass_choice<B: ObliviousBlock>(
    lane: Seq<Seq<B>>,
    d: Seq<Seq<i64>>,
    after: Seq<Seq<B>>,
    level: int,
    j: int,
)
    requires
        depths_fit(lane, d),
        lane_settled(lane, d, after),
        0 <= level < lane.len(),
        0 <= j < lane[level].len(),
    ensures
        !after[level][j].vacant() && after[level][j] != lane[level][j] ==> exists|l: int, k: int|
            #![trigger lane[l][k]]
            source(d, level, l, k) && after[level][j] == lane[l][k],
        !after[level][j].vacant() && lane[level][j].vacant() ==> level > 0 && forall|k: int|
            0 <= k < j ==> !(#[trigger] lane[level][k]).vacant() && after[level][k]
                == lane[level][k],
        !lane[level][j].vacant() && after[level][j] != lane[level][j] ==> d[level][j] > level && (
        forall|k: int|
            0 <= k < lane[level].len() ==> #[trigger] d[level][k] <= d[level][j] && (k < j
                ==> d[level][k] < d[level][j])),
        !lane[level][j].vacant() && after[level][j] != lane[level][j] && level > 0 && reaches(
            d,
            level,
        ) ==> !after[level][j].vacant(),
{
    let peaks = level_peaks(d);
    let room = level_room(d);
    let gives = target_of(peaks, room, level) != -1;
    let takes = level > 0 && receives(peaks, room, level);
    assert(level_settled(lane, d, after, level));
    assert(holds(after[level][j], settled(lane, d, level, j)));
    assert(lane[level].len() == d[level].len());
    lemma_bound_for(peaks, room, level + 1);
    lemma_peak(d[level]);
    if gives {
        assert(peaks[level] >= level + 1);
        assert(d[level][peak_slot(d[level])] >= level + 1);
        if level > 0 && reaches(d, level) {
            lemma_reaches(d, level, level);
            assert(takes);
        }
    }
    if takes {
        lemma_bound_for(peaks, room, level);
        let above = peaks.take(level);
        lemma_peak(above);
        let m = donor(peaks, level);
        lemma_peak(d[m]);
        let k = peak_slot(d[m]);
        assert(d[m][k] == peaks[m]);
        assert forall|l: int, i: int|
            #![trigger d[l][i]]
            0 <= l < level && 0 <= i < d[l].len() implies d[l][i] <= d[m][k] && (l < m || (l == m && i
            < k) ==> d[l][i] < d[m][k]) by {
            lemma_peak(d[l]);
            if peak(d[l]) >= 0 {
                assert(d[l][peak_slot(d[l])] == peak(d[l]));
            }
            assert(above[l] == peak(d[l]));
        }
        assert(source(d, level, m, k));
        assert(received(lane, d, level) == lane[m][k]);
        if !gives {
            lemma_first_room(d[level]);
            let f = first_room(d[level]);
            assert(d[level][f] == -1);
            assert forall|i: int| 0 <= i < f implies !(#[trigger] lane[level][i]).vacant()
                && after[level][i] == lane[level][i] by {
                assert(d[level][i] != -1);
                assert(holds(after[level][i], settled(lane, d, level, i)));
            }
        }
    }
}

/// Below the root a level and the levels after it are the end of a column.
proof fn lemma_live_skip<B: ObliviousBlock>(col: Seq<B>, n0: int, y: int, h: int, level: int)
    requires
        column_size(col, n0, y, h),
        1 <= level <= h,
    ensures
        0 <= n0 + (level - 1) * y <= col.len(),
        live(col.skip(n0 + (level - 1) * y)) == live_from(levels(col, n0, y, h), level),
    decreases h - level,
{
    let g = levels(col, n0, y, h);
    let start = n0 + (level - 1) * y;
    assert(0 <= (level - 1) * y <= (h - 1) * y && level * y == (level - 1) * y + y)
        by (nonlinear_arith)
        requires
            0 <= y,
            1 <= level <= h,
    ;
    if level < h {
        lemma_live_skip(col, n0, y, h, level + 1);
        assert(col.skip(start) =~= g[level] + col.skip(start + y));
        lemma_live_concat(g[level], col.skip(start + y));
    } else {
        assert(col.skip(start) =~= Seq::empty());
    }
}

/// [`lemma_pass_progress`] for a column, whose slots from a level on are its end.
pub proof fn lemma_column_progress<B: ObliviousBlock>(
    col: Seq<B>,
    d: Seq<i64>,
    after: Seq<B>,
    n0: int,
    y: int,
    h: int,
    level: int,
)
    requires
        column_size(col, n0, y, h),
        column_fits(col, d, n0),
        column_settled(col, d, after, n0, y, h),
        1 <= level < h,
        1 <= y,
    ensures
        ({
            let start = n0 + (level - 1) * y;
            let was = live(col.skip(start));
            let is = live(after.skip(start));
            &&& 0 <= start
            &&& start + y <= col.len()
            &&& was <= is <= was + 1
            &&& (exists|k: int| start <= k < start + y && (#[trigger] col[k]).vacant()) && (exists|
                i: int,
            | 0 <= i < start && #[trigger] d[i] >= level) ==> is == was + 1
            &&& !(exists|i: int| 0 <= i < start && #[trigger] d[i] >= level) ==> is == was
        }),
{
    let g = levels(col, n0, y, h);
    let dd = levels(d, n0, y, h);
    let ga = levels(after, n0, y, h);
    let start = n0 + (level - 1) * y;
    lemma_levels_fit(col, d, n0, y, h);
    lemma_live_skip(col, n0, y, h, level);
    lemma_live_skip(after, n0, y, h, level);
    assert(start + y == n0 + level * y && n0 + level * y <= n0 + (h - 1) * y && 0 <= (level - 1) * y)
        by (nonlinear_arith)
        requires
            start == n0 + (level - 1) * y,
            1 <= y,
            1 <= level < h,
    ;
    lemma_pass_progress(g, dd, ga, level);
    if exists|k: int| start <= k < start + y && (#[trigger] col[k]).vacant() {
        let k = choose|k: int| start <= k < start + y && (#[trigger] col[k]).vacant();
        assert(g[level][k - start] == col[k]);
        assert(open_level(g, level));
    }
    if exists|i: int| 0 <= i < start && #[trigger] d[i] >= level {
        let i = choose|i: int| 0 <= i < start && #[trigger] d[i] >= level;
        if i < n0 {
            assert(dd[0][i] == d[i]);
        } else {
            let l = (i - n0) / y + 1;
            let j = (i - n0) % y;
            vstd::arithmetic::div_mod::lemma_fundamental_div_mod(i - n0, y);
            vstd::arithmetic::div_mod::lemma_mod_bound(i - n0, y);
            vstd::arithmetic::div_mod::lemma_div_pos_is_pos(i - n0, y);
            assert((l - 1) * y == y * ((i - n0) / y)) by (nonlinear_arith)
                requires
                    l == (i - n0) / y + 1,
            ;
            assert(l < level && l * y == (l - 1) * y + y && l * y <= (h - 1) * y) by (nonlinear_arith)
                requires
                    i - n0 == (l - 1) * y + j,
                    0 <= j,
                    i < n0 + (level - 1) * y,
                    1 <= y,
                    level < h,
            ;
            assert(dd[l].len() == y);
            assert(dd[l][j] == d[i]);
        }
        assert(reaches(dd, level));
    }
    if reaches(dd, level) {
        let (l, j) = choose|l: int, j: int|
            #![trigger dd[l][j]]
            0 <= l < level && 0 <= j < dd[l].len() && dd[l][j] >= level;
        if l == 0 {
            assert(dd[0] =~= d.take(n0));
            assert(d[j] >= level);
            assert(0 <= (level - 1) * y) by (nonlinear_arith)
                requires
                    1 <= level,
                    1 <= y,
            ;
        } else {
            assert(0 <= (l - 1) * y && l * y == (l - 1) * y + y && l * y <= (level - 1) * y)
                by (nonlinear_arith)
                requires
                    1 <= l < level,
                    1 <= y,
            ;
            assert(dd[l].len() == y);
            assert(d[n0 + (l - 1) * y + j] >= level);
        }
    }
}

/// [`lemma_pass_reaches`] for a column: slot `k` of level `e` is vacant, and the block of slot
/// `i` above `level` may go to `e`.
pub proof fn lemma_column_reaches<B: ObliviousBlock>(
    col: Seq<B>,
    d: Seq<i64>,
    after: Seq<B>,
    n0: int,
    y: int,
    h: int,
    level: int,
    e: int,
    k: int,
    i: int,
)
    requires
        column_size(col, n0, y, h),
        column_fits(col, d, n0),
        column_settled(col, d, after, n0, y, h),
        1 <= level <= e < h,
        1 <= y,
        n0 + (e - 1) * y <= k < n0 + (e - 1) * y + y,
        0 <= k < col.len(),
        col[k].vacant(),
        0 <= i < n0 + (level - 1) * y,
        i < d.len(),
        d[i] >= e,
    ensures
        live(after.skip(n0 + (level - 1) * y)) == live(col.skip(n0 + (level - 1) * y)) + 1,
{
    let g = levels(col, n0, y, h);
    let dd = levels(d, n0, y, h);
    let ga = levels(after, n0, y, h);
    lemma_levels_fit(col, d, n0, y, h);
    lemma_live_skip(col, n0, y, h, level);
    lemma_live_skip(after, n0, y, h, level);
    let start = n0 + (e - 1) * y;
    assert(start + y == n0 + e * y && n0 + e * y <= n0 + (h - 1) * y && 0 <= (e - 1) * y)
        by (nonlinear_arith)
        requires
            start == n0 + (e - 1) * y,
            1 <= y,
            1 <= e < h,
    ;
    assert(g[e][k - start] == col[k]);
    assert(open_level(g, e));
    if i < n0 {
        assert(dd[0][i] == d[i]);
    } else {
        let l = (i - n0) / y + 1;
        let j = (i - n0) % y;
        vstd::arithmetic::div_mod::lemma_fundamental_div_mod(i - n0, y);
        vstd::arithmetic::div_mod::lemma_mod_bound(i - n0, y);
        vstd::arithmetic::div_mod::lemma_div_pos_is_pos(i - n0, y);
        assert((l - 1) * y == y * ((i - n0) / y)) by (nonlinear_arith)
            requires
                l == (i - n0) / y + 1,
        ;
        assert(l < level && l * y == (l - 1) * y + y && l * y <= (h - 1) * y) by (nonlinear_arith)
            requires
                i - n0 == (l - 1) * y + j,
                0 <= j,
                i < n0 + (level - 1) * y,
                1 <= y,
                level < h,
        ;
        assert(dd[l].len() == y);
        assert(dd[l][j] == d[i]);
    }
    assert(reaches_to(dd, level, e));
    lemma_pass_reaches(g, dd, ga, level, e);
}

} // verus!
