//! One eviction pass of Circuit ORAM along the slots of a path.
//!
//! A lane is the list of levels of one path, root first, and each level is a
//! list of slots. Level zero also holds the stash. A pass moves blocks to deeper
//! levels of the path: every level receives at most one block and gives up at
//! most one, and the pass carries at most one block at a time.
use vstd::prelude::*;
use crate::oblivious::{both, cmov_bool, cmov_i64, cmov_usize, either, exchange, ObliviousBlock};
use crate::prelude::filled;
use crate::tally::{hit, tally, tally_groups};

verus! {

broadcast use vstd::array::group_array_axioms;

// ---------------------------------------------------------------------------
// The plan of a pass.
// ---------------------------------------------------------------------------
/// The largest of `s`, or -1 when `s` holds nothing above that.
pub open spec fn peak(s: Seq<i64>) -> int
    decreases s.len(),
{
    if s.len() == 0 {
        -1
    } else if s.last() > peak(s.drop_last()) {
        s.last() as int
    } else {
        peak(s.drop_last())
    }
}

/// The first place where `s` reaches its peak.
pub open spec fn peak_slot(s: Seq<i64>) -> int
    decreases s.len(),
{
    if s.len() == 0 {
        0
    } else if s.last() > peak(s.drop_last()) {
        s.len() - 1
    } else {
        peak_slot(s.drop_last())
    }
}

/// Whether a level has a vacant slot: the depth -1 marks one.
pub open spec fn has_room(s: Seq<i64>) -> bool {
    exists|j: int| 0 <= j < s.len() && #[trigger] s[j] == -1
}

/// The level above `level` whose block can go deepest.
pub open spec fn donor(peaks: Seq<i64>, level: int) -> int {
    peak_slot(peaks.take(level))
}

/// The level that a block carried down past `level` is bound for, or -1 when no
/// block is carried into `level` from above.
pub open spec fn bound_for(peaks: Seq<i64>, room: Seq<bool>, level: int) -> int
    decreases peaks.len() - level,
{
    if level >= peaks.len() {
        -1
    } else {
        let below = bound_for(peaks, room, level + 1);
        let leaves_here = below != -1 && donor(peaks, below) == level;
        let passing = if leaves_here { -1 } else { below };
        if passing == -1 && (room[level] || leaves_here) && peak(peaks.take(level)) >= level {
            level
        } else {
            passing
        }
    }
}

/// The level that the deepest-going block of `level` is moved to, or -1.
pub open spec fn target_of(peaks: Seq<i64>, room: Seq<bool>, level: int) -> int {
    let below = bound_for(peaks, room, level + 1);
    if below != -1 && donor(peaks, below) == level {
        below
    } else {
        -1
    }
}

/// Whether `level` receives a block.
pub open spec fn receives(peaks: Seq<i64>, room: Seq<bool>, level: int) -> bool {
    bound_for(peaks, room, level) == level
}

/// The peak of every level.
pub open spec fn level_peaks(d: Seq<Seq<i64>>) -> Seq<i64> {
    Seq::new(d.len(), |l: int| peak(d[l]) as i64)
}

/// Which levels have a vacant slot.
pub open spec fn level_room(d: Seq<Seq<i64>>) -> Seq<bool> {
    Seq::new(d.len(), |l: int| has_room(d[l]))
}

/// The first vacant slot of a level.
pub open spec fn first_room(s: Seq<i64>) -> int
    decreases s.len(),
{
    if s.len() == 0 {
        0
    } else if has_room(s.drop_last()) {
        first_room(s.drop_last())
    } else {
        s.len() - 1
    }
}

/// Peak and first peak agree with the elements.
pub proof fn lemma_peak(s: Seq<i64>)
    ensures
        peak(s) >= -1,
        forall|i: int| 0 <= i < s.len() ==> #[trigger] s[i] <= peak(s),
        peak(s) >= 0 ==> 0 <= peak_slot(s) < s.len() && s[peak_slot(s)] == peak(s),
        peak(s) >= 0 ==> forall|i: int| 0 <= i < peak_slot(s) ==> #[trigger] s[i] < peak(s),
        0 <= peak_slot(s) <= s.len(),
    decreases s.len(),
{
    if s.len() > 0 {
        let p = s.drop_last();
        lemma_peak(p);
        assert forall|i: int| 0 <= i < s.len() implies #[trigger] s[i] <= peak(s) by {
            if i < s.len() - 1 {
                assert(p[i] == s[i]);
            }
        }
        if peak(s) >= 0 && s.last() <= peak(p) {
            assert(s[peak_slot(s)] == p[peak_slot(p)]);
        }
        if peak(s) >= 0 {
            assert forall|i: int| 0 <= i < peak_slot(s) implies #[trigger] s[i] < peak(s) by {
                assert(p[i] == s[i]);
            }
        }
    }
}

/// The first vacant slot is vacant, and no slot before it is.
pub proof fn lemma_first_room(s: Seq<i64>)
    requires
        has_room(s),
    ensures
        0 <= first_room(s) < s.len(),
        s[first_room(s)] == -1,
        forall|i: int| 0 <= i < first_room(s) ==> #[trigger] s[i] != -1,
    decreases s.len(),
{
    let p = s.drop_last();
    if has_room(p) {
        lemma_first_room(p);
        assert forall|i: int| 0 <= i < first_room(s) implies #[trigger] s[i] != -1 by {
            assert(p[i] == s[i]);
        }
    } else {
        assert forall|i: int| 0 <= i < s.len() - 1 implies #[trigger] s[i] != -1 by {
            assert(p[i] == s[i]);
        }
    }
}

/// A carried block comes from above the level it passes and can go where it is
/// bound for.
pub proof fn lemma_bound_for(peaks: Seq<i64>, room: Seq<bool>, level: int)
    requires
        1 <= level,
    ensures
        ({
            let to = bound_for(peaks, room, level);
            to != -1 ==> {
                &&& level <= to < peaks.len()
                &&& 0 <= donor(peaks, to) < level
                &&& peaks[donor(peaks, to)] >= to
            }
        }),
    decreases peaks.len() - level,
{
    if level < peaks.len() {
        lemma_bound_for(peaks, room, level + 1);
        lemma_peak(peaks.take(level));
    }
}

/// Finds the peak of one level, its first slot, and whether a slot is vacant.
pub fn scan_level(depths: &Vec<i64>) -> (r: (i64, usize, bool))
    requires
        forall|j: int| 0 <= j < depths.len() ==> -1 <= #[trigger] depths[j],
    ensures
        r.0 == peak(depths@),
        r.1 == peak_slot(depths@),
        r.2 == has_room(depths@),
{
    let mut deepest: i64 = -1;
    let mut slot: usize = 0;
    let mut room: bool = false;
    let mut j: usize = 0;
    while j < depths.len()
        invariant
            j <= depths.len(),
            deepest == peak(depths@.take(j as int)),
            slot == peak_slot(depths@.take(j as int)),
            room == has_room(depths@.take(j as int)),
        decreases depths.len() - j,
    {
        let ghost before = depths@.take(j as int);
        let ghost after = depths@.take(j + 1);
        assert(after.drop_last() =~= before);
        assert(after.last() == depths[j as int]);
        let depth: i64 = depths[j];
        let deeper: bool = depth > deepest;
        let vacant: bool = depth == -1;
        cmov_i64(&mut deepest, depth, deeper);
        cmov_usize(&mut slot, j, deeper);
        cmov_bool(&mut room, true, vacant);
        proof {
            if has_room(before) {
                let k = choose|k: int| 0 <= k < before.len() && #[trigger] before[k] == -1;
                assert(after[k] == -1);
            }
            if vacant {
                assert(after[j as int] == -1);
            }
            if has_room(after) && !vacant {
                let k = choose|k: int| 0 <= k < after.len() && #[trigger] after[k] == -1;
                assert(before[k] == -1);
            }
        }
        j += 1;
    }
    assert(depths@.take(j as int) =~= depths@);
    (deepest, slot, room)
}

/// Plans a pass over levels with the given peaks and vacancies: which level the
/// block of each level moves to, or -1.
pub fn plan_targets(peaks: &Vec<i64>, room: &Vec<bool>) -> (target: Vec<i64>)
    requires
        1 <= peaks.len() == room.len() <= i64::MAX,
        forall|l: int| 0 <= l < peaks.len() ==> -1 <= #[trigger] peaks[l],
    ensures
        target.len() == peaks.len(),
        forall|l: int|
            0 <= l < peaks.len() ==> #[trigger] target[l] == target_of(peaks@, room@, l),
{
    let h: usize = peaks.len();
    // First scan, root to leaf: the level each level could be filled from.
    let mut deepest: Vec<i64> = filled(-1, h);
    let mut src: i64 = -1;
    let mut dst: i64 = peaks[0];
    cmov_i64(&mut src, 0, dst != -1);
    proof {
        reveal_with_fuel(peak, 2);
        reveal_with_fuel(peak_slot, 2);
        assert(peaks@.take(1).drop_last() =~= Seq::empty());
    }
    let mut level: usize = 1;
    while level < h
        invariant
            1 <= level <= h,
            h == peaks.len() <= i64::MAX,
            deepest.len() == h,
            forall|l: int| 0 <= l < peaks.len() ==> -1 <= #[trigger] peaks[l],
            dst == peak(peaks@.take(level as int)),
            src == (if dst == -1 { -1int } else { donor(peaks@, level as int) }),
            forall|l: int|
                1 <= l < level ==> #[trigger] deepest[l] == (if peak(peaks@.take(l)) >= l {
                    donor(peaks@, l)
                } else {
                    -1
                }),
        decreases h - level,
    {
        let ghost before = peaks@.take(level as int);
        let ghost after = peaks@.take(level + 1);
        assert(after.drop_last() =~= before);
        assert(after.last() == peaks[level as int]);
        let reaches: bool = dst >= level as i64;
        let mut chosen: i64 = -1;
        cmov_i64(&mut chosen, src, reaches);
        deepest.set(level, chosen);
        let deeper: bool = peaks[level] > dst;
        cmov_i64(&mut src, level as i64, deeper);
        cmov_i64(&mut dst, peaks[level], deeper);
        level += 1;
    }
    // Second scan, leaf to root: which of these moves are made.
    let mut target: Vec<i64> = filled(-1, h);
    src = -1;
    dst = -1;
    while level > 1
        invariant
            1 <= level <= h,
            h == peaks.len() == room.len() <= i64::MAX,
            deepest.len() == h,
            target.len() == h,
            forall|l: int|
                1 <= l < h ==> #[trigger] deepest[l] == (if peak(peaks@.take(l)) >= l {
                    donor(peaks@, l)
                } else {
                    -1
                }),
            dst == bound_for(peaks@, room@, level as int),
            src == (if dst == -1 { -1int } else { donor(peaks@, dst as int) }),
            forall|l: int|
                level <= l < h ==> #[trigger] target[l] == target_of(peaks@, room@, l),
            forall|l: int| 0 <= l < level ==> #[trigger] target[l] == -1,
        decreases level,
    {
        level -= 1;
        proof {
            lemma_bound_for(peaks@, room@, level + 1);
            lemma_peak(peaks@.take(level as int));
        }
        let is_source: bool = level as i64 == src;
        let mut chosen: i64 = -1;
        cmov_i64(&mut chosen, dst, is_source);
        target.set(level, chosen);
        cmov_i64(&mut src, -1, is_source);
        cmov_i64(&mut dst, -1, is_source);
        let open: bool = either(both(dst == -1, room[level]), chosen != -1);
        let change: bool = both(open, deepest[level] != -1);
        cmov_i64(&mut src, deepest[level], change);
        cmov_i64(&mut dst, level as i64, change);
    }
    proof {
        lemma_bound_for(peaks@, room@, 1);
    }
    let mut chosen: i64 = -1;
    cmov_i64(&mut chosen, dst, src == 0);
    target.set(0, chosen);
    target
}

// ---------------------------------------------------------------------------
// The movement of a pass.
// ---------------------------------------------------------------------------
/// The slots of every level.
pub open spec fn rows<B>(v: Seq<Vec<B>>) -> Seq<Seq<B>> {
    Seq::new(v.len(), |l: int| v[l]@)
}

/// `d` gives the deepest level that each block of `lane` may go to, and -1 for
/// slots that give nothing up. Below the root those are the vacant slots.
pub open spec fn depths_fit<B: ObliviousBlock>(lane: Seq<Seq<B>>, d: Seq<Seq<i64>>) -> bool {
    &&& lane.len() == d.len()
    &&& forall|l: int| 0 <= l < lane.len() ==> (#[trigger] lane[l]).len() == d[l].len()
    &&& forall|l: int, j: int|
        #![trigger d[l][j]]
        0 <= l < lane.len() && 0 <= j < lane[l].len() ==> {
            &&& -1 <= d[l][j]
            &&& lane[l][j].vacant() ==> d[l][j] == -1
            &&& l > 0 && !lane[l][j].vacant() ==> d[l][j] != -1
        }
}

/// The block that `level` receives.
pub open spec fn received<B: ObliviousBlock>(
    lane: Seq<Seq<B>>,
    d: Seq<Seq<i64>>,
    level: int,
) -> B {
    let from = donor(level_peaks(d), level);
    lane[from][peak_slot(d[from])]
}

/// What a pass leaves in slot `j` of level `l`: a block, or nothing.
pub open spec fn settled<B: ObliviousBlock>(
    lane: Seq<Seq<B>>,
    d: Seq<Seq<i64>>,
    l: int,
    j: int,
) -> Option<B> {
    let peaks = level_peaks(d);
    let room = level_room(d);
    let gives = target_of(peaks, room, l) != -1;
    let takes = l > 0 && receives(peaks, room, l);
    if gives && j == peak_slot(d[l]) {
        if takes {
            Some(received(lane, d, l))
        } else {
            None
        }
    } else if takes && !gives && j == first_room(d[l]) {
        Some(received(lane, d, l))
    } else if lane[l][j].vacant() {
        None
    } else {
        Some(lane[l][j])
    }
}

/// Slot `c` holds what `want` says.
pub open spec fn holds<B: ObliviousBlock>(c: B, want: Option<B>) -> bool {
    match want {
        Some(b) => c == b && !c.vacant(),
        None => c.vacant(),
    }
}

/// `row` is what a pass leaves of level `l`.
pub open spec fn row_settled<B: ObliviousBlock>(
    lane: Seq<Seq<B>>,
    d: Seq<Seq<i64>>,
    row: Seq<B>,
    l: int,
) -> bool {
    &&& row.len() == lane[l].len()
    &&& forall|j: int|
        0 <= j < lane[l].len() ==> holds(#[trigger] row[j], settled(lane, d, l, j))
}

/// Level `l` of `after` is what a pass leaves of it.
pub open spec fn level_settled<B: ObliviousBlock>(
    lane: Seq<Seq<B>>,
    d: Seq<Seq<i64>>,
    after: Seq<Seq<B>>,
    l: int,
) -> bool {
    row_settled(lane, d, after[l], l)
}

/// On the way into `level` a pass carries `held`, bound for level `dst`.
pub open spec fn carries<B: ObliviousBlock>(
    lane: Seq<Seq<B>>,
    d: Seq<Seq<i64>>,
    level: int,
    held: B,
    dst: int,
) -> bool {
    &&& dst == bound_for(level_peaks(d), level_room(d), level)
    &&& dst == -1 ==> held.vacant()
    &&& dst != -1 ==> held == received(lane, d, dst) && !held.vacant()
}

/// `after` and `held_after` are the level and the carried block once the carried block
/// was exchanged with slot `slot` (`take`) or dropped into the first vacant slot
/// (`place`).
pub open spec fn exchanged<B: ObliviousBlock>(
    row: Seq<B>,
    held: B,
    after: Seq<B>,
    held_after: B,
    slot: int,
    take: bool,
    place: bool,
) -> bool {
    &&& after.len() == row.len()
    &&& !take && !place ==> after == row && held_after == held
    &&& take ==> held_after == row[slot] && after == row.update(slot, held)
    &&& place ==> forall|f: int|
        0 <= f < row.len() && row[f].vacant() && (forall|i: int|
            0 <= i < f ==> !(#[trigger] row[i]).vacant()) ==> {
            &&& held_after.vacant()
            &&& #[trigger] after[f] == held
            &&& forall|j: int|
                0 <= j < row.len() && j != f ==> holds(
                    #[trigger] after[j],
                    if row[j].vacant() {
                        None
                    } else {
                        Some(row[j])
                    },
                )
        }
}

/// `after` is what a pass leaves of `lane`.
pub open spec fn lane_settled<B: ObliviousBlock>(
    lane: Seq<Seq<B>>,
    d: Seq<Seq<i64>>,
    after: Seq<Seq<B>>,
) -> bool {
    &&& after.len() == lane.len()
    &&& forall|l: int| 0 <= l < lane.len() ==> #[trigger] level_settled(lane, d, after, l)
}

/// Every vacant slot of the level is a fresh one.
pub open spec fn level_blank<B: ObliviousBlock>(s: Seq<B>) -> bool {
    forall|j: int| 0 <= j < s.len() && (#[trigger] s[j]).vacant() ==> s[j] == B::blank()
}

/// Every slot of the level, vacant or not, satisfies `p`.
pub open spec fn level_all<B>(s: Seq<B>, p: spec_fn(B) -> bool) -> bool {
    forall|j: int| 0 <= j < s.len() ==> p(#[trigger] s[j])
}

/// Every slot, vacant or not, satisfies `p`.
pub open spec fn lane_all<B>(lane: Seq<Seq<B>>, p: spec_fn(B) -> bool) -> bool {
    forall|l: int| 0 <= l < lane.len() ==> level_all(#[trigger] lane[l], p)
}

/// A fresh slot satisfies `p`, and taking a block out of a slot keeps `p`.
pub open spec fn lasting<B: ObliviousBlock>(p: spec_fn(B) -> bool) -> bool {
    &&& p(B::blank())
    &&& forall|b: B| p(b) ==> p(#[trigger] b.vacated())
}

/// Takes the block out of `slot` when `take` holds.
pub fn pick_up<B: ObliviousBlock>(level: &mut Vec<B>, slot: usize, take: bool) -> (held: B)
    requires
        take ==> slot < old(level).len(),
    ensures
        take ==> held == old(level)[slot as int] && final(level)@ == old(level)@.update(
            slot as int,
            old(level)[slot as int].vacated(),
        ),
        !take ==> held == B::blank() && final(level)@ == old(level)@,
{
    let ghost s0 = level@;
    let mut held: B = B::fresh();
    let mut j: usize = 0;
    while j < level.len()
        invariant
            j <= level.len() == s0.len(),
            take ==> slot < s0.len(),
            take && slot < j ==> held == s0[slot as int] && level@ == s0.update(
                slot as int,
                s0[slot as int].vacated(),
            ),
            !(take && slot < j) ==> held == B::blank() && level@ == s0,
        decreases level.len() - j,
    {
        let taken: bool = both(take, j == slot);
        held.select(&level[j], taken);
        let mut left: B = level[j];
        left.vacate(taken);
        level.set(j, left);
        j += 1;
    }
    held
}

/// Exchanges the carried block with slot `slot` when `take` holds, or drops it
/// into the first vacant slot when `place` holds.
pub fn exchange_level<B: ObliviousBlock>(
    level: &mut Vec<B>,
    held: &mut B,
    slot: usize,
    take: bool,
    place: bool,
    Ghost(p): Ghost<spec_fn(B) -> bool>,
)
    requires
        take ==> slot < old(level).len(),
        !(take && place),
        level_all(old(level)@, p),
        p(*old(held)),
    ensures
        level_all(final(level)@, p),
        p(*final(held)),
        exchanged(
            old(level)@,
            *old(held),
            final(level)@,
            *final(held),
            slot as int,
            take,
            place,
        ),
{
    let ghost s0 = level@;
    let ghost h0 = *held;
    let ghost mut found: bool = false;
    let ghost mut f: int = 0;
    let mut j: usize = 0;
    while j < level.len()
        invariant
            j <= level.len() == s0.len(),
            take ==> slot < s0.len(),
            !(take && place),
            forall|k: int| j <= k < s0.len() ==> #[trigger] level[k] == s0[k],
            !take && !place ==> level@ == s0 && *held == h0,
            take && slot < j ==> *held == s0[slot as int] && level@ == s0.update(
                slot as int,
                h0,
            ),
            take && !(slot < j) ==> level@ == s0 && *held == h0,
            place && !found ==> level@ == s0 && *held == h0 && forall|i: int|
                0 <= i < j ==> !(#[trigger] s0[i]).vacant(),
            place && found ==> {
                &&& 0 <= f < j
                &&& s0[f].vacant()
                &&& forall|i: int| 0 <= i < f ==> !(#[trigger] s0[i]).vacant()
                &&& held.vacant()
                &&& level[f] == h0
                &&& forall|k: int|
                    0 <= k < s0.len() && k != f ==> holds(
                        #[trigger] level[k],
                        if s0[k].vacant() {
                            None
                        } else {
                            Some(s0[k])
                        },
                    )
            },
            level_all(level@, p),
            p(*held),
        decreases level.len() - j,
    {
        let ghost before = level@;
        let ghost held_before = *held;
        let write: bool = both(level[j].is_vacant(), place);
        let swap: bool = either(both(take, j == slot), write);
        let mut there: B = level[j];
        exchange(held, &mut there, swap);
        level.set(j, there);
        proof {
            assert(before[j as int] == s0[j as int]);
            if swap {
                assert(level@ =~= before.update(j as int, held_before));
            } else {
                assert(level@ =~= before);
            }
            if write && !found {
                found = true;
                f = j as int;
            }
        }
        j += 1;
    }
}

/// What a pass carries into `level`: a block, or a fresh slot for none.
pub open spec fn carried_into<B: ObliviousBlock>(
    lane: Seq<Seq<B>>,
    d: Seq<Seq<i64>>,
    level: int,
) -> B {
    let to = bound_for(level_peaks(d), level_room(d), level);
    if level <= 0 || to == -1 {
        B::blank()
    } else {
        received(lane, d, to)
    }
}

/// A block that a level receives is one.
proof fn lemma_received<B: ObliviousBlock>(lane: Seq<Seq<B>>, d: Seq<Seq<i64>>, l: int, to: int)
    requires
        depths_fit(lane, d),
        1 <= l,
        to == bound_for(level_peaks(d), level_room(d), l),
        to != -1,
    ensures
        l <= to < lane.len(),
        0 <= donor(level_peaks(d), to) < l,
        !received(lane, d, to).vacant(),
        ({
            let m = donor(level_peaks(d), to);
            0 <= peak_slot(d[m]) < lane[m].len() && d[m][peak_slot(d[m])] >= to
        }),
{
    lemma_bound_for(level_peaks(d), level_room(d), l);
    let m = donor(level_peaks(d), to);
    lemma_peak(d[m]);
    assert(lane[m].len() == d[m].len());
    assert(d[m][peak_slot(d[m])] >= 0);
}

/// A settled slot holds a block only where one is left.
pub proof fn lemma_settled_live<B: ObliviousBlock>(
    lane: Seq<Seq<B>>,
    d: Seq<Seq<i64>>,
    l: int,
    j: int,
)
    requires
        depths_fit(lane, d),
        0 <= l < lane.len(),
        0 <= j < lane[l].len(),
    ensures
        settled(lane, d, l, j) is Some ==> !settled(lane, d, l, j)->0.vacant(),
{
    if l > 0 && receives(level_peaks(d), level_room(d), l) {
        lemma_received(lane, d, l, l);
    }
}

proof fn lemma_tally_alike<B: ObliviousBlock>(x: Seq<B>, y: Seq<B>, b: B)
    requires
        x.len() == y.len(),
        forall|j: int|
            0 <= j < x.len() ==> #[trigger] x[j] == y[j] || (x[j].vacant() && y[j].vacant()),
    ensures
        tally(x, b) == tally(y, b),
    decreases x.len(),
{
    if x.len() > 0 {
        assert(x[x.len() - 1] == y[x.len() - 1] || (x[x.len() - 1].vacant()
            && y[x.len() - 1].vacant()));
        assert forall|j: int| 0 <= j < x.drop_last().len() implies #[trigger] x.drop_last()[j]
            == y.drop_last()[j] || (x.drop_last()[j].vacant() && y.drop_last()[j].vacant()) by {
            assert(x[j] == y[j] || (x[j].vacant() && y[j].vacant()));
        }
        lemma_tally_alike(x.drop_last(), y.drop_last(), b);
    }
}

/// A level and what is carried into it hold what the level is left with and what is
/// carried on.
proof fn lemma_row_conserves<B: ObliviousBlock>(
    lane: Seq<Seq<B>>,
    d: Seq<Seq<i64>>,
    row: Seq<B>,
    l: int,
    b: B,
)
    requires
        depths_fit(lane, d),
        0 <= l < lane.len(),
        row_settled(lane, d, row, l),
    ensures
        tally(row, b) + hit(carried_into(lane, d, l + 1), b) == tally(lane[l], b) + hit(
            carried_into(lane, d, l),
            b,
        ),
{
    let peaks = level_peaks(d);
    let room = level_room(d);
    let x = lane[l];
    let target = target_of(peaks, room, l);
    let gives = target != -1;
    let takes = l > 0 && receives(peaks, room, l);
    let next = bound_for(peaks, room, l + 1);
    assert(x.len() == d[l].len());
    B::blank().lemma_vacancy();
    if next != -1 {
        lemma_received(lane, d, l + 1, next);
    }
    if l > 0 && bound_for(peaks, room, l) != -1 {
        lemma_received(lane, d, l, bound_for(peaks, room, l));
    }
    lemma_peak(d[l]);
    if gives || takes {
        let p = if gives {
            peak_slot(d[l])
        } else {
            first_room(d[l])
        };
        if gives {
            assert(received(lane, d, target) == x[p]);
        } else {
            lemma_first_room(d[l]);
        }
        let y = x.update(p, row[p]);
        crate::tally::lemma_tally_update(x, p, row[p], b);
        assert forall|j: int| 0 <= j < row.len() implies #[trigger] row[j] == y[j] || (
        row[j].vacant() && y[j].vacant()) by {
            assert(holds(row[j], settled(lane, d, l, j)));
        }
        lemma_tally_alike(row, y, b);
        assert(holds(row[p], settled(lane, d, l, p)));
        assert(d[l][p] == -1 ==> l > 0 ==> x[p].vacant());
    } else {
        assert forall|j: int| 0 <= j < row.len() implies #[trigger] row[j] == x[j] || (
        row[j].vacant() && x[j].vacant()) by {
            assert(holds(row[j], settled(lane, d, l, j)));
        }
        lemma_tally_alike(row, x, b);
    }
}

/// A pass neither loses nor doubles a block.
pub proof fn lemma_pass_conserves<B: ObliviousBlock>(
    lane: Seq<Seq<B>>,
    d: Seq<Seq<i64>>,
    after: Seq<Seq<B>>,
    b: B,
)
    requires
        depths_fit(lane, d),
        lane_settled(lane, d, after),
    ensures
        tally_groups(after, b) == tally_groups(lane, b),
{
    lemma_pass_conserves_to(lane, d, after, lane.len() as int, b);
    assert(after.take(lane.len() as int) =~= after);
    assert(lane.take(lane.len() as int) =~= lane);
    B::blank().lemma_vacancy();
}

proof fn lemma_pass_conserves_to<B: ObliviousBlock>(
    lane: Seq<Seq<B>>,
    d: Seq<Seq<i64>>,
    after: Seq<Seq<B>>,
    n: int,
    b: B,
)
    requires
        depths_fit(lane, d),
        lane_settled(lane, d, after),
        0 <= n <= lane.len(),
    ensures
        tally_groups(after.take(n), b) + hit(carried_into(lane, d, n), b) == tally_groups(
            lane.take(n),
            b,
        ),
    decreases n,
{
    if n == 0 {
        B::blank().lemma_vacancy();
        assert(after.take(0) =~= lane.take(0));
    } else {
        lemma_pass_conserves_to(lane, d, after, n - 1, b);
        assert(level_settled(lane, d, after, n - 1));
        lemma_row_conserves(lane, d, after[n - 1], n - 1, b);
        assert(after.take(n).drop_last() =~= after.take(n - 1));
        assert(lane.take(n).drop_last() =~= lane.take(n - 1));
        assert(after.take(n).last() == after[n - 1]);
        assert(lane.take(n).last() == lane[n - 1]);
    }
}

/// One level of the movement: the level is as the pass leaves it, and the next level
/// gets what is bound further down.
pub proof fn lemma_step<B: ObliviousBlock>(
    lane: Seq<Seq<B>>,
    d: Seq<Seq<i64>>,
    l: int,
    held: B,
    dst: int,
    after: Seq<B>,
    held_after: B,
)
    requires
        depths_fit(lane, d),
        1 <= l < lane.len(),
        carries(lane, d, l, held, dst),
        ({
            let target = target_of(level_peaks(d), level_room(d), l);
            exchanged(
                lane[l],
                held,
                after,
                held_after,
                peak_slot(d[l]),
                target != -1,
                l == dst && target == -1,
            )
        }),
    ensures
        row_settled(lane, d, after, l),
        ({
            let target = target_of(level_peaks(d), level_room(d), l);
            carries(
                lane,
                d,
                l + 1,
                held_after,
                if target != -1 || l == dst {
                    target
                } else {
                    dst
                },
            )
        }),
        target_of(level_peaks(d), level_room(d), l) != -1 ==> 0 <= peak_slot(d[l]) < lane[l].len(),
        l == dst ==> has_room(d[l]) || target_of(level_peaks(d), level_room(d), l) != -1,
{
    let peaks = level_peaks(d);
    let room = level_room(d);
    let target = target_of(peaks, room, l);
    assert(lane[l].len() == d[l].len());
    lemma_bound_for(peaks, room, l);
    lemma_bound_for(peaks, room, l + 1);
    lemma_peak(d[l]);
    if l == dst && target == -1 {
        assert(room[l]);
        lemma_first_room(d[l]);
        let f = first_room(d[l]);
        assert(lane[l][f].vacant());
        assert forall|i: int| 0 <= i < f implies !(#[trigger] lane[l][i]).vacant() by {
            assert(d[l][i] != -1);
        }
        assert(after[f] == held);
    }
    if target != -1 {
        assert(d[l][peak_slot(d[l])] >= 0);
    }
}

/// The first level of the movement.
pub proof fn lemma_first_step<B: ObliviousBlock>(lane: Seq<Seq<B>>, d: Seq<Seq<i64>>)
    requires
        depths_fit(lane, d),
        1 <= lane.len(),
    ensures
        ({
            let target = target_of(level_peaks(d), level_room(d), 0);
            let slot = peak_slot(d[0]);
            &&& target == bound_for(level_peaks(d), level_room(d), 1)
            &&& target != -1 ==> {
                &&& 0 <= slot < lane[0].len()
                &&& d[0][slot] >= 0
                &&& !lane[0][slot].vacant()
                &&& carries(lane, d, 1, lane[0][slot], target)
            }
            &&& forall|j: int|
                0 <= j < lane[0].len() ==> #[trigger] settled(lane, d, 0, j) == (if lane[0][j].vacant()
                    || (target != -1 && j == slot) {
                    None::<B>
                } else {
                    Some(lane[0][j])
                })
        }),
{
    let peaks = level_peaks(d);
    let room = level_room(d);
    assert(lane[0].len() == d[0].len());
    lemma_bound_for(peaks, room, 1);
    lemma_peak(d[0]);
    let target = target_of(peaks, room, 0);
    if target != -1 {
        assert(d[0][peak_slot(d[0])] >= 0);
    }
}

/// Runs one pass: blocks move as [`lane_settled`] says, and none is lost or
/// doubled.
pub fn evict_lane<B: ObliviousBlock>(
    lane: &mut Vec<Vec<B>>,
    depths: &Vec<Vec<i64>>,
    Ghost(p): Ghost<spec_fn(B) -> bool>,
)
    requires
        lasting(p),
        lane_all(rows(old(lane)@), p),
        1 <= old(lane).len() <= i64::MAX,
        depths_fit(rows(old(lane)@), rows(depths@)),
    ensures
        lane_settled(rows(old(lane)@), rows(depths@), rows(final(lane)@)),
        forall|b: B|
            #[trigger] tally_groups(rows(final(lane)@), b) == tally_groups(rows(old(lane)@), b),
        lane_all(rows(final(lane)@), p),
{
    let h: usize = lane.len();
    let ghost lane0 = rows(lane@);
    let ghost d = rows(depths@);
    let ghost peaks_of = level_peaks(d);
    let ghost room_of = level_room(d);
    // The plan.
    let mut peaks: Vec<i64> = Vec::new();
    let mut slots: Vec<usize> = Vec::new();
    let mut room: Vec<bool> = Vec::new();
    let mut level: usize = 0;
    while level < h
        invariant
            level <= h == depths.len(),
            d == rows(depths@),
            depths_fit(lane0, d),
            lane0.len() == h,
            peaks.len() == level,
            slots.len() == level,
            room.len() == level,
            forall|l: int| 0 <= l < level ==> #[trigger] peaks[l] == peak(d[l]),
            forall|l: int| 0 <= l < level ==> #[trigger] slots[l] == peak_slot(d[l]),
            forall|l: int| 0 <= l < level ==> #[trigger] room[l] == has_room(d[l]),
        decreases h - level,
    {
        proof {
            assert(lane0[level as int].len() == d[level as int].len());
            assert forall|j: int| 0 <= j < depths[level as int].len() implies -1
                <= #[trigger] depths[level as int][j] by {
                assert(d[level as int][j] >= -1);
            }
        }
        let (deepest, slot, vacancy) = scan_level(&depths[level]);
        peaks.push(deepest);
        slots.push(slot);
        room.push(vacancy);
        level += 1;
    }
    proof {
        assert(peaks@ =~= peaks_of);
        assert(room@ =~= room_of);
        assert forall|l: int| 0 <= l < h implies -1 <= #[trigger] peaks[l] by {
            lemma_peak(d[l]);
        }
    }
    let target: Vec<i64> = plan_targets(&peaks, &room);
    // The movement.
    let take: bool = target[0] != -1;
    proof {
        assert(level_all(lane0[0], p));
        lemma_first_step(lane0, d);
        assert(target[0] == target_of(peaks_of, room_of, 0));
    }
    let ghost top = lane[0]@;
    let mut first: Vec<B> = Vec::new();
    std::mem::swap(&mut first, &mut lane[0]);
    let mut held: B = pick_up(&mut first, slots[0], take);
    std::mem::swap(&mut first, &mut lane[0]);
    let mut dst: i64 = target[0];
    proof {
        B::lemma_vacancy(B::blank());
        B::lemma_vacancy(top[slots[0] as int]);
        assert(rows(lane@) =~= lane0.update(0, lane[0]@));
        assert(level_settled(lane0, d, rows(lane@), 0)) by {
            assert forall|j: int| 0 <= j < lane0[0].len() implies holds(
                #[trigger] lane[0]@[j],
                settled(lane0, d, 0, j),
            ) by {
                assert(lane0[0][j] == top[j]);
            }
        }
    }
    level = 1;
    while level < h
        invariant
            1 <= level <= h == lane.len(),
            lane0.len() == h <= i64::MAX,
            depths_fit(lane0, d),
            peaks_of == level_peaks(d),
            room_of == level_room(d),
            slots.len() == h,
            target.len() == h,
            forall|l: int| 0 <= l < h ==> #[trigger] slots[l] == peak_slot(d[l]),
            forall|l: int| 0 <= l < h ==> #[trigger] target[l] == target_of(peaks_of, room_of, l),
            carries(lane0, d, level as int, held, dst as int),
            forall|l: int|
                0 <= l < level ==> #[trigger] level_settled(lane0, d, rows(lane@), l),
            forall|l: int| level <= l < h ==> (#[trigger] rows(lane@)[l]) == lane0[l],
            lane_all(rows(lane@), p),
            p(held),
        decreases h - level,
    {
        let ghost before = rows(lane@);
        let ghost held_before = held;
        let ghost dst_before = dst as int;
        let has_target: bool = target[level] != -1;
        let place: bool = both(level as i64 == dst, !has_target);
        proof {
            assert(before[level as int] == lane0[level as int]);
            assert(lane0[level as int].len() == d[level as int].len());
            lemma_bound_for(peaks_of, room_of, level + 1);
            lemma_peak(d[level as int]);
            assert(target[level as int] == target_of(peaks_of, room_of, level as int));
            assert(level_all(before[level as int], p));
        }
        let mut there: Vec<B> = Vec::new();
        std::mem::swap(&mut there, &mut lane[level]);
        exchange_level(&mut there, &mut held, slots[level], has_target, place, Ghost(p));
        std::mem::swap(&mut there, &mut lane[level]);
        cmov_i64(&mut dst, target[level], either(has_target, place));
        proof {
            let l = level as int;
            let s = lane[l]@;
            let after = rows(lane@);
            assert(after =~= before.update(l, s));
            lemma_step(lane0, d, l, held_before, dst_before, s, held);
            assert forall|m: int| 0 <= m < level + 1 implies #[trigger] level_settled(
                lane0,
                d,
                after,
                m,
            ) by {
                if m < l {
                    assert(level_settled(lane0, d, before, m));
                    assert(after[m] == before[m]);
                }
            }
        }
        level += 1;
    }
    proof {
        assert forall|b: B|
            #[trigger] tally_groups(rows(lane@), b) == tally_groups(lane0, b) by {
            lemma_pass_conserves(lane0, d, rows(lane@), b);
        }
    }
}

/// A block that a pass leaves at a level was there before, or came from a level
/// above and may go this deep.
pub proof fn lemma_settled_origin<B: ObliviousBlock>(
    lane: Seq<Seq<B>>,
    d: Seq<Seq<i64>>,
    after: Seq<Seq<B>>,
    l: int,
    j: int,
)
    requires
        depths_fit(lane, d),
        lane_settled(lane, d, after),
        0 <= l < lane.len(),
        0 <= j < lane[l].len(),
        !after[l][j].vacant(),
    ensures
        after[l][j] == lane[l][j] || exists|m: int, k: int|
            #![trigger lane[m][k]]
            0 <= m < l && 0 <= k < lane[m].len() && after[l][j] == lane[m][k] && d[m][k] >= l,
{
    assert(level_settled(lane, d, after, l));
    let peaks = level_peaks(d);
    let room = level_room(d);
    if l > 0 && receives(peaks, room, l) {
        lemma_bound_for(peaks, room, l);
        let m = donor(peaks, l);
        lemma_peak(d[m]);
        let k = peak_slot(d[m]);
        assert(lane[m].len() == d[m].len());
        assert(received(lane, d, l) == lane[m][k]);
    }
}

// ---------------------------------------------------------------------------
// A lane laid out as one column.
// ---------------------------------------------------------------------------
/// The levels of a column: `n0` slots for level zero and `y` for each other level.
pub open spec fn levels<B>(col: Seq<B>, n0: int, y: int, h: int) -> Seq<Seq<B>> {
    Seq::new(
        h as nat,
        |l: int|
            if l == 0 {
                col.take(n0)
            } else {
                col.subrange(n0 + (l - 1) * y, n0 + l * y)
            },
    )
}

/// The slots of the levels, one after another.
pub open spec fn flat<B>(g: Seq<Seq<B>>) -> Seq<B>
    decreases g.len(),
{
    if g.len() == 0 {
        Seq::empty()
    } else {
        flat(g.drop_last()) + g.last()
    }
}

/// Level zero has `n0` slots and every other level `y`.
pub open spec fn level_sizes<B>(g: Seq<Seq<B>>, n0: int, y: int) -> bool {
    forall|l: int|
        0 <= l < g.len() ==> (#[trigger] g[l]).len() == (if l == 0 {
            n0
        } else {
            y
        })
}

/// `col` has the slots of `h` levels.
pub open spec fn column_size<B>(col: Seq<B>, n0: int, y: int, h: int) -> bool {
    &&& 0 <= n0
    &&& 0 <= y
    &&& 1 <= h
    &&& col.len() == n0 + (h - 1) * y
}

/// [`depths_fit`] for a column.
pub open spec fn column_fits<B: ObliviousBlock>(col: Seq<B>, d: Seq<i64>, n0: int) -> bool {
    &&& col.len() == d.len()
    &&& forall|k: int|
        0 <= k < col.len() ==> {
            &&& -1 <= #[trigger] d[k]
            &&& col[k].vacant() ==> d[k] == -1
            &&& k >= n0 && !col[k].vacant() ==> d[k] != -1
        }
}

/// `after` is what a pass leaves of the column `col`.
pub open spec fn column_settled<B: ObliviousBlock>(
    col: Seq<B>,
    d: Seq<i64>,
    after: Seq<B>,
    n0: int,
    y: int,
    h: int,
) -> bool {
    &&& after.len() == col.len()
    &&& lane_settled(levels(col, n0, y, h), levels(d, n0, y, h), levels(after, n0, y, h))
}

proof fn lemma_level_bounds(n0: int, y: int, h: int, l: int)
    requires
        0 <= n0,
        0 <= y,
        1 <= l < h,
    ensures
        n0 <= n0 + (l - 1) * y <= n0 + l * y <= n0 + (h - 1) * y,
        n0 + l * y == n0 + (l - 1) * y + y,
{
    assert((l - 1) * y + y == l * y) by (nonlinear_arith);
    assert(0 <= (l - 1) * y && l * y <= (h - 1) * y) by (nonlinear_arith)
        requires
            0 <= y,
            1 <= l < h,
    ;
}

proof fn lemma_flat_len<B>(g: Seq<Seq<B>>, n0: int, y: int)
    requires
        g.len() >= 1,
        0 <= n0,
        0 <= y,
        level_sizes(g, n0, y),
    ensures
        flat(g).len() == n0 + (g.len() - 1) * y,
    decreases g.len(),
{
    let p = g.drop_last();
    let h = g.len() as int;
    assert(g[h - 1] == g.last());
    if h == 1 {
        assert(flat(p) =~= Seq::empty());
    } else {
        assert forall|l: int| 0 <= l < p.len() implies (#[trigger] p[l]).len() == (if l == 0 {
            n0
        } else {
            y
        }) by {
            assert(p[l] == g[l]);
        }
        lemma_flat_len(p, n0, y);
        lemma_level_bounds(n0, y, h, h - 1);
    }
}

/// The levels of the slots laid out one after another are the levels.
proof fn lemma_levels_of_flat<B>(g: Seq<Seq<B>>, n0: int, y: int)
    requires
        g.len() >= 1,
        0 <= n0,
        0 <= y,
        level_sizes(g, n0, y),
    ensures
        levels(flat(g), n0, y, g.len() as int) =~= g,
    decreases g.len(),
{
    let h = g.len() as int;
    let p = g.drop_last();
    let lv = levels(flat(g), n0, y, h);
    lemma_flat_len(g, n0, y);
    assert(g[h - 1] == g.last());
    if h == 1 {
        assert(flat(p) =~= Seq::empty());
        assert(lv[0] =~= g[0]);
    } else {
        assert forall|l: int| 0 <= l < p.len() implies (#[trigger] p[l]).len() == (if l == 0 {
            n0
        } else {
            y
        }) by {
            assert(p[l] == g[l]);
        }
        lemma_flat_len(p, n0, y);
        lemma_levels_of_flat(p, n0, y);
        assert forall|l: int| 0 <= l < h implies lv[l] == g[l] by {
            if l == h - 1 {
                lemma_level_bounds(n0, y, h, l);
                assert(lv[l] =~= g.last());
            } else {
                let lp = levels(flat(p), n0, y, h - 1);
                assert(lp[l] == p[l]);
                if l > 0 {
                    lemma_level_bounds(n0, y, h - 1, l);
                } else {
                    assert(0 <= (h - 2) * y) by (nonlinear_arith)
                        requires
                            0 <= y,
                            h >= 2,
                    ;
                }
                assert(lv[l] =~= lp[l]);
            }
        }
    }
}

/// Counting by level is counting over all slots.
proof fn lemma_tally_flat<B: ObliviousBlock>(g: Seq<Seq<B>>, b: B)
    ensures
        tally_groups(g, b) == tally(flat(g), b),
    decreases g.len(),
{
    if g.len() > 0 {
        lemma_tally_flat(g.drop_last(), b);
        crate::tally::lemma_tally_concat(flat(g.drop_last()), g.last(), b);
    }
}

/// Laying the levels of a column out again gives the column.
proof fn lemma_flat_of_levels<B>(col: Seq<B>, n0: int, y: int, h: int)
    requires
        column_size(col, n0, y, h),
    ensures
        flat(levels(col, n0, y, h)) =~= col,
        level_sizes(levels(col, n0, y, h), n0, y),
    decreases h,
{
    let g = levels(col, n0, y, h);
    let p = g.drop_last();
    assert forall|l: int| 0 <= l < g.len() implies (#[trigger] g[l]).len() == (if l == 0 {
        n0
    } else {
        y
    }) by {
        if l > 0 {
            lemma_level_bounds(n0, y, h, l);
        } else {
            assert(0 <= (h - 1) * y) by (nonlinear_arith)
                requires
                    0 <= y,
                    h >= 1,
            ;
        }
    }
    if h == 1 {
        assert((h - 1) * y == 0) by (nonlinear_arith)
            requires
                h == 1,
        ;
        assert(flat(p) =~= Seq::empty());
        assert(g.last() =~= col);
    } else {
        let c = col.take(n0 + (h - 2) * y);
        lemma_level_bounds(n0, y, h, h - 1);
        assert(p =~= levels(c, n0, y, h - 1)) by {
            assert forall|l: int| 0 <= l < h - 1 implies p[l] == levels(c, n0, y, h - 1)[l] by {
                if l > 0 {
                    lemma_level_bounds(n0, y, h - 1, l);
                }
                assert(p[l] =~= levels(c, n0, y, h - 1)[l]);
            }
        }
        lemma_flat_of_levels(c, n0, y, h - 1);
        assert(flat(p) + g.last() =~= col);
    }
}

/// Splits a column into its levels.
fn split_levels<B: Copy>(col: &Vec<B>, n0: usize, y: usize, h: usize) -> (r: Vec<Vec<B>>)
    requires
        column_size(col@, n0 as int, y as int, h as int),
    ensures
        rows(r@) == levels(col@, n0 as int, y as int, h as int),
{
    let ghost want = levels(col@, n0 as int, y as int, h as int);
    let mut r: Vec<Vec<B>> = Vec::new();
    let mut at: usize = 0;
    let mut l: usize = 0;
    proof {
        assert(0 <= (h - 1) * y) by (nonlinear_arith)
            requires
                0 <= y,
                h >= 1,
        ;
    }
    while l < h
        invariant
            l <= h,
            column_size(col@, n0 as int, y as int, h as int),
            want == levels(col@, n0 as int, y as int, h as int),
            0 <= (h - 1) * y,
            l == 0 ==> at == 0,
            l > 0 ==> at == n0 + (l - 1) * y,
            r.len() == l,
            forall|m: int| 0 <= m < l ==> (#[trigger] r[m])@ == want[m],
        decreases h - l,
    {
        let size: usize = if l == 0 { n0 } else { y };
        let ghost start = at as int;
        proof {
            if l > 0 {
                lemma_level_bounds(n0 as int, y as int, h as int, l as int);
            }
        }
        let mut level: Vec<B> = Vec::new();
        let mut j: usize = 0;
        while j < size
            invariant
                j <= size,
                at == start + j,
                0 <= start,
                start + size <= col.len(),
                level@ == col@.subrange(start, start + j),
            decreases size - j,
        {
            level.push(col[at]);
            at += 1;
            j += 1;
        }
        proof {
            assert(level@ =~= want[l as int]);
        }
        r.push(level);
        l += 1;
        proof {
            if l > 1 {
                assert((l - 1) * y == (l - 2) * y + y) by (nonlinear_arith);
            } else {
                assert((l - 1) * y == 0) by (nonlinear_arith)
                    requires
                        l == 1,
                ;
            }
        }
    }
    assert(rows(r@) =~= want);
    r
}

/// Lays levels out one after another.
fn join_levels<B: Copy>(g: &Vec<Vec<B>>) -> (r: Vec<B>)
    ensures
        r@ == flat(rows(g@)),
{
    let ghost all = rows(g@);
    let mut r: Vec<B> = Vec::new();
    let mut l: usize = 0;
    assert(flat(all.take(0)) =~= Seq::empty());
    while l < g.len()
        invariant
            l <= g.len(),
            all == rows(g@),
            r@ == flat(all.take(l as int)),
        decreases g.len() - l,
    {
        let ghost done = r@;
        let mut j: usize = 0;
        while j < g[l].len()
            invariant
                l < g.len(),
                j <= g[l as int].len(),
                r@ == done + g[l as int]@.take(j as int),
            decreases g[l as int].len() - j,
        {
            r.push(g[l][j]);
            assert(g[l as int]@.take(j + 1) =~= g[l as int]@.take(j as int).push(g[l as int][j as int]));
            j += 1;
        }
        proof {
            assert(g[l as int]@.take(j as int) =~= all[l as int]);
            assert(all.take(l + 1).drop_last() =~= all.take(l as int));
            assert(all.take(l + 1).last() == all[l as int]);
        }
        l += 1;
    }
    assert(all.take(l as int) =~= all);
    r
}

/// Runs one pass over a lane laid out as a column.
pub fn evict_column<B: ObliviousBlock>(
    col: &mut Vec<B>,
    depths: &Vec<i64>,
    n0: usize,
    y: usize,
    h: usize,
    Ghost(p): Ghost<spec_fn(B) -> bool>,
)
    requires
        h <= i64::MAX,
        lasting(p),
        level_all(old(col)@, p),
        column_size(old(col)@, n0 as int, y as int, h as int),
        column_fits(old(col)@, depths@, n0 as int),
    ensures
        column_settled(old(col)@, depths@, final(col)@, n0 as int, y as int, h as int),
        forall|b: B| #[trigger] tally(final(col)@, b) == tally(old(col)@, b),
        level_all(final(col)@, p),
{
    let ghost col0 = col@;
    let ghost g0 = levels(col0, n0 as int, y as int, h as int);
    let ghost d = levels(depths@, n0 as int, y as int, h as int);
    let mut lane: Vec<Vec<B>> = split_levels(col, n0, y, h);
    let split: Vec<Vec<i64>> = split_levels(depths, n0, y, h);
    proof {
        lemma_levels_fit(col0, depths@, n0 as int, y as int, h as int);
        assert forall|l: int| 0 <= l < g0.len() implies level_all(#[trigger] g0[l], p) by {
            if l > 0 {
                lemma_level_bounds(n0 as int, y as int, h as int, l);
                assert forall|j: int| 0 <= j < g0[l].len() implies p(#[trigger] g0[l][j]) by {
                    assert(g0[l][j] == col0[n0 + (l - 1) * y + j]);
                }
            }
        }
        assert(rows(lane@) == g0);
    }
    evict_lane(&mut lane, &split, Ghost(p));
    let after: Vec<B> = join_levels(&lane);
    proof {
        let g1 = rows(lane@);
        assert forall|l: int| 0 <= l < g1.len() implies (#[trigger] g1[l]).len() == (if l == 0 {
            n0 as int
        } else {
            y as int
        }) by {
            assert(level_settled(g0, d, g1, l));
        }
        lemma_flat_len(g1, n0 as int, y as int);
        lemma_levels_of_flat(g1, n0 as int, y as int);
        assert forall|b: B| #[trigger] tally(after@, b) == tally(col0, b) by {
            lemma_column_conserves(col0, depths@, after@, n0 as int, y as int, h as int, b);
        }
        lemma_flat_all(g1, p);
    }
    *col = after;
}

proof fn lemma_flat_all<B>(g: Seq<Seq<B>>, p: spec_fn(B) -> bool)
    requires
        lane_all(g, p),
    ensures
        level_all(flat(g), p),
    decreases g.len(),
{
    if g.len() > 0 {
        let front = g.drop_last();
        assert forall|l: int| 0 <= l < front.len() implies level_all(#[trigger] front[l], p) by {
            assert(front[l] == g[l]);
        }
        assert(level_all(g[g.len() - 1], p));
        lemma_flat_all(front, p);
        let f = flat(g);
        assert forall|j: int| 0 <= j < f.len() implies p(#[trigger] f[j]) by {
            if j < flat(front).len() {
                assert(f[j] == flat(front)[j]);
            } else {
                assert(f[j] == g.last()[j - flat(front).len()]);
            }
        }
    }
}

/// The depths of a column fit level by level.
pub proof fn lemma_levels_fit<B: ObliviousBlock>(col: Seq<B>, d: Seq<i64>, n0: int, y: int, h: int)
    requires
        column_size(col, n0, y, h),
        column_fits(col, d, n0),
    ensures
        depths_fit(levels(col, n0, y, h), levels(d, n0, y, h)),
        level_sizes(levels(col, n0, y, h), n0, y),
{
    let g0 = levels(col, n0, y, h);
    let dd = levels(d, n0, y, h);
    lemma_flat_of_levels(col, n0, y, h);
    lemma_flat_of_levels(d, n0, y, h);
    assert forall|m: int, j: int|
        #![trigger dd[m][j]]
        0 <= m < g0.len() && 0 <= j < g0[m].len() implies {
        &&& -1 <= dd[m][j]
        &&& g0[m][j].vacant() ==> dd[m][j] == -1
        &&& m > 0 && !g0[m][j].vacant() ==> dd[m][j] != -1
    } by {
        if m > 0 {
            lemma_level_bounds(n0, y, h, m);
            assert(dd[m][j] == d[n0 + (m - 1) * y + j]);
            assert(g0[m][j] == col[n0 + (m - 1) * y + j]);
        } else {
            assert(dd[m][j] == d[j]);
            assert(g0[m][j] == col[j]);
        }
    }
    assert forall|m: int| 0 <= m < g0.len() implies (#[trigger] g0[m]).len() == dd[m].len() by {}
}

/// A pass over a column neither loses nor doubles a block.
pub proof fn lemma_column_conserves<B: ObliviousBlock>(
    col: Seq<B>,
    d: Seq<i64>,
    after: Seq<B>,
    n0: int,
    y: int,
    h: int,
    b: B,
)
    requires
        column_size(col, n0, y, h),
        column_fits(col, d, n0),
        column_settled(col, d, after, n0, y, h),
    ensures
        tally(after, b) == tally(col, b),
{
    lemma_levels_fit(col, d, n0, y, h);
    lemma_pass_conserves(levels(col, n0, y, h), levels(d, n0, y, h), levels(after, n0, y, h), b);
    lemma_flat_of_levels(col, n0, y, h);
    lemma_flat_of_levels(after, n0, y, h);
    lemma_tally_flat(levels(col, n0, y, h), b);
    lemma_tally_flat(levels(after, n0, y, h), b);
}

/// A block that a pass leaves in a column slot of level `l` was there before, or
/// may go as deep as `l`. Level zero only loses blocks.
pub proof fn lemma_column_origin<B: ObliviousBlock>(
    col: Seq<B>,
    d: Seq<i64>,
    after: Seq<B>,
    n0: int,
    y: int,
    h: int,
    l: int,
    k: int,
)
    requires
        column_size(col, n0, y, h),
        column_fits(col, d, n0),
        column_settled(col, d, after, n0, y, h),
        0 <= l < h,
        l == 0 ==> 0 <= k < n0,
        l > 0 ==> n0 + (l - 1) * y <= k < n0 + l * y,
        !after[k].vacant(),
    ensures
        0 <= k < col.len(),
        after[k] == col[k] || (l > 0 && exists|i: int|
            0 <= i < col.len() && after[k] == #[trigger] col[i] && d[i] >= l),
{
    let g0 = levels(col, n0, y, h);
    let dd = levels(d, n0, y, h);
    let g1 = levels(after, n0, y, h);
    lemma_levels_fit(col, d, n0, y, h);
    assert(0 <= (h - 1) * y) by (nonlinear_arith)
        requires
            0 <= y,
            h >= 1,
    ;
    if l > 0 {
        lemma_level_bounds(n0, y, h, l);
    }
    let start = if l == 0 {
        0
    } else {
        n0 + (l - 1) * y
    };
    let j = k - start;
    assert(g1[l][j] == after[k]);
    lemma_settled_origin(g0, dd, g1, l, j);
    if g1[l][j] == g0[l][j] {
        assert(g0[l][j] == col[k]);
    } else {
        let (m, i) = choose|m: int, i: int|
            #![trigger g0[m][i]]
            0 <= m < l && 0 <= i < g0[m].len() && g1[l][j] == g0[m][i] && dd[m][i] >= l;
        if m > 0 {
            lemma_level_bounds(n0, y, h, m);
            assert(g0[m][i] == col[n0 + (m - 1) * y + i]);
        } else {
            assert(g0[m][i] == col[i]);
        }
    }
}

} // verus!
