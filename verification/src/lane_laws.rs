//! What the passes over the lanes of a path achieve.
//!
//! The laws speak of an array that holds the stash and behind it the buckets of a path,
//! root first, each bucket lane after lane. They count the blocks of a lane from a level
//! on, and say on the slots alone when a pass brings one more block that deep.
use vstd::prelude::*;
use crate::circuit::{column_fits, column_size, lemma_column_origin};
use crate::circuit_laws::{lemma_column_progress, live};
use crate::heap_tree::full_width;
use crate::lane_oram::{without_key32, Block32, PosType};
use crate::lane_oram_fixed::{column_depths, column_of, column_place, column_places, lane_pass};
use crate::lane_oram_fixed::{lane_passes, lane_step, lemma_column_place, LaneORAMFixed};
use crate::oblivious::ObliviousBlock;
use crate::path_access::{first_vacant, lemma_first_vacant, put_back, with_block};
use crate::path_store::{lemma_row_of, lemma_row_place, PathBlock, PathState};
use crate::wide_heap_tree::{lemma_shared_digits, same_prefix};

verus! {

/// The sizes of an array of `s` stash slots and a path of `h` buckets with `z` lanes of
/// `y` slots each, in a tree with branching factor `b`.
pub struct LaneSizes {
    pub s: int,
    pub z: int,
    pub y: int,
    pub h: int,
    pub b: int,
}

impl LaneSizes {
    /// The sizes make sense.
    pub open spec fn wf(self) -> bool {
        &&& 0 <= self.s
        &&& 1 <= self.z
        &&& 1 <= self.y
        &&& 2 <= self.h <= i64::MAX
        &&& 2 <= self.b
    }

    /// The array has these sizes, and its blocks belong to leaves of the tree.
    pub open spec fn fits(self, work: Seq<Block32>) -> bool {
        &&& work.len() == self.s + self.h * (self.z * self.y)
        &&& forall|i: int|
            0 <= i < work.len() && !(#[trigger] work[i]).vacant() ==> work[i].pos < full_width(
                self.h - 1,
                self.b,
            )
    }

    /// Where slot `j` of a lane at level `l` stands.
    pub open spec fn place(self, lane: int, l: int, j: int) -> int {
        self.s + l * (self.z * self.y) + lane * self.y + j
    }

    /// The slots of a lane from level `l` on.
    pub open spec fn tail(self, work: Seq<Block32>, lane: int, l: int) -> Seq<Block32> {
        Seq::new(
            ((self.h - l) * self.y) as nat,
            |k: int| work[self.place(lane, l + k / self.y, k % self.y)],
        )
    }

    /// A lane has a vacant slot at level `l`.
    pub open spec fn open(self, work: Seq<Block32>, lane: int, l: int) -> bool {
        exists|j: int| 0 <= j < self.y && (#[trigger] work[self.place(lane, l, j)]).vacant()
    }

    /// A block that may go to level `l` of the path: the highest `l` digits of the two
    /// leaves agree.
    pub open spec fn may_reach(self, block: Block32, path: PosType, l: int) -> bool {
        !block.vacant() && same_prefix(self.b, self.h, l, block.pos as int, path as int)
    }

    /// A block of the stash may go to level `l`.
    pub open spec fn stash_ready(self, work: Seq<Block32>, path: PosType, l: int) -> bool {
        exists|i: int| 0 <= i < self.s && self.may_reach(#[trigger] work[i], path, l)
    }

    /// A block of the lane above level `l` may go there.
    pub open spec fn lane_ready(self, work: Seq<Block32>, lane: int, path: PosType, l: int) -> bool {
        exists|e: int, j: int|
            0 <= e < l && 0 <= j < self.y && self.may_reach(
                #[trigger] work[self.place(lane, e, j)],
                path,
                l,
            )
    }

    /// Lane slots lie in the array.
    proof fn lemma_place(self, lane: int, l: int, j: int)
        requires
            self.wf(),
            0 <= lane < self.z,
            0 <= l < self.h,
            0 <= j < self.y,
        ensures
            self.s <= self.place(lane, l, j) < self.s + self.h * (self.z * self.y),
            0 <= l * self.y + j < self.h * self.y,
            (l * self.y + j) / self.y == l,
            (l * self.y + j) % self.y == j,
            self.place(lane, l, j) == column_place(
                self.s,
                self.z,
                self.y,
                lane,
                self.s + l * self.y + j,
            ),
    {
        lemma_row_place(lane, j, self.y, self.z);
        lemma_row_place(l, lane * self.y + j, self.z * self.y, self.h);
        lemma_row_place(l, j, self.y, self.h);
        vstd::arithmetic::div_mod::lemma_fundamental_div_mod_converse(
            l * self.y + j,
            self.y,
            l,
            j,
        );
    }

    /// The column of a lane.
    spec fn column(self, work: Seq<Block32>, lane: int) -> Seq<Block32> {
        column_of(work, self.s, self.z, self.y, self.h, lane)
    }

    proof fn lemma_column(self, work: Seq<Block32>, lane: int, path: PosType)
        requires
            self.wf(),
            self.fits(work),
            0 <= lane < self.z,
            path < full_width(self.h - 1, self.b),
        ensures
            ({
                let col = self.column(work, lane);
                let d = column_depths(col, path, self.b, self.h);
                &&& column_size(col, self.s + self.y, self.y, self.h)
                &&& column_fits(col, d, self.s + self.y)
                &&& col.len() == self.s + self.h * self.y
                &&& forall|i: int| 0 <= i < self.s ==> #[trigger] col[i] == work[i]
                &&& forall|l: int, j: int|
                    0 <= l < self.h && 0 <= j < self.y ==> col[self.s + l * self.y + j]
                        == #[trigger] work[self.place(lane, l, j)]
                &&& forall|k: int, l: int|
                    #![trigger d[k], self.may_reach(col[k], path, l)]
                    0 <= k < col.len() && 0 <= l < self.h && !col[k].vacant() ==> (d[k] >= l
                        <==> self.may_reach(col[k], path, l))
            }),
    {
        let col = self.column(work, lane);
        let d = column_depths(col, path, self.b, self.h);
        let at = column_places(self.s, self.z, self.y, self.h, lane);
        assert(0 <= self.h * self.y && self.s + self.y + (self.h - 1) * self.y == self.s + self.h
            * self.y) by (nonlinear_arith)
            requires
                self.h >= 1,
                self.y >= 1,
        ;
        assert forall|k: int| 0 <= k < col.len() implies (#[trigger] col[k]) == work[column_place(
            self.s,
            self.z,
            self.y,
            lane,
            k,
        )] && (col[k].vacant() || col[k].pos < full_width(self.h - 1, self.b)) by {
            lemma_column_place(self.s, self.z, self.y, self.h, lane, k);
            assert(at[k] == column_place(self.s, self.z, self.y, lane, k));
        }
        assert forall|k: int, l: int|
            #![trigger d[k], self.may_reach(col[k], path, l)]
            0 <= k < col.len() && 0 <= l < self.h && !col[k].vacant() implies (d[k] >= l
            <==> self.may_reach(col[k], path, l)) by {
            lemma_shared_digits(self.b, self.h, self.h - 1, col[k].pos as int, path as int);
        }
        assert forall|k: int| 0 <= k < col.len() implies {
            &&& -1 <= #[trigger] d[k]
            &&& col[k].vacant() ==> d[k] == -1
            &&& k >= self.s + self.y && !col[k].vacant() ==> d[k] != -1
        } by {
            assert(col[k].vacant() || col[k].pos < full_width(self.h - 1, self.b));
            if !col[k].vacant() {
                lemma_shared_digits(self.b, self.h, self.h - 1, col[k].pos as int, path as int);
            }
        }
        assert forall|l: int, j: int|
            0 <= l < self.h && 0 <= j < self.y implies col[self.s + l * self.y + j]
            == #[trigger] work[self.place(lane, l, j)] by {
            self.lemma_place(lane, l, j);
        }
    }

    proof fn lemma_tail(self, work: Seq<Block32>, lane: int, l: int)
        requires
            self.wf(),
            0 <= lane < self.z,
            1 <= l < self.h,
        ensures
            self.column(work, lane).skip(self.s + l * self.y) == self.tail(work, lane, l),
    {
        let col = self.column(work, lane);
        let at = column_places(self.s, self.z, self.y, self.h, lane);
        let start = self.s + l * self.y;
        assert(0 <= l * self.y && l * self.y <= self.h * self.y && (self.h - l) * self.y == self.h
            * self.y - l * self.y) by (nonlinear_arith)
            requires
                1 <= l < self.h,
                1 <= self.y,
        ;
        let t = self.tail(work, lane, l);
        assert forall|k: int| 0 <= k < t.len() implies col.skip(start)[k] == t[k] by {
            lemma_row_of(k, self.y, self.h - l);
            let e = l + k / self.y;
            let j = k % self.y;
            assert(e * self.y + j == l * self.y + k) by (nonlinear_arith)
                requires
                    e == l + k / self.y,
                    k == (k / self.y) * self.y + j,
            ;
            self.lemma_place(lane, e, j);
            assert(at[start + k] == self.place(lane, e, j));
        }
        assert(col.skip(start) =~= t);
    }

    /// A pass over a lane makes progress in it, whichever lane it is. From every level
    /// below the root on the lane loses no block and gets one at most. It gets one where
    /// the level has a vacant slot and a block of the stash, or of the lane above the
    /// level, may go there; it gets none where no such block may.
    pub proof fn lemma_pass_progress(
        self,
        work: Seq<Block32>,
        after: Seq<Block32>,
        lane: int,
        path: PosType,
        l: int,
    )
        requires
            self.wf(),
            self.fits(work),
            0 <= lane < self.z,
            path < full_width(self.h - 1, self.b),
            lane_pass(work, after, self.s, self.z, self.y, self.h, lane, path, self.b),
            1 <= l < self.h,
        ensures
            ({
                let was = live(self.tail(work, lane, l));
                let now = live(self.tail(after, lane, l));
                let ready = self.stash_ready(work, path, l) || self.lane_ready(work, lane, path, l);
                &&& was <= now <= was + 1
                &&& self.open(work, lane, l) && ready ==> now == was + 1
                &&& !ready ==> now == was
            }),
    {
        let col = self.column(work, lane);
        let d = column_depths(col, path, self.b, self.h);
        let out = self.column(after, lane);
        let n0 = self.s + self.y;
        let start = n0 + (l - 1) * self.y;
        self.lemma_column(work, lane, path);
        self.lemma_tail(work, lane, l);
        self.lemma_tail(after, lane, l);
        lemma_column_progress(col, d, out, n0, self.y, self.h, l);
        assert(start == self.s + l * self.y) by (nonlinear_arith)
            requires
                start == self.s + self.y + (l - 1) * self.y,
        ;
        assert(0 <= l * self.y) by (nonlinear_arith)
            requires
                1 <= l,
                1 <= self.y,
        ;
        if self.open(work, lane, l) {
            let j = choose|j: int|
                0 <= j < self.y && (#[trigger] work[self.place(lane, l, j)]).vacant();
            assert(col[start + j].vacant());
        }
        if self.stash_ready(work, path, l) {
            let i = choose|i: int| 0 <= i < self.s && self.may_reach(#[trigger] work[i], path, l);
            assert(self.may_reach(col[i], path, l));
            assert(d[i] >= l);
        }
        if self.lane_ready(work, lane, path, l) {
            let (e, j) = choose|e: int, j: int|
                0 <= e < l && 0 <= j < self.y && self.may_reach(
                    #[trigger] work[self.place(lane, e, j)],
                    path,
                    l,
                );
            self.lemma_place(lane, e, j);
            let k = self.s + e * self.y + j;
            lemma_row_place(e, j, self.y, l);
            assert(self.may_reach(col[k], path, l));
            assert(d[k] >= l);
        }
        if exists|k: int| 0 <= k < start && #[trigger] d[k] >= l {
            let k = choose|k: int| 0 <= k < start && #[trigger] d[k] >= l;
            assert(!col[k].vacant());
            assert(self.may_reach(col[k], path, l));
            if k < self.s {
                assert(self.may_reach(work[k], path, l));
            } else {
                lemma_row_of(k - self.s, self.y, l);
                let e = (k - self.s) / self.y;
                let j = (k - self.s) % self.y;
                assert(self.may_reach(work[self.place(lane, e, j)], path, l));
            }
        }
    }

    /// A pass over a lane leaves the other lanes alone, fills no stash slot, and holds no
    /// block that was not there before.
    pub proof fn lemma_pass_frame(
        self,
        work: Seq<Block32>,
        after: Seq<Block32>,
        lane: int,
        path: PosType,
    )
        requires
            self.wf(),
            self.fits(work),
            0 <= lane < self.z,
            path < full_width(self.h - 1, self.b),
            lane_pass(work, after, self.s, self.z, self.y, self.h, lane, path, self.b),
        ensures
            self.fits(after),
            forall|i: int|
                0 <= i < self.s ==> #[trigger] after[i] == work[i] || after[i].vacant(),
            forall|other: int, l: int, j: int|
                0 <= other < self.z && other != lane && 0 <= l < self.h && 0 <= j < self.y
                    ==> #[trigger] after[self.place(other, l, j)] == work[self.place(
                    other,
                    l,
                    j,
                )],
    {
        let col = self.column(work, lane);
        let d = column_depths(col, path, self.b, self.h);
        let out = self.column(after, lane);
        let n0 = self.s + self.y;
        let at = column_places(self.s, self.z, self.y, self.h, lane);
        self.lemma_column(work, lane, path);
        assert(0 <= self.h * (self.z * self.y)) by (nonlinear_arith)
            requires
                self.h >= 1,
                self.z >= 1,
                self.y >= 1,
        ;
        assert forall|k: int| 0 <= k < out.len() implies (#[trigger] out[k]) == after[at[k]]
            && at[k] == column_place(self.s, self.z, self.y, lane, k) by {}
        assert forall|i: int| 0 <= i < self.s implies #[trigger] after[i] == work[i]
            || after[i].vacant() by {
            lemma_column_place(self.s, self.z, self.y, self.h, lane, i);
            assert(out[i] == after[i] && col[i] == work[i]);
            if !after[i].vacant() {
                lemma_column_origin(col, d, out, n0, self.y, self.h, 0, i);
            }
        }
        assert forall|i: int| 0 <= i < after.len() && !(#[trigger] after[i]).vacant() implies after[i].pos
            < full_width(self.h - 1, self.b) by {
            if at.contains(i) {
                let k = choose|k: int| 0 <= k < at.len() && at[k] == i;
                lemma_column_place(self.s, self.z, self.y, self.h, lane, k);
                assert(out[k] == after[i]);
                let l = if k < n0 {
                    0
                } else {
                    (k - self.s) / self.y
                };
                if k >= n0 {
                    lemma_row_of(k - self.s, self.y, self.h);
                    assert(n0 + (l - 1) * self.y == self.s + l * self.y && n0 + l * self.y
                        == self.s + l * self.y + self.y && l >= 1) by (nonlinear_arith)
                        requires
                            n0 == self.s + self.y,
                            k >= n0,
                            k - self.s == l * self.y + (k - self.s) % self.y,
                            (k - self.s) % self.y < self.y,
                            self.y >= 1,
                    ;
                }
                lemma_column_origin(col, d, out, n0, self.y, self.h, l, k);
                let m = if out[k] == col[k] {
                    k
                } else {
                    choose|m: int| 0 <= m < col.len() && out[k] == #[trigger] col[m] && d[m] >= l
                };
                lemma_column_place(self.s, self.z, self.y, self.h, lane, m);
                assert(at[m] == column_place(self.s, self.z, self.y, lane, m));
                assert(col[m] == work[at[m]]);
            } else {
                assert(after[i] == work[i]);
            }
        }
        assert forall|other: int, l: int, j: int|
            0 <= other < self.z && other != lane && 0 <= l < self.h && 0 <= j
                < self.y implies #[trigger] after[self.place(other, l, j)] == work[self.place(
            other,
            l,
            j,
        )] by {
            self.lemma_place(other, l, j);
            let i = self.place(other, l, j);
            if at.contains(i) {
                let k = choose|k: int| 0 <= k < at.len() && at[k] == i;
                lemma_column_place(self.s, self.z, self.y, self.h, lane, k);
                let w = self.z * self.y;
                let q = other * self.y + j;
                lemma_row_place(other, j, self.y, self.z);
                let e = (k - self.s) / self.y;
                let r = lane * self.y + (k - self.s) % self.y;
                vstd::arithmetic::div_mod::lemma_fundamental_div_mod_converse(l * w + q, w, l, q);
                vstd::arithmetic::div_mod::lemma_fundamental_div_mod_converse(e * w + r, w, e, r);
                vstd::arithmetic::div_mod::lemma_fundamental_div_mod_converse(
                    q,
                    self.y,
                    other,
                    j,
                );
                assert(false);
            }
        }
    }

    /// `steps` are the arrays of `n` passes over the lanes of the path in turn.
    spec fn chain(self, steps: Seq<Seq<Block32>>, n: int, path: PosType) -> bool {
        &&& steps.len() == n + 1
        &&& 0 <= n
        &&& forall|i: int|
            1 <= i <= n ==> #[trigger] lane_step(
                steps,
                i,
                self.s,
                self.z,
                self.y,
                self.h,
                path,
                self.b,
            )
    }

    proof fn lemma_chain_fits(self, steps: Seq<Seq<Block32>>, n: int, path: PosType, i: int)
        requires
            self.wf(),
            self.fits(steps[0]),
            path < full_width(self.h - 1, self.b),
            self.chain(steps, n, path),
            0 <= i <= n,
        ensures
            self.fits(steps[i]),
        decreases i,
    {
        if i > 0 {
            self.lemma_chain_fits(steps, n, path, i - 1);
            assert(lane_step(steps, i, self.s, self.z, self.y, self.h, path, self.b));
            self.lemma_pass_frame(steps[i - 1], steps[i], (i - 1) % self.z, path);
        }
    }

    /// What is in the stash at the end was there all along.
    proof fn lemma_chain_stash(
        self,
        steps: Seq<Seq<Block32>>,
        n: int,
        path: PosType,
        i: int,
        q: int,
    )
        requires
            self.wf(),
            self.fits(steps[0]),
            path < full_width(self.h - 1, self.b),
            self.chain(steps, n, path),
            0 <= i <= n,
            0 <= q < self.s,
            !steps[n][q].vacant(),
        ensures
            steps[i][q] == steps[n][q],
        decreases n - i,
    {
        if i < n {
            self.lemma_chain_stash(steps, n, path, i + 1, q);
            self.lemma_chain_fits(steps, n, path, i);
            assert(lane_step(steps, i + 1, self.s, self.z, self.y, self.h, path, self.b));
            self.lemma_pass_frame(steps[i], steps[i + 1], i % self.z, path);
        }
    }

    /// The tail of a lane depends on its own slots alone.
    proof fn lemma_tail_same(self, x: Seq<Block32>, y: Seq<Block32>, lane: int, l: int)
        requires
            self.wf(),
            0 <= lane < self.z,
            1 <= l < self.h,
            forall|e: int, j: int|
                0 <= e < self.h && 0 <= j < self.y ==> #[trigger] x[self.place(lane, e, j)]
                    == y[self.place(lane, e, j)],
        ensures
            self.tail(x, lane, l) == self.tail(y, lane, l),
    {
        let t = self.tail(x, lane, l);
        let u = self.tail(y, lane, l);
        assert forall|k: int| 0 <= k < t.len() implies t[k] == u[k] by {
            lemma_row_of(k, self.y, self.h - l);
            let e = l + k / self.y;
            let j = k % self.y;
            assert(x[self.place(lane, e, j)] == y[self.place(lane, e, j)]);
        }
        assert(t =~= u);
    }

    /// Before its turn a lane is as it was.
    proof fn lemma_chain_waits(
        self,
        steps: Seq<Seq<Block32>>,
        n: int,
        path: PosType,
        lane: int,
        i: int,
    )
        requires
            self.wf(),
            self.fits(steps[0]),
            path < full_width(self.h - 1, self.b),
            self.chain(steps, n, path),
            0 <= lane < self.z,
            0 <= i <= n,
            i <= lane,
        ensures
            forall|e: int, j: int|
                0 <= e < self.h && 0 <= j < self.y ==> #[trigger] steps[i][self.place(lane, e, j)]
                    == steps[0][self.place(lane, e, j)],
        decreases i,
    {
        if i > 0 {
            self.lemma_chain_waits(steps, n, path, lane, i - 1);
            self.lemma_chain_fits(steps, n, path, i - 1);
            assert(lane_step(steps, i, self.s, self.z, self.y, self.h, path, self.b));
            vstd::arithmetic::div_mod::lemma_small_mod((i - 1) as nat, self.z as nat);
            self.lemma_pass_frame(steps[i - 1], steps[i], (i - 1) % self.z, path);
            assert forall|e: int, j: int|
                0 <= e < self.h && 0 <= j < self.y implies #[trigger] steps[i][self.place(
                lane,
                e,
                j,
            )] == steps[0][self.place(lane, e, j)] by {
                assert(steps[i][self.place(lane, e, j)] == steps[i - 1][self.place(lane, e, j)]);
            }
        }
    }

    /// How many of the first `i` passes go over the lane.
    spec fn turns(self, lane: int, i: int) -> int {
        (i + self.z - 1 - lane) / self.z
    }

    /// From a level on a lane never loses a block, and gets one per turn at most.
    proof fn lemma_chain_bounds(
        self,
        steps: Seq<Seq<Block32>>,
        n: int,
        path: PosType,
        lane: int,
        l: int,
        from: int,
        i: int,
    )
        requires
            self.wf(),
            self.fits(steps[0]),
            path < full_width(self.h - 1, self.b),
            self.chain(steps, n, path),
            0 <= lane < self.z,
            1 <= l < self.h,
            0 <= from <= i <= n,
        ensures
            live(self.tail(steps[from], lane, l)) <= live(self.tail(steps[i], lane, l)),
            live(self.tail(steps[i], lane, l)) <= live(self.tail(steps[from], lane, l))
                + self.turns(lane, i) - self.turns(lane, from),
        decreases i - from,
    {
        if i > from {
            self.lemma_chain_bounds(steps, n, path, lane, l, from, i - 1);
            self.lemma_chain_fits(steps, n, path, i - 1);
            assert(lane_step(steps, i, self.s, self.z, self.y, self.h, path, self.b));
            let turn = (i - 1) % self.z;
            vstd::arithmetic::div_mod::lemma_mod_bound(i - 1, self.z);
            vstd::arithmetic::div_mod::lemma_fundamental_div_mod(i - 1, self.z);
            let q = (i - 1) / self.z;
            let z = self.z;
            assert(z * (q + 1) == z * q + z && q * z == z * q && (q + 1) * z == z * q + z)
                by (nonlinear_arith);
            assert(i == z * q + turn + 1);
            if turn == lane {
                self.lemma_pass_progress(steps[i - 1], steps[i], lane, path, l);
                vstd::arithmetic::div_mod::lemma_fundamental_div_mod_converse(
                    i - 1 + z - 1 - lane,
                    z,
                    q,
                    z - 1,
                );
                vstd::arithmetic::div_mod::lemma_fundamental_div_mod_converse(
                    i + z - 1 - lane,
                    z,
                    q + 1,
                    0,
                );
            } else {
                self.lemma_pass_frame(steps[i - 1], steps[i], turn, path);
                self.lemma_tail_same(steps[i], steps[i - 1], lane, l);
                if turn < lane {
                    vstd::arithmetic::div_mod::lemma_fundamental_div_mod_converse(
                        i - 1 + z - 1 - lane,
                        z,
                        q,
                        turn + z - 1 - lane,
                    );
                    vstd::arithmetic::div_mod::lemma_fundamental_div_mod_converse(
                        i + z - 1 - lane,
                        z,
                        q,
                        turn + z - lane,
                    );
                } else {
                    vstd::arithmetic::div_mod::lemma_fundamental_div_mod_converse(
                        i - 1 + z - 1 - lane,
                        z,
                        q + 1,
                        turn - 1 - lane,
                    );
                    vstd::arithmetic::div_mod::lemma_fundamental_div_mod_converse(
                        i + z - 1 - lane,
                        z,
                        q + 1,
                        turn - lane,
                    );
                }
            }
        }
    }

    /// What `rounds` passes over every lane achieve: from every level below the root on no
    /// lane loses a block, and none gets more than one per round. Where a lane had a vacant
    /// slot at the level, and a block of the lane above it might go there, or one that is
    /// still in the stash may, the lane has more blocks from that level on.
    pub open spec fn rounds_progress(
        self,
        work: Seq<Block32>,
        after: Seq<Block32>,
        rounds: int,
        path: PosType,
    ) -> bool {
        forall|lane: int, l: int|
            0 <= lane < self.z && 1 <= l < self.h ==> {
                let was = live(self.tail(work, lane, l));
                let now = live(#[trigger] self.tail(after, lane, l));
                &&& was <= now <= was + rounds
                &&& rounds >= 1 && self.open(work, lane, l) && (self.stash_ready(after, path, l)
                    || self.lane_ready(work, lane, path, l)) ==> now > was
            }
    }

    /// Passes over all lanes make progress in every lane.
    pub proof fn lemma_rounds_progress(
        self,
        work: Seq<Block32>,
        after: Seq<Block32>,
        rounds: int,
        path: PosType,
    )
        requires
            self.wf(),
            self.fits(work),
            path < full_width(self.h - 1, self.b),
            0 <= rounds,
            lane_passes(
                work,
                after,
                rounds * self.z,
                self.s,
                self.z,
                self.y,
                self.h,
                path,
                self.b,
            ),
        ensures
            self.fits(after),
            self.rounds_progress(work, after, rounds, path),
    {
        let n = rounds * self.z;
        let steps = choose|steps: Seq<Seq<Block32>>|
            #![trigger steps.first()]
            {
                &&& steps.len() == n + 1
                &&& steps.first() == work
                &&& steps.last() == after
                &&& forall|i: int|
                    1 <= i <= n ==> #[trigger] lane_step(
                        steps,
                        i,
                        self.s,
                        self.z,
                        self.y,
                        self.h,
                        path,
                        self.b,
                    )
            };
        assert(0 <= n) by (nonlinear_arith)
            requires
                n == rounds * self.z,
                0 <= rounds,
                1 <= self.z,
        ;
        assert(steps[0] == work && steps[n] == after);
        assert(self.chain(steps, n, path));
        self.lemma_chain_fits(steps, n, path, n);
        assert forall|lane: int, l: int| 0 <= lane < self.z && 1 <= l < self.h implies {
            let was = live(self.tail(work, lane, l));
            let now = live(#[trigger] self.tail(after, lane, l));
            &&& was <= now <= was + rounds
            &&& rounds >= 1 && self.open(work, lane, l) && (self.stash_ready(after, path, l)
                || self.lane_ready(work, lane, path, l)) ==> now > was
        } by {
            self.lemma_chain_bounds(steps, n, path, lane, l, 0, n);
            vstd::arithmetic::div_mod::lemma_fundamental_div_mod_converse(
                self.z - 1 - lane,
                self.z,
                0,
                self.z - 1 - lane,
            );
            vstd::arithmetic::div_mod::lemma_fundamental_div_mod_converse(
                n + self.z - 1 - lane,
                self.z,
                rounds,
                self.z - 1 - lane,
            );
            if rounds >= 1 && self.open(work, lane, l) && (self.stash_ready(after, path, l)
                || self.lane_ready(work, lane, path, l)) {
                assert(n >= self.z) by (nonlinear_arith)
                    requires
                        n == rounds * self.z,
                        rounds >= 1,
                        self.z >= 1,
                ;
                self.lemma_chain_waits(steps, n, path, lane, lane);
                self.lemma_chain_fits(steps, n, path, lane);
                let mid = steps[lane];
                self.lemma_tail_same(mid, work, lane, l);
                assert(lane_step(
                    steps,
                    lane + 1,
                    self.s,
                    self.z,
                    self.y,
                    self.h,
                    path,
                    self.b,
                ));
                vstd::arithmetic::div_mod::lemma_small_mod(lane as nat, self.z as nat);
                self.lemma_pass_progress(mid, steps[lane + 1], lane, path, l);
                self.lemma_chain_bounds(steps, n, path, lane, l, lane + 1, n);
                let j = choose|j: int|
                    0 <= j < self.y && (#[trigger] work[self.place(lane, l, j)]).vacant();
                assert(mid[self.place(lane, l, j)].vacant());
                if self.stash_ready(after, path, l) {
                    let i = choose|i: int|
                        0 <= i < self.s && self.may_reach(#[trigger] after[i], path, l);
                    self.lemma_chain_stash(steps, n, path, lane, i);
                    assert(self.may_reach(mid[i], path, l));
                } else {
                    let (e, k) = choose|e: int, k: int|
                        0 <= e < l && 0 <= k < self.y && self.may_reach(
                            #[trigger] work[self.place(lane, e, k)],
                            path,
                            l,
                        );
                    assert(self.may_reach(mid[self.place(lane, e, k)], path, l));
                }
            }
        }
    }

    /// Array `r + 1` of `w` comes from array `r` by progress of one round.
    pub open spec fn round_step(self, w: Seq<Seq<Block32>>, r: int, path: PosType) -> bool {
        self.rounds_progress(w[r], w[r + 1], 1, path)
    }

    /// `rounds` rounds, each with its own progress, lead from `work` to `after`.
    pub open spec fn round_by_round(
        self,
        work: Seq<Block32>,
        after: Seq<Block32>,
        rounds: int,
        path: PosType,
    ) -> bool {
        exists|w: Seq<Seq<Block32>>|
            #![trigger w.first()]
            {
                &&& w.len() == rounds + 1
                &&& w.first() == work
                &&& w.last() == after
                &&& forall|r: int| 0 <= r < rounds ==> #[trigger] self.round_step(w, r, path)
            }
    }

    /// Passes over all lanes make progress round by round.
    pub proof fn lemma_round_by_round(
        self,
        work: Seq<Block32>,
        after: Seq<Block32>,
        rounds: int,
        path: PosType,
    )
        requires
            self.wf(),
            self.fits(work),
            path < full_width(self.h - 1, self.b),
            0 <= rounds,
            lane_passes(
                work,
                after,
                rounds * self.z,
                self.s,
                self.z,
                self.y,
                self.h,
                path,
                self.b,
            ),
        ensures
            self.round_by_round(work, after, rounds, path),
    {
        let z = self.z;
        let n = rounds * z;
        let steps = choose|steps: Seq<Seq<Block32>>|
            #![trigger steps.first()]
            {
                &&& steps.len() == n + 1
                &&& steps.first() == work
                &&& steps.last() == after
                &&& forall|i: int|
                    1 <= i <= n ==> #[trigger] lane_step(
                        steps,
                        i,
                        self.s,
                        self.z,
                        self.y,
                        self.h,
                        path,
                        self.b,
                    )
            };
        assert(0 <= n) by (nonlinear_arith)
            requires
                n == rounds * z,
                0 <= rounds,
                1 <= z,
        ;
        assert(steps[0] == work && steps[n] == after);
        assert(self.chain(steps, n, path));
        let w = Seq::new((rounds + 1) as nat, |r: int| steps[r * z]);
        assert(w.first() == work) by {
            assert(0 * z == 0);
        }
        assert(w.last() == after);
        assert forall|r: int| 0 <= r < rounds implies #[trigger] self.round_step(w, r, path) by {
            let at = r * z;
            assert((r + 1) * z == at + z && 0 <= at && at + z <= n) by (nonlinear_arith)
                requires
                    at == r * z,
                    0 <= r,
                    r + 1 <= rounds,
                    n == rounds * z,
                    1 <= z,
            ;
            let part = steps.subrange(at, at + z + 1);
            assert(part.first() == w[r] && part.last() == w[r + 1]);
            assert forall|i: int| 1 <= i <= z implies #[trigger] lane_step(
                part,
                i,
                self.s,
                self.z,
                self.y,
                self.h,
                path,
                self.b,
            ) by {
                assert(lane_step(
                    steps,
                    at + i,
                    self.s,
                    self.z,
                    self.y,
                    self.h,
                    path,
                    self.b,
                ));
                vstd::arithmetic::div_mod::lemma_mod_multiples_vanish(r, i - 1, z);
                assert(z * r + (i - 1) == at + i - 1) by (nonlinear_arith)
                    requires
                        at == r * z,
                ;
            }
            self.lemma_chain_fits(steps, n, path, at);
            assert(1 * z == z);
            self.lemma_rounds_progress(w[r], w[r + 1], 1, path);
        }
    }
}

/// A path that was put back is what is read when it is opened again.
pub proof fn lemma_put_back_opened<B: PathBlock>(st: PathState<B>, p: int)
    requires
        st.shape(),
        0 <= p < st.geo.leaves,
    ensures
        ({
            let c = PathState { nodes: put_back(st, p), ..st };
            &&& c.shape()
            &&& c.opened(p) == st.work
        }),
{
    let nodes = put_back(st, p);
    let at = st.geo.path(p);
    let c = PathState { nodes, ..st };
    assert forall|d: int| 0 <= d < st.geo.h implies nodes[#[trigger] (st.geo.index)(d, p)] == st.row(
        d,
    ) by {
        let k = (st.geo.index)(d, p);
        assert(at[d] == k);
        assert(at.contains(k));
        let e = at.index_of(k);
        assert(0 <= e < at.len() && at[e] == k);
        assert((st.geo.index)(e, p) == (st.geo.index)(d, p));
    }
    assert(c.shape());
    c.lemma_opened(p);
    let o = c.with_work(c.opened(p));
    assert forall|i: int| 0 <= i < st.work.len() implies st.work[i] == c.opened(p)[i] by {
        if i < st.s {
            assert(o.stash()[i] == c.stash()[i]);
        } else {
            lemma_row_of(i - st.s, st.w, st.geo.h);
            let d = (i - st.s) / st.w;
            let j = (i - st.s) % st.w;
            assert(o.slot(d, j) == nodes[(st.geo.index)(d, p)][j]);
            assert(st.row(d)[j] == st.slot(d, j));
        }
    }
    assert(c.opened(p) =~= st.work);
}

impl<
    const Z: usize,
    const Y: usize,
    const S: usize,
    const B: usize,
    const E: usize,
> LaneORAMFixed<Z, Y, S, B, E> {
    /// The sizes of the stash and of a path.
    pub open spec fn sizes(&self) -> LaneSizes {
        LaneSizes { s: S as int, z: Z as int, y: Y as int, h: self.h as int, b: B as int }
    }

    /// The opened path with the block of a key replaced has the sizes of the ORAM.
    proof fn lemma_opened_fits(&self, pos: PosType, block: Block32)
        requires
            self.wf(),
            pos < self.max_n,
            block.pos < self.max_n,
        ensures
            ({
                let taken = without_key32(self.state().opened(pos as int), block.key);
                &&& self.sizes().wf()
                &&& self.sizes().fits(taken)
                &&& self.sizes().fits(with_block(taken, S as int, block))
            }),
    {
        let g = self.sizes();
        let st = self.state();
        let p = pos as int;
        self.lemma_state();
        st.lemma_open(p);
        st.lemma_opened(p);
        let o = st.with_work(st.opened(p));
        let taken = without_key32(st.opened(p), block.key);
        let put = with_block(taken, S as int, block);
        let i = first_vacant(taken, 0, S as int);
        lemma_first_vacant(taken, 0, S as int);
        assert forall|k: int| 0 <= k < o.work.len() && !(#[trigger] o.work[k]).vacant() implies o.work[k].pos
            < self.max_n by {
            if k < st.s {
                assert(o.work[k].leaf_of() < st.geo.leaves);
            } else {
                lemma_row_of(k - st.s, st.w, st.geo.h);
                let d = (k - st.s) / st.w;
                let j = (k - st.s) % st.w;
                assert(o.slot(d, j) == o.work[k]);
                assert(st.geo.allows(d, p, o.slot(d, j).leaf_of()));
            }
        }
        assert(g.fits(taken)) by {
            assert forall|k: int| 0 <= k < taken.len() && !(#[trigger] taken[k]).vacant() implies taken[k].pos
                < full_width(g.h - 1, g.b) by {
                assert(taken[k] == o.work[k]);
            }
        }
        assert(g.fits(put));
    }

    /// An update makes progress in every lane of the accessed path. From every level below
    /// the root on, beside the block of the key, no lane of the path loses a block and none
    /// gets more than `E`. Where a lane has a vacant slot at the level, and a block of the
    /// lane above it may go there, or one that stays in the stash may, the lane has more
    /// blocks from that level on than before.
    pub proof fn lemma_update_progress(before: &Self, after: &Self, pos: PosType, block: Block32)
        requires
            before.wf(),
            after.wf(),
            after.h == before.h,
            pos < before.max_n,
            block.pos < before.max_n,
            1 <= E,
            after.settled_from(before, pos, block),
        ensures
            before.sizes().rounds_progress(
                without_key32(before.state().opened(pos as int), block.key),
                after.state().opened(pos as int),
                E as int,
                pos,
            ),
    {
        let g = before.sizes();
        let st = before.state();
        let p = pos as int;
        before.lemma_state();
        after.lemma_state();
        before.lemma_opened_fits(pos, block);
        let taken = without_key32(st.opened(p), block.key);
        let put = with_block(taken, S as int, block);
        lemma_first_vacant(taken, 0, S as int);
        assert(E * Z == Z * E) by (nonlinear_arith);
        g.lemma_rounds_progress(put, after.state().work, E as int, pos);
        lemma_put_back_opened(st.with_work(after.state().work), p);
        assert(after.state().opened(p) == after.state().work);
        let w1 = after.state().work;
        assert forall|lane: int, l: int| 0 <= lane < g.z && 1 <= l < g.h implies {
            let was = live(g.tail(taken, lane, l));
            let now = live(#[trigger] g.tail(w1, lane, l));
            &&& was <= now <= was + E
            &&& E >= 1 && g.open(taken, lane, l) && (g.stash_ready(w1, pos, l) || g.lane_ready(
                taken,
                lane,
                pos,
                l,
            )) ==> now > was
        } by {
            assert forall|e: int, j: int| 0 <= e < g.h && 0 <= j < g.y implies #[trigger] put[g.place(
                lane,
                e,
                j,
            )] == taken[g.place(lane, e, j)] by {
                g.lemma_place(lane, e, j);
            }
            g.lemma_tail_same(put, taken, lane, l);
            if g.open(taken, lane, l) {
                let j = choose|j: int|
                    0 <= j < g.y && (#[trigger] taken[g.place(lane, l, j)]).vacant();
                assert(put[g.place(lane, l, j)].vacant());
            }
            if g.lane_ready(taken, lane, pos, l) {
                let (e, k) = choose|e: int, k: int|
                    0 <= e < l && 0 <= k < g.y && g.may_reach(
                        #[trigger] taken[g.place(lane, e, k)],
                        pos,
                        l,
                    );
                assert(g.may_reach(put[g.place(lane, e, k)], pos, l));
            }
        }
    }

    /// An update makes `E` rounds over the lanes, and each of them makes progress from where
    /// the one before it ended.
    pub proof fn lemma_update_rounds(before: &Self, after: &Self, pos: PosType, block: Block32)
        requires
            before.wf(),
            after.wf(),
            after.h == before.h,
            pos < before.max_n,
            block.pos < before.max_n,
            after.settled_from(before, pos, block),
        ensures
            before.sizes().round_by_round(
                with_block(
                    without_key32(before.state().opened(pos as int), block.key),
                    S as int,
                    block,
                ),
                after.state().opened(pos as int),
                E as int,
                pos,
            ),
    {
        let g = before.sizes();
        let st = before.state();
        let p = pos as int;
        before.lemma_state();
        after.lemma_state();
        before.lemma_opened_fits(pos, block);
        assert(E * Z == Z * E) by (nonlinear_arith);
        let put = with_block(without_key32(st.opened(p), block.key), S as int, block);
        g.lemma_round_by_round(put, after.state().work, E as int, pos);
        lemma_put_back_opened(st.with_work(after.state().work), p);
        assert(after.state().opened(p) == after.state().work);
    }
}

} // verus!
