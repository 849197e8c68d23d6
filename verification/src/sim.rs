//! The simulation rules: the probabilistic initial fill and the per-tick
//! settling step, each specified exactly by a recursive model of the scan
//! it performs, together with the conservation and quiescence laws.

use vstd::prelude::*;
use crate::grid::{
    Grid, at, put, occ_count, lemma_idx_bounds, lemma_idx_injective, lemma_count_update,
};
use crate::rng::{RandSource, spec_next, RAND_UNIT};

verus! {

/// A draw at or below this fixed-point threshold (8% of the unit) makes an
/// eligible cell attempt the two-row skip instead of the single-row fall.
pub const SKIP_THRESHOLD: u32 = 80000;

/// A cell is eligible to move when it is occupied and the cell directly
/// below it is empty.
pub open spec fn eligible(c: Seq<bool>, cols: int, rows: int, x: int, y: int) -> bool {
    at(c, cols, rows, x, y) && !at(c, cols, rows, x, y + 1)
}

/// The settling rule for one visited cell: an eligible cell falls one row
/// on a draw above the threshold, and otherwise skips two rows when the
/// skip target does not hold an occupied cell. A skip whose target lies
/// below the grid clears the cell without landing it anywhere: the write
/// out of bounds is ignored.
pub open spec fn settle(c: Seq<bool>, cols: int, rows: int, x: int, y: int, d: u32) -> Seq<
    bool,
> {
    if eligible(c, cols, rows, x, y) {
        if d > SKIP_THRESHOLD {
            put(put(c, cols, rows, x, y, false), cols, rows, x, y + 1, true)
        } else if !at(c, cols, rows, x, y + 2) {
            put(put(c, cols, rows, x, y, false), cols, rows, x, y + 2, true)
        } else {
            c
        }
    } else {
        c
    }
}

/// One scan of row `y` from column `x` to the right edge: each eligible
/// cell consumes one draw from the source and settles.
pub open spec fn step_row(
    c: Seq<bool>,
    cols: int,
    rows: int,
    y: int,
    x: int,
    s: RandSource,
) -> (Seq<bool>, RandSource)
    decreases cols - x,
{
    if 0 <= x < cols {
        if eligible(c, cols, rows, x, y) {
            let (d, s2) = spec_next(s);
            step_row(settle(c, cols, rows, x, y, d), cols, rows, y, x + 1, s2)
        } else {
            step_row(c, cols, rows, y, x + 1, s)
        }
    } else {
        (c, s)
    }
}

/// Scans rows `y` down to `0`, bottom-to-top, each row left to right.
pub open spec fn step_rows(c: Seq<bool>, cols: int, rows: int, y: int, s: RandSource) -> (
    Seq<bool>,
    RandSource,
)
    decreases y + 1,
{
    if y < 0 {
        (c, s)
    } else {
        let (c2, s2) = step_row(c, cols, rows, y, 0, s);
        step_rows(c2, cols, rows, y - 1, s2)
    }
}

/// The grid and source after one full settling tick from source `s`:
/// rows `rows - 2` down to `0` are scanned; the bottom row is never a
/// source of movement.
pub open spec fn spec_step(c: Seq<bool>, cols: int, rows: int, s: RandSource) -> (
    Seq<bool>,
    RandSource,
) {
    step_rows(c, cols, rows, rows - 2, s)
}

/// Fully settled: every occupied cell sits on the bottom row or has an
/// occupied cell directly beneath it.
pub open spec fn settled(c: Seq<bool>, cols: int, rows: int) -> bool {
    forall|x: int, y: int|
        #[trigger] at(c, cols, rows, x, y) && y < rows - 1 ==> at(c, cols, rows, x, y + 1)
}

/// No cell of the second-to-last row can fall: the one precondition under
/// which a settling tick can lose no grain out of the bottom edge.
pub open spec fn bottom_settled(c: Seq<bool>, cols: int, rows: int) -> bool {
    forall|x: int| !(#[trigger] eligible(c, cols, rows, x, rows - 2))
}

/// The fixed-point probability left after one row of geometric decay.
pub open spec fn decay_step(p: u32, decay: u32) -> u32 {
    ((p * decay) / (RAND_UNIT as int)) as u32
}

/// One scan of row `y` from column `x` to the right edge: every cell
/// consumes one draw and becomes occupied when its draw falls below `p`.
pub open spec fn fill_row(
    c: Seq<bool>,
    cols: int,
    rows: int,
    y: int,
    x: int,
    p: u32,
    s: RandSource,
) -> (Seq<bool>, RandSource)
    decreases cols - x,
{
    if 0 <= x < cols {
        let (d, s2) = spec_next(s);
        let c2 = if d < p {
            put(c, cols, rows, x, y, true)
        } else {
            c
        };
        fill_row(c2, cols, rows, y, x + 1, p, s2)
    } else {
        (c, s)
    }
}

/// Scans rows `y` up to `rows - 2`, decaying the probability after each
/// row; the bottom row is never filled.
pub open spec fn fill_rows(
    c: Seq<bool>,
    cols: int,
    rows: int,
    y: int,
    p: u32,
    decay: u32,
    s: RandSource,
) -> (Seq<bool>, RandSource)
    decreases rows - 1 - y,
{
    if 0 <= y < rows - 1 {
        let (c2, s2) = fill_row(c, cols, rows, y, 0, p, s);
        fill_rows(c2, cols, rows, y + 1, decay_step(p, decay), decay, s2)
    } else {
        (c, s)
    }
}

/// The grid and source after the initial fill from probability `p_start`
/// with per-row decay factor `decay`, both in fixed point.
pub open spec fn spec_fill(
    c: Seq<bool>,
    cols: int,
    rows: int,
    p_start: u32,
    decay: u32,
    s: RandSource,
) -> (Seq<bool>, RandSource) {
    fill_rows(c, cols, rows, 0, p_start, decay, s)
}

/// Settling column `x` leaves rows `y` and `y + 1` of every other column
/// unchanged: a settle only writes its own column, at row `y` and below.
proof fn lemma_settle_other_columns(
    cb: Seq<bool>,
    cols: int,
    rows: int,
    x: int,
    y: int,
    d: u32,
    j: int,
)
    requires
        cb.len() == rows * cols,
        j != x,
    ensures
        at(settle(cb, cols, rows, x, y, d), cols, rows, j, y) == at(cb, cols, rows, j, y),
        at(settle(cb, cols, rows, x, y, d), cols, rows, j, y + 1) == at(
            cb,
            cols,
            rows,
            j,
            y + 1,
        ),
{
    if eligible(cb, cols, rows, x, y) {
        let c1 = put(cb, cols, rows, x, y, false);
        lemma_at_put(cb, cols, rows, x, y, false, j, y);
        lemma_at_put(cb, cols, rows, x, y, false, j, y + 1);
        if d > SKIP_THRESHOLD {
            lemma_at_put(c1, cols, rows, x, y + 1, true, j, y);
            lemma_at_put(c1, cols, rows, x, y + 1, true, j, y + 1);
        } else if !at(cb, cols, rows, x, y + 2) {
            lemma_at_put(c1, cols, rows, x, y + 2, true, j, y);
            lemma_at_put(c1, cols, rows, x, y + 2, true, j, y + 1);
        }
    }
}

/// How `put` changes what `at` reads: only the written in-bounds position
/// changes.
pub proof fn lemma_at_put(
    c: Seq<bool>,
    cols: int,
    rows: int,
    x: int,
    y: int,
    v: bool,
    a: int,
    b: int,
)
    requires
        c.len() == rows * cols,
    ensures
        put(c, cols, rows, x, y, v).len() == c.len(),
        at(put(c, cols, rows, x, y, v), cols, rows, a, b) == if 0 <= x < cols && 0 <= y < rows
            && a == x && b == y {
            v
        } else {
            at(c, cols, rows, a, b)
        },
{
    if 0 <= x < cols && 0 <= y < rows {
        lemma_idx_bounds(cols, rows, x, y);
        if 0 <= a < cols && 0 <= b < rows {
            lemma_idx_bounds(cols, rows, a, b);
            if b * cols + a == y * cols + x {
                lemma_idx_injective(cols, rows, x, y, a, b);
            }
        }
    }
}

impl Grid {
    /// Advances the simulation by one tick. Rows `rows - 2` down to `0`
    /// are visited bottom-to-top, columns left to right; each eligible
    /// cell draws once and settles by the rule of `settle`. The scan
    /// order guarantees a cell that just moved down is not re-examined
    /// within the same tick.
    ///
    /// A tick never creates a grain, leaves a fully settled grid (and the
    /// source) untouched, and on a deterministic source yields exactly
    /// `spec_step` of the prior state.
    #[verifier::loop_isolation(false)]
    pub fn step(&mut self, src: &mut RandSource)
        requires
            old(self).wf(),
            old(src).wf(),
        ensures
            final(self).wf(),
            final(src).wf(),
            final(self).cols == old(self).cols,
            final(self).rows == old(self).rows,
            occ_count(final(self).grains()) <= occ_count(old(self).grains()),
            bottom_settled(old(self).grains(), old(self).cols as int, old(self).rows as int)
                ==> occ_count(final(self).grains()) == occ_count(old(self).grains()),
            settled(old(self).grains(), old(self).cols as int, old(self).rows as int) ==> {
                &&& final(self).grains() == old(self).grains()
                &&& final(self).pix() == old(self).pix()
                &&& *final(src) == *old(src)
            },
            final(src).deterministic() == old(src).deterministic(),
            old(src).deterministic() ==> (final(self).grains(), *final(src)) == spec_step(
                old(self).grains(),
                old(self).cols as int,
                old(self).rows as int,
                *old(src),
            ),
    {
        let cols = self.cols;
        let rows = self.rows;
        let ghost c0 = self.grains();
        let ghost p0 = self.pix();
        let ghost s0 = *src;
        let mut yy: usize = rows - 1;
        while yy > 0
            invariant
                yy <= rows - 1,
                self.wf(),
                src.wf(),
                self.cols == cols,
                self.rows == rows,
                occ_count(self.grains()) <= occ_count(c0),
                yy == rows - 1 ==> self.grains() == c0,
                bottom_settled(c0, cols as int, rows as int) ==> occ_count(self.grains())
                    == occ_count(c0),
                settled(c0, cols as int, rows as int) ==> self.grains() == c0 && self.pix() == p0
                    && *src == s0,
                src.deterministic() == s0.deterministic(),
                s0.deterministic() ==> step_rows(c0, cols as int, rows as int, rows as int - 2, s0)
                    == step_rows(self.grains(), cols as int, rows as int, yy as int - 1, *src),
            decreases yy,
        {
            yy = yy - 1;
            let y = yy;
            let ghost cr = self.grains();
            let ghost sr = *src;
            let mut x: usize = 0;
            while x < cols
                invariant
                    x <= cols,
                    self.wf(),
                    src.wf(),
                    self.cols == cols,
                    self.rows == rows,
                    occ_count(self.grains()) <= occ_count(c0),
                    y == rows - 2 ==> cr == c0,
                    forall|j: int|
                        x <= j < cols ==> #[trigger] at(
                            self.grains(),
                            cols as int,
                            rows as int,
                            j,
                            y as int,
                        ) == at(cr, cols as int, rows as int, j, y as int),
                    forall|j: int|
                        x <= j < cols ==> #[trigger] at(
                            self.grains(),
                            cols as int,
                            rows as int,
                            j,
                            y as int + 1,
                        ) == at(cr, cols as int, rows as int, j, y as int + 1),
                    bottom_settled(c0, cols as int, rows as int) ==> occ_count(self.grains())
                        == occ_count(c0),
                    settled(c0, cols as int, rows as int) ==> self.grains() == c0 && self.pix()
                        == p0 && *src == s0,
                    src.deterministic() == s0.deterministic(),
                    s0.deterministic() ==> step_row(cr, cols as int, rows as int, y as int, 0, sr)
                        == step_row(
                        self.grains(),
                        cols as int,
                        rows as int,
                        y as int,
                        x as int,
                        *src,
                    ),
                decreases cols - x,
            {
                let ghost cb = self.grains();
                let ghost sb = *src;
                let occupied = self.get(x, y);
                let below_empty = !self.get(x, y + 1);
                if occupied && below_empty {
                    proof {
                        // a settled grid offers no eligible cell, so this
                        // branch leaves every quiescence fact intact
                        if settled(c0, cols as int, rows as int) {
                            assert(at(c0, cols as int, rows as int, x as int, y as int));
                            assert(false);
                        }
                    }
                    let d = src.next_unit();
                    if d > SKIP_THRESHOLD {
                        self.set(x, y, false);
                        self.set(x, y + 1, true);
                    } else if !self.get(x, y + 2) {
                        self.set(x, y, false);
                        self.set(x, y + 2, true);
                    }
                    proof {
                        assert(eligible(cb, cols as int, rows as int, x as int, y as int));
                        assert(self.grains() == settle(
                            cb,
                            cols as int,
                            rows as int,
                            x as int,
                            y as int,
                            d,
                        ));
                        assert forall|j: int| x as int + 1 <= j < cols as int implies #[trigger] at(
                            self.grains(),
                            cols as int,
                            rows as int,
                            j,
                            y as int,
                        ) == at(cr, cols as int, rows as int, j, y as int) by {
                            lemma_settle_other_columns(
                                cb,
                                cols as int,
                                rows as int,
                                x as int,
                                y as int,
                                d,
                                j,
                            );
                        }
                        assert forall|j: int| x as int + 1 <= j < cols as int implies #[trigger] at(
                            self.grains(),
                            cols as int,
                            rows as int,
                            j,
                            y as int + 1,
                        ) == at(cr, cols as int, rows as int, j, y as int + 1) by {
                            lemma_settle_other_columns(
                                cb,
                                cols as int,
                                rows as int,
                                x as int,
                                y as int,
                                d,
                                j,
                            );
                        }
                        // the count can drop only on a skip past the
                        // bottom edge, which needs an eligible cell of the
                        // second-to-last row at the very start of the tick
                        if bottom_settled(c0, cols as int, rows as int) && y + 2 >= rows {
                            assert(at(cb, cols as int, rows as int, x as int, y as int) == at(
                                c0,
                                cols as int,
                                rows as int,
                                x as int,
                                y as int,
                            ));
                            assert(at(cb, cols as int, rows as int, x as int, y as int + 1) == at(
                                c0,
                                cols as int,
                                rows as int,
                                x as int,
                                y as int + 1,
                            ));
                            assert(eligible(c0, cols as int, rows as int, x as int, rows as int
                                - 2));
                            assert(false);
                        }
                        if s0.deterministic() {
                            assert(step_row(cb, cols as int, rows as int, y as int, x as int, sb)
                                == step_row(
                                self.grains(),
                                cols as int,
                                rows as int,
                                y as int,
                                x as int + 1,
                                *src,
                            ));
                        }
                    }
                } else {
                    proof {
                        assert(!eligible(cb, cols as int, rows as int, x as int, y as int));
                        if s0.deterministic() {
                            assert(step_row(cb, cols as int, rows as int, y as int, x as int, sb)
                                == step_row(
                                cb,
                                cols as int,
                                rows as int,
                                y as int,
                                x as int + 1,
                                sb,
                            ));
                        }
                    }
                }
                x = x + 1;
            }
            proof {
                if s0.deterministic() {
                    assert(step_row(cr, cols as int, rows as int, y as int, 0, sr) == (
                        self.grains(),
                        *src,
                    ));
                    assert(step_rows(cr, cols as int, rows as int, y as int, sr) == step_rows(
                        self.grains(),
                        cols as int,
                        rows as int,
                        y as int - 1,
                        *src,
                    ));
                }
            }
        }
    }

    /// Populates rows `0` through `rows - 2` with an occupancy probability
    /// that starts at `p_start` and decays geometrically by the factor
    /// `decay` after each row; both are fixed-point fractions of
    /// `RAND_UNIT`. Every cell of those rows draws once and becomes
    /// occupied when its draw falls below the row's probability.
    ///
    /// The fill only adds grains, never touches the bottom row, and on a
    /// deterministic source yields exactly `spec_fill` of the prior state.
    #[verifier::loop_isolation(false)]
    pub fn random_fill(&mut self, p_start: u32, decay: u32, src: &mut RandSource)
        requires
            old(self).wf(),
            old(src).wf(),
            p_start <= RAND_UNIT,
            decay <= RAND_UNIT,
        ensures
            final(self).wf(),
            final(src).wf(),
            final(self).cols == old(self).cols,
            final(self).rows == old(self).rows,
            forall|a: int, b: int| old(self).cell(a, b) ==> final(self).cell(a, b),
            forall|a: int, b: int|
                #[trigger] final(self).cell(a, b) ==> old(self).cell(a, b) || 0 <= b < old(
                    self,
                ).rows - 1,
            forall|a: int|
                #[trigger] final(self).cell(a, old(self).rows - 1) == old(self).cell(
                    a,
                    old(self).rows - 1,
                ),
            final(src).deterministic() == old(src).deterministic(),
            old(src).deterministic() ==> (final(self).grains(), *final(src)) == spec_fill(
                old(self).grains(),
                old(self).cols as int,
                old(self).rows as int,
                p_start,
                decay,
                *old(src),
            ),
    {
        let cols = self.cols;
        let rows = self.rows;
        let ghost c0 = self.grains();
        let ghost s0 = *src;
        let mut p: u32 = p_start;
        let mut y: usize = 0;
        while y < rows - 1
            invariant
                y <= rows - 1,
                self.wf(),
                src.wf(),
                self.cols == cols,
                self.rows == rows,
                p <= RAND_UNIT,
                forall|a: int, b: int|
                    at(c0, cols as int, rows as int, a, b) ==> at(
                        self.grains(),
                        cols as int,
                        rows as int,
                        a,
                        b,
                    ),
                forall|a: int, b: int|
                    #[trigger] at(self.grains(), cols as int, rows as int, a, b) ==> at(
                        c0,
                        cols as int,
                        rows as int,
                        a,
                        b,
                    ) || 0 <= b < rows - 1,
                src.deterministic() == s0.deterministic(),
                s0.deterministic() ==> fill_rows(
                    c0,
                    cols as int,
                    rows as int,
                    0,
                    p_start,
                    decay,
                    s0,
                ) == fill_rows(self.grains(), cols as int, rows as int, y as int, p, decay, *src),
            decreases rows - 1 - y,
        {
            let ghost cr = self.grains();
            let ghost sr = *src;
            let mut x: usize = 0;
            while x < cols
                invariant
                    x <= cols,
                    y <= rows - 2,
                    self.wf(),
                    src.wf(),
                    self.cols == cols,
                    self.rows == rows,
                    p <= RAND_UNIT,
                    forall|a: int, b: int|
                        at(c0, cols as int, rows as int, a, b) ==> at(
                            self.grains(),
                            cols as int,
                            rows as int,
                            a,
                            b,
                        ),
                    forall|a: int, b: int|
                        #[trigger] at(self.grains(), cols as int, rows as int, a, b) ==> at(
                            c0,
                            cols as int,
                            rows as int,
                            a,
                            b,
                        ) || 0 <= b < rows - 1,
                    src.deterministic() == s0.deterministic(),
                    s0.deterministic() ==> fill_row(cr, cols as int, rows as int, y as int, 0, p, sr)
                        == fill_row(
                        self.grains(),
                        cols as int,
                        rows as int,
                        y as int,
                        x as int,
                        p,
                        *src,
                    ),
                decreases cols - x,
            {
                let ghost cb = self.grains();
                let ghost sb = *src;
                let d = src.next_unit();
                if d < p {
                    self.set(x, y, true);
                }
                proof {
                    assert forall|a: int, b: int|
                        #[trigger] at(self.grains(), cols as int, rows as int, a, b) implies at(
                        cb,
                        cols as int,
                        rows as int,
                        a,
                        b,
                    ) || (a == x as int && b == y as int) by {
                        lemma_at_put(cb, cols as int, rows as int, x as int, y as int, true, a, b);
                    }
                    assert forall|a: int, b: int|
                        at(cb, cols as int, rows as int, a, b) implies at(
                        self.grains(),
                        cols as int,
                        rows as int,
                        a,
                        b,
                    ) by {
                        lemma_at_put(cb, cols as int, rows as int, x as int, y as int, true, a, b);
                    }
                    if s0.deterministic() {
                        assert(fill_row(cb, cols as int, rows as int, y as int, x as int, p, sb)
                            == fill_row(
                            self.grains(),
                            cols as int,
                            rows as int,
                            y as int,
                            x as int + 1,
                            p,
                            *src,
                        ));
                    }
                }
                x = x + 1;
            }
            proof {
                if s0.deterministic() {
                    assert(fill_row(cr, cols as int, rows as int, y as int, 0, p, sr) == (
                        self.grains(),
                        *src,
                    ));
                }
            }
            let ghost p_before = p;
            proof {
                assert((p as int) * (decay as int) <= 1000000 * 1000000) by (nonlinear_arith)
                    requires
                        p <= 1000000,
                        decay <= 1000000,
                ;
            }
            let wide: u64 = (p as u64) * (decay as u64);
            p = (wide / 1000000u64) as u32;
            proof {
                assert((p_before as int) * (decay as int) / 1000000 <= 1000000);
                assert(p == decay_step(p_before, decay));
                if s0.deterministic() {
                    assert(fill_rows(cr, cols as int, rows as int, y as int, p_before, decay, sr)
                        == fill_rows(
                        self.grains(),
                        cols as int,
                        rows as int,
                        y as int + 1,
                        p,
                        decay,
                        *src,
                    ));
                }
            }
            y = y + 1;
        }
        proof {
            assert forall|a: int|
                #[trigger] self.cell(a, rows as int - 1) == at(
                    c0,
                    cols as int,
                    rows as int,
                    a,
                    rows as int - 1,
                ) by {
                if at(self.grains(), cols as int, rows as int, a, rows as int - 1) {
                    assert(at(c0, cols as int, rows as int, a, rows as int - 1) || 0 <= rows as int
                        - 1 < rows as int - 1);
                }
            }
        }
    }
}

/// Settling one visited cell of any row above the second-to-last keeps
/// the occupied count: both move targets then lie inside the grid.
pub proof fn lemma_settle_count(c: Seq<bool>, cols: int, rows: int, x: int, y: int, d: u32)
    requires
        c.len() == rows * cols,
        y <= rows - 3,
    ensures
        settle(c, cols, rows, x, y, d).len() == c.len(),
        occ_count(settle(c, cols, rows, x, y, d)) == occ_count(c),
{
    if eligible(c, cols, rows, x, y) {
        let i = y * cols + x;
        lemma_idx_bounds(cols, rows, x, y);
        let c1 = put(c, cols, rows, x, y, false);
        lemma_count_update(c, i, false);
        if d > SKIP_THRESHOLD {
            lemma_at_put(c, cols, rows, x, y, false, x, y + 1);
            lemma_idx_bounds(cols, rows, x, y + 1);
            lemma_count_update(c1, (y + 1) * cols + x, true);
        } else if !at(c, cols, rows, x, y + 2) {
            lemma_at_put(c, cols, rows, x, y, false, x, y + 2);
            lemma_idx_bounds(cols, rows, x, y + 2);
            lemma_count_update(c1, (y + 2) * cols + x, true);
        }
    }
}

/// A row scan over any row above the second-to-last keeps the occupied
/// count.
pub proof fn lemma_step_row_count(
    c: Seq<bool>,
    cols: int,
    rows: int,
    y: int,
    x: int,
    s: RandSource,
)
    requires
        c.len() == rows * cols,
        y <= rows - 3,
    ensures
        step_row(c, cols, rows, y, x, s).0.len() == c.len(),
        occ_count(step_row(c, cols, rows, y, x, s).0) == occ_count(c),
    decreases cols - x,
{
    if 0 <= x < cols {
        if eligible(c, cols, rows, x, y) {
            let (d, s2) = spec_next(s);
            lemma_settle_count(c, cols, rows, x, y, d);
            lemma_step_row_count(settle(c, cols, rows, x, y, d), cols, rows, y, x + 1, s2);
        } else {
            lemma_step_row_count(c, cols, rows, y, x + 1, s);
        }
    }
}

/// Scanning rows `y` down to `0` keeps the occupied count when `y` lies
/// above the second-to-last row.
pub proof fn lemma_step_rows_count(c: Seq<bool>, cols: int, rows: int, y: int, s: RandSource)
    requires
        c.len() == rows * cols,
        y <= rows - 3,
    ensures
        step_rows(c, cols, rows, y, s).0.len() == c.len(),
        occ_count(step_rows(c, cols, rows, y, s).0) == occ_count(c),
    decreases y + 1,
{
    if y >= 0 {
        lemma_step_row_count(c, cols, rows, y, 0, s);
        let (c2, s2) = step_row(c, cols, rows, y, 0, s);
        lemma_step_rows_count(c2, cols, rows, y - 1, s2);
    }
}

/// When no cell of the second-to-last row can fall, scanning that row
/// changes nothing and consumes no draw.
pub proof fn lemma_step_row_identity(c: Seq<bool>, cols: int, rows: int, x: int, s: RandSource)
    requires
        bottom_settled(c, cols, rows),
    ensures
        step_row(c, cols, rows, rows - 2, x, s) == (c, s),
    decreases cols - x,
{
    if 0 <= x < cols {
        assert(!eligible(c, cols, rows, x, rows - 2));
        lemma_step_row_identity(c, cols, rows, x + 1, s);
    }
}

/// Conservation: a settling tick moves grains and never creates one, and
/// when no cell of the second-to-last row can fall — the only position
/// from which the low-probability skip clears a cell past the bottom
/// edge — it keeps the total count of occupied cells exactly, whatever
/// the source draws.
pub proof fn lemma_step_conserves(c: Seq<bool>, cols: int, rows: int, s: RandSource)
    requires
        c.len() == rows * cols,
        rows >= 1,
        bottom_settled(c, cols, rows),
    ensures
        occ_count(spec_step(c, cols, rows, s).0) == occ_count(c),
{
    if rows >= 2 {
        lemma_step_row_identity(c, cols, rows, 0, s);
        lemma_step_rows_count(c, cols, rows, rows - 3, s);
    }
}

/// A fully settled grid in particular has no cell of the second-to-last
/// row able to fall, so a tick on it conserves the count.
pub proof fn lemma_settled_bottom(c: Seq<bool>, cols: int, rows: int)
    requires
        settled(c, cols, rows),
    ensures
        bottom_settled(c, cols, rows),
{
    assert forall|x: int| !(#[trigger] eligible(c, cols, rows, x, rows - 2)) by {
        if at(c, cols, rows, x, rows - 2) {
            assert(at(c, cols, rows, x, rows - 1));
        }
    }
}

} // verus!
