//! Cell storage and accessors: a flat boolean grid and the pixel buffer
//! that mirrors it, four bytes per cell, one fixed color per occupancy
//! state. The two never observably diverge between mutations.

use vstd::prelude::*;
use vstd::pervasive::VecAdditionalExecFns;

verus! {

/// Red channel of the color an occupied cell shows.
pub const SAND_R: u8 = 255;
/// Green channel of the color an occupied cell shows.
pub const SAND_G: u8 = 203;
/// Blue channel of the color an occupied cell shows.
pub const SAND_B: u8 = 0;
/// Red channel of the color an empty cell shows.
pub const VOID_R: u8 = 0;
/// Green channel of the color an empty cell shows.
pub const VOID_G: u8 = 0;
/// Blue channel of the color an empty cell shows.
pub const VOID_B: u8 = 0;
/// Alpha channel, shared by both colors.
pub const ALPHA: u8 = 255;

/// The byte that channel `k` (0 = red, 1 = green, 2 = blue, 3 = alpha) of a
/// cell's pixel must hold for occupancy state `occ`.
pub open spec fn color_byte(occ: bool, k: int) -> u8 {
    if k == 0 {
        if occ { SAND_R } else { VOID_R }
    } else if k == 1 {
        if occ { SAND_G } else { VOID_G }
    } else if k == 2 {
        if occ { SAND_B } else { VOID_B }
    } else {
        ALPHA
    }
}

/// The four bytes of pixel `i` in buffer `p` show exactly the color for
/// occupancy state `occ`.
pub open spec fn pixel_quad(p: Seq<u8>, i: int, occ: bool) -> bool {
    &&& p[4 * i] == color_byte(occ, 0)
    &&& p[4 * i + 1] == color_byte(occ, 1)
    &&& p[4 * i + 2] == color_byte(occ, 2)
    &&& p[4 * i + 3] == color_byte(occ, 3)
}

/// Occupancy of position `(x, y)` in the flat cell sequence `c` of a
/// `cols` by `rows` grid; any out-of-bounds position reads as empty.
pub open spec fn at(c: Seq<bool>, cols: int, rows: int, x: int, y: int) -> bool {
    0 <= x < cols && 0 <= y < rows && c[y * cols + x]
}

/// The cell sequence after writing `v` at `(x, y)`; an out-of-bounds
/// position leaves the sequence unchanged.
pub open spec fn put(c: Seq<bool>, cols: int, rows: int, x: int, y: int, v: bool) -> Seq<bool> {
    if 0 <= x < cols && 0 <= y < rows {
        c.update(y * cols + x, v)
    } else {
        c
    }
}

/// The number of occupied cells in `c`.
pub open spec fn occ_count(c: Seq<bool>) -> int
    decreases c.len(),
{
    if c.len() == 0 {
        0
    } else {
        occ_count(c.drop_last()) + if c.last() { 1int } else { 0int }
    }
}

/// The flat index of an in-bounds position is itself in bounds.
pub proof fn lemma_idx_bounds(cols: int, rows: int, x: int, y: int)
    requires
        0 <= x < cols,
        0 <= y < rows,
    ensures
        0 <= y * cols + x < rows * cols,
{
    assert(y * cols + x < rows * cols) by (nonlinear_arith)
        requires
            0 <= x < cols,
            0 <= y < rows,
    ;
    assert(0 <= y * cols + x) by (nonlinear_arith)
        requires
            0 <= x,
            0 <= y,
            0 <= cols,
    ;
}

/// Distinct in-bounds positions have distinct flat indices.
pub proof fn lemma_idx_injective(cols: int, rows: int, x: int, y: int, a: int, b: int)
    requires
        0 <= x < cols,
        0 <= y < rows,
        0 <= a < cols,
        0 <= b < rows,
        y * cols + x == b * cols + a,
    ensures
        x == a && y == b,
{
    assert(x == a && y == b) by (nonlinear_arith)
        requires
            0 <= x < cols,
            0 <= y < rows,
            0 <= a < cols,
            0 <= b < rows,
            y * cols + x == b * cols + a,
    ;
}

/// Writing one cell changes the occupied count by the difference between
/// the new and the old value at that index.
pub proof fn lemma_count_update(c: Seq<bool>, i: int, v: bool)
    requires
        0 <= i < c.len(),
    ensures
        occ_count(c.update(i, v)) == occ_count(c) - (if c[i] { 1int } else { 0int }) + (
        if v { 1int } else { 0int }),
    decreases c.len(),
{
    if i == c.len() - 1 {
        assert(c.update(i, v).drop_last() =~= c.drop_last());
    } else {
        assert(c.update(i, v).drop_last() =~= c.drop_last().update(i, v));
        lemma_count_update(c.drop_last(), i, v);
    }
}

/// The simulation state: a `cols` by `rows` grid of occupancy flags,
/// flattened row-major (index `y * cols + x`), and a pixel buffer of four
/// bytes per cell, index-aligned with the cells.
pub struct Grid {
    /// Number of columns; positive and fixed for the grid's lifetime.
    pub cols: usize,
    /// Number of rows; positive and fixed for the grid's lifetime.
    pub rows: usize,
    /// Occupancy flags, flattened row-major; mutate only through `set`.
    pub cells: Vec<bool>,
    /// Four bytes per cell, index-aligned with `cells`; mutate only
    /// through `set`.
    pub pixels: Vec<u8>,
}

impl Grid {
    /// The flat occupancy sequence.
    pub open spec fn grains(self) -> Seq<bool> {
        self.cells@
    }

    /// The pixel buffer contents.
    pub open spec fn pix(self) -> Seq<u8> {
        self.pixels@
    }

    /// Occupancy at `(x, y)`; false out of bounds.
    pub open spec fn cell(self, x: int, y: int) -> bool {
        at(self.grains(), self.cols as int, self.rows as int, x, y)
    }

    /// Well-formedness: positive dimensions, a pixel buffer that fits in
    /// addressable memory, cell and pixel storage of matching lengths, and
    /// every pixel showing exactly its cell's color.
    pub open spec fn wf(self) -> bool {
        &&& self.cols > 0
        &&& self.rows > 0
        &&& 4 * ((self.rows as int) * (self.cols as int)) <= usize::MAX as int
        &&& self.grains().len() == (self.rows as int) * (self.cols as int)
        &&& self.pix().len() == 4 * ((self.rows as int) * (self.cols as int))
        &&& forall|i: int|
            0 <= i < self.grains().len() ==> pixel_quad(self.pix(), i, self.grains()[i])
    }

    /// Creates an all-empty grid of `w` columns and `h` rows with an
    /// all-background pixel buffer.
    #[verifier::loop_isolation(false)]
    pub fn new(w: usize, h: usize) -> (g: Grid)
        requires
            1 <= w,
            1 <= h,
            4 * ((w as int) * (h as int)) <= usize::MAX as int,
        ensures
            g.wf(),
            g.cols == w,
            g.rows == h,
            forall|x: int, y: int| !g.cell(x, y),
            occ_count(g.grains()) == 0,
    {
        let n: usize = w * h;
        let mut cells: Vec<bool> = Vec::new();
        let mut i: usize = 0;
        while i < n
            invariant
                i <= n,
                cells.len() == i,
                forall|j: int| 0 <= j < i ==> !cells@[j],
            decreases n - i,
        {
            cells.push(false);
            i = i + 1;
        }
        let mut pixels: Vec<u8> = Vec::new();
        let mut ci: usize = 0;
        while ci < n
            invariant
                ci <= n,
                pixels.len() == 4 * ci,
                forall|j: int| 0 <= j < ci ==> pixel_quad(pixels@, j, false),
            decreases n - ci,
        {
            let ghost pre = pixels@;
            pixels.push(VOID_R);
            pixels.push(VOID_G);
            pixels.push(VOID_B);
            pixels.push(ALPHA);
            ci = ci + 1;
            proof {
                assert forall|j: int| 0 <= j < ci implies pixel_quad(pixels@, j, false) by {
                    if j < ci - 1 {
                        assert(pixel_quad(pre, j, false));
                    }
                }
            }
        }
        let g = Grid { cols: w, rows: h, cells, pixels };
        proof {
            assert((w as int) * (h as int) == (h as int) * (w as int)) by (nonlinear_arith);
            assert forall|x: int, y: int| !g.cell(x, y) by {
                if 0 <= x < w as int && 0 <= y < h as int {
                    lemma_idx_bounds(w as int, h as int, x, y);
                }
            }
            assert(occ_count(g.grains()) == 0) by {
                lemma_count_all_empty(g.grains());
            }
        }
        g
    }

    /// Returns the occupancy state at `(x, y)`; false for any
    /// out-of-bounds coordinate.
    pub fn get(&self, x: usize, y: usize) -> (b: bool)
        requires
            self.wf(),
        ensures
            b == self.cell(x as int, y as int),
            x >= self.cols || y >= self.rows ==> !b,
    {
        if x >= self.cols || y >= self.rows {
            false
        } else {
            proof {
                lemma_idx_bounds(self.cols as int, self.rows as int, x as int, y as int);
            }
            self.cells[y * self.cols + x]
        }
    }

    /// Writes occupancy `val` at `(x, y)` and brings the four pixel bytes
    /// of that cell to the matching color; a no-op for out-of-bounds
    /// coordinates, and no buffer write happens when the value is
    /// unchanged.
    pub fn set(&mut self, x: usize, y: usize, val: bool)
        requires
            old(self).wf(),
        ensures
            final(self).wf(),
            final(self).cols == old(self).cols,
            final(self).rows == old(self).rows,
            final(self).grains() == put(
                old(self).grains(),
                old(self).cols as int,
                old(self).rows as int,
                x as int,
                y as int,
                val,
            ),
            x < old(self).cols && y < old(self).rows ==> final(self).cell(x as int, y as int)
                == val,
            x < old(self).cols && y < old(self).rows ==> pixel_quad(
                final(self).pix(),
                y as int * old(self).cols as int + x as int,
                val,
            ),
            x >= old(self).cols || y >= old(self).rows ==> final(self).grains() == old(
                self,
            ).grains() && final(self).pix() == old(self).pix(),
            forall|a: int, b: int|
                !(a == x as int && b == y as int) ==> final(self).cell(a, b) == old(self).cell(
                    a,
                    b,
                ),
            occ_count(final(self).grains()) == occ_count(old(self).grains()) - (if old(self).cell(
                x as int,
                y as int,
            ) {
                1int
            } else {
                0int
            }) + (if x < old(self).cols && y < old(self).rows && val {
                1int
            } else {
                0int
            }),
    {
        if x < self.cols && y < self.rows {
            proof {
                lemma_idx_bounds(self.cols as int, self.rows as int, x as int, y as int);
            }
            let i = y * self.cols + x;
            if self.cells[i] != val {
                self.cells.set(i, val);
                self.pixels.set(4 * i, if val { SAND_R } else { VOID_R });
                self.pixels.set(4 * i + 1, if val { SAND_G } else { VOID_G });
                self.pixels.set(4 * i + 2, if val { SAND_B } else { VOID_B });
                self.pixels.set(4 * i + 3, ALPHA);
            } else {
                proof {
                    assert(self.cells@ =~= old(self).grains().update(i as int, val));
                }
            }
            proof {
                self.lemma_set_in_bounds(*old(self), x as int, y as int, val);
            }
        }
    }

    /// Helper for `set`: re-establishes well-formedness and the stated
    /// cell and count relations after an in-bounds write.
    proof fn lemma_set_in_bounds(self, prev: Grid, x: int, y: int, val: bool)
        requires
            prev.wf(),
            0 <= x < prev.cols,
            0 <= y < prev.rows,
            self.cols == prev.cols,
            self.rows == prev.rows,
            self.grains() == prev.grains().update(y * prev.cols as int + x, val),
            ({
                let i = y * prev.cols as int + x;
                self.pix() == if prev.grains()[i] == val {
                    prev.pix()
                } else {
                    prev.pix().update(4 * i, color_byte(val, 0)).update(
                        4 * i + 1,
                        color_byte(val, 1),
                    ).update(4 * i + 2, color_byte(val, 2)).update(4 * i + 3, color_byte(val, 3))
                }
            }),
        ensures
            self.wf(),
            self.cell(x, y) == val,
            pixel_quad(self.pix(), y * prev.cols as int + x, val),
            forall|a: int, b: int| !(a == x && b == y) ==> self.cell(a, b) == prev.cell(a, b),
            occ_count(self.grains()) == occ_count(prev.grains()) - (if prev.cell(x, y) {
                1int
            } else {
                0int
            }) + (if val {
                1int
            } else {
                0int
            }),
    {
        let cols = prev.cols as int;
        let rows = prev.rows as int;
        let i = y * cols + x;
        lemma_idx_bounds(cols, rows, x, y);
        assert forall|ci: int|
            0 <= ci < self.grains().len() implies pixel_quad(
            self.pix(),
            ci,
            self.grains()[ci],
        ) by {
            if ci != i {
                assert(pixel_quad(prev.pix(), ci, prev.grains()[ci]));
            }
        }
        assert forall|a: int, b: int| !(a == x && b == y) implies self.cell(a, b) == prev.cell(
            a,
            b,
        ) by {
            if 0 <= a < cols && 0 <= b < rows {
                lemma_idx_bounds(cols, rows, a, b);
                if b * cols + a == i {
                    lemma_idx_injective(cols, rows, x, y, a, b);
                }
            }
        }
        lemma_count_update(prev.grains(), i, val);
    }

    /// A read-only view of the pixel buffer: four bytes per cell,
    /// row-major, top row first.
    pub fn pixels(&self) -> (p: &Vec<u8>)
        ensures
            p@ == self.pix(),
    {
        &self.pixels
    }
}

/// The pixel buffer is a function of the logical state: two well-formed
/// grids with the same dimensions and the same occupancy hold identical
/// pixel buffers, so equal simulation runs display identically.
pub proof fn lemma_pixels_determined(g1: Grid, g2: Grid)
    requires
        g1.wf(),
        g2.wf(),
        g1.cols == g2.cols,
        g1.rows == g2.rows,
        g1.grains() == g2.grains(),
    ensures
        g1.pix() == g2.pix(),
{
    let n = (g1.rows as int) * (g1.cols as int);
    assert forall|j: int| 0 <= j < g1.pix().len() implies g1.pix()[j] == g2.pix()[j] by {
        vstd::arithmetic::div_mod::lemma_fundamental_div_mod(j, 4);
        vstd::arithmetic::div_mod::lemma_mod_bound(j, 4);
        let i = j / 4;
        let k = j % 4;
        assert(0 <= i < n);
        assert(pixel_quad(g1.pix(), i, g1.grains()[i]));
        assert(pixel_quad(g2.pix(), i, g2.grains()[i]));
    }
    assert(g1.pix() =~= g2.pix());
}

/// A sequence with no occupied cell has occupied count zero.
pub proof fn lemma_count_all_empty(c: Seq<bool>)
    requires
        forall|j: int| 0 <= j < c.len() ==> !c[j],
    ensures
        occ_count(c) == 0,
    decreases c.len(),
{
    if c.len() > 0 {
        lemma_count_all_empty(c.drop_last());
    }
}

} // verus!
