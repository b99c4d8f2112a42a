//! Cell-space primitives: terminal character cells and grids of them.
//!
//! Three pure parts live here: the cell types ([`CellWidth`], [`Cell`],
//! [`CellGrid`]), half-block quantisation of a raster into cells
//! ([`quantize_half_block`], [`quantize_half_block_into`]) and the cell diff
//! ([`changed_runs`], the cell counterpart of
//! [`changed_region`](crate::pixel::changed_region)).
use vstd::prelude::*;

verus! {

/// Text attribute bit flags of a cell (bold, dim, italic, underline, reverse).
///
/// The default is [`CellAttrs::none`]; cells produced from images always
/// carry `NONE`.
#[derive(Debug, Clone, Copy, PartialEq, Eq, Default, Structural)]
pub struct CellAttrs(pub u8);

impl CellAttrs {
    /// No attribute.
    pub fn none() -> (r: CellAttrs)
        ensures
            r.0 == 0,
    {
        CellAttrs(0)
    }

    /// Bold.
    pub fn bold() -> (r: CellAttrs)
        ensures
            r.0 == 1,
    {
        CellAttrs(1)
    }

    /// Dim (faint).
    pub fn dim() -> (r: CellAttrs)
        ensures
            r.0 == 2,
    {
        CellAttrs(2)
    }

    /// Italic.
    pub fn italic() -> (r: CellAttrs)
        ensures
            r.0 == 4,
    {
        CellAttrs(4)
    }

    /// Underline.
    pub fn underline() -> (r: CellAttrs)
        ensures
            r.0 == 8,
    {
        CellAttrs(8)
    }

    /// Reverse video.
    pub fn reverse() -> (r: CellAttrs)
        ensures
            r.0 == 16,
    {
        CellAttrs(16)
    }

    /// Whether every bit of `f` is set in `self`.
    pub fn contains(self, f: CellAttrs) -> (r: bool)
        ensures
            r == (self.0 & f.0 == f.0),
    {
        self.0 & f.0 == f.0
    }

    /// Sets the bits of `f`.
    pub fn insert(&mut self, f: CellAttrs)
        ensures
            final(self).0 == old(self).0 | f.0,
    {
        self.0 = self.0 | f.0;
    }

    /// Clears the bits of `f`.
    pub fn remove(&mut self, f: CellAttrs)
        ensures
            final(self).0 == old(self).0 & !f.0,
    {
        self.0 = self.0 & !f.0;
    }

    /// Union of the bits of `self` and `rhs`.
    pub fn union(self, rhs: CellAttrs) -> (r: CellAttrs)
        ensures
            r.0 == self.0 | rhs.0,
    {
        CellAttrs(self.0 | rhs.0)
    }

    /// Intersection of the bits of `self` and `rhs`.
    pub fn intersection(self, rhs: CellAttrs) -> (r: CellAttrs)
        ensures
            r.0 == self.0 & rhs.0,
    {
        CellAttrs(self.0 & rhs.0)
    }
}

impl core::ops::BitOr for CellAttrs {
    type Output = CellAttrs;

    fn bitor(self, rhs: CellAttrs) -> (r: CellAttrs)
        ensures
            r.0 == self.0 | rhs.0,
    {
        self.union(rhs)
    }
}

impl vstd::std_specs::ops::BitOrSpecImpl for CellAttrs {
    open spec fn obeys_bitor_spec() -> bool {
        true
    }

    open spec fn bitor_req(self, rhs: CellAttrs) -> bool {
        true
    }

    open spec fn bitor_spec(self, rhs: CellAttrs) -> CellAttrs {
        CellAttrs(self.0 | rhs.0)
    }
}

impl core::ops::BitAnd for CellAttrs {
    type Output = CellAttrs;

    fn bitand(self, rhs: CellAttrs) -> (r: CellAttrs)
        ensures
            r.0 == self.0 & rhs.0,
    {
        self.intersection(rhs)
    }
}

impl vstd::std_specs::ops::BitAndSpecImpl for CellAttrs {
    open spec fn obeys_bitand_spec() -> bool {
        true
    }

    open spec fn bitand_req(self, rhs: CellAttrs) -> bool {
        true
    }

    open spec fn bitand_spec(self, rhs: CellAttrs) -> CellAttrs {
        CellAttrs(self.0 & rhs.0)
    }
}

impl core::ops::BitOrAssign for CellAttrs {
    fn bitor_assign(&mut self, rhs: CellAttrs)
        ensures
            final(self).0 == old(self).0 | rhs.0,
    {
        self.0 = self.0 | rhs.0;
    }
}

/// Colour of a cell's foreground or background, `[r, g, b, a]` in sRGB bytes.
///
/// An opaque colour has `a == 255`; [`DEFAULT`] (`a == 0`) stands for the
/// terminal's own default colour.
pub type Color = [u8; 4];

/// The terminal's default colour (fully transparent): writers emit the
/// terminal-default SGR for it instead of a truecolor value.
pub const DEFAULT: Color = [0, 0, 0, 0];

/// Number of terminal columns a cell occupies.
#[derive(Debug, Clone, Copy, PartialEq, Eq, Structural)]
pub enum CellWidth {
    /// One column; quantisation only produces these.
    Narrow,
    /// Two columns (CJK and the like); the glyph sits in the left column and
    /// the right neighbour is a [`CellWidth::Continuation`].
    Wide,
    /// Placeholder right of a [`CellWidth::Wide`]; writers skip it.
    Continuation,
}

/// One terminal character cell.
#[derive(Debug, Clone, Copy, PartialEq, Eq)]
pub struct Cell {
    /// The character shown.
    pub ch: char,
    /// Foreground colour.
    pub fg: Color,
    /// Background colour.
    pub bg: Color,
    /// Column occupancy.
    pub width: CellWidth,
    /// Text attributes.
    pub attrs: CellAttrs,
}

/// The blank cell `{ ch: ' ', fg, bg, width: Narrow, attrs: NONE }`.
pub open spec fn blank_cell(fg: Color, bg: Color) -> Cell {
    Cell { ch: ' ', fg, bg, width: CellWidth::Narrow, attrs: CellAttrs(0) }
}

/// The cell at column `c` of row `r` of a row-major grid `cols` wide.
pub open spec fn grid_at(cells: Seq<Cell>, cols: nat, c: int, r: int) -> Cell {
    cells[r * cols + c]
}

/// The cell right of `(c, r)` in a row-major grid `cols` wide.
pub open spec fn right_of(cells: Seq<Cell>, cols: nat, c: int, r: int) -> Cell {
    cells[r * cols + c + 1]
}

/// The grid has no wide cell.
pub open spec fn no_wide(cells: Seq<Cell>) -> bool {
    forall|i: int| 0 <= i < cells.len() ==> (#[trigger] cells[i]).width != CellWidth::Wide
}

/// The cell at `(c, r)`, if wide, is followed in its row by a continuation.
pub open spec fn wide_ok(cells: Seq<Cell>, cols: nat, c: int, r: int) -> bool {
    grid_at(cells, cols, c, r).width == CellWidth::Wide ==> c + 1 < cols && grid_at(cells, cols, c + 1, r).width
        == CellWidth::Continuation
}

/// Every wide cell of the `cols x rows` grid is followed in its row by a
/// continuation (a wide character is never cut).
pub open spec fn wide_paired(cells: Seq<Cell>, cols: nat, rows: nat) -> bool {
    forall|c: int, r: int| 0 <= c < cols && 0 <= r < rows ==> #[trigger] wide_ok(cells, cols, c, r)
}

/// The cell left of `(c, r)` in a row-major grid `cols` wide.
pub open spec fn left_of(cells: Seq<Cell>, cols: nat, c: int, r: int) -> Cell {
    cells[r * cols + c - 1]
}

/// The grid has no continuation cell.
pub open spec fn no_continuation(cells: Seq<Cell>) -> bool {
    forall|i: int| 0 <= i < cells.len() ==> (#[trigger] cells[i]).width != CellWidth::Continuation
}

/// The cell at `(c, r)`, if a continuation, follows a wide cell in its row.
pub open spec fn continuation_ok(cells: Seq<Cell>, cols: nat, c: int, r: int) -> bool {
    grid_at(cells, cols, c, r).width == CellWidth::Continuation ==> c > 0 && grid_at(cells, cols, c - 1, r).width
        == CellWidth::Wide
}

/// Every continuation cell of the `cols x rows` grid follows a wide cell in
/// its row (no continuation stands alone).
pub open spec fn continuation_paired(cells: Seq<Cell>, cols: nat, rows: nat) -> bool {
    forall|c: int, r: int| 0 <= c < cols && 0 <= r < rows ==> #[trigger] continuation_ok(cells, cols, c, r)
}

/// Two cells are equal field by field.
pub open spec fn same_cell(a: Cell, b: Cell) -> bool {
    &&& a.ch == b.ch
    &&& a.fg@ == b.fg@
    &&& a.bg@ == b.bg@
    &&& a.width == b.width
    &&& a.attrs == b.attrs
}

/// Two colours are equal byte by byte.
pub fn color_eq(a: &Color, b: &Color) -> (r: bool)
    ensures
        r == (a@ == b@),
{
    let r = a[0] == b[0] && a[1] == b[1] && a[2] == b[2] && a[3] == b[3];
    proof {
        if r {
            assert(a@ =~= b@);
        }
    }
    r
}

/// Cell equality, field by field.
pub fn cell_eq(a: &Cell, b: &Cell) -> (r: bool)
    ensures
        r == same_cell(*a, *b),
{
    a.ch == b.ch && color_eq(&a.fg, &b.fg) && color_eq(&a.bg, &b.bg) && width_eq(a.width, b.width)
        && a.attrs.0 == b.attrs.0
}

/// Width equality.
pub fn width_eq(a: CellWidth, b: CellWidth) -> (r: bool)
    ensures
        r == (a == b),
{
    match (a, b) {
        (CellWidth::Narrow, CellWidth::Narrow) => true,
        (CellWidth::Wide, CellWidth::Wide) => true,
        (CellWidth::Continuation, CellWidth::Continuation) => true,
        _ => false,
    }
}

impl Cell {
    /// The blank cell `{ ch: ' ', fg, bg, width: Narrow, attrs: NONE }`.
    pub fn blank(fg: Color, bg: Color) -> (r: Cell)
        ensures
            r == blank_cell(fg, bg),
    {
        Cell { ch: ' ', fg, bg, width: CellWidth::Narrow, attrs: CellAttrs(0) }
    }

    /// Both colours are opaque (`fg[3] == 255 && bg[3] == 255`).
    pub fn is_opaque(&self) -> (r: bool)
        ensures
            r == (self.fg[3] == 255 && self.bg[3] == 255),
    {
        self.fg[3] == 255 && self.bg[3] == 255
    }
}

/// A row-major grid of cells.
///
/// Invariant: it holds exactly `cols * rows` cells; the fields are private and
/// every operation keeps the invariant ([`CellGrid::set`] ignores positions
/// out of range).
#[derive(Debug, PartialEq, Eq)]
pub struct CellGrid {
    cols: u16,
    rows: u16,
    cells: Vec<Cell>,
}

impl View for CellGrid {
    type V = Seq<Cell>;

    closed spec fn view(&self) -> Seq<Cell> {
        self.cells@
    }
}

impl CellGrid {
    #[verifier::type_invariant]
    closed spec fn inv(&self) -> bool {
        self.cells@.len() == self.cols * self.rows
    }

    /// Number of columns.
    pub closed spec fn ncols(&self) -> nat {
        self.cols as nat
    }

    /// Number of rows.
    pub closed spec fn nrows(&self) -> nat {
        self.rows as nat
    }

    /// The grid holds `ncols() * nrows()` cells.
    pub open spec fn well_sized(&self) -> bool {
        self@.len() == self.ncols() * self.nrows()
    }

    /// The cell at `(col, row)`.
    pub open spec fn cell(&self, col: int, row: int) -> Cell {
        self@[row * self.ncols() + col]
    }

    /// `(col, row)` lies in the grid.
    pub open spec fn in_grid(&self, col: int, row: int) -> bool {
        0 <= col < self.ncols() && 0 <= row < self.nrows()
    }

    /// A `cols x rows` grid of blank cells with background (and foreground)
    /// `bg`.
    pub fn new_blank(cols: u16, rows: u16, bg: Color) -> (r: CellGrid)
        ensures
            r.ncols() == cols,
            r.nrows() == rows,
            r.well_sized(),
            forall|i: int| 0 <= i < r@.len() ==> #[trigger] r@[i] == blank_cell(bg, bg),
    {
        let len = grid_len(cols, rows);
        let mut cells: Vec<Cell> = Vec::with_capacity(len);
        let mut i: usize = 0;
        while i < len
            invariant
                0 <= i <= len,
                cells@.len() == i,
                forall|k: int| 0 <= k < i ==> #[trigger] cells@[k] == blank_cell(bg, bg),
            decreases len - i,
        {
            cells.push(Cell::blank(bg, bg));
            i = i + 1;
        }
        CellGrid { cols, rows, cells }
    }

    /// `(cols, rows)`.
    pub fn dims(&self) -> (r: (u16, u16))
        ensures
            r.0 == self.ncols(),
            r.1 == self.nrows(),
            self.well_sized(),
    {
        proof {
            use_type_invariant(self);
        }
        (self.cols, self.rows)
    }

    /// The cells in row-major order.
    pub fn cells(&self) -> (r: &[Cell])
        ensures
            r@ == self@,
            self.well_sized(),
    {
        proof {
            use_type_invariant(self);
        }
        self.cells.as_slice()
    }

    /// The cell at `(col, row)`, which must lie in the grid.
    pub fn get(&self, col: u16, row: u16) -> (r: &Cell)
        requires
            self.in_grid(col as int, row as int),
        ensures
            *r == self.cell(col as int, row as int),
    {
        proof {
            use_type_invariant(self);
            lemma_cell_index(self.cols as int, self.rows as int, col as int, row as int);
        }
        &self.cells[cell_offset(self.cols, self.rows, col, row)]
    }

    /// Writes `cell` at `(col, row)`; a position outside the grid is ignored.
    pub fn set(&mut self, col: u16, row: u16, cell: Cell)
        ensures
            final(self).ncols() == old(self).ncols(),
            final(self).nrows() == old(self).nrows(),
            final(self).well_sized(),
            old(self).in_grid(col as int, row as int) ==> final(self)@ == old(self)@.update(
                row * old(self).ncols() + col,
                cell,
            ),
            !old(self).in_grid(col as int, row as int) ==> final(self)@ == old(self)@,
        no_unwind
    {
        proof {
            use_type_invariant(&*self);
        }
        if col >= self.cols || row >= self.rows {
            return;
        }
        proof {
            lemma_cell_index(self.cols as int, self.rows as int, col as int, row as int);
        }
        let i = cell_offset(self.cols, self.rows, col, row);
        self.cells[i] = cell;
    }

    /// Replaces every cell with `cell`.
    pub fn fill(&mut self, cell: Cell)
        ensures
            final(self).ncols() == old(self).ncols(),
            final(self).nrows() == old(self).nrows(),
            final(self).well_sized(),
            final(self)@.len() == old(self)@.len(),
            forall|i: int| 0 <= i < final(self)@.len() ==> #[trigger] final(self)@[i] == cell,
        no_unwind
    {
        proof {
            use_type_invariant(&*self);
        }
        let n = self.cells.len();
        let mut i: usize = 0;
        let ghost c0 = self.cols;
        let ghost r0 = self.rows;
        while i < n
            invariant
                n == self.cells@.len(),
                n == self.cols * self.rows,
                self.cols == c0,
                self.rows == r0,
                0 <= i <= n,
                forall|k: int| 0 <= k < i ==> #[trigger] self.cells@[k] == cell,
            decreases n - i,
        {
            self.cells[i] = cell;
            i = i + 1;
        }
    }

    /// The rows from top to bottom, each as its cells from left to right.
    pub fn rows(&self) -> (r: Vec<Vec<Cell>>)
        requires
            self.ncols() > 0,
        ensures
            r@.len() == self.nrows(),
            forall|j: int| 0 <= j < r@.len() ==> (#[trigger] r@[j])@.len() == self.ncols(),
            forall|j: int, i: int|
                0 <= j < self.nrows() && 0 <= i < self.ncols() ==> #[trigger] r@[j]@[i]
                    == self.cell(i, j),
    {
        proof {
            use_type_invariant(self);
        }
        let mut out: Vec<Vec<Cell>> = Vec::new();
        let mut j: u16 = 0;
        while j < self.rows
            invariant
                self.cells@.len() == self.cols * self.rows,
                j <= self.rows,
                out@.len() == j,
                forall|jj: int| 0 <= jj < j ==> (#[trigger] out@[jj])@.len() == self.cols,
                forall|jj: int, i: int|
                    0 <= jj < j && 0 <= i < self.cols ==> #[trigger] out@[jj]@[i] == self.cells@[jj
                        * self.cols + i],
            decreases self.rows - j,
        {
            let mut line: Vec<Cell> = Vec::new();
            let mut i: u16 = 0;
            while i < self.cols
                invariant
                    self.cells@.len() == self.cols * self.rows,
                    j < self.rows,
                    i <= self.cols,
                    line@.len() == i,
                    forall|k: int| 0 <= k < i ==> #[trigger] line@[k] == self.cells@[j * self.cols + k],
                decreases self.cols - i,
            {
                proof {
                    lemma_cell_index(self.cols as int, self.rows as int, i as int, j as int);
                }
                line.push(self.cells[cell_offset(self.cols, self.rows, i, j)]);
                i = i + 1;
            }
            out.push(line);
            j = j + 1;
        }
        out
    }

    /// An independent copy of this grid.
    pub fn duplicate(&self) -> (r: CellGrid)
        ensures
            r.ncols() == self.ncols(),
            r.nrows() == self.nrows(),
            r@ == self@,
    {
        proof {
            use_type_invariant(self);
        }
        let n = self.cells.len();
        let mut cells: Vec<Cell> = Vec::with_capacity(n);
        let mut i: usize = 0;
        while i < n
            invariant
                n == self.cells@.len(),
                0 <= i <= n,
                cells@ == self.cells@.take(i as int),
            decreases n - i,
        {
            cells.push(self.cells[i]);
            proof {
                assert(self.cells@.take(i + 1) =~= self.cells@.take(i as int).push(self.cells@[i as int]));
            }
            i = i + 1;
        }
        proof {
            assert(self.cells@.take(n as int) =~= self.cells@);
        }
        CellGrid { cols: self.cols, rows: self.rows, cells }
    }
}

impl Clone for CellGrid {
    fn clone(&self) -> (r: CellGrid)
        ensures
            r.ncols() == self.ncols(),
            r.nrows() == self.nrows(),
            r@ == self@,
    {
        self.duplicate()
    }
}

/// A horizontal run of cells in one row: where a writer moves the cursor and
/// re-emits cells.
#[derive(Debug, Clone, Copy, PartialEq, Eq, Structural)]
pub struct CellRun {
    /// Row (zero-based).
    pub row: u16,
    /// First column (zero-based).
    pub col: u16,
    /// Number of cells (at least 1).
    pub len: u16,
}

/// Cell `(col, row)` differs between `old` and `new`.
pub open spec fn cell_changed(old: &CellGrid, new: &CellGrid, col: int, row: int) -> bool {
    !same_cell(old.cell(col, row), new.cell(col, row))
}

/// Cell `(col, row)` must be re-emitted: it changed, or it is the
/// continuation of a changed wide cell, or the wide cell of a changed
/// continuation (the pair is always re-emitted together).
pub open spec fn repaint(old: &CellGrid, new: &CellGrid, col: int, row: int) -> bool {
    ||| cell_changed(old, new, col, row)
    ||| (col > 0 && cell_changed(old, new, col - 1, row) && new.cell(col - 1, row).width
        == CellWidth::Wide)
    ||| (col + 1 < new.ncols() && cell_changed(old, new, col + 1, row) && new.cell(
        col + 1,
        row,
    ).width == CellWidth::Continuation)
}

/// Run `a` starts before run `b` in row-major order.
pub open spec fn run_before(a: CellRun, b: CellRun) -> bool {
    a.row < b.row || (a.row == b.row && a.col < b.col)
}

/// Run `r` covers cell `(col, row)`.
pub open spec fn run_covers(r: CellRun, col: int, row: int) -> bool {
    r.row == row && r.col <= col < r.col + r.len
}

/// `runs` is the list of maximal horizontal runs of cells to repaint, in
/// row-major order.
pub open spec fn is_repaint_runs(old: &CellGrid, new: &CellGrid, runs: Seq<CellRun>) -> bool {
    &&& forall|k: int|
        0 <= k < runs.len() ==> {
            &&& (#[trigger] runs[k]).len >= 1
            &&& runs[k].row < new.nrows()
            &&& runs[k].col + runs[k].len <= new.ncols()
            &&& forall|c: int|
                runs[k].col <= c < runs[k].col + runs[k].len ==> #[trigger] repaint(
                    old,
                    new,
                    c,
                    runs[k].row as int,
                )
            &&& (runs[k].col == 0 || !repaint(old, new, runs[k].col - 1, runs[k].row as int))
            &&& (runs[k].col + runs[k].len == new.ncols() || !repaint(
                old,
                new,
                runs[k].col + runs[k].len,
                runs[k].row as int,
            ))
        }
    &&& forall|k1: int, k2: int|
        0 <= k1 < k2 < runs.len() ==> run_before(#[trigger] runs[k1], #[trigger] runs[k2])
    &&& forall|c: int, r: int|
        0 <= c < new.ncols() && 0 <= r < new.nrows() && #[trigger] repaint(old, new, c, r) ==> exists|k: int|
            0 <= k < runs.len() && run_covers(#[trigger] runs[k], c, r)
}

/// One full-width run per row of `new` (none when `new` has no columns).
pub open spec fn full_repaint_runs(new: &CellGrid) -> Seq<CellRun> {
    if new.ncols() == 0 {
        Seq::empty()
    } else {
        Seq::new(new.nrows(), |r: int| CellRun { row: r as u16, col: 0, len: new.ncols() as u16 })
    }
}

/// The cells that changed from `old` to `new`, coalesced into horizontal runs
/// (the cell counterpart of [`changed_region`](crate::pixel::changed_region)).
///
/// With different dimensions the answer is a full repaint: one run
/// `{ col: 0, len: cols }` per row of `new`. With equal dimensions each row's
/// cells to repaint (changed cells, with wide/continuation pairs kept
/// together) are grouped into maximal runs, listed in row-major order; every
/// run stays inside one row and inside the grid.
pub fn changed_runs(old: &CellGrid, new: &CellGrid) -> (runs: Vec<CellRun>)
    ensures
        (old.ncols() != new.ncols() || old.nrows() != new.nrows()) ==> runs@ == full_repaint_runs(new),
        (old.ncols() == new.ncols() && old.nrows() == new.nrows()) ==> is_repaint_runs(old, new, runs@),
{
    let (oc, or) = old.dims();
    let (nc, nr) = new.dims();
    if oc != nc || or != nr {
        let mut runs: Vec<CellRun> = Vec::new();
        if nc == 0 {
            proof {
                assert(runs@ =~= full_repaint_runs(new));
            }
            return runs;
        }
        let mut row: u16 = 0;
        while row < nr
            invariant
                nc == new.ncols(),
                nr == new.nrows(),
                nc > 0,
                row <= nr,
                runs@ =~= full_repaint_runs(new).take(row as int),
            decreases nr - row,
        {
            runs.push(CellRun { row, col: 0, len: nc });
            proof {
                assert(full_repaint_runs(new).take(row + 1) =~= full_repaint_runs(new).take(row as int).push(
                    CellRun { row, col: 0, len: nc },
                ));
            }
            row = row + 1;
        }
        proof {
            assert(full_repaint_runs(new).take(nr as int) =~= full_repaint_runs(new));
        }
        return runs;
    }
    let ocells = old.cells();
    let ncells = new.cells();
    let mut runs: Vec<CellRun> = Vec::new();
    let mut row: u16 = 0;
    while row < nr
        invariant
            nc == new.ncols(),
            nr == new.nrows(),
            nc == old.ncols(),
            nr == old.nrows(),
            ocells@ == old@,
            ncells@ == new@,
            old.well_sized(),
            new.well_sized(),
            row <= nr,
            runs_progress(old, new, runs@, row as int, 0),
        decreases nr - row,
    {
        let mut detected: Vec<bool> = Vec::new();
        let mut c: u16 = 0;
        while c < nc
            invariant
                nc == new.ncols(),
                nr == new.nrows(),
                nc == old.ncols(),
                nr == old.nrows(),
                ocells@ == old@,
                ncells@ == new@,
                old.well_sized(),
                new.well_sized(),
                row < nr,
                c <= nc,
                detected@.len() == c,
                forall|x: int| 0 <= x < c ==> #[trigger] detected@[x] == cell_changed(old, new, x, row as int),
            decreases nc - c,
        {
            let i = cell_offset(nc, nr, c, row);
            detected.push(!cell_eq(&ocells[i], &ncells[i]));
            c = c + 1;
        }
        let mut changed: Vec<bool> = Vec::new();
        let mut c: u16 = 0;
        while c < nc
            invariant
                nc == new.ncols(),
                nr == new.nrows(),
                ncells@ == new@,
                new.well_sized(),
                row < nr,
                c <= nc,
                detected@.len() == nc,
                forall|x: int| 0 <= x < nc ==> #[trigger] detected@[x] == cell_changed(old, new, x, row as int),
                changed@.len() == c,
                forall|x: int| 0 <= x < c ==> #[trigger] changed@[x] == repaint(old, new, x, row as int),
            decreases nc - c,
        {
            let mut f = detected[c as usize];
            if c > 0 && detected[(c - 1) as usize] {
                let i = cell_offset(nc, nr, c - 1, row);
                if width_eq(ncells[i].width, CellWidth::Wide) {
                    f = true;
                }
            }
            if c + 1 < nc && detected[(c + 1) as usize] {
                let i = cell_offset(nc, nr, c + 1, row);
                if width_eq(ncells[i].width, CellWidth::Continuation) {
                    f = true;
                }
            }
            changed.push(f);
            c = c + 1;
        }
        let mut c: u16 = 0;
        while c < nc
            invariant
                nc == new.ncols(),
                nr == new.nrows(),
                nc == old.ncols(),
                nr == old.nrows(),
                row < nr,
                c <= nc,
                changed@.len() == nc,
                forall|x: int| 0 <= x < nc ==> #[trigger] changed@[x] == repaint(old, new, x, row as int),
                c == 0 || !changed@[c - 1] || c == nc || !changed@[c as int],
                runs_progress(old, new, runs@, row as int, c as int),
            decreases nc - c,
        {
            if !changed[c as usize] {
                c = c + 1;
            } else {
                let start = c;
                while c < nc && changed[c as usize]
                    invariant
                        nc == new.ncols(),
                        changed@.len() == nc,
                        start <= c <= nc,
                        forall|x: int| 0 <= x < nc ==> #[trigger] changed@[x] == repaint(old, new, x, row as int),
                        forall|x: int| start <= x < c ==> #[trigger] changed@[x],
                    decreases nc - c,
                {
                    c = c + 1;
                }
                let run = CellRun { row, col: start, len: c - start };
                let ghost before = runs@;
                runs.push(run);
                proof {
                    assert forall|x: int| start <= x < c implies #[trigger] repaint(old, new, x, row as int) by {
                        assert(changed@[x]);
                    }
                    lemma_runs_push(old, new, before, run, row as int, start as int, c as int);
                }
            }
        }
        proof {
            lemma_runs_row_done(old, new, runs@, row as int);
        }
        row = row + 1;
    }
    proof {
        lemma_runs_final(old, new, runs@);
    }
    runs
}

/// The runs found before position `(col, row)` of the scan of
/// [`changed_runs`].
pub open spec fn runs_progress(old: &CellGrid, new: &CellGrid, runs: Seq<CellRun>, row: int, col: int) -> bool {
    &&& forall|k: int|
        0 <= k < runs.len() ==> {
            &&& (#[trigger] runs[k]).len >= 1
            &&& runs[k].row < new.nrows()
            &&& runs[k].col + runs[k].len <= new.ncols()
            &&& (runs[k].row < row || (runs[k].row == row && runs[k].col + runs[k].len <= col))
            &&& forall|c: int|
                runs[k].col <= c < runs[k].col + runs[k].len ==> #[trigger] repaint(
                    old,
                    new,
                    c,
                    runs[k].row as int,
                )
            &&& (runs[k].col == 0 || !repaint(old, new, runs[k].col - 1, runs[k].row as int))
            &&& (runs[k].col + runs[k].len == new.ncols() || !repaint(
                old,
                new,
                runs[k].col + runs[k].len,
                runs[k].row as int,
            ))
        }
    &&& forall|k1: int, k2: int|
        0 <= k1 < k2 < runs.len() ==> run_before(#[trigger] runs[k1], #[trigger] runs[k2])
    &&& forall|c: int, r: int|
        0 <= c < new.ncols() && 0 <= r < new.nrows() && (r < row || (r == row && c < col)) && #[trigger] repaint(old, new, c, r) ==> exists|k: int|
            0 <= k < runs.len() && run_covers(#[trigger] runs[k], c, r)
}

proof fn lemma_runs_push(old: &CellGrid, new: &CellGrid, before: Seq<CellRun>, run: CellRun, row: int, start: int, end: int)
    requires
        runs_progress(old, new, before, row, start),
        0 <= row < new.nrows(),
        0 <= start < end <= new.ncols(),
        run == (CellRun { row: row as u16, col: start as u16, len: (end - start) as u16 }),
        forall|x: int| start <= x < end ==> #[trigger] repaint(old, new, x, row),
        start == 0 || !repaint(old, new, start - 1, row),
        end == new.ncols() || !repaint(old, new, end, row),
    ensures
        runs_progress(old, new, before.push(run), row, end),
{
    let runs = before.push(run);
    assert forall|k: int| 0 <= k < runs.len() implies {
        &&& (#[trigger] runs[k]).len >= 1
        &&& runs[k].row < new.nrows()
        &&& runs[k].col + runs[k].len <= new.ncols()
        &&& (runs[k].row < row || (runs[k].row == row && runs[k].col + runs[k].len <= end))
        &&& forall|c: int|
            runs[k].col <= c < runs[k].col + runs[k].len ==> #[trigger] repaint(old, new, c, runs[k].row as int)
        &&& (runs[k].col == 0 || !repaint(old, new, runs[k].col - 1, runs[k].row as int))
        &&& (runs[k].col + runs[k].len == new.ncols() || !repaint(old, new, runs[k].col + runs[k].len, runs[k].row as int))
    } by {
        if k < before.len() {
            assert(runs[k] == before[k]);
        }
    }
    assert forall|k1: int, k2: int| 0 <= k1 < k2 < runs.len() implies run_before(#[trigger] runs[k1], #[trigger] runs[k2]) by {
        if k2 < before.len() {
            assert(runs[k1] == before[k1] && runs[k2] == before[k2]);
        } else {
            assert(runs[k1] == before[k1]);
        }
    }
    assert forall|c: int, r: int|
        0 <= c < new.ncols() && 0 <= r < new.nrows() && (r < row || (r == row && c < end)) && #[trigger] repaint(old, new, c, r) implies exists|k: int|
            0 <= k < runs.len() && run_covers(#[trigger] runs[k], c, r) by {
        if r < row || (r == row && c < start) {
            let k = choose|k: int| 0 <= k < before.len() && run_covers(#[trigger] before[k], c, r);
            assert(runs[k] == before[k]);
        } else {
            assert(run_covers(runs[before.len() as int], c, r));
        }
    }
}

proof fn lemma_runs_row_done(old: &CellGrid, new: &CellGrid, runs: Seq<CellRun>, row: int)
    requires
        runs_progress(old, new, runs, row, new.ncols() as int),
    ensures
        runs_progress(old, new, runs, row + 1, 0),
{
}

proof fn lemma_runs_final(old: &CellGrid, new: &CellGrid, runs: Seq<CellRun>)
    requires
        runs_progress(old, new, runs, new.nrows() as int, 0),
    ensures
        is_repaint_runs(old, new, runs),
{
}

/// Number of cells of a `cols x rows` grid.
pub fn grid_len(cols: u16, rows: u16) -> (r: usize)
    ensures
        r == cols * rows,
{
    proof {
        assert(cols * rows <= 65535 * 65535) by (nonlinear_arith)
            requires cols <= 65535, rows <= 65535;
    }
    cols as usize * rows as usize
}

/// Index of cell `(col, row)` in a `cols x rows` grid.
pub fn cell_offset(cols: u16, rows: u16, col: u16, row: u16) -> (r: usize)
    requires
        col < cols,
        row < rows,
    ensures
        r == row * cols + col,
        r < cols * rows,
    no_unwind
{
    proof {
        lemma_cell_index(cols as int, rows as int, col as int, row as int);
        assert(cols * rows <= 65535 * 65535) by (nonlinear_arith)
            requires cols <= 65535, rows <= 65535;
    }
    row as usize * cols as usize + col as usize
}

/// Each run of a repaint list is determined by its first cell: the run of
/// `b` that covers the first cell of a run of `a` is that same run.
proof fn lemma_run_in_other(old: &CellGrid, new: &CellGrid, a: Seq<CellRun>, b: Seq<CellRun>, k: int) -> (j: int)
    requires
        is_repaint_runs(old, new, a),
        is_repaint_runs(old, new, b),
        0 <= k < a.len(),
    ensures
        0 <= j < b.len(),
        b[j] == a[k],
{
    let x = a[k];
    assert(repaint(old, new, x.col as int, x.row as int));
    let j = choose|j: int| 0 <= j < b.len() && run_covers(#[trigger] b[j], x.col as int, x.row as int);
    let y = b[j];
    if y.col < x.col {
        assert(repaint(old, new, x.col - 1, y.row as int));
    }
    assert(y.col == x.col);
    if x.len < y.len {
        assert(repaint(old, new, x.col + x.len, x.row as int));
    }
    if y.len < x.len {
        assert(repaint(old, new, y.col + y.len, y.row as int));
    }
    assert(x.len == y.len);
    j
}

/// Two strictly ordered lists holding the same runs are equal.
proof fn lemma_sorted_runs_equal(a: Seq<CellRun>, b: Seq<CellRun>)
    requires
        forall|i: int, j: int| 0 <= i < j < a.len() ==> run_before(#[trigger] a[i], #[trigger] a[j]),
        forall|i: int, j: int| 0 <= i < j < b.len() ==> run_before(#[trigger] b[i], #[trigger] b[j]),
        forall|i: int| 0 <= i < a.len() ==> b.contains(#[trigger] a[i]),
        forall|j: int| 0 <= j < b.len() ==> a.contains(#[trigger] b[j]),
    ensures
        a == b,
    decreases a.len(),
{
    if a.len() == 0 {
        if b.len() > 0 {
            let i = choose|i: int| 0 <= i < a.len() && #[trigger] a[i] == b[0];
        }
        assert(a =~= b);
    } else {
        if b.len() == 0 {
            let j = choose|j: int| 0 <= j < b.len() && #[trigger] b[j] == a[0];
        }
        let j0 = choose|j: int| 0 <= j < b.len() && #[trigger] b[j] == a[0];
        let i0 = choose|i: int| 0 <= i < a.len() && #[trigger] a[i] == b[0];
        if j0 > 0 {
            assert(run_before(b[0], b[j0]));
            if i0 > 0 {
                assert(run_before(a[0], a[i0]));
            }
        }
        assert(a[0] == b[0]);
        let a1 = a.drop_first();
        let b1 = b.drop_first();
        assert forall|i: int| 0 <= i < a1.len() implies b1.contains(#[trigger] a1[i]) by {
            assert(a1[i] == a[i + 1]);
            assert(run_before(a[0], a[i + 1]));
            let j = choose|j: int| 0 <= j < b.len() && #[trigger] b[j] == a[i + 1];
            assert(j != 0);
            assert(b1[j - 1] == b[j]);
        }
        assert forall|j: int| 0 <= j < b1.len() implies a1.contains(#[trigger] b1[j]) by {
            assert(b1[j] == b[j + 1]);
            assert(run_before(b[0], b[j + 1]));
            let i = choose|i: int| 0 <= i < a.len() && #[trigger] a[i] == b[j + 1];
            assert(i != 0);
            assert(a1[i - 1] == a[i]);
        }
        assert forall|i: int, j: int| 0 <= i < j < a1.len() implies run_before(#[trigger] a1[i], #[trigger] a1[j]) by {
            assert(run_before(a[i + 1], a[j + 1]));
        }
        assert forall|i: int, j: int| 0 <= i < j < b1.len() implies run_before(#[trigger] b1[i], #[trigger] b1[j]) by {
            assert(run_before(b[i + 1], b[j + 1]));
        }
        lemma_sorted_runs_equal(a1, b1);
        assert forall|k: int| 0 <= k < a.len() implies a[k] == b[k] by {
            if k > 0 {
                assert(a[k] == a1[k - 1]);
                assert(b[k] == b1[k - 1]);
            }
        }
        assert(a =~= b);
    }
}

/// The list of runs to repaint is unique: two lists that both meet
/// [`is_repaint_runs`] for the same pair of grids are equal, so the contract
/// of [`changed_runs`] determines its answer.
pub proof fn lemma_repaint_runs_unique(old: &CellGrid, new: &CellGrid, a: Seq<CellRun>, b: Seq<CellRun>)
    requires
        is_repaint_runs(old, new, a),
        is_repaint_runs(old, new, b),
    ensures
        a == b,
{
    assert forall|i: int| 0 <= i < a.len() implies b.contains(#[trigger] a[i]) by {
        let j = lemma_run_in_other(old, new, a, b, i);
        assert(b[j] == a[i]);
    }
    assert forall|j: int| 0 <= j < b.len() implies a.contains(#[trigger] b[j]) by {
        let i = lemma_run_in_other(old, new, b, a, j);
        assert(a[i] == b[j]);
    }
    lemma_sorted_runs_equal(a, b);
}

/// The cell `(col, row)` has its index inside a `cols x rows` grid.
pub proof fn lemma_cell_index(cols: int, rows: int, col: int, row: int)
    requires
        0 <= col < cols,
        0 <= row < rows,
    ensures
        0 <= row * cols + col < cols * rows,
{
    assert(0 <= row * cols + col < cols * rows) by (nonlinear_arith)
        requires
            0 <= col < cols,
            0 <= row < rows,
    ;
}

} // verus!
