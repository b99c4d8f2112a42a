//! Composition of the full cell grid around a letterboxed inner grid.
use vstd::prelude::*;
use crate::cell::{CellGrid, CellWidth, Color, DEFAULT, blank_cell, Cell, grid_at, wide_ok, wide_paired};
use crate::quantize::lemma_cell_index_distinct;
use crate::cell::lemma_cell_index;

verus! {

/// Background of the letterbox margins: the terminal default (transparent).
pub const DEFAULT_BG: Color = DEFAULT;

/// The inner grid size and its centring offset in the full grid (cells).
#[derive(Debug, Clone, Copy, PartialEq, Eq, Structural)]
pub struct Letterbox {
    /// Columns of the inner grid.
    pub icols: u16,
    /// Rows of the inner grid.
    pub irows: u16,
    /// Left column of the inner grid.
    pub off_col: u16,
    /// Top row of the inner grid.
    pub off_row: u16,
}

/// The letterbox of an inner grid of `icols x irows` cells centred in a
/// terminal of `cols x rows`: the margins are split evenly, the odd cell
/// going to the right or bottom margin.
pub fn centered(cols: u16, rows: u16, icols: u16, irows: u16) -> (lb: Letterbox)
    requires
        icols <= cols,
        irows <= rows,
    ensures
        lb == (Letterbox {
            icols,
            irows,
            off_col: ((cols - icols) / 2) as u16,
            off_row: ((rows - irows) / 2) as u16,
        }),
{
    Letterbox { icols, irows, off_col: (cols - icols) / 2, off_row: (rows - irows) / 2 }
}

/// The cell at `(col, row)` of the composition: the inner cell under it, or
/// a blank of `bg` in the margins.
pub open spec fn composed_cell(inner: &CellGrid, off_col: u16, off_row: u16, bg: Color, col: int, row: int) -> Cell {
    let c = col - off_col;
    let r = row - off_row;
    if 0 <= c < inner.ncols() && 0 <= r < inner.nrows() {
        inner.cell(c, r)
    } else {
        blank_cell(bg, bg)
    }
}

/// A full `cols x rows` grid with `inner` copied in from `(off_col,
/// off_row)` and blank cells of `bg` elsewhere; what overhangs the full grid
/// is dropped. Rows are copied cell by cell, so wide/continuation pairs stay
/// together.
pub fn compose_full(inner: &CellGrid, cols: u16, rows: u16, off_col: u16, off_row: u16, bg: Color) -> (full: CellGrid)
    ensures
        full.ncols() == cols,
        full.nrows() == rows,
        full.well_sized(),
        forall|col: int, row: int|
            0 <= col < cols && 0 <= row < rows ==> #[trigger] full.cell(col, row) == composed_cell(
                inner,
                off_col,
                off_row,
                bg,
                col,
                row,
            ),
        wide_paired(inner@, inner.ncols(), inner.nrows()) && off_col + inner.ncols() <= cols ==> wide_paired(
            full@,
            cols as nat,
            rows as nat,
        ),
{
    let mut full = CellGrid::new_blank(cols, rows, bg);
    let (icols, irows) = inner.dims();
    proof {
        assert forall|col: int, row: int|
            0 <= col < cols && 0 <= row < rows implies #[trigger] full.cell(col, row) == blank_cell(
                bg,
                bg,
            ) by {
            lemma_cell_index(cols as int, rows as int, col, row);
        }
    }
    let mut r: u16 = 0;
    while r < irows
        invariant
            icols == inner.ncols(),
            irows == inner.nrows(),
            r <= irows,
            full.ncols() == cols,
            full.nrows() == rows,
            full.well_sized(),
            forall|col: int, row: int|
                0 <= col < cols && 0 <= row < rows ==> #[trigger] full.cell(col, row) == (if row
                    - off_row < r {
                    composed_cell(inner, off_col, off_row, bg, col, row)
                } else {
                    blank_cell(bg, bg)
                }),
        decreases irows - r,
    {
        let mut c: u16 = 0;
        while c < icols
            invariant
                icols == inner.ncols(),
                irows == inner.nrows(),
                r < irows,
                c <= icols,
                full.ncols() == cols,
                full.nrows() == rows,
                full.well_sized(),
                forall|col: int, row: int|
                    0 <= col < cols && 0 <= row < rows ==> #[trigger] full.cell(col, row) == (if row
                        - off_row < r || (row - off_row == r && col - off_col < c) {
                        composed_cell(inner, off_col, off_row, bg, col, row)
                    } else {
                        blank_cell(bg, bg)
                    }),
            decreases icols - c,
        {
            let x = off_col.saturating_add(c);
            let y = off_row.saturating_add(r);
            let cell = *inner.get(c, r);
            let ghost before = full;
            full.set(x, y, cell);
            proof {
                assert forall|col: int, row: int|
                    0 <= col < cols && 0 <= row < rows implies #[trigger] full.cell(col, row) == (if row
                        - off_row < r || (row - off_row == r && col - off_col < c + 1) {
                        composed_cell(inner, off_col, off_row, bg, col, row)
                    } else {
                        blank_cell(bg, bg)
                    }) by {
                    lemma_cell_index(cols as int, rows as int, col, row);
                    if before.in_grid(x as int, y as int) {
                        lemma_cell_index(cols as int, rows as int, x as int, y as int);
                        if col != x || row != y {
                            lemma_cell_index_distinct(cols as int, col, row, x as int, y as int);
                        }
                    }
                    assert(before.cell(col, row) == before@[row * cols + col]);
                }
            }
            c = c + 1;
        }
        r = r + 1;
    }
    proof {
        if wide_paired(inner@, inner.ncols(), inner.nrows()) && off_col + inner.ncols() <= cols {
            lemma_compose_pairs(inner, cols, rows, off_col, off_row, bg, &full);
        }
    }
    full
}

proof fn lemma_compose_pairs(inner: &CellGrid, cols: u16, rows: u16, off_col: u16, off_row: u16, bg: Color, full: &CellGrid)
    requires
        inner.well_sized(),
        full.ncols() == cols,
        full.nrows() == rows,
        full.well_sized(),
        forall|col: int, row: int|
            0 <= col < cols && 0 <= row < rows ==> #[trigger] full.cell(col, row) == composed_cell(
                inner,
                off_col,
                off_row,
                bg,
                col,
                row,
            ),
        wide_paired(inner@, inner.ncols(), inner.nrows()),
        off_col + inner.ncols() <= cols,
    ensures
        wide_paired(full@, cols as nat, rows as nat),
{
    assert forall|c: int, r: int| 0 <= c < cols && 0 <= r < rows implies #[trigger] wide_ok(full@, cols as nat, c, r) by {
        assert(grid_at(full@, cols as nat, c, r) == full.cell(c, r));
        if grid_at(full@, cols as nat, c, r).width == CellWidth::Wide {
            let ic = c - off_col;
            let ir = r - off_row;
            assert(0 <= ic < inner.ncols() && 0 <= ir < inner.nrows());
            assert(wide_ok(inner@, inner.ncols(), ic, ir));
            assert(grid_at(inner@, inner.ncols(), ic, ir) == inner.cell(ic, ir));
            assert(grid_at(inner@, inner.ncols(), ic + 1, ir) == inner.cell(ic + 1, ir));
            assert(full.cell(c + 1, r) == composed_cell(inner, off_col, off_row, bg, c + 1, r));
            assert(grid_at(full@, cols as nat, c + 1, r) == full.cell(c + 1, r));
        }
    }
}

} // verus!
