//! The viewport from raw terminal measurements.
use vstd::prelude::*;
use crate::geometry::{CellSize, Viewport};

verus! {

/// Cell width used when the terminal reports no pixel size.
pub const DEFAULT_CELL_W: u32 = 10;

/// Cell height used when the terminal reports no pixel size.
pub const DEFAULT_CELL_H: u32 = 20;

/// The cell size used when the terminal reports no pixel size (10 x 20).
pub fn default_cell() -> (c: CellSize)
    ensures
        c == (CellSize { w_px: DEFAULT_CELL_W, h_px: DEFAULT_CELL_H }),
{
    CellSize { w_px: DEFAULT_CELL_W, h_px: DEFAULT_CELL_H }
}

/// `v`, or `1` when `v` is zero.
pub open spec fn at_least_one(v: int) -> int {
    if v < 1 {
        1
    } else {
        v
    }
}

/// The viewport of a window of `cols x rows` cells and `width_px x
/// height_px` pixels: columns and rows are at least 1; with both pixel sizes
/// non-zero the cell size is their integer quotient (at least 1), else the
/// default cell.
pub fn viewport_from_window(cols: u16, rows: u16, width_px: u16, height_px: u16) -> (v: Viewport)
    ensures
        v.cols == at_least_one(cols as int),
        v.rows == at_least_one(rows as int),
        v.cell == (if width_px > 0 && height_px > 0 {
            CellSize {
                w_px: at_least_one(width_px as int / at_least_one(cols as int)) as u32,
                h_px: at_least_one(height_px as int / at_least_one(rows as int)) as u32,
            }
        } else {
            CellSize { w_px: DEFAULT_CELL_W, h_px: DEFAULT_CELL_H }
        }),
{
    let c: u32 = if cols < 1 {
        1
    } else {
        cols as u32
    };
    let r: u32 = if rows < 1 {
        1
    } else {
        rows as u32
    };
    let cell = if width_px > 0 && height_px > 0 {
        let w = width_px as u32 / c;
        let h = height_px as u32 / r;
        CellSize {
            w_px: if w < 1 {
                1
            } else {
                w
            },
            h_px: if h < 1 {
                1
            } else {
                h
            },
        }
    } else {
        default_cell()
    };
    Viewport { cols: c, rows: r, cell }
}

} // verus!
