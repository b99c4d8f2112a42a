//! Placement geometry: the viewport and cell size, and the map from a pixel
//! origin to a Kitty placement (anchor cell plus offset inside the cell).
use vstd::prelude::*;
use crate::ids::{ImageId, PlacementId};
use crate::pixel::PixelSize;

verus! {

/// Pixel size of one cell. [`place_geometry`] refuses a zero side.
#[derive(Debug, Clone, Copy, PartialEq, Eq, Structural)]
pub struct CellSize {
    /// Cell width in pixels.
    pub w_px: u32,
    /// Cell height in pixels.
    pub h_px: u32,
}

/// The terminal viewport, measured by the caller.
#[derive(Debug, Clone, Copy, PartialEq, Eq, Structural)]
pub struct Viewport {
    /// Columns (cells).
    pub cols: u32,
    /// Rows (cells).
    pub rows: u32,
    /// Pixel size of one cell.
    pub cell: CellSize,
}

/// `a * b`, or `u32::MAX` when the product does not fit.
pub open spec fn sat_mul(a: u32, b: u32) -> u32 {
    if a * b <= u32::MAX {
        (a * b) as u32
    } else {
        u32::MAX
    }
}

fn saturating_mul_u32(a: u32, b: u32) -> (r: u32)
    ensures
        r == sat_mul(a, b),
{
    match a.checked_mul(b) {
        Some(v) => v,
        None => u32::MAX,
    }
}

impl Viewport {
    /// The viewport in pixels, `cols * w_px` by `rows * h_px`, each side
    /// saturating at `u32::MAX`.
    pub open spec fn spec_pixel_size(&self) -> PixelSize {
        PixelSize { w: sat_mul(self.cols, self.cell.w_px), h: sat_mul(self.rows, self.cell.h_px) }
    }

    /// The viewport in pixels (see [`Viewport::spec_pixel_size`]).
    #[verifier::when_used_as_spec(spec_pixel_size)]
    pub fn pixel_size(&self) -> (r: PixelSize)
        ensures
            r == self.spec_pixel_size(),
    {
        PixelSize {
            w: saturating_mul_u32(self.cols, self.cell.w_px),
            h: saturating_mul_u32(self.rows, self.cell.h_px),
        }
    }
}

/// An anchor cell (0-based).
#[derive(Debug, Clone, Copy, PartialEq, Eq, Structural)]
pub struct CellPos {
    /// Column (0-based).
    pub col: u32,
    /// Row (0-based).
    pub row: u32,
}

/// A pixel offset inside a cell; [`place_geometry`] keeps it below the cell
/// size.
#[derive(Debug, Clone, Copy, PartialEq, Eq, Structural)]
pub struct PixelOffset {
    /// x offset in pixels.
    pub x: u16,
    /// y offset in pixels.
    pub y: u16,
}

/// The Kitty parameters of one placement.
#[derive(Debug, Clone, Copy, PartialEq, Eq, Structural)]
pub struct Placement {
    /// The image placed.
    pub image: ImageId,
    /// The id of this placement.
    pub id: PlacementId,
    /// Anchor cell (0-based).
    pub cell: CellPos,
    /// Offset inside the anchor cell.
    pub offset: PixelOffset,
    /// z-index (larger is on top).
    pub z: i32,
}

/// The placement of pixel origin `(x, y)`: `None` for a zero cell side or an
/// offset that does not fit `u16`; else the cell `(x / w, y / h)` and the
/// offset `(x % w, y % h)`.
pub open spec fn geometry_of(x: u32, y: u32, cell: CellSize) -> Option<(CellPos, PixelOffset)> {
    if cell.w_px == 0 || cell.h_px == 0 {
        None
    } else if x % cell.w_px > u16::MAX || y % cell.h_px > u16::MAX {
        None
    } else {
        Some((
            CellPos { col: x / cell.w_px, row: y / cell.h_px },
            PixelOffset { x: (x % cell.w_px) as u16, y: (y % cell.h_px) as u16 },
        ))
    }
}

/// Maps the absolute pixel origin `(x, y)` to its anchor cell and the offset
/// inside that cell (see [`geometry_of`]); the offset is always below the
/// cell size.
pub fn place_geometry(x: u32, y: u32, cell: CellSize) -> (r: Option<(CellPos, PixelOffset)>)
    ensures
        r == geometry_of(x, y, cell),
        r matches Some((pos, off)) ==> off.x < cell.w_px && off.y < cell.h_px
            && pos.col * cell.w_px + off.x == x && pos.row * cell.h_px + off.y == y,
{
    if cell.w_px == 0 || cell.h_px == 0 {
        return None;
    }
    let col = x / cell.w_px;
    let row = y / cell.h_px;
    let rx = x % cell.w_px;
    let ry = y % cell.h_px;
    if rx > 65535 || ry > 65535 {
        return None;
    }
    proof {
        vstd::arithmetic::div_mod::lemma_fundamental_div_mod(x as int, cell.w_px as int);
        vstd::arithmetic::div_mod::lemma_fundamental_div_mod(y as int, cell.h_px as int);
        assert(col * cell.w_px == cell.w_px * col) by (nonlinear_arith);
        assert(row * cell.h_px == cell.h_px * row) by (nonlinear_arith);
    }
    Some((CellPos { col, row }, PixelOffset { x: rx as u16, y: ry as u16 }))
}

} // verus!
