//! Half-block quantisation of a raster into terminal cells.
//!
//! Each cell stands for one column and two sub-pixel rows: `U+2580` (upper
//! half block) with the upper sub-pixel as foreground and the lower one as
//! background. The sample grid is `cols x (rows * 2)` and every sample is the
//! box average of the frame pixels it covers (not the nearest pixel). Frame
//! alpha is composited onto the opaque background `bg` first, so every cell is
//! opaque. No aspect-ratio correction happens here.
use vstd::prelude::*;
use crate::cell::{Cell, CellAttrs, CellGrid, CellWidth, Color, lemma_cell_index};
use crate::pixel::{Frame, Rect, Rgba};

verus! {

/// Channel `c` (0 to 2) of `src` composited onto the opaque `bg`.
pub open spec fn over_opaque_spec(src: Seq<u8>, bg: Seq<u8>, c: int) -> int {
    let sa = src[3] as int;
    if sa == 255 {
        src[c] as int
    } else if sa == 0 {
        bg[c] as int
    } else {
        (src[c] * sa + bg[c] * (255 - sa)) / 255
    }
}

/// Composites the straight-alpha `src` onto the opaque `bg` (same blending as
/// [`composite`](crate::composite::composite)); the result is opaque RGB.
pub fn over_opaque(src: Color, bg: Color) -> (r: [u8; 3])
    ensures
        forall|c: int| 0 <= c < 3 ==> #[trigger] r@[c] == over_opaque_spec(src@, bg@, c),
{
    let sa = src[3];
    if sa == 255 {
        return [src[0], src[1], src[2]];
    }
    if sa == 0 {
        return [bg[0], bg[1], bg[2]];
    }
    let inv = 255 - sa;
    let r0 = mix(src[0], sa, bg[0], inv);
    let r1 = mix(src[1], sa, bg[1], inv);
    let r2 = mix(src[2], sa, bg[2], inv);
    [r0, r1, r2]
}

fn mix(s: u8, sa: u8, b: u8, inv: u8) -> (r: u8)
    requires
        sa as int + inv as int == 255,
    ensures
        r == (s * sa + b * inv) / 255,
{
    proof {
        assert(0 <= s * sa <= 255 * sa) by (nonlinear_arith)
            requires s <= 255, sa <= 255;
        assert(0 <= b * inv <= 255 * inv) by (nonlinear_arith)
            requires b <= 255, inv <= 255;
    }
    ((s as u32 * sa as u32 + b as u32 * inv as u32) / 255) as u8
}

/// Pixel range `[lo, hi)` covered by sample `idx` of `samples` along an axis of
/// `dim` pixels: `floor(idx * dim / samples) .. floor((idx + 1) * dim / samples)`,
/// or the single pixel `min(lo, dim - 1)` when that range is empty; `(0, 0)`
/// when `dim == 0`.
pub open spec fn box_range_spec(idx: int, samples: int, dim: int) -> (int, int) {
    if dim == 0 {
        (0, 0)
    } else {
        let lo = idx * dim / samples;
        let hi = (idx + 1) * dim / samples;
        if hi > lo {
            (lo, hi)
        } else {
            let c = if lo < dim - 1 { lo } else { dim - 1 };
            (c, c + 1)
        }
    }
}

/// The pixel range covered by sample `idx` (see [`box_range_spec`]).
pub fn box_range(idx: u32, samples: u32, dim: u32) -> (r: (u32, u32))
    requires
        idx < samples,
    ensures
        r.0 == box_range_spec(idx as int, samples as int, dim as int).0,
        r.1 == box_range_spec(idx as int, samples as int, dim as int).1,
        r.0 <= r.1 <= dim,
        dim > 0 ==> r.0 < r.1,
{
    if dim == 0 {
        return (0, 0);
    }
    proof {
        assert(idx * dim <= (idx + 1) * dim <= samples * dim) by (nonlinear_arith)
            requires idx < samples, dim > 0;
        assert((idx + 1) * dim / (samples as int) <= dim) by (nonlinear_arith)
            requires idx < samples, dim > 0, samples > 0;
        assert(idx * dim / (samples as int) <= (idx + 1) * dim / (samples as int)) by (nonlinear_arith)
            requires idx < samples, dim > 0, samples > 0;
        assert((idx + 1) * dim <= 0x1_0000_0000u64 * 0xffff_ffffu64) by (nonlinear_arith)
            requires idx < samples, samples <= 0xffff_ffffu64, dim <= 0xffff_ffffu64;
    }
    let lo = (idx as u64 * dim as u64 / samples as u64) as u32;
    let hi = ((idx as u64 + 1) * dim as u64 / samples as u64) as u32;
    if hi > lo {
        (lo, hi)
    } else {
        let c = if lo < dim - 1 { lo } else { dim - 1 };
        (c, c + 1)
    }
}

/// Channel `c` of pixel `(x, y)` of `img` composited onto `bg`.
pub open spec fn opaque_px(img: &Rgba, x: int, y: int, bg: Seq<u8>, c: int) -> int {
    over_opaque_spec(
        seq![img.at(x, y, 0), img.at(x, y, 1), img.at(x, y, 2), img.at(x, y, 3)],
        bg,
        c,
    )
}

/// Sum over `x0 <= x < x1` of channel `c` of row `y` composited onto `bg`.
pub open spec fn row_sum(img: &Rgba, y: int, x0: int, x1: int, bg: Seq<u8>, c: int) -> int
    decreases x1 - x0,
{
    if x1 <= x0 {
        0
    } else {
        row_sum(img, y, x0, x1 - 1, bg, c) + opaque_px(img, x1 - 1, y, bg, c)
    }
}

/// Sum of channel `c` over the box `[x0, x1) x [y0, y1)` composited onto `bg`.
pub open spec fn box_sum(img: &Rgba, x0: int, x1: int, y0: int, y1: int, bg: Seq<u8>, c: int) -> int
    decreases y1 - y0,
{
    if y1 <= y0 {
        0
    } else {
        box_sum(img, x0, x1, y0, y1 - 1, bg, c) + row_sum(img, y1 - 1, x0, x1, bg, c)
    }
}

/// Channel `c` of sample `(sc, sr)` of a `cols_s x rows_s` sample grid over
/// `img`: the average over its box of the pixels composited onto `bg`, or
/// `bg` itself when the box holds no pixel.
pub open spec fn sample_spec(img: &Rgba, sc: int, sr: int, cols_s: int, rows_s: int, bg: Seq<u8>, c: int) -> u8 {
    let (x0, x1) = box_range_spec(sc, cols_s, img.spec_size().w as int);
    let (y0, y1) = box_range_spec(sr, rows_s, img.spec_size().h as int);
    let n = (x1 - x0) * (y1 - y0);
    if n == 0 {
        bg[c]
    } else {
        (box_sum(img, x0, x1, y0, y1, bg, c) / n) as u8
    }
}

/// The half-block cell for position `(i, j)` of a `w x h` cell area sampled
/// from `img`.
pub open spec fn half_block(img: &Rgba, i: int, j: int, w: int, h: int, bg: Seq<u8>) -> Cell {
    Cell {
        ch: '\u{2580}',
        fg: [
            sample_spec(img, i, 2 * j, w, 2 * h, bg, 0),
            sample_spec(img, i, 2 * j, w, 2 * h, bg, 1),
            sample_spec(img, i, 2 * j, w, 2 * h, bg, 2),
            255u8,
        ],
        bg: [
            sample_spec(img, i, 2 * j + 1, w, 2 * h, bg, 0),
            sample_spec(img, i, 2 * j + 1, w, 2 * h, bg, 1),
            sample_spec(img, i, 2 * j + 1, w, 2 * h, bg, 2),
            255u8,
        ],
        width: CellWidth::Narrow,
        attrs: CellAttrs(0),
    }
}

proof fn lemma_row_sum_bound(img: &Rgba, y: int, x0: int, x1: int, bg: Seq<u8>, c: int)
    requires
        0 <= c < 3,
    ensures
        0 <= row_sum(img, y, x0, x1, bg, c) <= 255 * (if x1 > x0 { x1 - x0 } else { 0 }),
    decreases x1 - x0,
{
    if x1 > x0 {
        lemma_row_sum_bound(img, y, x0, x1 - 1, bg, c);
        lemma_opaque_px_bound(img, x1 - 1, y, bg, c);
    }
}

proof fn lemma_opaque_px_bound(img: &Rgba, x: int, y: int, bg: Seq<u8>, c: int)
    requires
        0 <= c < 3,
    ensures
        0 <= opaque_px(img, x, y, bg, c) <= 255,
{
    let s = seq![img.at(x, y, 0), img.at(x, y, 1), img.at(x, y, 2), img.at(x, y, 3)];
    let sa = s[3] as int;
    if sa != 255 && sa != 0 {
        let sc = s[c] as int;
        let bc = bg[c] as int;
        assert(0 <= sc * sa + bc * (255 - sa) <= 255 * 255) by (nonlinear_arith)
            requires 0 <= sc <= 255, 0 <= bc <= 255, 0 < sa < 255;
    }
}

/// One sample of the grid: the average colour of its box (opaque), or `bg`
/// when the frame has no pixel.
pub fn sample(img: &Rgba, sc: u32, sr: u32, cols_s: u32, rows_s: u32, bg: Color) -> (r: Color)
    requires
        sc < cols_s,
        sr < rows_s,
    ensures
        forall|c: int| 0 <= c < 3 ==> #[trigger] r@[c] == sample_spec(img, sc as int, sr as int, cols_s as int, rows_s as int, bg@, c),
{
    let size = img.size();
    let (x0, x1) = box_range(sc, cols_s, size.w);
    let (y0, y1) = box_range(sr, rows_s, size.h);
    let mut acc0: u128 = 0;
    let mut acc1: u128 = 0;
    let mut acc2: u128 = 0;
    let mut n: u128 = 0;
    let mut y = y0;
    while y < y1
        invariant
            size == img.spec_size(),
            img.well_sized(),
            y0 <= y <= y1 <= size.h,
            x0 <= x1 <= size.w,
            n == (y - y0) * (x1 - x0),
            acc0 == box_sum(img, x0 as int, x1 as int, y0 as int, y as int, bg@, 0),
            acc1 == box_sum(img, x0 as int, x1 as int, y0 as int, y as int, bg@, 1),
            acc2 == box_sum(img, x0 as int, x1 as int, y0 as int, y as int, bg@, 2),
            acc0 <= 255 * n,
            acc1 <= 255 * n,
            acc2 <= 255 * n,
            n <= 0xffff_ffff_ffff_ffff_ffffu128,
        decreases y1 - y,
    {
        let mut x = x0;
        let ghost a0 = acc0;
        let ghost a1 = acc1;
        let ghost a2 = acc2;
        let ghost n0 = n;
        proof {
            assert(n + (x1 - x0) <= (y - y0 + 1) * (x1 - x0)) by (nonlinear_arith)
                requires n == (y - y0) * (x1 - x0);
            assert((y - y0 + 1) * (x1 - x0) <= 0x1_0000_0000 * 0x1_0000_0000) by (nonlinear_arith)
                requires y - y0 + 1 <= 0x1_0000_0000, x1 - x0 <= 0x1_0000_0000, y >= y0, x1 >= x0;
        }
        while x < x1
            invariant
                size == img.spec_size(),
                img.well_sized(),
                y0 <= y < y1 <= size.h,
                x0 <= x <= x1 <= size.w,
                n == n0 + (x - x0),
                n0 + (x1 - x0) <= 0x1_0000_0000 * 0x1_0000_0000,
                acc0 == a0 + row_sum(img, y as int, x0 as int, x as int, bg@, 0),
                acc1 == a1 + row_sum(img, y as int, x0 as int, x as int, bg@, 1),
                acc2 == a2 + row_sum(img, y as int, x0 as int, x as int, bg@, 2),
                a0 <= 255 * n0,
                a1 <= 255 * n0,
                a2 <= 255 * n0,
            decreases x1 - x,
        {
            proof {
                lemma_row_sum_bound(img, y as int, x0 as int, x as int, bg@, 0);
                lemma_row_sum_bound(img, y as int, x0 as int, x as int, bg@, 1);
                lemma_row_sum_bound(img, y as int, x0 as int, x as int, bg@, 2);
            }
            let px = match img.pixel(x, y) {
                Some(p) => p,
                None => {
                    proof {
                        assert(false);
                    }
                    bg
                },
            };
            let rgb = over_opaque(px, bg);
            proof {
                assert(px@ =~= seq![img.at(x as int, y as int, 0), img.at(x as int, y as int, 1), img.at(x as int, y as int, 2), img.at(x as int, y as int, 3)]);
                assert(rgb@[0] == opaque_px(img, x as int, y as int, bg@, 0));
                assert(rgb@[1] == opaque_px(img, x as int, y as int, bg@, 1));
                assert(rgb@[2] == opaque_px(img, x as int, y as int, bg@, 2));
            }
            acc0 = acc0 + rgb[0] as u128;
            acc1 = acc1 + rgb[1] as u128;
            acc2 = acc2 + rgb[2] as u128;
            n = n + 1;
            x = x + 1;
        }
        proof {
            lemma_row_sum_bound(img, y as int, x0 as int, x1 as int, bg@, 0);
            lemma_row_sum_bound(img, y as int, x0 as int, x1 as int, bg@, 1);
            lemma_row_sum_bound(img, y as int, x0 as int, x1 as int, bg@, 2);
            assert(n == (y + 1 - y0) * (x1 - x0)) by (nonlinear_arith)
                requires n == n0 + (x1 - x0), n0 == (y - y0) * (x1 - x0);
        }
        y = y + 1;
    }
    if n == 0 {
        proof {
            assert((x1 - x0) * (y1 - y0) == 0) by (nonlinear_arith)
                requires n == (y1 - y0) * (x1 - x0), n == 0;
        }
        return bg;
    }
    proof {
        assert((x1 - x0) * (y1 - y0) == n) by (nonlinear_arith)
            requires n == (y1 - y0) * (x1 - x0);
    }
    [(acc0 / n) as u8, (acc1 / n) as u8, (acc2 / n) as u8, 255]
}

/// Cell `(col, row)` after quantising `frame` into the cell area `dst` of a
/// grid that held `before` there.
pub open spec fn quantized_cell(before: Cell, frame: &Frame, dst: Rect, bg: Seq<u8>, col: int, row: int) -> Cell {
    if dst.x <= col < dst.x + dst.w && dst.y <= row < dst.y + dst.h {
        half_block(&frame.image, col - dst.x, row - dst.y, dst.w as int, dst.h as int, bg)
    } else {
        before
    }
}

/// Quantises `frame` and writes the result only into the cell area `dst` of
/// `grid`; cells outside `dst` or outside the grid are left alone.
pub fn quantize_half_block_into(grid: &mut CellGrid, dst: Rect, frame: &Frame, bg: Color)
    requires
        dst.h * 2 <= u32::MAX,
        dst.w > 0 && dst.h > 0 ==> dst.x + dst.w - 1 <= u32::MAX && dst.y + dst.h - 1 <= u32::MAX,
    ensures
        final(grid).ncols() == old(grid).ncols(),
        final(grid).nrows() == old(grid).nrows(),
        final(grid).well_sized(),
        forall|col: int, row: int|
            old(grid).in_grid(col, row) ==> #[trigger] final(grid).cell(col, row) == quantized_cell(
                old(grid).cell(col, row),
                frame,
                dst,
                bg@,
                col,
                row,
            ),
{
    let _ = grid.dims();
    let cols_s = dst.w;
    let rows_s = dst.h * 2;
    if cols_s == 0 || rows_s == 0 {
        return;
    }
    let ghost g0 = *grid;
    let mut j: u32 = 0;
    while j < dst.h
        invariant
            cols_s == dst.w,
            rows_s == dst.h * 2,
            dst.w > 0,
            dst.h > 0,
            dst.x + dst.w - 1 <= u32::MAX,
            dst.y + dst.h - 1 <= u32::MAX,
            j <= dst.h,
            grid.ncols() == g0.ncols(),
            grid.nrows() == g0.nrows(),
            grid.well_sized(),
            g0.well_sized(),
            g0.ncols() <= 65535,
            g0.nrows() <= 65535,
            quant_progress(&g0, grid, frame, dst, bg@, 0, j as int),
        decreases dst.h - j,
    {
        let row = dst.y + j;
        let mut i: u32 = 0;
        while i < dst.w
            invariant
                cols_s == dst.w,
                rows_s == dst.h * 2,
                dst.w > 0,
                dst.h > 0,
                dst.x + dst.w - 1 <= u32::MAX,
                j < dst.h,
                row == dst.y + j,
                i <= dst.w,
                grid.ncols() == g0.ncols(),
                grid.nrows() == g0.nrows(),
                grid.well_sized(),
                g0.well_sized(),
                g0.ncols() <= 65535,
                g0.nrows() <= 65535,
                quant_progress(&g0, grid, frame, dst, bg@, i as int, j as int),
            decreases dst.w - i,
        {
            let col = dst.x + i;
            let fg3 = sample(&frame.image, i, j * 2, cols_s, rows_s, bg);
            let bg3 = sample(&frame.image, i, j * 2 + 1, cols_s, rows_s, bg);
            let cell = Cell {
                ch: '\u{2580}',
                fg: [fg3[0], fg3[1], fg3[2], 255],
                bg: [bg3[0], bg3[1], bg3[2], 255],
                width: CellWidth::Narrow,
                attrs: CellAttrs::none(),
            };
            proof {
                assert(cell == half_block(&frame.image, i as int, j as int, dst.w as int, dst.h as int, bg@));
            }
            let ghost before = *grid;
            if col <= 65535 && row <= 65535 {
                grid.set(col as u16, row as u16, cell);
            }
            proof {
                lemma_quant_step(&g0, &before, grid, frame, dst, bg@, i as int, j as int, cell);
            }
            i = i + 1;
        }
        j = j + 1;
    }
}

/// Cells of the area `dst` whose area position comes before `(i, j)` hold
/// their half-block cell; every other cell still holds its value in `g0`.
pub open spec fn quant_progress(g0: &CellGrid, g: &CellGrid, frame: &Frame, dst: Rect, bg: Seq<u8>, i: int, j: int) -> bool {
    forall|col: int, row: int|
        g0.in_grid(col, row) ==> #[trigger] g.cell(col, row) == if dst.x <= col < dst.x + dst.w && dst.y
            <= row < dst.y + dst.h && (row - dst.y < j || (row - dst.y == j && col - dst.x < i)) {
            half_block(&frame.image, col - dst.x, row - dst.y, dst.w as int, dst.h as int, bg)
        } else {
            g0.cell(col, row)
        }
}

proof fn lemma_quant_step(g0: &CellGrid, before: &CellGrid, after: &CellGrid, frame: &Frame, dst: Rect, bg: Seq<u8>, i: int, j: int, cell: Cell)
    requires
        quant_progress(g0, before, frame, dst, bg, i, j),
        0 <= i < dst.w,
        0 <= j < dst.h,
        cell == half_block(&frame.image, i, j, dst.w as int, dst.h as int, bg),
        before.ncols() == g0.ncols(),
        before.nrows() == g0.nrows(),
        before.well_sized(),
        after.ncols() == g0.ncols(),
        after.nrows() == g0.nrows(),
        before.in_grid(dst.x + i, dst.y + j) ==> after@ == before@.update((dst.y + j) * before.ncols() + (dst.x + i), cell),
        !before.in_grid(dst.x + i, dst.y + j) ==> after@ == before@,
    ensures
        quant_progress(g0, after, frame, dst, bg, i + 1, j),
{
    let c0 = dst.x + i;
    let r0 = dst.y + j;
    assert forall|col: int, row: int| g0.in_grid(col, row) implies #[trigger] after.cell(col, row) == if dst.x <= col < dst.x + dst.w && dst.y
            <= row < dst.y + dst.h && (row - dst.y < j || (row - dst.y == j && col - dst.x < i + 1)) {
            half_block(&frame.image, col - dst.x, row - dst.y, dst.w as int, dst.h as int, bg)
        } else {
            g0.cell(col, row)
        } by {
        lemma_cell_index(before.ncols() as int, before.nrows() as int, col, row);
        assert(before.cell(col, row) == before@[row * before.ncols() + col]);
        if before.in_grid(c0, r0) {
            lemma_cell_index(before.ncols() as int, before.nrows() as int, c0, r0);
            if col != c0 || row != r0 {
                lemma_cell_index_distinct(before.ncols() as int, col, row, c0, r0);
            }
        }
    }
}

/// Different cells of a grid have different indices.
pub proof fn lemma_cell_index_distinct(cols: int, c1: int, r1: int, c2: int, r2: int)
    requires
        0 <= c1 < cols,
        0 <= c2 < cols,
        0 <= r1,
        0 <= r2,
        c1 != c2 || r1 != r2,
    ensures
        r1 * cols + c1 != r2 * cols + c2,
{
    if r1 == r2 {
    } else if r1 < r2 {
        assert(r1 * cols + c1 < r2 * cols + c2) by (nonlinear_arith)
            requires 0 <= c1 < cols, 0 <= c2, r1 < r2;
    } else {
        assert(r2 * cols + c2 < r1 * cols + c1) by (nonlinear_arith)
            requires 0 <= c2 < cols, 0 <= c1, r2 < r1;
    }
}

/// Quantises `frame` into a new `cols x rows` grid of half-block cells.
pub fn quantize_half_block(frame: &Frame, cols: u16, rows: u16, bg: Color) -> (g: CellGrid)
    ensures
        g.ncols() == cols,
        g.nrows() == rows,
        g.well_sized(),
        forall|col: int, row: int|
            0 <= col < cols && 0 <= row < rows ==> #[trigger] g.cell(col, row) == half_block(
                &frame.image,
                col,
                row,
                cols as int,
                rows as int,
                bg@,
            ),
{
    let mut grid = CellGrid::new_blank(cols, rows, bg);
    let dst = Rect { x: 0, y: 0, w: cols as u32, h: rows as u32 };
    quantize_half_block_into(&mut grid, dst, frame, bg);
    grid
}

} // verus!
