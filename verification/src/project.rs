//! Cell placement of the text of a page.
//!
//! Each glyph of a text run is placed at its own proportional position: the
//! caller maps positions in points to a row and a column; here each row
//! keeps the next free column, so glyphs that round onto an occupied column
//! are pushed right monotonically and never overlap. A wide glyph takes two
//! cells (the second a continuation) unless it would overhang the right
//! edge, where it degrades to a narrow cell. Gaps stay as they are.
use vstd::prelude::*;
use crate::cell::{
    Cell, CellAttrs, CellGrid, CellWidth, Color, DEFAULT, continuation_ok, continuation_paired, grid_at,
    lemma_cell_index, left_of, no_continuation, no_wide, right_of, wide_ok, wide_paired,
};
use crate::quantize::lemma_cell_index_distinct;

verus! {

/// The display width of `ch` in columns, as
/// `unicode_width::UnicodeWidthChar::width` gives it (`None` for control
/// characters).
pub uninterp spec fn unicode_char_width(ch: char) -> Option<usize>;

/// Wraps `unicode_width::UnicodeWidthChar::width`.
#[verifier::external_body]
fn char_width(ch: char) -> (w: Option<usize>)
    ensures
        w == unicode_char_width(ch),
{
    unicode_width::UnicodeWidthChar::width(ch)
}

/// The cell width of a display width: 2 is wide, 1 narrow, anything else
/// (zero width, control) is not placed.
pub open spec fn width_class(w: Option<usize>) -> Option<CellWidth> {
    match w {
        Some(2) => Some(CellWidth::Wide),
        Some(1) => Some(CellWidth::Narrow),
        _ => None,
    }
}

/// The cell width of `ch` by its East Asian width: wide for 2 columns,
/// narrow for 1, `None` for zero width or control characters.
pub fn cell_width(ch: char) -> (r: Option<CellWidth>)
    ensures
        r == width_class(unicode_char_width(ch)),
{
    cell_width_of(char_width(ch))
}

/// The cell width of a display width (see [`width_class`]).
pub fn cell_width_of(w: Option<usize>) -> (r: Option<CellWidth>)
    ensures
        r == width_class(w),
{
    match w {
        Some(2) => Some(CellWidth::Wide),
        Some(1) => Some(CellWidth::Narrow),
        _ => None,
    }
}

/// One glyph to place: the row and the column its position rounds to, and
/// what the cell shows.
#[derive(Debug, Clone, Copy, PartialEq, Eq)]
pub struct GlyphSlot {
    /// Row of the glyph's baseline.
    pub row: u16,
    /// Column its position rounds to.
    pub col: u16,
    /// The character.
    pub ch: char,
    /// [`CellWidth::Wide`] or [`CellWidth::Narrow`].
    pub width: CellWidth,
    /// Attributes of the run.
    pub attrs: CellAttrs,
    /// Foreground colour.
    pub fg: Color,
}

/// The grid view and the next free column of every row after placing
/// `slots` in order on `cells` (a `cols x rows` grid) with free columns
/// `free`.
pub open spec fn placed(cells: Seq<Cell>, free: Seq<u16>, cols: nat, rows: nat, slots: Seq<GlyphSlot>) -> (Seq<Cell>, Seq<u16>)
    decreases slots.len(),
{
    if slots.len() == 0 {
        (cells, free)
    } else {
        let (c0, f0) = placed(cells, free, cols, rows, slots.drop_last());
        let g = slots.last();
        if g.row >= rows || g.col >= cols {
            (c0, f0)
        } else {
            let at = if g.col < f0[g.row as int] {
                f0[g.row as int]
            } else {
                g.col
            };
            let i = g.row * cols + at;
            if at >= cols {
                (c0, f0)
            } else if g.width == CellWidth::Wide && at + 1 < cols {
                (
                    c0.update(i, Cell { ch: g.ch, fg: g.fg, bg: DEFAULT, width: CellWidth::Wide, attrs: g.attrs })
                        .update(
                        i + 1,
                        Cell { ch: ' ', fg: g.fg, bg: DEFAULT, width: CellWidth::Continuation, attrs: g.attrs },
                    ),
                    f0.update(g.row as int, (at + 2) as u16),
                )
            } else {
                (
                    c0.update(i, Cell { ch: g.ch, fg: g.fg, bg: DEFAULT, width: CellWidth::Narrow, attrs: g.attrs }),
                    f0.update(g.row as int, (at + 1) as u16),
                )
            }
        }
    }
}

/// What placing keeps: the next free column of each row is within the
/// grid; cells from it on are as they were; a wide cell lies at least two
/// columns before it and is followed by its continuation.
spec fn placing_inv(init: Seq<Cell>, cells: Seq<Cell>, free: Seq<u16>, cols: nat, rows: nat) -> bool {
    &&& cells.len() == cols * rows
    &&& free.len() == rows
    &&& forall|r: int| 0 <= r < rows ==> #[trigger] free[r] <= cols
    &&& forall|c: int, r: int|
        0 <= c < cols && 0 <= r < rows && c >= free[r] ==> #[trigger] grid_at(cells, cols, c, r) == grid_at(
            init,
            cols,
            c,
            r,
        )
    &&& forall|c: int, r: int|
        0 <= c < cols && 0 <= r < rows && (#[trigger] grid_at(cells, cols, c, r)).width == CellWidth::Wide ==> c + 2
            <= free[r] && right_of(cells, cols, c, r).width == CellWidth::Continuation
}

/// On a start grid without continuation cells, every continuation cell lies
/// before the next free column of its row and follows a wide cell.
spec fn continuation_inv(init: Seq<Cell>, cells: Seq<Cell>, free: Seq<u16>, cols: nat, rows: nat) -> bool {
    no_continuation(init) ==> forall|c: int, r: int|
        0 <= c < cols && 0 <= r < rows && (#[trigger] grid_at(cells, cols, c, r)).width == CellWidth::Continuation
            ==> 1 <= c && c + 1 <= free[r] && left_of(cells, cols, c, r).width == CellWidth::Wide
}

proof fn lemma_continuation_base(init: Seq<Cell>, cols: nat, rows: nat)
    requires
        init.len() == cols * rows,
    ensures
        continuation_inv(init, init, Seq::new(rows, |r: int| 0u16), cols, rows),
{
    if no_continuation(init) {
        assert forall|c: int, r: int|
            0 <= c < cols && 0 <= r < rows && (#[trigger] grid_at(init, cols, c, r)).width
                == CellWidth::Continuation implies 1 <= c && c + 1 <= Seq::new(rows, |r: int| 0u16)[r] && left_of(
            init,
            cols,
            c,
            r,
        ).width == CellWidth::Wide by {
            lemma_cell_index(cols as int, rows as int, c, r);
            assert(init[r * cols + c].width != CellWidth::Continuation);
        }
    }
}

proof fn lemma_continuation_wide(
    init: Seq<Cell>,
    c0: Seq<Cell>,
    f0: Seq<u16>,
    cols: nat,
    rows: nat,
    row: int,
    at: int,
    wide: Cell,
    cont: Cell,
)
    requires
        placing_inv(init, c0, f0, cols, rows),
        continuation_inv(init, c0, f0, cols, rows),
        cols <= u16::MAX,
        0 <= row < rows,
        f0[row] <= at,
        at + 1 < cols,
        wide.width == CellWidth::Wide,
        cont.width == CellWidth::Continuation,
    ensures
        continuation_inv(
            init,
            c0.update(row * cols + at, wide).update(row * cols + at + 1, cont),
            f0.update(row, (at + 2) as u16),
            cols,
            rows,
        ),
{
    let i = row * cols + at;
    let c1 = c0.update(i, wide).update(i + 1, cont);
    let f1 = f0.update(row, (at + 2) as u16);
    lemma_cell_index(cols as int, rows as int, at, row);
    lemma_cell_index(cols as int, rows as int, at + 1, row);
    if no_continuation(init) {
        assert forall|c: int, r: int|
            0 <= c < cols && 0 <= r < rows && (#[trigger] grid_at(c1, cols, c, r)).width
                == CellWidth::Continuation implies 1 <= c && c + 1 <= f1[r] && left_of(c1, cols, c, r).width
            == CellWidth::Wide by {
            lemma_cell_index(cols as int, rows as int, c, r);
            if r != row || c != at {
                lemma_cell_index_distinct(cols as int, c, r, at, row);
            }
            if r != row || c != at + 1 {
                lemma_cell_index_distinct(cols as int, c, r, at + 1, row);
            }
            if r == row && c == at + 1 {
                assert(left_of(c1, cols, c, r) == c1[i]);
            } else {
                assert(grid_at(c0, cols, c, r).width == CellWidth::Continuation);
                assert(c + 1 <= f0[r]);
                lemma_cell_index(cols as int, rows as int, c - 1, r);
                lemma_cell_index_distinct(cols as int, c - 1, r, at, row);
                lemma_cell_index_distinct(cols as int, c - 1, r, at + 1, row);
                assert(left_of(c1, cols, c, r) == left_of(c0, cols, c, r));
            }
        }
    }
}

proof fn lemma_continuation_narrow(
    init: Seq<Cell>,
    c0: Seq<Cell>,
    f0: Seq<u16>,
    cols: nat,
    rows: nat,
    row: int,
    at: int,
    narrow: Cell,
)
    requires
        placing_inv(init, c0, f0, cols, rows),
        continuation_inv(init, c0, f0, cols, rows),
        cols <= u16::MAX,
        0 <= row < rows,
        f0[row] <= at,
        at < cols,
        narrow.width == CellWidth::Narrow,
    ensures
        continuation_inv(init, c0.update(row * cols + at, narrow), f0.update(row, (at + 1) as u16), cols, rows),
{
    let i = row * cols + at;
    let c1 = c0.update(i, narrow);
    let f1 = f0.update(row, (at + 1) as u16);
    lemma_cell_index(cols as int, rows as int, at, row);
    if no_continuation(init) {
        assert forall|c: int, r: int|
            0 <= c < cols && 0 <= r < rows && (#[trigger] grid_at(c1, cols, c, r)).width
                == CellWidth::Continuation implies 1 <= c && c + 1 <= f1[r] && left_of(c1, cols, c, r).width
            == CellWidth::Wide by {
            lemma_cell_index(cols as int, rows as int, c, r);
            if r != row || c != at {
                lemma_cell_index_distinct(cols as int, c, r, at, row);
            }
            assert(grid_at(c0, cols, c, r).width == CellWidth::Continuation);
            assert(c + 1 <= f0[r]);
            lemma_cell_index(cols as int, rows as int, c - 1, r);
            lemma_cell_index_distinct(cols as int, c - 1, r, at, row);
            assert(left_of(c1, cols, c, r) == left_of(c0, cols, c, r));
        }
    }
}

proof fn lemma_placing_base(init: Seq<Cell>, cols: nat, rows: nat)
    requires
        init.len() == cols * rows,
        no_wide(init),
    ensures
        placing_inv(init, init, Seq::new(rows, |r: int| 0u16), cols, rows),
{
    let free0 = Seq::new(rows, |r: int| 0u16);
    assert forall|c: int, r: int|
        0 <= c < cols && 0 <= r < rows && (#[trigger] grid_at(init, cols, c, r)).width
            == CellWidth::Wide implies c + 2 <= free0[r] && right_of(init, cols, c, r).width
        == CellWidth::Continuation by {
        lemma_cell_index(cols as int, rows as int, c, r);
        assert(init[r * cols + c].width != CellWidth::Wide);
    }
}

proof fn lemma_placing_wide(
    init: Seq<Cell>,
    c0: Seq<Cell>,
    f0: Seq<u16>,
    cols: nat,
    rows: nat,
    row: int,
    at: int,
    wide: Cell,
    cont: Cell,
)
    requires
        placing_inv(init, c0, f0, cols, rows),
        cols <= u16::MAX,
        0 <= row < rows,
        f0[row] <= at,
        at + 1 < cols,
        wide.width == CellWidth::Wide,
        cont.width == CellWidth::Continuation,
    ensures
        placing_inv(
            init,
            c0.update(row * cols + at, wide).update(row * cols + at + 1, cont),
            f0.update(row, (at + 2) as u16),
            cols,
            rows,
        ),
{
    let i = row * cols + at;
    let c1 = c0.update(i, wide).update(i + 1, cont);
    let f1 = f0.update(row, (at + 2) as u16);
    lemma_cell_index(cols as int, rows as int, at, row);
    lemma_cell_index(cols as int, rows as int, at + 1, row);
    assert forall|c: int, r: int|
        0 <= c < cols && 0 <= r < rows && c >= f1[r] implies #[trigger] grid_at(c1, cols, c, r) == grid_at(
        init,
        cols,
        c,
        r,
    ) by {
        lemma_cell_index(cols as int, rows as int, c, r);
        if r != row || c != at {
            lemma_cell_index_distinct(cols as int, c, r, at, row);
        }
        if r != row || c != at + 1 {
            lemma_cell_index_distinct(cols as int, c, r, at + 1, row);
        }
        assert(grid_at(c0, cols, c, r) == grid_at(init, cols, c, r));
    }
    assert forall|c: int, r: int|
        0 <= c < cols && 0 <= r < rows && (#[trigger] grid_at(c1, cols, c, r)).width
            == CellWidth::Wide implies c + 2 <= f1[r] && right_of(c1, cols, c, r).width
        == CellWidth::Continuation by {
        lemma_cell_index(cols as int, rows as int, c, r);
        if r != row || c != at {
            lemma_cell_index_distinct(cols as int, c, r, at, row);
        }
        if r != row || c != at + 1 {
            lemma_cell_index_distinct(cols as int, c, r, at + 1, row);
        }
        if r != row || c != at {
            assert(grid_at(c0, cols, c, r).width == CellWidth::Wide);
            assert(c + 2 <= f0[r]);
            lemma_cell_index(cols as int, rows as int, c + 1, r);
            if r != row || c + 1 != at {
                lemma_cell_index_distinct(cols as int, c + 1, r, at, row);
            }
            if r != row || c + 1 != at + 1 {
                lemma_cell_index_distinct(cols as int, c + 1, r, at + 1, row);
            }
        }
    }
}

proof fn lemma_placing_narrow(
    init: Seq<Cell>,
    c0: Seq<Cell>,
    f0: Seq<u16>,
    cols: nat,
    rows: nat,
    row: int,
    at: int,
    narrow: Cell,
)
    requires
        placing_inv(init, c0, f0, cols, rows),
        cols <= u16::MAX,
        0 <= row < rows,
        f0[row] <= at,
        at < cols,
        narrow.width == CellWidth::Narrow,
    ensures
        placing_inv(init, c0.update(row * cols + at, narrow), f0.update(row, (at + 1) as u16), cols, rows),
{
    let i = row * cols + at;
    let c1 = c0.update(i, narrow);
    let f1 = f0.update(row, (at + 1) as u16);
    lemma_cell_index(cols as int, rows as int, at, row);
    assert forall|c: int, r: int|
        0 <= c < cols && 0 <= r < rows && c >= f1[r] implies #[trigger] grid_at(c1, cols, c, r) == grid_at(
        init,
        cols,
        c,
        r,
    ) by {
        lemma_cell_index(cols as int, rows as int, c, r);
        if r != row || c != at {
            lemma_cell_index_distinct(cols as int, c, r, at, row);
        }
        assert(grid_at(c0, cols, c, r) == grid_at(init, cols, c, r));
    }
    assert forall|c: int, r: int|
        0 <= c < cols && 0 <= r < rows && (#[trigger] grid_at(c1, cols, c, r)).width
            == CellWidth::Wide implies c + 2 <= f1[r] && right_of(c1, cols, c, r).width
        == CellWidth::Continuation by {
        lemma_cell_index(cols as int, rows as int, c, r);
        if r != row || c != at {
            lemma_cell_index_distinct(cols as int, c, r, at, row);
        }
        assert(grid_at(c0, cols, c, r).width == CellWidth::Wide);
        assert(c + 2 <= f0[r]);
        lemma_cell_index(cols as int, rows as int, c + 1, r);
        if r != row || c + 1 != at {
            lemma_cell_index_distinct(cols as int, c + 1, r, at, row);
        }
    }
}

proof fn lemma_placing_inv(init: Seq<Cell>, cols: nat, rows: nat, slots: Seq<GlyphSlot>)
    requires
        init.len() == cols * rows,
        cols <= u16::MAX,
        no_wide(init),
    ensures
        placing_inv(
            init,
            placed(init, Seq::new(rows, |r: int| 0u16), cols, rows, slots).0,
            placed(init, Seq::new(rows, |r: int| 0u16), cols, rows, slots).1,
            cols,
            rows,
        ),
        continuation_inv(
            init,
            placed(init, Seq::new(rows, |r: int| 0u16), cols, rows, slots).0,
            placed(init, Seq::new(rows, |r: int| 0u16), cols, rows, slots).1,
            cols,
            rows,
        ),
    decreases slots.len(),
{
    let free0 = Seq::new(rows, |r: int| 0u16);
    if slots.len() == 0 {
        lemma_placing_base(init, cols, rows);
        lemma_continuation_base(init, cols, rows);
    } else {
        lemma_placing_inv(init, cols, rows, slots.drop_last());
        let (c0, f0) = placed(init, free0, cols, rows, slots.drop_last());
        let g = slots.last();
        if g.row < rows && g.col < cols {
            let row = g.row as int;
            let at: int = if g.col < f0[row] {
                f0[row] as int
            } else {
                g.col as int
            };
            if at < cols {
                if g.width == CellWidth::Wide && at + 1 < cols {
                    let wide = Cell { ch: g.ch, fg: g.fg, bg: DEFAULT, width: CellWidth::Wide, attrs: g.attrs };
                    let cont = Cell { ch: ' ', fg: g.fg, bg: DEFAULT, width: CellWidth::Continuation, attrs: g.attrs };
                    lemma_placing_wide(init, c0, f0, cols, rows, row, at, wide, cont);
                    lemma_continuation_wide(init, c0, f0, cols, rows, row, at, wide, cont);
                } else {
                    let narrow = Cell { ch: g.ch, fg: g.fg, bg: DEFAULT, width: CellWidth::Narrow, attrs: g.attrs };
                    lemma_placing_narrow(init, c0, f0, cols, rows, row, at, narrow);
                    lemma_continuation_narrow(init, c0, f0, cols, rows, row, at, narrow);
                }
            }
        }
    }
}

/// Placing glyphs keeps wide cells whole: on a grid without wide cells
/// (such as the blank grid a page is projected onto), every wide cell placed
/// is followed in its row by its continuation, whatever the glyphs; and when
/// the grid had no continuation cells either, every continuation follows its
/// wide cell, so glyphs pushed right never overlap.
pub proof fn lemma_place_keeps_pairs(cells: Seq<Cell>, cols: nat, rows: nat, slots: Seq<GlyphSlot>)
    requires
        cells.len() == cols * rows,
        cols <= u16::MAX,
        no_wide(cells),
    ensures
        wide_paired(placed(cells, Seq::new(rows, |r: int| 0u16), cols, rows, slots).0, cols, rows),
        no_continuation(cells) ==> continuation_paired(
            placed(cells, Seq::new(rows, |r: int| 0u16), cols, rows, slots).0,
            cols,
            rows,
        ),
{
    lemma_placing_inv(cells, cols, rows, slots);
    let (c1, f1) = placed(cells, Seq::new(rows, |r: int| 0u16), cols, rows, slots);
    assert forall|c: int, r: int| 0 <= c < cols && 0 <= r < rows implies #[trigger] wide_ok(c1, cols, c, r) by {
        if grid_at(c1, cols, c, r).width == CellWidth::Wide {
            assert(c + 2 <= f1[r]);
            assert(f1[r] <= cols);
            assert(right_of(c1, cols, c, r) == grid_at(c1, cols, c + 1, r));
        }
    }
    if no_continuation(cells) {
        assert forall|c: int, r: int| 0 <= c < cols && 0 <= r < rows implies #[trigger] continuation_ok(
            c1,
            cols,
            c,
            r,
        ) by {
            if grid_at(c1, cols, c, r).width == CellWidth::Continuation {
                assert(1 <= c);
                assert(left_of(c1, cols, c, r) == grid_at(c1, cols, c - 1, r));
            }
        }
    }
}

/// Places the glyphs in order (see the module documentation and
/// [`placed`]); slots outside the grid are skipped.
pub fn place_glyphs(grid: &mut CellGrid, slots: &[GlyphSlot])
    ensures
        final(grid).ncols() == old(grid).ncols(),
        final(grid).nrows() == old(grid).nrows(),
        final(grid)@ == placed(
            old(grid)@,
            Seq::new(old(grid).nrows(), |r: int| 0u16),
            old(grid).ncols(),
            old(grid).nrows(),
            slots@,
        ).0,
        no_wide(old(grid)@) ==> wide_paired(final(grid)@, old(grid).ncols(), old(grid).nrows()),
        no_wide(old(grid)@) && no_continuation(old(grid)@) ==> continuation_paired(
            final(grid)@,
            old(grid).ncols(),
            old(grid).nrows(),
        ),
{
    let (cols, rows) = grid.dims();
    let ghost g0 = grid@;
    let ghost ncols = cols as nat;
    let ghost nrows = rows as nat;
    let mut free: Vec<u16> = Vec::new();
    let mut r: u16 = 0;
    while r < rows
        invariant
            r <= rows,
            free@ == Seq::new(r as nat, |k: int| 0u16),
        decreases rows - r,
    {
        free.push(0);
        proof {
            assert(free@ =~= Seq::new((r + 1) as nat, |k: int| 0u16));
        }
        r = r + 1;
    }
    let ghost free0 = free@;
    let mut k: usize = 0;
    proof {
        assert(slots@.take(0) =~= Seq::<GlyphSlot>::empty());
    }
    while k < slots.len()
        invariant
            k <= slots@.len(),
            cols == grid.ncols(),
            rows == grid.nrows(),
            ncols == cols,
            nrows == rows,
            grid.well_sized(),
            free@.len() == rows,
            free0 == Seq::new(nrows, |r: int| 0u16),
            forall|t: int| 0 <= t < free@.len() ==> #[trigger] free@[t] <= cols,
            (grid@, free@) == placed(g0, free0, ncols, nrows, slots@.take(k as int)),
        decreases slots@.len() - k,
    {
        let g = slots[k];
        proof {
            assert(slots@.take(k + 1).drop_last() =~= slots@.take(k as int));
            assert(slots@.take(k + 1).last() == g);
        }
        if g.row < rows && g.col < cols {
            let f = free[g.row as usize];
            let at = if g.col < f {
                f
            } else {
                g.col
            };
            if at < cols {
                proof {
                    lemma_cell_index(cols as int, rows as int, at as int, g.row as int);
                }
                if g.width == CellWidth::Wide && at + 1 < cols {
                    grid.set(at, g.row, Cell { ch: g.ch, fg: g.fg, bg: DEFAULT, width: CellWidth::Wide, attrs: g.attrs });
                    proof {
                        lemma_cell_index(cols as int, rows as int, (at + 1) as int, g.row as int);
                    }
                    grid.set(
                        at + 1,
                        g.row,
                        Cell { ch: ' ', fg: g.fg, bg: DEFAULT, width: CellWidth::Continuation, attrs: g.attrs },
                    );
                    free.set(g.row as usize, at + 2);
                } else {
                    grid.set(at, g.row, Cell { ch: g.ch, fg: g.fg, bg: DEFAULT, width: CellWidth::Narrow, attrs: g.attrs });
                    free.set(g.row as usize, at + 1);
                }
            }
        }
        k = k + 1;
    }
    proof {
        assert(slots@.take(slots@.len() as int) =~= slots@);
        if no_wide(g0) {
            lemma_place_keeps_pairs(g0, ncols, nrows, slots@);
        }
    }
}

} // verus!
