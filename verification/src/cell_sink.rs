//! The ANSI cell writer: a [`CellGrid`] turned into escape sequences.
//!
//! This output path is independent of the image protocol. It writes
//! truecolor SGR and keeps the SGR changes minimal while it scans a run from
//! left to right: when the wanted attributes only add to the current ones,
//! only the added attribute codes and the changed colours are sent; when an
//! attribute has to go, the state is reset (`ESC[0m`) and rebuilt in full.
//! Every frame starts and ends with a reset, so no state leaks between
//! frames.
use vstd::prelude::*;
use vstd::utf8::encode_scalar;
use crate::cell::{
    Cell, CellAttrs, CellGrid, CellRun, CellWidth, Color, changed_runs, color_eq, full_repaint_runs,
    is_repaint_runs,
};
use crate::decimal::{dec, push_dec};
use crate::encode::push_bytes;

verus! {

/// The SGR state: foreground, background and attributes.
#[derive(Debug, Clone, Copy, PartialEq, Eq)]
pub struct SgrState {
    /// Foreground colour.
    pub fg: Color,
    /// Background colour.
    pub bg: Color,
    /// Attributes.
    pub attrs: CellAttrs,
}

/// The SGR state a cell wants.
pub open spec fn cell_sgr(c: Cell) -> SgrState {
    SgrState { fg: c.fg, bg: c.bg, attrs: c.attrs }
}

/// Every bit of `bits` is set in `a`.
pub open spec fn has_bits(a: CellAttrs, bits: u8) -> bool {
    a.0 & bits == bits
}

/// The parameter `code` when `want` has `bit` and `have` lacks it.
pub open spec fn attr_param(want: CellAttrs, have: CellAttrs, bit: u8, code: u8) -> Seq<Seq<u8>> {
    if has_bits(want, bit) && !has_bits(have, bit) {
        seq![seq![code]]
    } else {
        Seq::empty()
    }
}

/// The SGR codes of the attributes that `want` adds to `have`, in the order
/// bold `1`, dim `2`, italic `3`, underline `4`, reverse `7`.
pub open spec fn attr_params(want: CellAttrs, have: CellAttrs) -> Seq<Seq<u8>> {
    attr_param(want, have, 1, 49u8) + attr_param(want, have, 2, 50u8) + attr_param(want, have, 4, 51u8)
        + attr_param(want, have, 8, 52u8) + attr_param(want, have, 16, 55u8)
}

/// The foreground parameter: `39` (terminal default) for a colour with zero
/// alpha, else `38;2;r;g;b`.
pub open spec fn fg_param(c: Color) -> Seq<u8> {
    if c[3] == 0 {
        seq![51u8, 57u8]
    } else {
        seq![51u8, 56u8, 59u8, 50u8, 59u8] + dec(c[0] as nat) + seq![59u8] + dec(c[1] as nat) + seq![59u8]
            + dec(c[2] as nat)
    }
}

/// The background parameter: `49` (terminal default) for a colour with zero
/// alpha, else `48;2;r;g;b`.
pub open spec fn bg_param(c: Color) -> Seq<u8> {
    if c[3] == 0 {
        seq![52u8, 57u8]
    } else {
        seq![52u8, 56u8, 59u8, 50u8, 59u8] + dec(c[0] as nat) + seq![59u8] + dec(c[1] as nat) + seq![59u8]
            + dec(c[2] as nat)
    }
}

/// The parameters joined by `;`.
pub open spec fn join_params(ps: Seq<Seq<u8>>) -> Seq<u8>
    decreases ps.len(),
{
    if ps.len() == 0 {
        Seq::empty()
    } else if ps.len() == 1 {
        ps[0]
    } else {
        join_params(ps.drop_last()) + seq![59u8] + ps.last()
    }
}

/// `ESC [ params m`.
pub open spec fn csi_m(ps: Seq<Seq<u8>>) -> Seq<u8> {
    seq![27u8, 91u8] + join_params(ps) + seq![109u8]
}

/// `ESC [ 0 m`.
pub open spec fn reset_seq() -> Seq<u8> {
    seq![27u8, 91u8, 48u8, 109u8]
}

/// The full SGR of a state: its attribute codes, then foreground, then
/// background, in one sequence.
pub open spec fn full_sgr(w: SgrState) -> Seq<u8> {
    csi_m(attr_params(w.attrs, CellAttrs(0)) + seq![fg_param(w.fg), bg_param(w.bg)])
}

/// The bytes that take the SGR state from `cur` to `w`: the full SGR after a
/// reset (`None`); a reset and the full SGR when an attribute goes away;
/// otherwise only the added attributes and the changed colours, or nothing.
pub open spec fn sgr_step(cur: Option<SgrState>, w: SgrState) -> Seq<u8> {
    match cur {
        None => full_sgr(w),
        Some(c) => if !has_bits(w.attrs, c.attrs.0) {
            reset_seq() + full_sgr(w)
        } else {
            let ps = attr_params(w.attrs, c.attrs) + (if w.fg@ != c.fg@ {
                seq![fg_param(w.fg)]
            } else {
                Seq::empty()
            }) + (if w.bg@ != c.bg@ {
                seq![bg_param(w.bg)]
            } else {
                Seq::empty()
            });
            if ps.len() == 0 {
                Seq::empty()
            } else {
                csi_m(ps)
            }
        },
    }
}

/// The bytes of the cells `from..to` of row `row`, starting in SGR state
/// `cur`, and the state after them. Continuation cells write nothing.
pub open spec fn cells_out(grid: &CellGrid, row: int, from: int, to: int, cur: Option<SgrState>) -> (Seq<u8>, Option<SgrState>)
    decreases to - from,
{
    if to <= from {
        (Seq::empty(), cur)
    } else {
        let (b, s) = cells_out(grid, row, from, to - 1, cur);
        let cell = grid.cell(to - 1, row);
        if cell.width == CellWidth::Continuation {
            (b, s)
        } else {
            (b + sgr_step(s, cell_sgr(cell)) + encode_scalar(cell.ch as u32), Some(cell_sgr(cell)))
        }
    }
}

/// The bytes of one run: nothing for a row outside the grid; else the cursor
/// move to `origin` plus the run's first cell (`ESC [ row ; col H`) and its
/// cells up to the grid's right edge.
pub open spec fn run_out(grid: &CellGrid, run: CellRun, origin: (u16, u16), cur: Option<SgrState>) -> (Seq<u8>, Option<SgrState>) {
    if run.row >= grid.nrows() {
        (Seq::empty(), cur)
    } else {
        let end = if run.col + run.len < grid.ncols() {
            run.col + run.len
        } else {
            grid.ncols() as int
        };
        let head = seq![27u8, 91u8] + dec((origin.0 + run.row) as nat) + seq![59u8] + dec(
            (origin.1 + run.col) as nat,
        ) + seq![72u8];
        let (b, s) = cells_out(grid, run.row as int, run.col as int, end, cur);
        (head + b, s)
    }
}

/// The bytes of the runs in order, and the state after them.
pub open spec fn runs_out(grid: &CellGrid, runs: Seq<CellRun>, origin: (u16, u16), cur: Option<SgrState>) -> (Seq<u8>, Option<SgrState>)
    decreases runs.len(),
{
    if runs.len() == 0 {
        (Seq::empty(), cur)
    } else {
        let (b, s) = runs_out(grid, runs.drop_last(), origin, cur);
        let (b2, s2) = run_out(grid, runs.last(), origin, s);
        (b + b2, s2)
    }
}

/// The bytes of a frame that repaints `runs` of `grid`: a reset, the runs,
/// a reset.
pub open spec fn frame_out(grid: &CellGrid, runs: Seq<CellRun>, origin: (u16, u16)) -> Seq<u8> {
    reset_seq() + runs_out(grid, runs, origin, None).0 + reset_seq()
}

/// `ESC[?1049h ESC[?25l`: enter the alternate screen and hide the cursor.
pub open spec fn enter_seq() -> Seq<u8> {
    seq![27u8, 91u8, 63u8, 49u8, 48u8, 52u8, 57u8, 104u8, 27u8, 91u8, 63u8, 50u8, 53u8, 108u8]
}

/// `ESC[?25h ESC[?1049l ESC[0m`: show the cursor, leave the alternate
/// screen, reset the SGR state.
pub open spec fn leave_seq() -> Seq<u8> {
    seq![
        27u8,
        91u8,
        63u8,
        50u8,
        53u8,
        104u8,
        27u8,
        91u8,
        63u8,
        49u8,
        48u8,
        52u8,
        57u8,
        108u8,
        27u8,
        91u8,
        48u8,
        109u8,
    ]
}

/// The views of a list of byte vectors.
pub open spec fn views(ps: Seq<Vec<u8>>) -> Seq<Seq<u8>> {
    ps.map_values(|v: Vec<u8>| v@)
}

/// Appends the UTF-8 encoding of `c`.
pub fn push_char(out: &mut Vec<u8>, c: char)
    ensures
        final(out)@ == old(out)@ + encode_scalar(c as u32),
{
    let v = c as u32;
    proof {
        vstd::utf8::char_is_scalar(c);
    }
    let ghost before = out@;
    if v <= 0x7F {
        out.push((v & 0x7F) as u8);
    } else if v <= 0x7FF {
        out.push(0xC0u8 | ((v >> 6u32) & 0x1F) as u8);
        out.push(0x80u8 | (v & 0x3F) as u8);
    } else if v <= 0xFFFF {
        out.push(0xE0u8 | ((v >> 12u32) & 0x0F) as u8);
        out.push(0x80u8 | ((v >> 6u32) & 0x3F) as u8);
        out.push(0x80u8 | (v & 0x3F) as u8);
    } else {
        out.push(0xF0u8 | ((v >> 18u32) & 0x7) as u8);
        out.push(0x80u8 | ((v >> 12u32) & 0x3F) as u8);
        out.push(0x80u8 | ((v >> 6u32) & 0x3F) as u8);
        out.push(0x80u8 | (v & 0x3F) as u8);
    }
    proof {
        assert(out@ =~= before + encode_scalar(v));
    }
}

fn colour_param(c: Color, background: bool) -> (r: Vec<u8>)
    ensures
        r@ == (if background {
            bg_param(c)
        } else {
            fg_param(c)
        }),
{
    let mut v: Vec<u8> = Vec::new();
    let lead: u8 = if background {
        52
    } else {
        51
    };
    if c[3] == 0 {
        v.push(lead);
        v.push(57);
    } else {
        push_bytes(&mut v, &[lead, 56u8, 59u8, 50u8, 59u8]);
        push_dec(&mut v, c[0] as u64);
        push_bytes(&mut v, &[59u8]);
        push_dec(&mut v, c[1] as u64);
        push_bytes(&mut v, &[59u8]);
        push_dec(&mut v, c[2] as u64);
    }
    proof {
        if background {
            assert(v@ =~= bg_param(c));
        } else {
            assert(v@ =~= fg_param(c));
        }
    }
    v
}

fn push_param(params: &mut Vec<Vec<u8>>, p: Vec<u8>)
    ensures
        views(final(params)@) == views(old(params)@).push(p@),
{
    let ghost before = params@;
    params.push(p);
    proof {
        assert(views(params@) =~= views(before).push(p@));
    }
}

fn push_attr_params(params: &mut Vec<Vec<u8>>, want: CellAttrs, have: CellAttrs)
    ensures
        views(final(params)@) == views(old(params)@) + attr_params(want, have),
{
    let ghost before = views(params@);
    let bits: [u8; 5] = [1, 2, 4, 8, 16];
    let codes: [u8; 5] = [49, 50, 51, 52, 55];
    let mut k: usize = 0;
    while k < 5
        invariant
            k <= 5,
            bits@ == seq![1u8, 2u8, 4u8, 8u8, 16u8],
            codes@ == seq![49u8, 50u8, 51u8, 52u8, 55u8],
            views(params@) == before + (if k >= 1 {
                attr_param(want, have, 1, 49u8)
            } else {
                Seq::empty()
            }) + (if k >= 2 {
                attr_param(want, have, 2, 50u8)
            } else {
                Seq::empty()
            }) + (if k >= 3 {
                attr_param(want, have, 4, 51u8)
            } else {
                Seq::empty()
            }) + (if k >= 4 {
                attr_param(want, have, 8, 52u8)
            } else {
                Seq::empty()
            }) + (if k >= 5 {
                attr_param(want, have, 16, 55u8)
            } else {
                Seq::empty()
            }),
        decreases 5 - k,
    {
        let bit = bits[k];
        let code = codes[k];
        let ghost mid = views(params@);
        if want.0 & bit == bit && have.0 & bit != bit {
            let mut p: Vec<u8> = Vec::new();
            p.push(code);
            push_param(params, p);
            proof {
                assert(p@ =~= seq![code]);
            }
        }
        proof {
            assert(views(params@) =~= mid + attr_param(want, have, bit, code));
        }
        k = k + 1;
    }
    proof {
        assert(views(params@) =~= before + attr_params(want, have));
    }
}

proof fn lemma_join_take(ps: Seq<Seq<u8>>, i: int)
    requires
        0 <= i < ps.len(),
    ensures
        join_params(ps.take(i + 1)) == join_params(ps.take(i)) + (if i > 0 {
            seq![59u8]
        } else {
            Seq::<u8>::empty()
        }) + ps[i],
{
    assert(ps.take(i + 1).drop_last() =~= ps.take(i));
    if i == 0 {
        assert(join_params(ps.take(0)) =~= Seq::<u8>::empty());
        assert(Seq::<u8>::empty() + Seq::<u8>::empty() + ps[0] =~= ps[0]);
    }
}

fn write_csi_m(out: &mut Vec<u8>, params: &Vec<Vec<u8>>)
    ensures
        final(out)@ == old(out)@ + csi_m(views(params@)),
{
    let ghost before = out@;
    let ghost ps = views(params@);
    push_bytes(out, &[27u8, 91u8]);
    let mut i: usize = 0;
    proof {
        assert(ps.take(0) =~= Seq::<Seq<u8>>::empty());
    }
    while i < params.len()
        invariant
            i <= params@.len(),
            ps == views(params@),
            out@ == before + seq![27u8, 91u8] + join_params(ps.take(i as int)),
        decreases params@.len() - i,
    {
        if i > 0 {
            push_bytes(out, &[59u8]);
        }
        push_bytes(out, params[i].as_slice());
        proof {
            lemma_join_take(ps, i as int);
            assert(ps[i as int] == params@[i as int]@);
            assert(out@ =~= before + seq![27u8, 91u8] + join_params(ps.take(i + 1)));
        }
        i = i + 1;
    }
    push_bytes(out, &[109u8]);
    proof {
        assert(ps.take(params@.len() as int) =~= ps);
        assert(out@ =~= before + csi_m(ps));
    }
}

/// A stateful writer of cell grids as ANSI text into a byte buffer.
///
/// The SGR state is `None` right after a reset (terminal defaults); the next
/// cell then gets a full SGR.
pub struct CellSink {
    w: Vec<u8>,
    cur: Option<SgrState>,
}

impl CellSink {
    /// The bytes written so far.
    pub closed spec fn spec_writer(&self) -> Seq<u8> {
        self.w@
    }

    /// The SGR state of the terminal after the bytes written so far.
    pub closed spec fn state(&self) -> Option<SgrState> {
        self.cur
    }

    /// A sink around `w`, in the reset state.
    pub fn new(w: Vec<u8>) -> (s: CellSink)
        ensures
            s.spec_writer() == w@,
            s.state() is None,
    {
        CellSink { w, cur: None }
    }

    /// The bytes written so far.
    pub fn writer(&self) -> (w: &Vec<u8>)
        ensures
            w@ == self.spec_writer(),
    {
        &self.w
    }

    /// Enters the alternate screen and hides the cursor.
    pub fn enter(&mut self)
        ensures
            final(self).spec_writer() == old(self).spec_writer() + enter_seq(),
            final(self).state() == old(self).state(),
    {
        push_bytes(
            &mut self.w,
            &[27u8, 91u8, 63u8, 49u8, 48u8, 52u8, 57u8, 104u8, 27u8, 91u8, 63u8, 50u8, 53u8, 108u8],
        );
    }

    /// Shows the cursor, leaves the alternate screen and resets the SGR
    /// state.
    pub fn leave(&mut self)
        ensures
            final(self).spec_writer() == old(self).spec_writer() + leave_seq(),
            final(self).state() is None,
    {
        self.cur = None;
        push_bytes(
            &mut self.w,
            &[
                27u8,
                91u8,
                63u8,
                50u8,
                53u8,
                104u8,
                27u8,
                91u8,
                63u8,
                49u8,
                48u8,
                52u8,
                57u8,
                108u8,
                27u8,
                91u8,
                48u8,
                109u8,
            ],
        );
    }

    fn reset(&mut self)
        ensures
            final(self).spec_writer() == old(self).spec_writer() + reset_seq(),
            final(self).state() is None,
    {
        self.cur = None;
        push_bytes(&mut self.w, &[27u8, 91u8, 48u8, 109u8]);
    }

    fn write_full_sgr(&mut self, want: SgrState)
        ensures
            final(self).spec_writer() == old(self).spec_writer() + full_sgr(want),
            final(self).state() == old(self).state(),
    {
        let mut params: Vec<Vec<u8>> = Vec::new();
        proof {
            assert(views(params@) =~= Seq::<Seq<u8>>::empty());
        }
        push_attr_params(&mut params, want.attrs, CellAttrs(0));
        push_param(&mut params, colour_param(want.fg, false));
        push_param(&mut params, colour_param(want.bg, true));
        proof {
            assert(views(params@) =~= attr_params(want.attrs, CellAttrs(0)) + seq![
                fg_param(want.fg),
                bg_param(want.bg),
            ]);
        }
        write_csi_m(&mut self.w, &params);
    }

    fn sync_sgr(&mut self, cell: &Cell)
        ensures
            final(self).spec_writer() == old(self).spec_writer() + sgr_step(
                old(self).state(),
                cell_sgr(*cell),
            ),
            final(self).state() == Some(cell_sgr(*cell)),
    {
        let want = SgrState { fg: cell.fg, bg: cell.bg, attrs: cell.attrs };
        match self.cur {
            None => {
                self.write_full_sgr(want);
            },
            Some(c) => {
                if !(want.attrs.0 & c.attrs.0 == c.attrs.0) {
                    push_bytes(&mut self.w, &[27u8, 91u8, 48u8, 109u8]);
                    self.write_full_sgr(want);
                } else {
                    let mut params: Vec<Vec<u8>> = Vec::new();
                    proof {
                        assert(views(params@) =~= Seq::<Seq<u8>>::empty());
                    }
                    push_attr_params(&mut params, want.attrs, c.attrs);
                    let ghost p1 = views(params@);
                    let fg_same = color_eq(&want.fg, &c.fg);
                    if !fg_same {
                        push_param(&mut params, colour_param(want.fg, false));
                    }
                    let ghost p2 = views(params@);
                    proof {
                        assert(p2 =~= p1 + (if want.fg@ != c.fg@ {
                            seq![fg_param(want.fg)]
                        } else {
                            Seq::empty()
                        }));
                    }
                    let bg_same = color_eq(&want.bg, &c.bg);
                    if !bg_same {
                        push_param(&mut params, colour_param(want.bg, true));
                    }
                    proof {
                        assert(views(params@) =~= p2 + (if want.bg@ != c.bg@ {
                            seq![bg_param(want.bg)]
                        } else {
                            Seq::empty()
                        }));
                    }
                    if params.len() > 0 {
                        write_csi_m(&mut self.w, &params);
                    }
                }
            },
        }
        self.cur = Some(want);
    }

    fn emit_run(&mut self, grid: &CellGrid, run: CellRun, origin: (u16, u16))
        ensures
            ({
                let (b, s) = run_out(grid, run, origin, old(self).state());
                &&& final(self).spec_writer() == old(self).spec_writer() + b
                &&& final(self).state() == s
            }),
    {
        let (cols, rows) = grid.dims();
        if run.row >= rows {
            proof {
                assert(self.w@ =~= self.w@ + Seq::<u8>::empty());
            }
            return;
        }
        let ghost before = self.w@;
        let ghost cur0 = self.cur;
        let cur_row = origin.0 as u32 + run.row as u32;
        let cur_col = origin.1 as u32 + run.col as u32;
        push_bytes(&mut self.w, &[27u8, 91u8]);
        push_dec(&mut self.w, cur_row as u64);
        push_bytes(&mut self.w, &[59u8]);
        push_dec(&mut self.w, cur_col as u64);
        push_bytes(&mut self.w, &[72u8]);
        let ghost head = self.w@;
        let reach: u32 = run.col as u32 + run.len as u32;
        let end: u16 = if reach < cols as u32 {
            reach as u16
        } else {
            cols
        };
        let mut col: u16 = run.col;
        while col < end
            invariant
                run.col <= col <= end || (col == run.col && end <= run.col),
                end <= grid.ncols(),
                run.row < grid.nrows(),
                cols == grid.ncols(),
                rows == grid.nrows(),
                ({
                    let (b, s) = cells_out(grid, run.row as int, run.col as int, col as int, cur0);
                    &&& self.w@ == head + b
                    &&& self.cur == s
                }),
            decreases end - col,
        {
            let cell = *grid.get(col, run.row);
            proof {
                assert(cell == grid.cell(col as int, run.row as int));
            }
            match cell.width {
                CellWidth::Continuation => {},
                _ => {
                    self.sync_sgr(&cell);
                    push_char(&mut self.w, cell.ch);
                },
            }
            col = col + 1;
        }
        proof {
            let end_i = if run.col + run.len < grid.ncols() {
                run.col + run.len
            } else {
                grid.ncols() as int
            };
            if end_i <= run.col {
                assert(cells_out(grid, run.row as int, run.col as int, col as int, cur0) == cells_out(
                    grid,
                    run.row as int,
                    run.col as int,
                    end_i,
                    cur0,
                ));
            }
            assert(head =~= before + (seq![27u8, 91u8] + dec((origin.0 + run.row) as nat) + seq![59u8]
                + dec((origin.1 + run.col) as nat) + seq![72u8]));
        }
    }
}


/// What [`changed_runs`] promises of its result for `old` and `new`.
pub open spec fn is_diff_runs(old: &CellGrid, new: &CellGrid, runs: Seq<CellRun>) -> bool {
    &&& (old.ncols() != new.ncols() || old.nrows() != new.nrows()) ==> runs == full_repaint_runs(new)
    &&& (old.ncols() == new.ncols() && old.nrows() == new.nrows()) ==> is_repaint_runs(old, new, runs)
}

impl CellSink {
    fn emit_runs(&mut self, grid: &CellGrid, runs: &Vec<CellRun>, origin: (u16, u16))
        ensures
            ({
                let (b, s) = runs_out(grid, runs@, origin, old(self).state());
                &&& final(self).spec_writer() == old(self).spec_writer() + b
                &&& final(self).state() == s
            }),
    {
        let ghost before = self.w@;
        let ghost cur0 = self.cur;
        let mut k: usize = 0;
        proof {
            assert(runs@.take(0) =~= Seq::<CellRun>::empty());
            assert(before =~= before + Seq::<u8>::empty());
        }
        while k < runs.len()
            invariant
                k <= runs@.len(),
                ({
                    let (b, s) = runs_out(grid, runs@.take(k as int), origin, cur0);
                    &&& self.w@ == before + b
                    &&& self.cur == s
                }),
            decreases runs@.len() - k,
        {
            let run = runs[k];
            proof {
                assert(runs@.take(k + 1).drop_last() =~= runs@.take(k as int));
                assert(runs@.take(k + 1).last() == run);
            }
            self.emit_run(grid, run, origin);
            proof {
                let (b0, s0) = runs_out(grid, runs@.take(k as int), origin, cur0);
                let (b1, s1) = run_out(grid, run, origin, s0);
                assert(self.w@ =~= before + (b0 + b1));
            }
            k = k + 1;
        }
        proof {
            assert(runs@.take(runs@.len() as int) =~= runs@);
        }
    }

    /// Draws the whole grid, each row as one full-width run, with `origin`
    /// (1-based `(row, col)`) as its top-left cell; a reset comes first and
    /// last. An empty grid writes nothing.
    pub fn draw_full(&mut self, grid: &CellGrid, origin: (u16, u16))
        ensures
            (grid.ncols() == 0 || grid.nrows() == 0) ==> final(self).spec_writer() == old(self).spec_writer()
                && final(self).state() == old(self).state(),
            (grid.ncols() > 0 && grid.nrows() > 0) ==> final(self).spec_writer() == old(self).spec_writer()
                + frame_out(grid, full_repaint_runs(grid), origin) && final(self).state() is None,
    {
        let (cols, rows) = grid.dims();
        if cols == 0 || rows == 0 {
            return;
        }
        let ghost before = self.w@;
        let mut runs: Vec<CellRun> = Vec::new();
        let mut row: u16 = 0;
        while row < rows
            invariant
                row <= rows,
                cols == grid.ncols(),
                rows == grid.nrows(),
                cols > 0,
                runs@ == full_repaint_runs(grid).take(row as int),
            decreases rows - row,
        {
            runs.push(CellRun { row, col: 0, len: cols });
            proof {
                assert(runs@ =~= full_repaint_runs(grid).take(row + 1));
            }
            row = row + 1;
        }
        proof {
            assert(runs@ =~= full_repaint_runs(grid));
        }
        self.reset();
        self.emit_runs(grid, &runs, origin);
        self.reset();
        proof {
            assert(self.w@ =~= before + frame_out(grid, full_repaint_runs(grid), origin));
        }
    }

    /// Redraws only what changed from `prev` to `next` (the runs of
    /// [`changed_runs`]), framed by resets; writes nothing when nothing
    /// changed.
    pub fn draw_diff(&mut self, prev: &CellGrid, next: &CellGrid, origin: (u16, u16))
        ensures
            exists|runs: Seq<CellRun>|
                #![trigger is_diff_runs(prev, next, runs)]
                is_diff_runs(prev, next, runs) && (runs.len() == 0 ==> final(self).spec_writer()
                    == old(self).spec_writer() && final(self).state() == old(self).state()) && (
                runs.len() > 0 ==> final(self).spec_writer() == old(self).spec_writer() + frame_out(
                    next,
                    runs,
                    origin,
                ) && final(self).state() is None),
    {
        let ghost before = self.w@;
        let runs = changed_runs(prev, next);
        proof {
            assert(is_diff_runs(prev, next, runs@));
        }
        if runs.len() == 0 {
            return;
        }
        self.reset();
        self.emit_runs(next, &runs, origin);
        self.reset();
        proof {
            assert(self.w@ =~= before + frame_out(next, runs@, origin));
        }
    }
}

/// Redrawing a grid over itself writes nothing: the only runs that
/// [`changed_runs`] may answer for two equal grids is the empty list.
pub proof fn lemma_no_change_no_runs(g: &CellGrid, runs: Seq<CellRun>)
    requires
        is_diff_runs(g, g, runs),
    ensures
        runs.len() == 0,
{
    if runs.len() > 0 {
        let r = runs[0];
        assert(crate::cell::repaint(g, g, r.col as int, r.row as int));
    }
}

} // verus!
