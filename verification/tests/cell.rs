use paladocs::cell::{changed_runs, Cell, CellAttrs, CellGrid, CellRun, CellWidth, Color};
use paladocs::deck::FrameId;
use paladocs::pixel::{Frame, PixelSize, Rect, Rgba};
use paladocs::quantize::{quantize_half_block, quantize_half_block_into};

const BLACK: Color = [0, 0, 0, 255];
const WHITE: Color = [255, 255, 255, 255];

fn frame(size: PixelSize, data: Vec<u8>) -> Frame {
    Frame { id: FrameId(0), image: Rgba::new(size, data).unwrap() }
}

fn solid_frame(w: u32, h: u32, rgba: [u8; 4]) -> Frame {
    let mut data = Vec::with_capacity((w * h) as usize * 4);
    for _ in 0..(w * h) {
        data.extend_from_slice(&rgba);
    }
    frame(PixelSize { w, h }, data)
}

#[test]
fn new_blank_dims_and_len() {
    let g = CellGrid::new_blank(4, 3, BLACK);
    assert_eq!(g.dims(), (4, 3));
    assert_eq!(g.cells().len(), 12);
    assert!(g.cells().iter().all(|c| *c == Cell::blank(BLACK, BLACK)));
}

#[test]
fn get_set_roundtrip() {
    let mut g = CellGrid::new_blank(3, 2, BLACK);
    let cell = Cell { ch: 'x', fg: WHITE, bg: BLACK, width: CellWidth::Narrow, attrs: CellAttrs::none() };
    g.set(2, 1, cell.clone());
    assert_eq!(*g.get(2, 1), cell);
    assert_eq!(*g.get(0, 0), Cell::blank(BLACK, BLACK));
}

#[test]
fn set_out_of_range_ignored() {
    let mut g = CellGrid::new_blank(2, 2, BLACK);
    g.set(5, 5, Cell::blank(WHITE, WHITE));
    assert_eq!(g.cells().len(), 4);
    assert!(g.cells().iter().all(|c| *c == Cell::blank(BLACK, BLACK)));
}

#[test]
fn fill_replaces_all() {
    let mut g = CellGrid::new_blank(2, 2, BLACK);
    let cell = Cell { ch: '#', fg: WHITE, bg: BLACK, width: CellWidth::Narrow, attrs: CellAttrs::none() };
    g.fill(cell.clone());
    assert!(g.cells().iter().all(|c| *c == cell));
}

#[test]
fn rows_yields_row_slices() {
    let mut g = CellGrid::new_blank(2, 3, BLACK);
    g.set(0, 0, Cell::blank(WHITE, WHITE));
    let rows = g.rows();
    assert_eq!(rows.len(), 3);
    assert!(rows.iter().all(|r| r.len() == 2));
    assert_eq!(rows[0][0], Cell::blank(WHITE, WHITE));
    assert_eq!(rows[0][1], Cell::blank(BLACK, BLACK));
}

#[test]
fn cell_attrs_bit_ops() {
    let mut a = CellAttrs::bold() | CellAttrs::underline();
    assert!(a.contains(CellAttrs::bold()));
    assert!(a.contains(CellAttrs::underline()));
    assert!(a.contains(CellAttrs::bold() | CellAttrs::underline()));
    assert!(!a.contains(CellAttrs::reverse()));
    a.remove(CellAttrs::bold());
    assert!(!a.contains(CellAttrs::bold()));
    assert!(a.contains(CellAttrs::underline()));
    a.insert(CellAttrs::dim());
    assert!(a.contains(CellAttrs::dim()));
    assert_eq!(CellAttrs::default(), CellAttrs::none());
}

#[test]
fn cell_attrs_flag_values() {
    assert_eq!(CellAttrs::bold().0, 1);
    assert_eq!(CellAttrs::dim().0, 2);
    assert_eq!(CellAttrs::italic().0, 4);
    assert_eq!(CellAttrs::underline().0, 8);
    assert_eq!(CellAttrs::reverse().0, 16);
    assert_eq!((CellAttrs::bold() & CellAttrs::dim()).0, 0);
}

#[test]
fn quantize_solid_uniform_opaque() {
    let f = solid_frame(8, 8, [10, 20, 30, 255]);
    let g = quantize_half_block(&f, 4, 4, BLACK);
    assert_eq!(g.dims(), (4, 4));
    for cell in g.cells() {
        assert_eq!(cell.ch, '\u{2580}');
        assert_eq!(cell.fg, [10, 20, 30, 255]);
        assert_eq!(cell.bg, [10, 20, 30, 255]);
        assert_eq!(cell.width, CellWidth::Narrow);
        assert_eq!(cell.attrs, CellAttrs::none());
        assert!(cell.fg[3] == 255 && cell.bg[3] == 255);
    }
}

#[test]
fn quantize_vertical_gradient_fg_ne_bg() {
    let data = vec![
        0, 0, 0, 255, 0, 0, 0, 255, 0, 0, 0, 255, 0, 0, 0, 255, //
        255, 255, 255, 255, 255, 255, 255, 255, 255, 255, 255, 255, 255, 255, 255, 255,
    ];
    let f = frame(PixelSize { w: 4, h: 2 }, data);
    let g = quantize_half_block(&f, 4, 1, BLACK);
    for cell in g.cells() {
        assert_eq!(cell.fg, [0, 0, 0, 255]);
        assert_eq!(cell.bg, [255, 255, 255, 255]);
        assert_ne!(cell.fg, cell.bg);
    }
}

#[test]
fn quantize_box_average_not_nearest() {
    let mk = |v: u8| [v, v, v, 255u8];
    let mut data = Vec::new();
    for v in [0u8, 100, 200, 40] {
        data.extend_from_slice(&mk(v));
        data.extend_from_slice(&mk(v));
    }
    let f = frame(PixelSize { w: 2, h: 4 }, data);
    let g = quantize_half_block(&f, 1, 1, BLACK);
    let cell = &g.cells()[0];
    assert_eq!(cell.fg, [50, 50, 50, 255]);
    assert_eq!(cell.bg, [120, 120, 120, 255]);
}

#[test]
fn quantize_alpha_composited_over_bg() {
    let f = solid_frame(2, 2, [200, 200, 200, 128]);
    let g = quantize_half_block(&f, 1, 1, [40, 40, 40, 255]);
    let cell = &g.cells()[0];
    assert_eq!(cell.fg, [120, 120, 120, 255]);
    assert_eq!(cell.bg, [120, 120, 120, 255]);
}

#[test]
fn quantize_into_writes_only_dst() {
    let mut g = CellGrid::new_blank(5, 5, WHITE);
    let f = solid_frame(4, 4, BLACK);
    let dst = Rect { x: 1, y: 1, w: 2, h: 2 };
    quantize_half_block_into(&mut g, dst, &f, BLACK);
    for row in 0..5u16 {
        for col in 0..5u16 {
            let c = g.get(col, row);
            if (1..=2).contains(&col) && (1..=2).contains(&row) {
                assert_eq!(c.fg, BLACK, "inside ({col},{row})");
                assert_eq!(c.ch, '\u{2580}');
            } else {
                assert_eq!(*c, Cell::blank(WHITE, WHITE), "outside ({col},{row}) unchanged");
            }
        }
    }
}

#[test]
fn quantize_into_clips_overhang() {
    let mut g = CellGrid::new_blank(2, 2, WHITE);
    let f = solid_frame(4, 4, BLACK);
    let dst = Rect { x: 1, y: 1, w: 3, h: 3 };
    quantize_half_block_into(&mut g, dst, &f, BLACK);
    assert_eq!(g.get(1, 1).fg, BLACK);
    assert_eq!(*g.get(0, 0), Cell::blank(WHITE, WHITE));
}

fn narrow(ch: char) -> Cell {
    Cell { ch, fg: WHITE, bg: BLACK, width: CellWidth::Narrow, attrs: CellAttrs::none() }
}

#[test]
fn changed_runs_identical_empty() {
    let g = CellGrid::new_blank(4, 2, BLACK);
    assert!(changed_runs(&g, &g).is_empty());
}

#[test]
fn changed_runs_single_cell() {
    let old = CellGrid::new_blank(4, 2, BLACK);
    let mut new = old.clone();
    new.set(2, 1, narrow('x'));
    assert_eq!(changed_runs(&old, &new), vec![CellRun { row: 1, col: 2, len: 1 }]);
}

#[test]
fn changed_runs_detects_attrs_only_change() {
    let old = CellGrid::new_blank(4, 1, BLACK);
    let mut new = old.clone();
    let mut bold = narrow(' ');
    bold.fg = BLACK;
    bold.bg = BLACK;
    bold.attrs = CellAttrs::bold();
    new.set(1, 0, bold);
    assert_eq!(changed_runs(&old, &new), vec![CellRun { row: 0, col: 1, len: 1 }]);
    assert!(changed_runs(&old, &old).is_empty());
}

#[test]
fn changed_runs_coalesce_and_split() {
    let old = CellGrid::new_blank(6, 1, BLACK);
    let mut new = old.clone();
    new.set(0, 0, narrow('a'));
    new.set(1, 0, narrow('b'));
    new.set(4, 0, narrow('c'));
    assert_eq!(
        changed_runs(&old, &new),
        vec![CellRun { row: 0, col: 0, len: 2 }, CellRun { row: 0, col: 4, len: 1 }]
    );
}

#[test]
fn changed_runs_dims_mismatch_full_repaint() {
    let old = CellGrid::new_blank(2, 2, BLACK);
    let new = CellGrid::new_blank(3, 2, WHITE);
    assert_eq!(
        changed_runs(&old, &new),
        vec![CellRun { row: 0, col: 0, len: 3 }, CellRun { row: 1, col: 0, len: 3 }]
    );
}

#[test]
fn changed_runs_wide_pulls_continuation() {
    let mut old = CellGrid::new_blank(3, 1, BLACK);
    let wide = Cell { ch: '漢', fg: WHITE, bg: BLACK, width: CellWidth::Wide, attrs: CellAttrs::none() };
    let cont = Cell { ch: ' ', fg: WHITE, bg: BLACK, width: CellWidth::Continuation, attrs: CellAttrs::none() };
    old.set(0, 0, wide.clone());
    old.set(1, 0, cont.clone());
    let mut new = old.clone();
    let mut wide2 = wide;
    wide2.ch = '字';
    new.set(0, 0, wide2);
    assert_eq!(changed_runs(&old, &new), vec![CellRun { row: 0, col: 0, len: 2 }]);
}

#[test]
fn changed_runs_continuation_pulls_wide() {
    let mut old = CellGrid::new_blank(3, 1, BLACK);
    let wide = Cell { ch: '漢', fg: WHITE, bg: BLACK, width: CellWidth::Wide, attrs: CellAttrs::none() };
    let cont = Cell { ch: ' ', fg: WHITE, bg: BLACK, width: CellWidth::Continuation, attrs: CellAttrs::none() };
    old.set(0, 0, wide);
    old.set(1, 0, cont.clone());
    let mut new = old.clone();
    let mut cont2 = cont;
    cont2.bg = [1, 2, 3, 255];
    new.set(1, 0, cont2);
    assert_eq!(changed_runs(&old, &new), vec![CellRun { row: 0, col: 0, len: 2 }]);
}

#[test]
fn cell_is_opaque_only_for_opaque_colours() {
    assert!(Cell::blank(BLACK, BLACK).is_opaque());
    assert!(!Cell::blank(BLACK, [0, 0, 0, 0]).is_opaque());
}
