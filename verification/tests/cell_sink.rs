use paladocs::cell::{Cell, CellAttrs, CellGrid, CellWidth, Color, DEFAULT};
use paladocs::cell_sink::CellSink;

const BLACK: Color = [0, 0, 0, 255];
const WHITE: Color = [255, 255, 255, 255];

fn out(sink: CellSink) -> String {
    String::from_utf8(sink.writer().clone()).unwrap()
}

fn narrow(ch: char, fg: Color, bg: Color, attrs: CellAttrs) -> Cell {
    Cell { ch, fg, bg, width: CellWidth::Narrow, attrs }
}

#[test]
fn lifecycle_enter_leave_alt_screen_pair() {
    let mut sink = CellSink::new(Vec::new());
    sink.enter();
    sink.leave();
    let s = out(sink);
    let h = s.find("\x1b[?1049h").expect("enter alt-screen");
    let l = s.find("\x1b[?1049l").expect("leave alt-screen");
    assert!(h < l, "?1049h must precede ?1049l");
    assert!(s.contains("\x1b[?25l"));
    assert!(s.contains("\x1b[?25h"));
}

#[test]
fn solid_grid_emits_color_once() {
    let mut grid = CellGrid::new_blank(3, 2, BLACK);
    for row in 0..2 {
        for col in 0..3 {
            grid.set(col, row, narrow(' ', WHITE, BLACK, CellAttrs::none()));
        }
    }
    let mut sink = CellSink::new(Vec::new());
    sink.draw_full(&grid, (1, 1));
    let s = out(sink);
    assert_eq!(s.matches("38;2;255;255;255").count(), 1);
    assert_eq!(s.matches("48;2;0;0;0").count(), 1);
    assert!(s.starts_with("\x1b[0m"));
    assert!(s.ends_with("\x1b[0m"));
}

#[test]
fn bold_run_emits_then_resets_on_removal() {
    let mut grid = CellGrid::new_blank(3, 1, BLACK);
    grid.set(0, 0, narrow('A', WHITE, BLACK, CellAttrs::bold()));
    grid.set(1, 0, narrow('B', WHITE, BLACK, CellAttrs::bold()));
    grid.set(2, 0, narrow('C', WHITE, BLACK, CellAttrs::none()));
    let mut sink = CellSink::new(Vec::new());
    sink.draw_full(&grid, (1, 1));
    let s = out(sink);
    assert!(s.contains("\x1b[1;38;2;255;255;255;48;2;0;0;0m"));
    assert!(s.contains('A') && s.contains('B') && s.contains('C'));
    assert!(s.matches("\x1b[0m").count() >= 3);
}

#[test]
fn all_plain_grid_has_no_bold_code() {
    let mut grid = CellGrid::new_blank(2, 1, BLACK);
    grid.set(0, 0, narrow('a', WHITE, BLACK, CellAttrs::none()));
    grid.set(1, 0, narrow('b', WHITE, BLACK, CellAttrs::none()));
    let mut sink = CellSink::new(Vec::new());
    sink.draw_full(&grid, (1, 1));
    let s = out(sink);
    assert!(!s.contains("\x1b[1m"));
    assert!(!s.contains(";1;"));
}

#[test]
fn default_colors_emit_terminal_default_sgr() {
    let mut grid = CellGrid::new_blank(1, 1, DEFAULT);
    grid.set(0, 0, narrow('A', DEFAULT, DEFAULT, CellAttrs::none()));
    let mut sink = CellSink::new(Vec::new());
    sink.draw_full(&grid, (1, 1));
    let s = out(sink);
    assert!(s.contains("39"), "default fg must emit 39: {s:?}");
    assert!(s.contains("49"), "default bg must emit 49: {s:?}");
    assert!(!s.contains("38;2;"), "must not emit truecolor fg: {s:?}");
    assert!(!s.contains("48;2;"), "must not emit truecolor bg: {s:?}");
}

#[test]
fn diff_no_change_is_empty() {
    let grid = CellGrid::new_blank(4, 2, BLACK);
    let mut sink = CellSink::new(Vec::new());
    sink.draw_diff(&grid, &grid, (1, 1));
    assert!(out(sink).is_empty());
}

#[test]
fn diff_single_cell_one_cup_only_that_cell() {
    let old = CellGrid::new_blank(4, 2, BLACK);
    let mut new = old.clone();
    new.set(2, 1, narrow('x', WHITE, BLACK, CellAttrs::none()));
    let mut sink = CellSink::new(Vec::new());
    sink.draw_diff(&old, &new, (1, 1));
    let s = out(sink);
    assert_eq!(s.matches("\x1b[").count() - s.matches("\x1b[0m").count(), 2);
    assert!(s.contains("\x1b[2;3H"));
    assert!(s.contains('x'));
    assert!(!s.contains("\x1b[1;"));
}

#[test]
fn wide_emits_glyph_once_skips_continuation() {
    let mut grid = CellGrid::new_blank(3, 1, BLACK);
    grid.set(0, 0, Cell { ch: '漢', fg: WHITE, bg: BLACK, width: CellWidth::Wide, attrs: CellAttrs::none() });
    grid.set(1, 0, Cell { ch: ' ', fg: WHITE, bg: BLACK, width: CellWidth::Continuation, attrs: CellAttrs::none() });
    grid.set(2, 0, narrow('z', WHITE, BLACK, CellAttrs::none()));
    let mut sink = CellSink::new(Vec::new());
    sink.draw_full(&grid, (1, 1));
    let s = out(sink);
    assert_eq!(s.matches('漢').count(), 1);
    assert!(!s.contains(' '));
    assert!(s.contains('z'));
}

#[test]
fn origin_offsets_cup() {
    let mut grid = CellGrid::new_blank(1, 1, BLACK);
    grid.set(0, 0, narrow('q', WHITE, BLACK, CellAttrs::none()));
    let mut sink = CellSink::new(Vec::new());
    sink.draw_full(&grid, (3, 5));
    assert!(out(sink).contains("\x1b[3;5H"));
}

#[test]
fn added_attribute_emits_only_its_code() {
    let mut grid = CellGrid::new_blank(2, 1, BLACK);
    grid.set(0, 0, narrow('a', WHITE, BLACK, CellAttrs::none()));
    grid.set(1, 0, narrow('b', WHITE, BLACK, CellAttrs::underline()));
    let mut sink = CellSink::new(Vec::new());
    sink.draw_full(&grid, (1, 1));
    let s = out(sink);
    assert_eq!(s, "\x1b[0m\x1b[1;1H\x1b[38;2;255;255;255;48;2;0;0;0ma\x1b[4mb\x1b[0m");
}

#[test]
fn empty_grid_writes_nothing() {
    let grid = CellGrid::new_blank(0, 3, BLACK);
    let mut sink = CellSink::new(Vec::new());
    sink.draw_full(&grid, (1, 1));
    assert!(out(sink).is_empty());
}
