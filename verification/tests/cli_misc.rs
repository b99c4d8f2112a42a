use paladocs::backend::PresentError;
use paladocs::error::CliError;
use paladocs::letterbox::{centered, Letterbox};
use paladocs::cache::{cache_cap_bytes, FrameCache, Key};
use paladocs::cell::{Cell, CellAttrs, CellGrid, CellWidth, Color};
use paladocs::cli::Mode;
use paladocs::deck::FrameId;
use paladocs::geometry::{CellSize, Viewport};
use paladocs::keys::{map_key, KeyInput};
use paladocs::letterbox::{compose_full, DEFAULT_BG};
use paladocs::mode::{resolve_mode, should_warn_truecolor, truecolor_from_env, OutputMode};
use paladocs::nav::Action;
use paladocs::pixel::{Frame, PixelSize, Rgba};
use paladocs::protocol::{parse_cell_size_report, parse_command};
use paladocs::restore::{enter_sequence, restore_sequence};
use paladocs::terminal::{default_cell, viewport_from_window};

#[test]
fn auto_resolves_to_image() {
    assert_eq!(resolve_mode(Mode::Auto), OutputMode::Image);
}

#[test]
fn image_forced_is_image() {
    assert_eq!(resolve_mode(Mode::Image), OutputMode::Image);
}

#[test]
fn cell_forced_is_cell() {
    assert_eq!(resolve_mode(Mode::Cell), OutputMode::Cell);
    assert_ne!(resolve_mode(Mode::Cell), resolve_mode(Mode::Auto));
}

#[test]
fn truecolor_env_recognizes_known_values() {
    assert!(truecolor_from_env(Some("truecolor")));
    assert!(truecolor_from_env(Some("24bit")));
    assert!(truecolor_from_env(Some("truecolor:1")));
}

#[test]
fn truecolor_env_rejects_others_and_unset() {
    assert!(!truecolor_from_env(None));
    assert!(!truecolor_from_env(Some("")));
    assert!(!truecolor_from_env(Some("256")));
}

#[test]
fn truecolor_env_matches_inside_value() {
    assert!(truecolor_from_env(Some("x-24bit-y")));
    assert!(!truecolor_from_env(Some("24bi")));
}

#[test]
fn warns_only_for_cell_without_truecolor() {
    assert!(should_warn_truecolor(OutputMode::Cell, false));
    assert!(!should_warn_truecolor(OutputMode::Cell, true));
    assert!(!should_warn_truecolor(OutputMode::Image, false));
    assert!(!should_warn_truecolor(OutputMode::Image, true));
}

#[test]
fn parse_reload() {
    assert_eq!(parse_command(r#"{"cmd":"reload"}"#), Some(Action::Reload));
}

#[test]
fn parse_next_prev_quit() {
    assert_eq!(parse_command(r#"{"cmd":"next"}"#), Some(Action::Advance));
    assert_eq!(parse_command(r#"{"cmd":"prev"}"#), Some(Action::Retreat));
    assert_eq!(parse_command(r#"{"cmd":"quit"}"#), Some(Action::Quit));
}

#[test]
fn parse_goto_with_frame() {
    assert_eq!(parse_command(r#"{"cmd":"goto","frame":7}"#), Some(Action::Goto(FrameId(7))));
}

#[test]
fn parse_goto_missing_frame_is_none() {
    assert_eq!(parse_command(r#"{"cmd":"goto"}"#), None);
}

#[test]
fn parse_goto_negative_frame_is_none() {
    assert_eq!(parse_command(r#"{"cmd":"goto","frame":-1}"#), None);
}

#[test]
fn parse_goto_frame_beyond_u32_is_none() {
    assert_eq!(parse_command(r#"{"cmd":"goto","frame":4294967296}"#), None);
    assert_eq!(parse_command(r#"{"cmd":"goto","frame":4294967295}"#), Some(Action::Goto(FrameId(u32::MAX))));
}

#[test]
fn parse_unknown_cmd_is_none() {
    assert_eq!(parse_command(r#"{"cmd":"explode"}"#), None);
}

#[test]
fn parse_invalid_json_is_none() {
    assert_eq!(parse_command("not json at all"), None);
    assert_eq!(parse_command(""), None);
    assert_eq!(parse_command("{}"), None);
}

#[test]
fn parse_command_ignores_surrounding_whitespace() {
    assert_eq!(parse_command("  {\"cmd\":\"next\"}\n"), Some(Action::Advance));
}

#[test]
fn cell_size_report_width_height() {
    assert_eq!(parse_cell_size_report(b"\x1b[6;20;10t"), Some(CellSize { w_px: 10, h_px: 20 }));
}

#[test]
fn cell_size_report_ignores_leading_noise() {
    assert_eq!(parse_cell_size_report(b"junk\x1b[6;40;30t"), Some(CellSize { w_px: 30, h_px: 40 }));
}

#[test]
fn cell_size_report_rejects_wrong_kind() {
    assert_eq!(parse_cell_size_report(b"\x1b[8;24;80t"), None);
}

#[test]
fn cell_size_report_rejects_zero_and_malformed() {
    assert_eq!(parse_cell_size_report(b"\x1b[6;0;10t"), None);
    assert_eq!(parse_cell_size_report(b"\x1b[6;20t"), None);
    assert_eq!(parse_cell_size_report(b"\x1b[6;20;10;3t"), None);
    assert_eq!(parse_cell_size_report(b"nonsense"), None);
}

#[test]
fn cell_size_report_number_forms() {
    assert_eq!(parse_cell_size_report(b"\x1b[6;+20;10t"), Some(CellSize { w_px: 10, h_px: 20 }));
    assert_eq!(parse_cell_size_report(b"\x1b[6;20;4294967296t"), None);
    assert_eq!(parse_cell_size_report(b"\x1b[6;;10t"), None);
    assert_eq!(parse_cell_size_report(b"\x1b[6;2a;10t"), None);
}

#[test]
fn restore_sequence_emits_delete_cursor_altscreen_in_order() {
    let mut out = Vec::new();
    restore_sequence(&mut out);
    let s = String::from_utf8(out).unwrap();
    let del = s.find("\x1b_Ga=d,d=A").expect("delete-all images");
    let cursor = s.find("\x1b[?25h").expect("show cursor");
    let alt = s.find("\x1b[?1049l").expect("leave alt-screen");
    assert!(del < cursor && cursor < alt, "wrong order: {s:?}");
}

#[test]
fn enter_sequence_is_alt_screen_then_hidden_cursor() {
    let mut out = Vec::new();
    enter_sequence(&mut out);
    assert_eq!(out, b"\x1b[?1049h\x1b[?25l".to_vec());
}

#[test]
fn derives_cell_size_by_division() {
    let vp = viewport_from_window(80, 24, 800, 480);
    assert_eq!(vp.cols, 80);
    assert_eq!(vp.rows, 24);
    assert_eq!(vp.cell, CellSize { w_px: 10, h_px: 20 });
}

#[test]
fn falls_back_to_default_when_pixels_zero() {
    let vp = viewport_from_window(80, 24, 0, 0);
    assert_eq!(vp.cell, default_cell());
}

#[test]
fn clamps_zero_cols_rows_to_one() {
    let vp = viewport_from_window(0, 0, 0, 0);
    assert_eq!(vp.cols, 1);
    assert_eq!(vp.rows, 1);
}

#[test]
fn clamps_subcell_pixels_to_one() {
    let vp = viewport_from_window(100, 100, 50, 50);
    assert_eq!(vp.cell, CellSize { w_px: 1, h_px: 1 });
}

#[test]
fn key_advance_variants() {
    for code in [
        KeyInput::Right,
        KeyInput::Char(' '),
        KeyInput::Enter,
        KeyInput::PageDown,
        KeyInput::Char('j'),
        KeyInput::Char('l'),
        KeyInput::Char('n'),
    ] {
        assert_eq!(map_key(code, false), Some(Action::Advance));
    }
}

#[test]
fn key_retreat_variants() {
    for code in [
        KeyInput::Left,
        KeyInput::Backspace,
        KeyInput::PageUp,
        KeyInput::Char('k'),
        KeyInput::Char('h'),
        KeyInput::Char('p'),
    ] {
        assert_eq!(map_key(code, false), Some(Action::Retreat));
    }
}

#[test]
fn key_slide_nav_and_home() {
    assert_eq!(map_key(KeyInput::Down, false), Some(Action::NextSlide));
    assert_eq!(map_key(KeyInput::Up, false), Some(Action::PrevSlide));
    assert_eq!(map_key(KeyInput::Home, false), Some(Action::Goto(FrameId(0))));
}

#[test]
fn key_reload_and_quit() {
    assert_eq!(map_key(KeyInput::Char('r'), false), Some(Action::Reload));
    assert_eq!(map_key(KeyInput::Char('q'), false), Some(Action::Quit));
    assert_eq!(map_key(KeyInput::Esc, false), Some(Action::Quit));
    assert_eq!(map_key(KeyInput::Char('c'), true), Some(Action::Quit));
}

#[test]
fn unmapped_key_is_none() {
    assert_eq!(map_key(KeyInput::Char('z'), false), None);
    assert_eq!(map_key(KeyInput::Other, false), None);
    assert_eq!(map_key(KeyInput::Char('c'), false), None);
}

const WHITE: Color = [255, 255, 255, 255];

#[test]
fn compose_places_inner_and_blanks_margins() {
    let mut inner = CellGrid::new_blank(2, 1, WHITE);
    inner.set(0, 0, Cell { ch: 'a', fg: WHITE, bg: WHITE, width: CellWidth::Narrow, attrs: CellAttrs::none() });
    let full = compose_full(&inner, 4, 3, 1, 1, DEFAULT_BG);
    assert_eq!(full.dims(), (4, 3));
    assert_eq!(full.get(1, 1).ch, 'a');
    assert_eq!(*full.get(0, 0), Cell::blank(DEFAULT_BG, DEFAULT_BG));
    assert_eq!(*full.get(3, 2), Cell::blank(DEFAULT_BG, DEFAULT_BG));
}

#[test]
fn compose_preserves_wide_continuation_pair() {
    let mut inner = CellGrid::new_blank(2, 1, WHITE);
    inner.set(0, 0, Cell { ch: '漢', fg: WHITE, bg: WHITE, width: CellWidth::Wide, attrs: CellAttrs::none() });
    inner.set(1, 0, Cell { ch: ' ', fg: WHITE, bg: WHITE, width: CellWidth::Continuation, attrs: CellAttrs::none() });
    let full = compose_full(&inner, 6, 1, 2, 0, DEFAULT_BG);
    assert_eq!(full.get(2, 0).width, CellWidth::Wide);
    assert_eq!(full.get(3, 0).width, CellWidth::Continuation);
    assert_eq!(full.get(2, 0).ch, '漢');
}

#[test]
fn compose_drops_overhang() {
    let inner = CellGrid::new_blank(3, 3, WHITE);
    let full = compose_full(&inner, 2, 2, 1, 1, DEFAULT_BG);
    assert_eq!(*full.get(1, 1), Cell::blank(WHITE, WHITE));
    assert_eq!(*full.get(0, 1), Cell::blank(DEFAULT_BG, DEFAULT_BG));
}

fn frame(id: u32, w: u32, h: u32) -> Frame {
    Frame { id: FrameId(id), image: Rgba::transparent(PixelSize { w, h }) }
}

fn key(id: u32, w: u32, h: u32) -> Key {
    Key { id: FrameId(id), w, h }
}

fn assert_frame(got: Option<&Frame>, id: u32, w: u32, h: u32) {
    let f = got.expect("expected cache hit");
    assert_eq!(f.id, FrameId(id));
    assert_eq!(f.image, Rgba::transparent(PixelSize { w, h }));
}

#[test]
fn cache_hit_after_insert() {
    let mut c = FrameCache::new(1024);
    c.insert(key(0, 2, 2), frame(0, 2, 2));
    assert_frame(c.get(key(0, 2, 2)), 0, 2, 2);
}

#[test]
fn cache_miss_for_different_pixelsize() {
    let mut c = FrameCache::new(1024);
    c.insert(key(0, 2, 2), frame(0, 2, 2));
    assert!(c.get(key(0, 4, 4)).is_none());
    assert!(!c.contains(key(0, 4, 4)));
    assert!(c.contains(key(0, 2, 2)));
}

#[test]
fn cache_evicts_oldest_when_over_byte_cap() {
    let mut c = FrameCache::new(8);
    c.insert(key(0, 1, 1), frame(0, 1, 1));
    c.insert(key(1, 1, 1), frame(1, 1, 1));
    c.insert(key(2, 1, 1), frame(2, 1, 1));
    assert!(!c.contains(key(0, 1, 1)));
    assert!(c.contains(key(1, 1, 1)));
    assert!(c.contains(key(2, 1, 1)));
}

#[test]
fn cache_get_marks_recently_used() {
    let mut c = FrameCache::new(12);
    c.insert(key(0, 1, 1), frame(0, 1, 1));
    c.insert(key(1, 1, 1), frame(1, 1, 1));
    c.insert(key(2, 1, 1), frame(2, 1, 1));
    assert!(c.get(key(0, 1, 1)).is_some());
    c.insert(key(3, 1, 1), frame(3, 1, 1));
    assert!(!c.contains(key(1, 1, 1)));
    assert!(c.contains(key(0, 1, 1)));
    assert!(c.contains(key(3, 1, 1)));
}

#[test]
fn cache_keeps_at_least_one_when_frame_exceeds_cap() {
    let mut c = FrameCache::new(4);
    c.insert(key(0, 2, 2), frame(0, 2, 2));
    assert!(c.contains(key(0, 2, 2)));
    assert_frame(c.get(key(0, 2, 2)), 0, 2, 2);
}

#[test]
fn cache_replace_same_key_does_not_grow() {
    let mut c = FrameCache::new(8);
    c.insert(key(0, 1, 1), frame(0, 1, 1));
    c.insert(key(0, 1, 1), frame(0, 1, 1));
    c.insert(key(1, 1, 1), frame(1, 1, 1));
    assert!(c.contains(key(0, 1, 1)));
    assert!(c.contains(key(1, 1, 1)));
}

#[test]
fn cache_set_cap_evicts_immediately() {
    let mut c = FrameCache::new(12);
    c.insert(key(0, 1, 1), frame(0, 1, 1));
    c.insert(key(1, 1, 1), frame(1, 1, 1));
    c.insert(key(2, 1, 1), frame(2, 1, 1));
    c.set_cap(4);
    assert!(!c.contains(key(0, 1, 1)));
    assert!(!c.contains(key(1, 1, 1)));
    assert!(c.contains(key(2, 1, 1)));
}

#[test]
fn cache_clear_empties() {
    let mut c = FrameCache::new(1024);
    c.insert(key(0, 1, 1), frame(0, 1, 1));
    c.insert(key(1, 1, 1), frame(1, 1, 1));
    c.clear();
    assert!(!c.contains(key(0, 1, 1)));
    assert!(!c.contains(key(1, 1, 1)));
    assert_eq!(c.used_bytes(), 0);
}

#[test]
fn cache_zero_capacity_is_one() {
    let mut c = FrameCache::new(0);
    c.insert(key(0, 1, 1), frame(0, 1, 1));
    c.insert(key(1, 1, 1), frame(1, 1, 1));
    assert!(!c.contains(key(0, 1, 1)));
    assert!(c.contains(key(1, 1, 1)));
    assert_eq!(c.used_bytes(), 4);
}

#[test]
fn cache_capacity_is_twelve_frames() {
    let vp = Viewport { cols: 80, rows: 24, cell: CellSize { w_px: 10, h_px: 20 } };
    assert_eq!(cache_cap_bytes(vp), 800 * 480 * 4 * 12);
    let empty = Viewport { cols: 0, rows: 24, cell: CellSize { w_px: 10, h_px: 20 } };
    assert_eq!(cache_cap_bytes(empty), 12);
}

#[test]
fn letterbox_centres_inner_grid() {
    assert_eq!(centered(40, 40, 40, 11), Letterbox { icols: 40, irows: 11, off_col: 0, off_row: 14 });
    assert_eq!(centered(40, 40, 20, 40), Letterbox { icols: 20, irows: 40, off_col: 10, off_row: 0 });
    assert_eq!(centered(10, 10, 10, 1).off_row, 4);
}

#[test]
fn cli_error_texts() {
    assert_eq!(CliError::Reported.message(), "");
    assert_eq!(CliError::Usage("missing subcommand".to_string()).message(), "missing subcommand");
    let io: CliError = std::io::Error::other("disk full").into();
    assert!(matches!(io, CliError::Io(_)));
    assert_eq!(io.message(), "io error: disk full");
}

#[test]
fn present_error_texts() {
    assert_eq!(PresentError::NoSlide.message(), "apply_overlay without a current slide");
    assert_eq!(PresentError::RegionOutOfBounds.message(), "changed region out of bounds");
    assert_eq!(
        PresentError::InvalidGeometry.message(),
        "invalid cell geometry (zero or oversized cell size)"
    );
}

#[test]
fn control_line_trims_unicode_whitespace() {
    assert_eq!(parse_command("\u{a0}\t{\"cmd\":\"next\"}\u{3000}\n"), Some(Action::Advance));
}

#[test]
fn control_line_member_types_checked() {
    assert_eq!(parse_command("   \u{2003}  "), None);
    assert_eq!(parse_command(r#"{"cmd":5}"#), None);
    assert_eq!(parse_command(r#"["next"]"#), None);
    assert_eq!(parse_command(r#"{"cmd":"goto","frame":-1}"#), None);
    assert_eq!(parse_command(r#"{"cmd":"goto","frame":2.5}"#), None);
    assert_eq!(parse_command(r#"{"frame":3,"cmd":"goto"}"#), Some(Action::Goto(FrameId(3))));
}
