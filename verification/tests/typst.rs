use paladocs::cell::{Cell, CellAttrs, CellGrid, CellWidth, Color, DEFAULT};
use paladocs::convert::pixmap_to_rgba;
use paladocs::deck::{DeckMeta, FrameId, SizePt};
use paladocs::diag::{report_engine_error, write_diagnostics};
use paladocs::diagnostic::{Diagnostic, EngineError, Severity};
use paladocs::pdfpc::{build, read_pages, MetaValue, PdfpcPage};
use paladocs::pixel::PixelSize;
use paladocs::project::{cell_width, cell_width_of, place_glyphs, GlyphSlot};
use tiny_skia::{Pixmap, PremultipliedColorU8};

const FG: Color = [200, 200, 200, 255];

fn meta() -> DeckMeta {
    DeckMeta { title: None, page_pt: SizePt { w_bits: 100.0f32.to_bits(), h_bits: 75.0f32.to_bits() } }
}

fn page(idx: u32, label: &str, note: Option<&str>) -> PdfpcPage {
    PdfpcPage { idx, label: label.to_string(), note: note.map(str::to_string) }
}

fn transparent() -> Cell {
    Cell::blank(DEFAULT, DEFAULT)
}

fn rgba_of(p: &Pixmap) -> paladocs::pixel::Rgba {
    pixmap_to_rgba(p.width(), p.height(), p.data()).unwrap()
}

fn slot(col: u16, ch: char, width: CellWidth, attrs: CellAttrs) -> GlyphSlot {
    GlyphSlot { row: 0, col, ch, width, attrs, fg: FG }
}

fn diag(severity: Severity, file: &str, line: u32, col: u32, msg: &str) -> Diagnostic {
    Diagnostic { severity, file: file.to_string(), line, col, message: msg.to_string() }
}

#[test]
fn groups_overlays_into_one_slide() {
    let pages = [page(0, "1", Some("note one")), page(1, "1", None), page(2, "2", None)];
    let deck = build(&pages, meta()).unwrap();
    assert_eq!(deck.slides.len(), 2);
    assert_eq!(deck.slides[0].steps.len(), 2);
    assert_eq!(deck.slides[0].steps[0].frame, FrameId(0));
    assert_eq!(deck.slides[0].steps[1].frame, FrameId(1));
    assert_eq!(deck.slides[0].notes.as_deref(), Some("note one"));
    assert_eq!(deck.slides[1].steps.len(), 1);
    assert_eq!(deck.slides[1].steps[0].frame, FrameId(2));
    assert_eq!(deck.frame_count(), 3);
}

#[test]
fn first_overlay_note_wins() {
    let pages = [page(0, "1", None), page(1, "1", Some("late note"))];
    let deck = build(&pages, meta()).unwrap();
    assert_eq!(deck.slides.len(), 1);
    assert_eq!(deck.slides[0].notes, None);
}

#[test]
fn non_contiguous_frames_rejected() {
    let pages = [page(0, "1", None), page(2, "2", None)];
    let err = build(&pages, meta()).unwrap_err();
    assert!(matches!(err, EngineError::Render(_)), "got {err:?}");
}

#[test]
fn empty_pages_empty_deck() {
    let deck = build(&[], meta()).unwrap();
    assert!(deck.slides.is_empty());
    assert_eq!(deck.frame_count(), 0);
}

#[test]
fn pdfpc_label_returning_later_starts_new_slide() {
    let pages = [page(0, "1", None), page(1, "2", None), page(2, "1", None)];
    let deck = build(&pages, meta()).unwrap();
    assert_eq!(deck.slides.len(), 3);
    assert_eq!(deck.slides[2].index.0, 2);
}

#[test]
fn pdfpc_rejection_names_the_violation() {
    let pages = [page(0, "1", None), page(2, "2", None)];
    match build(&pages, meta()).unwrap_err() {
        EngineError::Render(m) => assert!(m.starts_with("deck invariant violated: "), "{m}"),
        other => panic!("unexpected {other:?}"),
    }
}

#[test]
fn unpremultiply_known_semitransparent() {
    let mut pixmap = Pixmap::new(1, 1).unwrap();
    pixmap.pixels_mut()[0] = PremultipliedColorU8::from_rgba(100, 50, 25, 128).unwrap();
    let rgba = rgba_of(&pixmap);
    assert_eq!(rgba.size(), PixelSize { w: 1, h: 1 });
    assert_eq!(rgba.pixel(0, 0), Some([199, 100, 50, 128]));
}

#[test]
fn unpremultiply_transparent() {
    let pixmap = Pixmap::new(2, 2).unwrap();
    let rgba = rgba_of(&pixmap);
    assert_eq!(rgba.size().byte_len(), 16);
    assert!(rgba.as_bytes().iter().all(|&b| b == 0));
}

#[test]
fn unpremultiply_opaque_preserved() {
    let mut pixmap = Pixmap::new(1, 1).unwrap();
    pixmap.pixels_mut()[0] = PremultipliedColorU8::from_rgba(10, 20, 30, 255).unwrap();
    let rgba = rgba_of(&pixmap);
    assert_eq!(rgba.pixel(0, 0), Some([10, 20, 30, 255]));
}

#[test]
fn row_major_layout() {
    let mut pixmap = Pixmap::new(2, 1).unwrap();
    pixmap.pixels_mut()[0] = PremultipliedColorU8::from_rgba(11, 11, 11, 255).unwrap();
    pixmap.pixels_mut()[1] = PremultipliedColorU8::from_rgba(22, 22, 22, 255).unwrap();
    let rgba = rgba_of(&pixmap);
    assert_eq!(rgba.pixel(0, 0), Some([11, 11, 11, 255]));
    assert_eq!(rgba.pixel(1, 0), Some([22, 22, 22, 255]));
}

#[test]
fn glyphs_placed_at_proportional_columns() {
    let mut grid = CellGrid::new_blank(8, 1, DEFAULT);
    let none = CellAttrs::none();
    let slots = [
        slot(0, 'a', CellWidth::Narrow, none),
        slot(2, 'b', CellWidth::Narrow, none),
        slot(4, 'c', CellWidth::Narrow, none),
    ];
    place_glyphs(&mut grid, &slots);
    assert_eq!(grid.get(0, 0).ch, 'a');
    assert_eq!(grid.get(2, 0).ch, 'b');
    assert_eq!(grid.get(4, 0).ch, 'c');
    assert_eq!(grid.get(0, 0).fg, FG);
    assert_eq!(*grid.get(1, 0), transparent());
    assert_eq!(*grid.get(3, 0), transparent());
    assert_eq!(*grid.get(7, 0), transparent());
}

#[test]
fn run_positioned_at_absolute_x() {
    let mut grid = CellGrid::new_blank(8, 1, DEFAULT);
    place_glyphs(&mut grid, &[slot(5, 'z', CellWidth::Narrow, CellAttrs::none())]);
    assert_eq!(grid.get(5, 0).ch, 'z');
    assert_eq!(*grid.get(0, 0), transparent());
    assert_eq!(*grid.get(4, 0), transparent());
}

#[test]
fn wide_glyph_occupies_two_cells() {
    let mut grid = CellGrid::new_blank(8, 1, DEFAULT);
    let none = CellAttrs::none();
    let slots = [
        slot(0, '漢', CellWidth::Wide, none),
        slot(2, '字', CellWidth::Wide, none),
        slot(4, '体', CellWidth::Wide, none),
    ];
    place_glyphs(&mut grid, &slots);
    let widths: Vec<CellWidth> = (0..6).map(|c| grid.get(c, 0).width).collect();
    assert_eq!(
        widths,
        vec![
            CellWidth::Wide,
            CellWidth::Continuation,
            CellWidth::Wide,
            CellWidth::Continuation,
            CellWidth::Wide,
            CellWidth::Continuation,
        ]
    );
    assert_eq!(grid.get(0, 0).ch, '漢');
    assert_eq!(grid.get(2, 0).ch, '字');
    assert_eq!(grid.get(4, 0).ch, '体');
}

#[test]
fn overlapping_glyphs_pushed_right_monotonically() {
    let mut grid = CellGrid::new_blank(4, 1, DEFAULT);
    let none = CellAttrs::none();
    // Advances of 0.4 columns round to columns 0, 0 and 1.
    let slots = [
        slot(0, 'a', CellWidth::Narrow, none),
        slot(0, 'b', CellWidth::Narrow, none),
        slot(1, 'c', CellWidth::Narrow, none),
    ];
    place_glyphs(&mut grid, &slots);
    assert_eq!(grid.get(0, 0).ch, 'a');
    assert_eq!(grid.get(1, 0).ch, 'b');
    assert_eq!(grid.get(2, 0).ch, 'c');
}

#[test]
fn gap_between_runs_is_transparent() {
    let mut grid = CellGrid::new_blank(8, 1, DEFAULT);
    let none = CellAttrs::none();
    place_glyphs(&mut grid, &[slot(0, 'a', CellWidth::Narrow, none), slot(5, 'b', CellWidth::Narrow, none)]);
    assert_eq!(grid.get(0, 0).ch, 'a');
    assert_eq!(grid.get(5, 0).ch, 'b');
    for c in 1..5 {
        assert_eq!(*grid.get(c, 0), transparent(), "gap col {c}");
    }
}

#[test]
fn space_advances_without_placing_cell() {
    let mut grid = CellGrid::new_blank(8, 1, DEFAULT);
    let none = CellAttrs::none();
    // 'a' (advance 1), a space of advance 2 that places nothing, then 'b' at 3.
    place_glyphs(&mut grid, &[slot(0, 'a', CellWidth::Narrow, none), slot(3, 'b', CellWidth::Narrow, none)]);
    assert_eq!(grid.get(0, 0).ch, 'a');
    assert_eq!(grid.get(3, 0).ch, 'b');
    assert_eq!(*grid.get(1, 0), transparent());
    assert_eq!(*grid.get(2, 0), transparent());
}

#[test]
fn no_runs_no_change() {
    let mut grid = CellGrid::new_blank(4, 2, DEFAULT);
    let before = grid.duplicate();
    place_glyphs(&mut grid, &[]);
    assert_eq!(grid, before);
}

#[test]
fn wide_at_last_column_degrades_to_narrow() {
    let mut grid = CellGrid::new_blank(2, 1, DEFAULT);
    place_glyphs(&mut grid, &[slot(1, '漢', CellWidth::Wide, CellAttrs::none())]);
    assert_eq!(grid.get(1, 0).width, CellWidth::Narrow);
    assert_eq!(grid.get(1, 0).ch, '漢');
}

#[test]
fn bold_tier_applied_to_cells() {
    let mut grid = CellGrid::new_blank(4, 1, DEFAULT);
    place_glyphs(&mut grid, &[slot(0, 'T', CellWidth::Narrow, CellAttrs::bold())]);
    assert!(grid.get(0, 0).attrs.contains(CellAttrs::bold()));

    let mut g2 = CellGrid::new_blank(4, 1, DEFAULT);
    place_glyphs(&mut g2, &[slot(0, 'x', CellWidth::Narrow, CellAttrs::none())]);
    assert!(!g2.get(0, 0).attrs.contains(CellAttrs::bold()));
}

#[test]
fn glyphs_outside_grid_are_skipped() {
    let mut grid = CellGrid::new_blank(3, 1, DEFAULT);
    let mut far = slot(3, 'q', CellWidth::Narrow, CellAttrs::none());
    place_glyphs(&mut grid, &[far]);
    far.col = 0;
    far.row = 1;
    place_glyphs(&mut grid, &[far]);
    assert_eq!(grid, CellGrid::new_blank(3, 1, DEFAULT));
}

#[test]
fn glyphs_pushed_past_last_column_are_dropped() {
    let mut grid = CellGrid::new_blank(2, 1, DEFAULT);
    let none = CellAttrs::none();
    place_glyphs(
        &mut grid,
        &[slot(0, 'a', CellWidth::Narrow, none), slot(1, 'b', CellWidth::Narrow, none), slot(1, 'c', CellWidth::Narrow, none)],
    );
    assert_eq!(grid.get(0, 0).ch, 'a');
    assert_eq!(grid.get(1, 0).ch, 'b');
}

#[test]
fn cell_width_classification() {
    assert_eq!(cell_width('a'), Some(CellWidth::Narrow));
    assert_eq!(cell_width('漢'), Some(CellWidth::Wide));
    assert_eq!(cell_width('　'), Some(CellWidth::Wide));
    assert_eq!(cell_width('\u{0301}'), None);
}

#[test]
fn cell_width_of_display_widths() {
    assert_eq!(cell_width_of(Some(2)), Some(CellWidth::Wide));
    assert_eq!(cell_width_of(Some(1)), Some(CellWidth::Narrow));
    assert_eq!(cell_width_of(Some(0)), None);
    assert_eq!(cell_width_of(None), None);
}

#[test]
fn writes_one_json_line_per_diagnostic() {
    let diags = vec![
        diag(Severity::Error, "main.typ", 3, 5, "unexpected token"),
        diag(Severity::Warning, "lib.typ", 1, 1, "unused"),
    ];
    let mut out = Vec::new();
    write_diagnostics(&mut out, &diags);
    let s = String::from_utf8(out).unwrap();
    let lines: Vec<&str> = s.lines().collect();
    assert_eq!(lines.len(), 2);

    let v: serde_json::Value = serde_json::from_str(lines[0]).unwrap();
    assert_eq!(v["severity"], "error");
    assert_eq!(v["file"], "main.typ");
    assert_eq!(v["line"], 3);
    assert_eq!(v["col"], 5);
    assert_eq!(v["message"], "unexpected token");

    let v2: serde_json::Value = serde_json::from_str(lines[1]).unwrap();
    assert_eq!(v2["severity"], "warning");
}

#[test]
fn engine_compile_error_emits_each_diagnostic() {
    let err = EngineError::Compile(vec![diag(Severity::Error, "a.typ", 2, 4, "boom")]);
    let mut out = Vec::new();
    report_engine_error(&mut out, &err);
    let s = String::from_utf8(out).unwrap();
    assert_eq!(s.lines().count(), 1);
    assert!(s.contains("\"file\":\"a.typ\""));
}

#[test]
fn engine_io_error_emits_positionless_diagnostic() {
    let err = EngineError::Io("root.typ not found".to_string());
    let mut out = Vec::new();
    report_engine_error(&mut out, &err);
    let s = String::from_utf8(out).unwrap();
    let v: serde_json::Value = serde_json::from_str(s.lines().next().unwrap()).unwrap();
    assert_eq!(v["severity"], "error");
    assert_eq!(v["line"], 0);
    assert!(v["message"].as_str().unwrap().contains("io:"));
}

#[test]
fn diagnostic_json_line_exact_text() {
    let mut out = Vec::new();
    write_diagnostics(&mut out, &[diag(Severity::Warning, "x.typ", 12, 7, "say \"hi\"")]);
    assert_eq!(
        String::from_utf8(out).unwrap(),
        "{\"col\":7,\"file\":\"x.typ\",\"line\":12,\"message\":\"say \\\"hi\\\"\",\"severity\":\"warning\"}\n"
    );
}

#[test]
fn engine_package_error_line() {
    let mut out = Vec::new();
    report_engine_error(&mut out, &EngineError::Package("offline".to_string()));
    assert_eq!(
        String::from_utf8(out).unwrap(),
        "{\"col\":0,\"file\":\"\",\"line\":0,\"message\":\"package: offline\",\"severity\":\"error\"}\n"
    );
}

#[test]
fn engine_error_messages() {
    let e = EngineError::Compile(vec![diag(Severity::Error, "a.typ", 2, 4, "boom")]);
    assert_eq!(e.message(), "compilation failed with 1 diagnostic(s)\n  a.typ:2:4: boom");
    assert_eq!(EngineError::Render("x".to_string()).message(), "render error: x");
    assert_eq!(EngineError::Io("y".to_string()).message(), "io error: y");
    assert_eq!(EngineError::Package("z".to_string()).message(), "package error: z");
}

#[test]
fn body_size_picks_weighted_mode() {
    // 11pt body text dominates by glyph count; 22pt headings are few.
    let samples = [(110i64, 200u64), (220, 5), (165, 3)];
    assert_eq!(paladocs::compiled::weighted_mode(&samples), Some(110));
}

#[test]
fn body_size_buckets_near_sizes() {
    // 11.02pt and 10.98pt both round into bucket 110 and add up.
    let samples = [(110i64, 50u64), (110, 60), (220, 40)];
    assert_eq!(paladocs::compiled::weighted_mode(&samples), Some(110));
}

#[test]
fn body_size_empty_is_zero() {
    assert_eq!(paladocs::compiled::weighted_mode(&[]), None);
    assert_eq!(paladocs::compiled::weighted_mode(&[(120, 0)]), None);
}

#[test]
fn body_size_sums_split_buckets_over_single_heavier_sample() {
    let samples = [(100i64, 30u64), (200, 50), (100, 30)];
    assert_eq!(paladocs::compiled::weighted_mode(&samples), Some(100));
}

fn mstr(s: &str) -> MetaValue {
    MetaValue::Str(s.to_string())
}

fn mdict(entries: Vec<(&str, MetaValue)>) -> MetaValue {
    MetaValue::Dict(entries.into_iter().map(|(k, v)| (k.to_string(), v)).collect())
}

fn mpage(idx: i64, label: &str, note: Option<&str>) -> MetaValue {
    let mut es = vec![
        ("idx", MetaValue::Int(idx)),
        ("label", mstr(label)),
        ("overlay", MetaValue::Int(0)),
        ("hidden", MetaValue::Other),
    ];
    if let Some(n) = note {
        es.push(("note", mstr(n)));
    }
    mdict(es)
}

fn pdfpc_value(pages: Vec<MetaValue>) -> MetaValue {
    mdict(vec![
        ("pdfpcFormat", MetaValue::Int(2)),
        ("disableMarkdown", MetaValue::Other),
        ("pages", MetaValue::Array(pages)),
    ])
}

#[test]
fn pdfpc_groups_overlays_into_one_slide() {
    let v = pdfpc_value(vec![mpage(0, "1", None), mpage(1, "1", None), mpage(2, "2", None)]);
    let deck = paladocs::pdfpc::pdfpc_deck(Some(&v), meta()).unwrap();
    assert_eq!(deck.slides.len(), 2);
    assert_eq!(deck.slides[0].steps.len(), 2);
    assert_eq!(deck.slides[1].steps.len(), 1);
    assert_eq!(deck.frame_count(), 3);
    assert_eq!(deck.slides[0].steps[0].frame, FrameId(0));
    assert_eq!(deck.slides[0].steps[1].frame, FrameId(1));
    assert_eq!(deck.slides[1].steps[0].frame, FrameId(2));
}

#[test]
fn pdfpc_missing_is_explicit_error() {
    let err = paladocs::pdfpc::pdfpc_deck(None, meta()).unwrap_err();
    assert!(matches!(err, EngineError::PdfpcMissing), "got {err:?}");
}

#[test]
fn pdfpc_wrong_format_is_schema_error() {
    let v = mdict(vec![("pdfpcFormat", MetaValue::Int(1)), ("pages", MetaValue::Array(vec![]))]);
    let err = paladocs::pdfpc::pdfpc_deck(Some(&v), meta()).unwrap_err();
    assert!(matches!(err, EngineError::PdfpcSchema(_)), "got {err:?}");
}

#[test]
fn pdfpc_read_pages_keeps_notes_and_labels() {
    let v = pdfpc_value(vec![mpage(0, "1", Some("hello")), mpage(1, "2", None)]);
    let pages = read_pages(&v).unwrap();
    assert_eq!(pages.len(), 2);
    assert_eq!(pages[0].idx, 0);
    assert_eq!(pages[0].label, "1");
    assert_eq!(pages[0].note.as_deref(), Some("hello"));
    assert_eq!(pages[1].note, None);
}

#[test]
fn pdfpc_schema_errors_name_the_problem() {
    assert_eq!(read_pages(&MetaValue::Int(3)).unwrap_err(), "the metadata must be a dictionary");
    assert_eq!(read_pages(&mdict(vec![("pages", MetaValue::Array(vec![]))])).unwrap_err(), "pdfpcFormat must be 2");
    assert_eq!(
        read_pages(&mdict(vec![("pdfpcFormat", MetaValue::Int(2)), ("pages", MetaValue::Other)])).unwrap_err(),
        "pages must be an array"
    );
    let bad_label = pdfpc_value(vec![mdict(vec![("idx", MetaValue::Int(0)), ("label", MetaValue::Int(1))])]);
    assert_eq!(read_pages(&bad_label).unwrap_err(), "each page needs an integer idx and a string label");
    let negative = pdfpc_value(vec![mpage(-1, "1", None)]);
    assert!(read_pages(&negative).is_err());
    let too_big = pdfpc_value(vec![mpage(1 << 32, "1", None)]);
    assert!(read_pages(&too_big).is_err());
}

#[test]
fn pdfpc_error_texts() {
    assert_eq!(
        EngineError::PdfpcMissing.message(),
        "pdfpc metadata missing: the deck must be built with Touying"
    );
    assert_eq!(EngineError::PdfpcSchema("x".to_string()).message(), "pdfpc schema error: x");
    let mut out = Vec::new();
    report_engine_error(&mut out, &EngineError::PdfpcMissing);
    assert_eq!(
        String::from_utf8(out).unwrap(),
        "{\"col\":0,\"file\":\"\",\"line\":0,\"message\":\"pdfpc: metadata missing\",\"severity\":\"error\"}\n"
    );
}
