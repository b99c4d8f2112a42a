use paladocs::deck::FrameId;
use paladocs::geometry::{CellSize, Viewport};
use paladocs::nav::{Action, RenderOp};
use paladocs::stage::{cache_key, cell_full_redraw, frame_to_render, present_call, PresentCall};

fn viewport() -> Viewport {
    Viewport { cols: 80, rows: 24, cell: CellSize { w_px: 10, h_px: 20 } }
}

#[test]
fn stage_frame_to_render_per_op() {
    let cur = FrameId(4);
    assert_eq!(frame_to_render(RenderOp::PresentBase(FrameId(7)), cur), Some(FrameId(7)));
    assert_eq!(
        frame_to_render(RenderOp::ApplyOverlay { from: FrameId(3), to: FrameId(4), z: 1 }, cur),
        Some(FrameId(4))
    );
    assert_eq!(frame_to_render(RenderOp::RetreatOverlay, cur), Some(cur));
    assert_eq!(frame_to_render(RenderOp::Rerender, cur), Some(cur));
    assert_eq!(frame_to_render(RenderOp::Noop, cur), None);
}

#[test]
fn stage_present_call_per_op() {
    let ov = RenderOp::ApplyOverlay { from: FrameId(0), to: FrameId(1), z: 2 };
    assert_eq!(present_call(RenderOp::PresentBase(FrameId(1)), true, true), PresentCall::Slide);
    assert_eq!(present_call(RenderOp::PresentBase(FrameId(1)), false, true), PresentCall::Nothing);
    assert_eq!(present_call(ov, true, true), PresentCall::Overlay(2));
    assert_eq!(present_call(ov, true, false), PresentCall::Slide);
    assert_eq!(present_call(ov, false, true), PresentCall::Nothing);
    assert_eq!(present_call(RenderOp::RetreatOverlay, false, false), PresentCall::Retreat);
    assert_eq!(present_call(RenderOp::Rerender, true, false), PresentCall::Resize);
    assert_eq!(present_call(RenderOp::Rerender, false, true), PresentCall::Nothing);
    assert_eq!(present_call(RenderOp::Noop, true, true), PresentCall::Nothing);
}

#[test]
fn stage_cache_key_uses_viewport_pixels() {
    let k = cache_key(FrameId(3), viewport());
    assert_eq!(k.id, FrameId(3));
    assert_eq!((k.w, k.h), (800, 480));
}

#[test]
fn stage_cell_redraw_choice() {
    assert!(cell_full_redraw(Action::Resize(viewport()), true));
    assert!(cell_full_redraw(Action::Advance, false));
    assert!(!cell_full_redraw(Action::Advance, true));
}
