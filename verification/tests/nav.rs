use paladocs::deck::{Deck, DeckMeta, FrameId, SizePt, Slide, SlideIdx, Step};
use paladocs::geometry::{CellSize, Viewport};
use paladocs::nav::{step, Action, PresentState, RenderOp};

fn deck(steps_per_slide: &[u32]) -> Deck {
    let mut slides = Vec::new();
    let mut frame = 0u32;
    for (i, &n) in steps_per_slide.iter().enumerate() {
        let mut steps = Vec::new();
        for _ in 0..n {
            steps.push(Step { frame: FrameId(frame) });
            frame += 1;
        }
        slides.push(Slide { index: SlideIdx(i as u32), steps, notes: None });
    }
    let d = Deck {
        meta: DeckMeta { title: None, page_pt: SizePt { w_bits: 100.0f32.to_bits(), h_bits: 100.0f32.to_bits() } },
        slides,
    };
    d.validate().unwrap();
    d
}

fn at(cur: u32, depth: u32) -> PresentState {
    PresentState { cur: FrameId(cur), overlay_depth: depth }
}

fn viewport() -> Viewport {
    Viewport { cols: 80, rows: 24, cell: CellSize { w_px: 10, h_px: 20 } }
}

#[test]
fn advance_within_slide_is_overlay_with_increasing_z() {
    let d = deck(&[2, 3, 1]);
    let mut s = at(0, 0);
    let ops = step(&mut s, &d, Action::Advance);
    assert_eq!(ops, vec![RenderOp::ApplyOverlay { from: FrameId(0), to: FrameId(1), z: 1 }]);
    assert_eq!(s, at(1, 1));
}

#[test]
fn advance_at_slide_end_presents_next_slide_first_frame() {
    let d = deck(&[2, 3, 1]);
    let mut s = at(1, 1);
    let ops = step(&mut s, &d, Action::Advance);
    assert_eq!(ops, vec![RenderOp::PresentBase(FrameId(2))]);
    assert_eq!(s, at(2, 0));
}

#[test]
fn advance_at_last_frame_is_noop() {
    let d = deck(&[2, 3, 1]);
    let mut s = at(5, 0);
    let ops = step(&mut s, &d, Action::Advance);
    assert_eq!(ops, vec![RenderOp::Noop]);
    assert_eq!(s, at(5, 0));
}

#[test]
fn retreat_with_overlay_soft_deletes() {
    let d = deck(&[2, 3, 1]);
    let mut s = at(1, 1);
    let ops = step(&mut s, &d, Action::Retreat);
    assert_eq!(ops, vec![RenderOp::RetreatOverlay]);
    assert_eq!(s, at(0, 0));
}

#[test]
fn retreat_at_slide_start_presents_prev_slide_last_frame() {
    let d = deck(&[2, 3, 1]);
    let mut s = at(2, 0);
    let ops = step(&mut s, &d, Action::Retreat);
    assert_eq!(ops, vec![RenderOp::PresentBase(FrameId(1))]);
    assert_eq!(s, at(1, 1));
}

#[test]
fn retreat_at_first_frame_is_noop() {
    let d = deck(&[2, 3, 1]);
    let mut s = at(0, 0);
    let ops = step(&mut s, &d, Action::Retreat);
    assert_eq!(ops, vec![RenderOp::Noop]);
    assert_eq!(s, at(0, 0));
}

#[test]
fn next_slide_presents_first_frame() {
    let d = deck(&[2, 3, 1]);
    let mut s = at(0, 0);
    let ops = step(&mut s, &d, Action::NextSlide);
    assert_eq!(ops, vec![RenderOp::PresentBase(FrameId(2))]);
    assert_eq!(s, at(2, 0));
}

#[test]
fn next_slide_within_last_slide_is_noop() {
    let d = deck(&[2, 3, 1]);
    let mut s = at(5, 0);
    let ops = step(&mut s, &d, Action::NextSlide);
    assert_eq!(ops, vec![RenderOp::Noop]);
}

#[test]
fn prev_slide_presents_first_frame() {
    let d = deck(&[2, 3, 1]);
    let mut s = at(3, 1);
    let ops = step(&mut s, &d, Action::PrevSlide);
    assert_eq!(ops, vec![RenderOp::PresentBase(FrameId(0))]);
    assert_eq!(s, at(0, 0));
}

#[test]
fn goto_in_range_presents_with_correct_depth() {
    let d = deck(&[2, 3, 1]);
    let mut s = at(0, 0);
    let ops = step(&mut s, &d, Action::Goto(FrameId(3)));
    assert_eq!(ops, vec![RenderOp::PresentBase(FrameId(3))]);
    assert_eq!(s, at(3, 1));
}

#[test]
fn goto_out_of_range_is_noop() {
    let d = deck(&[2, 3, 1]);
    let mut s = at(2, 0);
    let ops = step(&mut s, &d, Action::Goto(FrameId(99)));
    assert_eq!(ops, vec![RenderOp::Noop]);
    assert_eq!(s, at(2, 0));
}

#[test]
fn reload_clamps_cur_to_new_frame_count() {
    let d = deck(&[1, 1, 1]);
    let mut s = at(10, 0);
    let ops = step(&mut s, &d, Action::Reload);
    assert_eq!(ops, vec![RenderOp::PresentBase(FrameId(2))]);
    assert_eq!(s, at(2, 0));
}

#[test]
fn reload_keeps_in_range_cur() {
    let d = deck(&[2, 3, 1]);
    let mut s = at(3, 1);
    let ops = step(&mut s, &d, Action::Reload);
    assert_eq!(ops, vec![RenderOp::PresentBase(FrameId(3))]);
    assert_eq!(s, at(3, 1));
}

#[test]
fn reload_on_empty_deck_resets_and_noops() {
    let d = deck(&[]);
    let mut s = at(5, 2);
    let ops = step(&mut s, &d, Action::Reload);
    assert_eq!(ops, vec![RenderOp::Noop]);
    assert_eq!(s, PresentState::start());
}

#[test]
fn resize_rerenders() {
    let d = deck(&[2, 3, 1]);
    let mut s = at(3, 1);
    let ops = step(&mut s, &d, Action::Resize(viewport()));
    assert_eq!(ops, vec![RenderOp::Rerender]);
    assert_eq!(s, at(3, 1));
}

#[test]
fn quit_returns_no_ops() {
    let d = deck(&[2, 3, 1]);
    let mut s = at(0, 0);
    let ops = step(&mut s, &d, Action::Quit);
    assert!(ops.is_empty());
}

#[test]
fn depth_always_matches_position_in_slide() {
    // Walk forward through the whole deck and back again: the depth is
    // always the position of the frame within its slide.
    let d = deck(&[2, 3, 1]);
    let expected_depth = [0u32, 1, 0, 1, 2, 0];
    let mut s = PresentState::start();
    for f in 1..6u32 {
        step(&mut s, &d, Action::Advance);
        assert_eq!(s, at(f, expected_depth[f as usize]));
    }
    for f in (0..5u32).rev() {
        step(&mut s, &d, Action::Retreat);
        assert_eq!(s, at(f, expected_depth[f as usize]));
    }
}

#[test]
fn retreat_undoes_an_overlay_advance() {
    let d = deck(&[2, 3, 1]);
    let start = at(2, 0);
    let mut s = start;
    let ops = step(&mut s, &d, Action::Advance);
    assert_eq!(ops, vec![RenderOp::ApplyOverlay { from: FrameId(2), to: FrameId(3), z: 1 }]);
    let back = step(&mut s, &d, Action::Retreat);
    assert_eq!(back, vec![RenderOp::RetreatOverlay]);
    assert_eq!(s, start);
}

#[test]
fn prefetch_targets_in_priority_order() {
    let d = deck(&[2, 3, 1]);
    // Frame 3 is the middle overlay of slide 1 (frames 2..=4).
    let t = paladocs::nav::prefetch_targets(&at(3, 1), &d);
    assert_eq!(t, vec![FrameId(4), FrameId(2), FrameId(5), FrameId(0)]);
}

#[test]
fn prefetch_targets_skip_repeats_and_missing() {
    let d = deck(&[1, 1]);
    // From frame 0: next frame and next slide are both frame 1; nothing before.
    let t = paladocs::nav::prefetch_targets(&at(0, 0), &d);
    assert_eq!(t, vec![FrameId(1)]);
    let empty = deck(&[]);
    assert!(paladocs::nav::prefetch_targets(&at(0, 0), &empty).is_empty());
}

#[test]
fn try_step_runs_step_when_allowed() {
    let d = deck(&[2, 1]);
    let mut s = at(0, 0);
    let ops = paladocs::nav::try_step(&mut s, &d, Action::Advance).unwrap();
    assert_eq!(ops, vec![RenderOp::ApplyOverlay { from: FrameId(0), to: FrameId(1), z: 1 }]);
    assert_eq!(s, at(1, 1));
}

#[test]
fn try_step_refuses_overflowing_depth() {
    let d = deck(&[2]);
    let mut s = at(0, u32::MAX);
    assert_eq!(paladocs::nav::try_step(&mut s, &d, Action::Advance), None);
    assert_eq!(s, at(0, u32::MAX));
    let mut r = at(0, 1);
    assert_eq!(paladocs::nav::try_step(&mut r, &d, Action::Retreat), None);
}

#[test]
fn deck_is_addressable_for_small_decks() {
    assert!(deck(&[1, 2, 3]).is_addressable());
    assert!(deck(&[]).is_addressable());
}
