use paladocs::deck::{Deck, DeckError, DeckMeta, FrameId, SizePt, Slide, SlideIdx, Step};

fn deck(steps_per_slide: &[u32]) -> Deck {
    let mut slides = Vec::with_capacity(steps_per_slide.len());
    let mut frame: u32 = 0;
    for (i, &n) in steps_per_slide.iter().enumerate() {
        let mut steps = Vec::with_capacity(n as usize);
        for _ in 0..n {
            steps.push(Step { frame: FrameId(frame) });
            frame += 1;
        }
        slides.push(Slide { index: SlideIdx(i as u32), steps, notes: None });
    }
    Deck {
        meta: DeckMeta { title: None, page_pt: SizePt { w_bits: 595.0f32.to_bits(), h_bits: 842.0f32.to_bits() } },
        slides,
    }
}

#[test]
fn frame_count_no_overlay() {
    assert_eq!(deck(&[1, 1, 1]).frame_count(), 3);
}

#[test]
fn frame_count_with_overlay() {
    assert_eq!(deck(&[2, 3]).frame_count(), 5);
}

#[test]
fn slide_of_first_slide() {
    let d = deck(&[2, 3]);
    assert_eq!(d.slide_of(FrameId(0)), Some(SlideIdx(0)));
    assert_eq!(d.slide_of(FrameId(1)), Some(SlideIdx(0)));
}

#[test]
fn slide_of_second_slide() {
    let d = deck(&[2, 3]);
    assert_eq!(d.slide_of(FrameId(2)), Some(SlideIdx(1)));
    assert_eq!(d.slide_of(FrameId(3)), Some(SlideIdx(1)));
    assert_eq!(d.slide_of(FrameId(4)), Some(SlideIdx(1)));
}

#[test]
fn slide_of_out_of_range() {
    let d = deck(&[2, 3]);
    assert_eq!(d.slide_of(FrameId(5)), None);
    assert_eq!(d.slide_of(FrameId(100)), None);
}

#[test]
fn advance_across_slide_boundary() {
    let d = deck(&[2, 3]);
    assert_eq!(d.advance(FrameId(1)), Some(FrameId(2)));
}

#[test]
fn advance_at_last_frame() {
    let d = deck(&[2, 3]);
    assert_eq!(d.advance(FrameId(4)), None);
}

#[test]
fn retreat_at_first_frame() {
    let d = deck(&[2, 3]);
    assert_eq!(d.retreat(FrameId(0)), None);
}

#[test]
fn retreat_undoes_advance_on_every_frame() {
    let d = deck(&[2, 3, 1]);
    for f in 0..5u32 {
        let next = d.advance(FrameId(f)).unwrap();
        assert_eq!(d.retreat(next), Some(FrameId(f)));
    }
}

#[test]
fn next_slide_from_first() {
    let d = deck(&[2, 3]);
    assert_eq!(d.next_slide(FrameId(0)), Some(FrameId(2)));
}

#[test]
fn next_slide_within_last_slide() {
    let d = deck(&[2, 3]);
    assert_eq!(d.next_slide(FrameId(3)), None);
}

#[test]
fn prev_slide_from_last_slide() {
    let d = deck(&[2, 3]);
    assert_eq!(d.prev_slide(FrameId(4)), Some(FrameId(0)));
}

#[test]
fn slide_first_frame_second_slide() {
    let d = deck(&[2, 3]);
    assert_eq!(d.slide_first_frame(SlideIdx(1)), Some(FrameId(2)));
}

#[test]
fn validate_ok() {
    assert_eq!(deck(&[2, 3]).validate(), Ok(()));
}

#[test]
fn validate_empty_steps() {
    let mut d = deck(&[2, 3]);
    d.slides[1].steps.clear();
    assert_eq!(d.validate(), Err(DeckError::EmptySteps { slide: SlideIdx(1) }));
}

#[test]
fn validate_slide_index_mismatch() {
    let mut d = deck(&[2, 3]);
    d.slides[1].index = SlideIdx(5);
    assert_eq!(d.validate(), Err(DeckError::SlideIndexMismatch { at: 1, found: SlideIdx(5) }));
}

#[test]
fn validate_frame_gap() {
    let mut d = deck(&[2, 3]);
    d.slides[1].steps[1].frame = FrameId(7);
    assert_eq!(
        d.validate(),
        Err(DeckError::FrameSequence { expected: FrameId(3), found: FrameId(7) })
    );
}

#[test]
fn empty_deck() {
    let d = deck(&[]);
    assert_eq!(d.frame_count(), 0);
    assert_eq!(d.slide_of(FrameId(0)), None);
    assert_eq!(d.advance(FrameId(0)), None);
    assert_eq!(d.retreat(FrameId(0)), None);
    assert_eq!(d.next_slide(FrameId(0)), None);
    assert_eq!(d.prev_slide(FrameId(0)), None);
    assert_eq!(d.slide_first_frame(SlideIdx(0)), None);
    assert_eq!(d.validate(), Ok(()));
}

#[test]
fn deck_error_messages() {
    assert_eq!(
        DeckError::SlideIndexMismatch { at: 1, found: SlideIdx(5) }.message(),
        "slide at position 1 has index 5 (expected 1)"
    );
    assert_eq!(DeckError::EmptySteps { slide: SlideIdx(3) }.message(), "slide 3 has no steps");
    assert_eq!(
        DeckError::FrameSequence { expected: FrameId(3), found: FrameId(7) }.message(),
        "frame sequence broken: expected FrameId(3), found FrameId(7)"
    );
}
