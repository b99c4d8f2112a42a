//! The pure navigation decision: from an [`Action`] and the current
//! [`PresentState`], the next state and the abstract drawing orders
//! ([`RenderOp`]). Drawing itself belongs to the shell that runs the loop.
//!
//! Moves across a slide boundary always clear and present the whole base
//! ([`RenderOp::PresentBase`]); partial updates ([`RenderOp::ApplyOverlay`])
//! are only used going forward inside one slide. The overlay depth counts
//! the reveal steps shown on the current slide.
use vstd::prelude::*;
use crate::deck::{
    Deck, FrameId, Slide, SlideIdx, advance_frame, retreat_frame, first_frame_of, lemma_frame_in_slide, next_slide_frame,
    prev_slide_frame, slide_at, steps_before, total_steps,
};
use crate::geometry::Viewport;

verus! {

/// An input (key, control socket, resize) normalised to one action.
#[derive(Debug, Clone, Copy, PartialEq, Eq, Structural)]
pub enum Action {
    /// One frame forward (next overlay of the slide, or the next slide).
    Advance,
    /// One frame back (one overlay back, or the last frame of the previous
    /// slide).
    Retreat,
    /// The first frame of the next slide, skipping the remaining overlays.
    NextSlide,
    /// The first frame of the previous slide.
    PrevSlide,
    /// Straight to this frame.
    Goto(FrameId),
    /// The source was compiled again and the deck rebuilt.
    Reload,
    /// The terminal was resized to this viewport.
    Resize(Viewport),
    /// End the presentation.
    Quit,
}

/// The presentation state, knowing neither terminal nor engine.
#[derive(Debug, Clone, Copy, PartialEq, Eq, Structural)]
pub struct PresentState {
    /// The frame on screen.
    pub cur: FrameId,
    /// The step of `cur` within its slide (0 at the slide's first frame): the
    /// number of overlays revealed, and the z of the top one.
    pub overlay_depth: u32,
}

impl PresentState {
    /// The first frame, at depth 0.
    pub fn start() -> (s: PresentState)
        ensures
            s == (PresentState { cur: FrameId(0), overlay_depth: 0 }),
    {
        PresentState { cur: FrameId(0), overlay_depth: 0 }
    }
}

/// An abstract drawing order, carried out by the shell.
#[derive(Debug, Clone, Copy, PartialEq, Eq, Structural)]
pub enum RenderOp {
    /// Clear, then present `frame` as a whole base (crossing a slide
    /// boundary).
    PresentBase(FrameId),
    /// Partial update inside a slide: only what changed from `from` to `to`
    /// is laid over at z-index `z`.
    ApplyOverlay {
        /// The previous frame (the base of the diff).
        from: FrameId,
        /// The new frame.
        to: FrameId,
        /// The z-index of the overlay (the new depth).
        z: i32,
    },
    /// Soft-delete the top overlay.
    RetreatOverlay,
    /// Rasterise the current frame again for a new size and present it.
    Rerender,
    /// Nothing to draw (end of range, or an action without effect).
    Noop,
}

/// The offset of frame `f` within its slide; 0 outside the deck.
pub open spec fn offset_in_slide(slides: Seq<Slide>, f: FrameId) -> u32 {
    match slide_at(slides, f.0 as int) {
        None => 0,
        Some(s) => match first_frame_of(slides, s.0 as int) {
            None => 0,
            Some(first) => if f.0 >= first.0 {
                (f.0 - first.0) as u32
            } else {
                0
            },
        },
    }
}

/// The state and orders of a full presentation of frame `f`.
pub open spec fn present_at(slides: Seq<Slide>, f: FrameId) -> (PresentState, Seq<RenderOp>) {
    (PresentState { cur: f, overlay_depth: offset_in_slide(slides, f) }, seq![RenderOp::PresentBase(f)])
}

/// A full presentation of `target` when there is one; else no change and a
/// no-op.
pub open spec fn present_or_noop(s: PresentState, slides: Seq<Slide>, target: Option<FrameId>) -> (PresentState, Seq<RenderOp>) {
    match target {
        Some(f) => present_at(slides, f),
        None => (s, seq![RenderOp::Noop]),
    }
}

/// The next state and the drawing orders for `action` in state `s` over
/// `deck`:
/// - Advance: inside the slide, an overlay whose z is the new depth; into the
///   next slide, a full presentation at depth 0; at the last frame, a no-op.
/// - Retreat: one overlay back while the depth is positive; from a slide's
///   first frame, the previous frame (the last one of the previous slide)
///   presented in full; at the first frame, a no-op.
/// - NextSlide / PrevSlide: the neighbouring slide's first frame, or a no-op.
/// - Goto(n): frame `n` when it exists, else a no-op.
/// - Reload: the current frame, kept inside the (new) deck, presented in
///   full; an empty deck resets to the start with a no-op.
/// - Resize: a rerender; Quit: no order.
pub open spec fn next_state(s: PresentState, deck: Deck, action: Action) -> (PresentState, Seq<RenderOp>) {
    let slides = deck.slides@;
    let total = deck.total();
    match action {
        Action::Advance => if s.cur.0 + 1 < total {
            let next = FrameId((s.cur.0 + 1) as u32);
            if slide_at(slides, s.cur.0 as int) == slide_at(slides, next.0 as int) {
                (
                    PresentState { cur: next, overlay_depth: (s.overlay_depth + 1) as u32 },
                    seq![RenderOp::ApplyOverlay { from: s.cur, to: next, z: (s.overlay_depth + 1) as i32 }],
                )
            } else {
                (PresentState { cur: next, overlay_depth: 0 }, seq![RenderOp::PresentBase(next)])
            }
        } else {
            (s, seq![RenderOp::Noop])
        },
        Action::Retreat => if s.overlay_depth > 0 {
            (
                PresentState {
                    cur: FrameId((s.cur.0 - 1) as u32),
                    overlay_depth: (s.overlay_depth - 1) as u32,
                },
                seq![RenderOp::RetreatOverlay],
            )
        } else if s.cur.0 > 0 && s.cur.0 < total {
            present_at(slides, FrameId((s.cur.0 - 1) as u32))
        } else {
            (s, seq![RenderOp::Noop])
        },
        Action::NextSlide => present_or_noop(s, slides, next_slide_frame(slides, s.cur.0 as int)),
        Action::PrevSlide => present_or_noop(s, slides, prev_slide_frame(slides, s.cur.0 as int)),
        Action::Goto(n) => if n.0 < total {
            present_at(slides, n)
        } else {
            (s, seq![RenderOp::Noop])
        },
        Action::Reload => if total == 0 {
            (PresentState { cur: FrameId(0), overlay_depth: 0 }, seq![RenderOp::Noop])
        } else {
            let cur = if s.cur.0 >= total {
                FrameId((total - 1) as u32)
            } else {
                s.cur
            };
            present_at(slides, cur)
        },
        Action::Resize(_) => (s, seq![RenderOp::Rerender]),
        Action::Quit => (s, Seq::empty()),
    }
}

/// What `step` needs to run without overflow: an Advance inside the slide
/// raises the depth, so it must be below `u32::MAX`; a Retreat of an overlay
/// moves one frame back, so the frame must not be the first.
pub open spec fn step_allowed(s: PresentState, deck: Deck, action: Action) -> bool {
    &&& action == Action::Advance && s.cur.0 + 1 < deck.total() && slide_at(
        deck.slides@,
        s.cur.0 as int,
    ) == slide_at(deck.slides@, s.cur.0 + 1) ==> s.overlay_depth < u32::MAX
    &&& action == Action::Retreat && s.overlay_depth > 0 ==> s.cur.0 > 0
}

/// The offset of `frame` within its slide (0 outside the deck).
pub fn offset_within_slide(deck: &Deck, frame: FrameId) -> (r: u32)
    requires
        deck.addressable(),
    ensures
        r == offset_in_slide(deck.slides@, frame),
{
    match deck.slide_of(frame) {
        None => 0,
        Some(s) => match deck.slide_first_frame(s) {
            None => 0,
            Some(first) => frame.0.saturating_sub(first.0),
        },
    }
}

/// Presents `target` in full when there is one, else a no-op.
pub fn goto_present(state: &mut PresentState, deck: &Deck, target: Option<FrameId>) -> (ops: Vec<RenderOp>)
    requires
        deck.addressable(),
    ensures
        (*final(state), ops@) == present_or_noop(*old(state), deck.slides@, target),
{
    match target {
        Some(f) => {
            state.cur = f;
            state.overlay_depth = offset_within_slide(deck, f);
            vec![RenderOp::PresentBase(f)]
        },
        None => vec![RenderOp::Noop],
    }
}

fn same_slide(a: Option<crate::deck::SlideIdx>, b: Option<crate::deck::SlideIdx>) -> (r: bool)
    ensures
        r == (a == b),
{
    match (a, b) {
        (None, None) => true,
        (Some(x), Some(y)) => x.0 == y.0,
        _ => false,
    }
}

/// Decides the next state and the drawing orders for `action`, touching
/// neither terminal nor engine (see [`next_state`]).
pub fn step(state: &mut PresentState, deck: &Deck, action: Action) -> (ops: Vec<RenderOp>)
    requires
        deck.addressable(),
        step_allowed(*old(state), *deck, action),
    ensures
        (*final(state), ops@) == next_state(*old(state), *deck, action),
{
    match action {
        Action::Advance => match deck.advance(state.cur) {
            None => vec![RenderOp::Noop],
            Some(next) => {
                let same = same_slide(deck.slide_of(state.cur), deck.slide_of(next));
                if same {
                    let from = state.cur;
                    state.overlay_depth = state.overlay_depth + 1;
                    let z = state.overlay_depth as i32;
                    state.cur = next;
                    vec![RenderOp::ApplyOverlay { from, to: next, z }]
                } else {
                    state.cur = next;
                    state.overlay_depth = 0;
                    vec![RenderOp::PresentBase(next)]
                }
            },
        },
        Action::Retreat => {
            if state.overlay_depth > 0 {
                state.overlay_depth = state.overlay_depth - 1;
                state.cur = FrameId(state.cur.0 - 1);
                vec![RenderOp::RetreatOverlay]
            } else {
                match deck.retreat(state.cur) {
                    None => vec![RenderOp::Noop],
                    Some(prev) => {
                        state.cur = prev;
                        state.overlay_depth = offset_within_slide(deck, prev);
                        vec![RenderOp::PresentBase(prev)]
                    },
                }
            }
        },
        Action::NextSlide => {
            let target = deck.next_slide(state.cur);
            goto_present(state, deck, target)
        },
        Action::PrevSlide => {
            let target = deck.prev_slide(state.cur);
            goto_present(state, deck, target)
        },
        Action::Goto(n) => {
            if (n.0 as usize) < deck.frame_count() {
                goto_present(state, deck, Some(n))
            } else {
                vec![RenderOp::Noop]
            }
        },
        Action::Reload => {
            let fc = deck.frame_count();
            if fc == 0 {
                *state = PresentState::start();
                return vec![RenderOp::Noop];
            }
            if state.cur.0 as usize >= fc {
                state.cur = FrameId((fc - 1) as u32);
            }
            state.overlay_depth = offset_within_slide(deck, state.cur);
            vec![RenderOp::PresentBase(state.cur)]
        },
        Action::Resize(_) => vec![RenderOp::Rerender],
        Action::Quit => Vec::new(),
    }
}

/// [`step`] where its precondition holds: `None`, with the state unchanged,
/// when the deck's frame numbers do not fit a `u32` with room for one more or
/// the action would overflow the overlay depth or step back from frame 0.
pub fn try_step(state: &mut PresentState, deck: &Deck, action: Action) -> (ops: Option<Vec<RenderOp>>)
    ensures
        (deck.addressable() && step_allowed(*old(state), *deck, action)) ==> (ops matches Some(v) && (
            *final(state),
            v@,
        ) == next_state(*old(state), *deck, action)),
        !(deck.addressable() && step_allowed(*old(state), *deck, action)) ==> ops is None && *final(state)
            == *old(state),
{
    if !deck.is_addressable() {
        return None;
    }
    let allowed = match action {
        Action::Advance => {
            let total = deck.frame_count();
            let cur = state.cur.0;
            if total > 0 && (cur as usize) < total - 1 {
                let same = same_slide(deck.slide_of(state.cur), deck.slide_of(FrameId(cur + 1)));
                !same || state.overlay_depth < u32::MAX
            } else {
                true
            }
        },
        Action::Retreat => state.overlay_depth == 0 || state.cur.0 > 0,
        _ => true,
    };
    if !allowed {
        return None;
    }
    Some(step(state, deck, action))
}

/// The state's depth is the position of its frame within its slide.
pub open spec fn depth_consistent(s: PresentState, deck: Deck) -> bool {
    s.overlay_depth == offset_in_slide(deck.slides@, s.cur)
}

proof fn lemma_offset(slides: Seq<Slide>, f: FrameId) -> (i: int)
    requires
        crate::deck::valid_slides(slides),
        f.0 < total_steps(slides),
        total_steps(slides) < u32::MAX,
    ensures
        0 <= i < slides.len(),
        steps_before(slides, i) <= f.0 < steps_before(slides, i + 1),
        steps_before(slides, i + 1) <= total_steps(slides),
        slide_at(slides, f.0 as int) == Some(SlideIdx(i as u32)),
        offset_in_slide(slides, f) == f.0 - steps_before(slides, i),
{
    lemma_frame_in_slide(slides, f.0 as int)
}

/// The depth stays the position within the slide: on a valid deck, from a
/// state whose depth is its frame's position within its slide, every action
/// leads to a state where that still holds. So an overlay's z is always its
/// step within the slide, and stepping back removes exactly the overlays of
/// the current slide.
pub proof fn lemma_step_keeps_depth(s: PresentState, deck: Deck, action: Action)
    requires
        deck.valid(),
        deck.addressable(),
        depth_consistent(s, deck),
        step_allowed(s, deck, action),
    ensures
        depth_consistent(next_state(s, deck, action).0, deck),
{
    let slides = deck.slides@;
    let total = deck.total();
    match action {
        Action::Advance => {
            if s.cur.0 + 1 < total {
                let next = FrameId((s.cur.0 + 1) as u32);
                let i = lemma_offset(slides, s.cur);
                let j = lemma_offset(slides, next);
                if slide_at(slides, s.cur.0 as int) == slide_at(slides, next.0 as int) {
                    assert(i == j);
                } else {
                    if next.0 < steps_before(slides, i + 1) {
                        lemma_slide_at_in(slides, i, next.0 as int);
                    }
                    assert(next.0 == steps_before(slides, i + 1));
                    if steps_before(slides, j) < next.0 {
                        lemma_slide_at_in(slides, j, s.cur.0 as int);
                    }
                }
            }
        },
        Action::Retreat => {
            if s.overlay_depth > 0 {
                let i = lemma_offset(slides, s.cur);
                let prev = FrameId((s.cur.0 - 1) as u32);
                lemma_slide_at_in(slides, i, prev.0 as int);
                let j = lemma_offset(slides, prev);
                assert(i == j);
            }
        },
        _ => {},
    }
}

proof fn lemma_slide_at_in(slides: Seq<Slide>, i: int, f: int)
    requires
        crate::deck::valid_slides(slides),
        0 <= i < slides.len(),
        steps_before(slides, i) <= f < steps_before(slides, i + 1),
        steps_before(slides, i + 1) <= total_steps(slides),
    ensures
        slide_at(slides, f) == Some(SlideIdx(i as u32)),
{
    let k = lemma_frame_in_slide(slides, f);
    if k < i {
        crate::deck::lemma_steps_before_mono(slides, k + 1, i);
    } else if k > i {
        crate::deck::lemma_steps_before_mono(slides, i + 1, k);
    }
}

/// Stepping back undoes an overlay step: when Advance lays an overlay over
/// the current slide, Retreat from the new state gives back the original
/// state and only removes that overlay.
pub proof fn lemma_retreat_undoes_overlay(s: PresentState, deck: Deck)
    requires
        deck.addressable(),
        step_allowed(s, deck, Action::Advance),
        next_state(s, deck, Action::Advance).1[0] is ApplyOverlay,
    ensures
        next_state(next_state(s, deck, Action::Advance).0, deck, Action::Retreat) == (
            s,
            seq![RenderOp::RetreatOverlay],
        ),
{
}

/// Partial updates only go one frame forward inside one slide: whenever a
/// step orders an overlay, it is from the current frame to the next one,
/// both in the same slide, and its z is the new depth.
pub proof fn lemma_overlay_is_forward_in_slide(s: PresentState, deck: Deck, action: Action)
    requires
        deck.addressable(),
        next_state(s, deck, action).1.len() > 0,
        next_state(s, deck, action).1[0] is ApplyOverlay,
    ensures
        action == Action::Advance,
        next_state(s, deck, action).1[0] == (RenderOp::ApplyOverlay {
            from: s.cur,
            to: FrameId((s.cur.0 + 1) as u32),
            z: (s.overlay_depth + 1) as i32,
        }),
        s.cur.0 + 1 < deck.total(),
        slide_at(deck.slides@, s.cur.0 as int) == slide_at(deck.slides@, s.cur.0 + 1),
{
}

/// Slide jumps land on a slide's first frame: on a valid deck, the frame
/// that NextSlide or PrevSlide moves to is at depth 0 of its slide.
pub proof fn lemma_slide_jump_lands_on_first_frame(deck: Deck, f: FrameId)
    requires
        deck.valid(),
        deck.addressable(),
    ensures
        next_slide_frame(deck.slides@, f.0 as int) matches Some(g) ==> g.0 < deck.total()
            && offset_in_slide(deck.slides@, g) == 0,
        prev_slide_frame(deck.slides@, f.0 as int) matches Some(g) ==> g.0 < deck.total()
            && offset_in_slide(deck.slides@, g) == 0,
{
    let slides = deck.slides@;
    if f.0 < deck.total() {
        let i = lemma_frame_in_slide(slides, f.0 as int);
        if i + 1 < slides.len() && next_slide_frame(slides, f.0 as int) is Some {
            crate::deck::lemma_steps_before_mono(slides, i + 1, slides.len() as int);
            assert(slides.take(slides.len() as int) =~= slides);
            assert(slides[i + 1].steps@[0].frame.0 == steps_before(slides, i + 1) + 0);
            crate::deck::lemma_steps_before_step(slides, i + 1);
            crate::deck::lemma_steps_before_le_total(slides, i + 2);
            assert(crate::deck::slide_len(slides[i + 1]) > 0);
            lemma_slide_at_in(slides, i + 1, steps_before(slides, i + 1) as int);
        }
        if i > 0 && prev_slide_frame(slides, f.0 as int) is Some {
            assert(slides[i - 1].steps@[0].frame.0 == steps_before(slides, i - 1) + 0);
            crate::deck::lemma_steps_before_mono(slides, i - 1, i);
            crate::deck::lemma_steps_before_step(slides, i - 1);
            crate::deck::lemma_steps_before_le_total(slides, i);
            assert(crate::deck::slide_len(slides[i - 1]) > 0);
            lemma_slide_at_in(slides, i - 1, steps_before(slides, i - 1) as int);
        }
    }
}

/// `acc` with the frame of `c` appended, unless it is absent or already
/// there.
pub open spec fn push_new(acc: Seq<FrameId>, c: Option<FrameId>) -> Seq<FrameId> {
    match c {
        Some(f) => if acc.contains(f) {
            acc
        } else {
            acc.push(f)
        },
        None => acc,
    }
}

/// The frames worth rasterising ahead from `cur`, most likely first: the
/// next frame, the previous one, the first frame of the next slide and that
/// of the previous slide, each once.
pub open spec fn spec_prefetch_targets(slides: Seq<Slide>, cur: FrameId) -> Seq<FrameId> {
    let total = total_steps(slides);
    push_new(
        push_new(
            push_new(push_new(Seq::empty(), advance_frame(total, cur)), retreat_frame(total, cur)),
            next_slide_frame(slides, cur.0 as int),
        ),
        prev_slide_frame(slides, cur.0 as int),
    )
}

fn push_new_frame(acc: &mut Vec<FrameId>, c: Option<FrameId>)
    ensures
        final(acc)@ == push_new(old(acc)@, c),
{
    if let Some(f) = c {
        let mut i: usize = 0;
        while i < acc.len()
            invariant
                acc@ == old(acc)@,
                c == Some(f),
                i <= acc@.len(),
                forall|k: int| 0 <= k < i ==> acc@[k] != f,
            decreases acc@.len() - i,
        {
            if acc[i] == f {
                proof {
                    assert(acc@.contains(f));
                }
                return;
            }
            i = i + 1;
        }
        acc.push(f);
    }
}

/// The frames to warm the cache with while idle (see
/// [`spec_prefetch_targets`]).
pub fn prefetch_targets(state: &PresentState, deck: &Deck) -> (r: Vec<FrameId>)
    requires
        deck.addressable(),
    ensures
        r@ == spec_prefetch_targets(deck.slides@, state.cur),
{
    let mut out: Vec<FrameId> = Vec::new();
    push_new_frame(&mut out, deck.advance(state.cur));
    push_new_frame(&mut out, deck.retreat(state.cur));
    push_new_frame(&mut out, deck.next_slide(state.cur));
    push_new_frame(&mut out, deck.prev_slide(state.cur));
    out
}

} // verus!
