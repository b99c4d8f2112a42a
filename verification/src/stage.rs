//! What the presenting loop does for each render operation.
//!
//! The navigation state machine ([`crate::nav::step`]) yields abstract
//! [`RenderOp`]s; the image stage rasterises the frame an operation needs
//! (through the frame cache) and then makes one presenter call, decided here.
//! The cell stage redraws the whole grid after a resize and otherwise draws
//! only what changed.
use vstd::prelude::*;
use crate::cache::Key;
use crate::deck::FrameId;
use crate::geometry::Viewport;
use crate::nav::{Action, RenderOp};

verus! {

/// The presenter call that carries out one render operation.
#[derive(Debug, Clone, Copy, PartialEq, Eq, Structural)]
pub enum PresentCall {
    /// Clear and present the rendered frame as the new slide base.
    Slide,
    /// Lay the changes of the rendered frame over the shown one at this z.
    Overlay(i32),
    /// Remove the top overlay.
    Retreat,
    /// Place the rendered frame again for the new viewport.
    Resize,
    /// Nothing to do.
    Nothing,
}

/// The frame an operation needs rasterised: the target of a base or an
/// overlay, the current frame for a retreat (as the next diff base) or a
/// re-render, nothing for a no-op.
pub open spec fn spec_frame_to_render(op: RenderOp, cur: FrameId) -> Option<FrameId> {
    match op {
        RenderOp::PresentBase(f) => Some(f),
        RenderOp::ApplyOverlay { to, .. } => Some(to),
        RenderOp::RetreatOverlay => Some(cur),
        RenderOp::Rerender => Some(cur),
        RenderOp::Noop => None,
    }
}

/// The frame to rasterise for `op` when `cur` is the current frame.
pub fn frame_to_render(op: RenderOp, cur: FrameId) -> (r: Option<FrameId>)
    ensures
        r == spec_frame_to_render(op, cur),
{
    match op {
        RenderOp::PresentBase(f) => Some(f),
        RenderOp::ApplyOverlay { to, .. } => Some(to),
        RenderOp::RetreatOverlay => Some(cur),
        RenderOp::Rerender => Some(cur),
        RenderOp::Noop => None,
    }
}

/// The call for `op`, given whether its frame was rasterised and whether a
/// frame is on screen. A frame that failed to rasterise draws nothing (the
/// failure is reported); an overlay with nothing on screen to diff against
/// falls back to presenting the whole frame; a retreat never needs the frame.
pub open spec fn spec_present_call(op: RenderOp, rendered: bool, shown: bool) -> PresentCall {
    match op {
        RenderOp::PresentBase(_) => if rendered {
            PresentCall::Slide
        } else {
            PresentCall::Nothing
        },
        RenderOp::ApplyOverlay { z, .. } => if !rendered {
            PresentCall::Nothing
        } else if shown {
            PresentCall::Overlay(z)
        } else {
            PresentCall::Slide
        },
        RenderOp::RetreatOverlay => PresentCall::Retreat,
        RenderOp::Rerender => if rendered {
            PresentCall::Resize
        } else {
            PresentCall::Nothing
        },
        RenderOp::Noop => PresentCall::Nothing,
    }
}

/// The presenter call for `op` (see [`spec_present_call`]). After it, the
/// rasterised frame, if any, becomes the frame on screen.
pub fn present_call(op: RenderOp, rendered: bool, shown: bool) -> (c: PresentCall)
    ensures
        c == spec_present_call(op, rendered, shown),
{
    match op {
        RenderOp::PresentBase(_) => if rendered {
            PresentCall::Slide
        } else {
            PresentCall::Nothing
        },
        RenderOp::ApplyOverlay { z, .. } => if !rendered {
            PresentCall::Nothing
        } else if shown {
            PresentCall::Overlay(z)
        } else {
            PresentCall::Slide
        },
        RenderOp::RetreatOverlay => PresentCall::Retreat,
        RenderOp::Rerender => if rendered {
            PresentCall::Resize
        } else {
            PresentCall::Nothing
        },
        RenderOp::Noop => PresentCall::Nothing,
    }
}

/// What is on screen matters to overlays alone: a rendered base frame is
/// always presented as the new slide, whether or not a frame is shown; a
/// rendered overlay is laid over the shown frame, or presented whole when
/// none is shown; a retreat always removes the top overlay; a frame that
/// failed to rasterise never draws; and every other operation whose frame
/// was rasterised does draw it.
pub proof fn lemma_present_call_screen(op: RenderOp, rendered: bool, shown: bool)
    ensures
        op is PresentBase && rendered ==> spec_present_call(op, rendered, shown) == PresentCall::Slide,
        !(op is ApplyOverlay) ==> spec_present_call(op, rendered, shown) == spec_present_call(
            op,
            rendered,
            !shown,
        ),
        op matches RenderOp::ApplyOverlay { z, .. } ==> (rendered ==> spec_present_call(
            op,
            rendered,
            shown,
        ) == if shown {
            PresentCall::Overlay(z)
        } else {
            PresentCall::Slide
        }),
        op is RetreatOverlay ==> spec_present_call(op, rendered, shown) == PresentCall::Retreat,
        !rendered && !(op is RetreatOverlay) ==> spec_present_call(op, rendered, shown)
            == PresentCall::Nothing,
        rendered && spec_frame_to_render(op, FrameId(0)) is Some ==> spec_present_call(op, rendered, shown)
            != PresentCall::Nothing,
{
}

/// The cache key of `frame` rasterised for `viewport`: the frame and the
/// viewport's pixel size.
pub fn cache_key(frame: FrameId, viewport: Viewport) -> (k: Key)
    ensures
        k == (Key { id: frame, w: viewport.spec_pixel_size().w, h: viewport.spec_pixel_size().h }),
{
    let size = viewport.pixel_size();
    Key { id: frame, w: size.w, h: size.h }
}

/// The cell stage draws the whole grid after a resize or when nothing was
/// drawn yet, and otherwise only the cells that changed.
pub fn cell_full_redraw(action: Action, has_prev: bool) -> (full: bool)
    ensures
        full == (action is Resize || !has_prev),
{
    match action {
        Action::Resize(_) => true,
        _ => !has_prev,
    }
}

} // verus!
