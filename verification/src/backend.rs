//! The backend abstraction: transmitting an image, placing it and deleting
//! placements and images, so that the presentation lifecycle does not depend
//! on one terminal protocol.
use vstd::prelude::*;
use crate::encode;
use crate::encode::{delete_image_wire, delete_placement_wire, place_wire, transmit_wire};
use crate::geometry::Placement;
use crate::ids::{ImageId, PlacementId};
use crate::pixel::Rgba;

verus! {

/// Why a presentation step failed.
#[derive(Debug, Clone, Copy, PartialEq, Eq, Structural)]
pub enum PresentError {
    /// An overlay was applied while no slide was presented.
    NoSlide,
    /// The changed region does not lie inside the next frame.
    RegionOutOfBounds,
    /// The cell size is zero, or too large for a placement offset.
    InvalidGeometry,
    /// The backend could not write a command.
    Backend,
}

/// The text of a presentation error.
pub open spec fn present_error_text(e: PresentError) -> Seq<char> {
    match e {
        PresentError::NoSlide => "apply_overlay without a current slide"@,
        PresentError::RegionOutOfBounds => "changed region out of bounds"@,
        PresentError::InvalidGeometry => "invalid cell geometry (zero or oversized cell size)"@,
        PresentError::Backend => "backend write failed"@,
    }
}

impl PresentError {
    /// A sentence that says what went wrong (see [`present_error_text`]).
    pub fn message(&self) -> (s: String)
        ensures
            s@ == present_error_text(*self),
    {
        match self {
            PresentError::NoSlide => String::from_str("apply_overlay without a current slide"),
            PresentError::RegionOutOfBounds => String::from_str("changed region out of bounds"),
            PresentError::InvalidGeometry => String::from_str("invalid cell geometry (zero or oversized cell size)"),
            PresentError::Backend => String::from_str("backend write failed"),
        }
    }
}

/// One request of the presenter to its backend.
pub enum BackendCall {
    /// Transmit this image under this id.
    Transmit(ImageId, Rgba),
    /// Create this placement.
    Place(Placement),
    /// Soft-delete one placement of an image.
    DeletePlacement(ImageId, PlacementId),
    /// Hard-delete an image.
    DeleteImage(ImageId),
}

/// A terminal backend: each method only appends commands to `sink`; id
/// allocation and the lifecycle belong to [`crate::presenter::Presenter`].
///
/// A backend keeps a record of every request made of it, with whether it
/// accepted it; a method fails exactly when it refuses its request.
pub trait Backend {
    /// Every request made of this backend, in order, with whether it was
    /// accepted. Each backend that is verified keeps its own record; this
    /// default records nothing, which no method could then satisfy.
    open spec fn log(&self) -> Seq<(BackendCall, bool)> {
        Seq::empty()
    }

    /// Transmits the RGBA image `img` as image `id`, without placing it.
    fn transmit(&mut self, sink: &mut Vec<u8>, id: ImageId, img: &Rgba) -> (r: Result<(), PresentError>)
        ensures
            final(self).log() == old(self).log().push((BackendCall::Transmit(id, *img), r is Ok)),
    ;

    /// Places an already transmitted image.
    fn place(&mut self, sink: &mut Vec<u8>, p: &Placement) -> (r: Result<(), PresentError>)
        ensures
            final(self).log() == old(self).log().push((BackendCall::Place(*p), r is Ok)),
    ;

    /// Soft-deletes one placement; the image data stays.
    fn delete_placement(
        &mut self,
        sink: &mut Vec<u8>,
        id: ImageId,
        pid: PlacementId,
    ) -> (r: Result<(), PresentError>)
        ensures
            final(self).log() == old(self).log().push((BackendCall::DeletePlacement(id, pid), r is Ok)),
    ;

    /// Hard-deletes an image, its data and its placements.
    fn delete_image(&mut self, sink: &mut Vec<u8>, id: ImageId) -> (r: Result<(), PresentError>)
        ensures
            final(self).log() == old(self).log().push((BackendCall::DeleteImage(id), r is Ok)),
    ;
}

/// The Kitty graphics protocol backend: RGBA transmitted directly (`f=32`),
/// transmission and placement kept apart. It accepts every request; beside
/// the record of requests it holds no state.
#[derive(Clone, Copy)]
pub struct KittyBackend {
    record: Ghost<Seq<(BackendCall, bool)>>,
}

impl KittyBackend {
    /// A backend that has received no request yet.
    pub fn new() -> (b: KittyBackend)
        ensures
            b.log() == Seq::<(BackendCall, bool)>::empty(),
    {
        KittyBackend { record: Ghost(Seq::empty()) }
    }
}

impl Default for KittyBackend {
    fn default() -> (b: KittyBackend)
        ensures
            b.log() == Seq::<(BackendCall, bool)>::empty(),
    {
        KittyBackend::new()
    }
}

impl Backend for KittyBackend {
    closed spec fn log(&self) -> Seq<(BackendCall, bool)> {
        self.record@
    }

    fn transmit(&mut self, sink: &mut Vec<u8>, id: ImageId, img: &Rgba) -> (r: Result<(), PresentError>)
        ensures
            r is Ok,
            final(sink)@ == old(sink)@ + transmit_wire(
                id.0,
                img.spec_size().w,
                img.spec_size().h,
                img@,
            ),
    {
        let size = img.size();
        encode::transmit(sink, id.0, size.w, size.h, img.as_bytes());
        proof {
            self.record@ = self.record@.push((BackendCall::Transmit(id, *img), true));
        }
        Ok(())
    }

    fn place(&mut self, sink: &mut Vec<u8>, p: &Placement) -> (r: Result<(), PresentError>)
        ensures
            r is Ok,
            final(sink)@ == old(sink)@ + place_wire(*p),
    {
        encode::place(sink, p);
        proof {
            self.record@ = self.record@.push((BackendCall::Place(*p), true));
        }
        Ok(())
    }

    fn delete_placement(
        &mut self,
        sink: &mut Vec<u8>,
        id: ImageId,
        pid: PlacementId,
    ) -> (r: Result<(), PresentError>)
        ensures
            r is Ok,
            final(sink)@ == old(sink)@ + delete_placement_wire(id.0, pid.0),
    {
        encode::delete_placement(sink, id.0, pid.0);
        proof {
            self.record@ = self.record@.push((BackendCall::DeletePlacement(id, pid), true));
        }
        Ok(())
    }

    fn delete_image(&mut self, sink: &mut Vec<u8>, id: ImageId) -> (r: Result<(), PresentError>)
        ensures
            r is Ok,
            final(sink)@ == old(sink)@ + delete_image_wire(id.0),
    {
        encode::delete_image(sink, id.0);
        proof {
            self.record@ = self.record@.push((BackendCall::DeleteImage(id), true));
        }
        Ok(())
    }
}

} // verus!
