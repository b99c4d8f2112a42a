//! Kitty image ids (`i=`) and placement ids (`p=`) and their allocator.
//!
//! The protocol reserves `0` for "unspecified", so every id handed out here is
//! non-zero.
use vstd::prelude::*;

verus! {

/// A Kitty image id (`i=`); the allocator only hands out non-zero values.
#[derive(Debug, Clone, Copy, PartialEq, Eq, Hash, Structural)]
pub struct ImageId(pub u32);

/// A Kitty placement id (`p=`); the allocator only hands out non-zero values.
#[derive(Debug, Clone, Copy, PartialEq, Eq, Hash, Structural)]
pub struct PlacementId(pub u32);

/// The id that follows `id`: one more, or `1` again after `u32::MAX`.
pub open spec fn next_id(id: u32) -> u32 {
    if id == u32::MAX {
        1
    } else {
        (id + 1) as u32
    }
}

/// Hands out image ids and placement ids, each counting up from 1
/// independently.
#[derive(Debug)]
pub struct IdAllocator {
    next_image: u32,
    next_placement: u32,
}

impl IdAllocator {
    #[verifier::type_invariant]
    closed spec fn inv(&self) -> bool {
        self.next_image != 0 && self.next_placement != 0
    }

    /// The image id that the next call of [`IdAllocator::next_image`] returns.
    pub closed spec fn peek_image(&self) -> u32 {
        self.next_image
    }

    /// The placement id that the next call of [`IdAllocator::next_placement`]
    /// returns.
    pub closed spec fn peek_placement(&self) -> u32 {
        self.next_placement
    }

    /// An allocator whose first ids are both 1.
    pub fn new() -> (r: IdAllocator)
        ensures
            r.peek_image() == 1,
            r.peek_placement() == 1,
    {
        IdAllocator { next_image: 1, next_placement: 1 }
    }

    /// The next image id (never zero); placement ids are unaffected.
    pub fn next_image(&mut self) -> (id: ImageId)
        ensures
            id.0 == old(self).peek_image(),
            id.0 != 0,
            final(self).peek_image() == next_id(old(self).peek_image()),
            final(self).peek_placement() == old(self).peek_placement(),
    {
        proof {
            use_type_invariant(&*self);
        }
        let id = self.next_image;
        self.next_image = match self.next_image.checked_add(1) {
            Some(n) => n,
            None => 1,
        };
        ImageId(id)
    }

    /// The next placement id (never zero); image ids are unaffected.
    pub fn next_placement(&mut self) -> (id: PlacementId)
        ensures
            id.0 == old(self).peek_placement(),
            id.0 != 0,
            final(self).peek_placement() == next_id(old(self).peek_placement()),
            final(self).peek_image() == old(self).peek_image(),
    {
        proof {
            use_type_invariant(&*self);
        }
        let id = self.next_placement;
        self.next_placement = match self.next_placement.checked_add(1) {
            Some(n) => n,
            None => 1,
        };
        PlacementId(id)
    }
}

impl Clone for IdAllocator {
    fn clone(&self) -> (r: IdAllocator)
        ensures
            r == *self,
    {
        proof {
            use_type_invariant(self);
        }
        IdAllocator { next_image: self.next_image, next_placement: self.next_placement }
    }
}

impl Default for IdAllocator {
    fn default() -> (r: IdAllocator)
        ensures
            r.peek_image() == 1,
            r.peek_placement() == 1,
    {
        IdAllocator::new()
    }
}

} // verus!
