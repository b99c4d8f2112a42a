//! The presentation lifecycle, independent of the backend.
//!
//! A [`Presenter`] owns a backend, an id allocator, the viewport and the state
//! of the slide on screen. It presents a slide, applies overlays as partial
//! updates, steps back, clears and resizes, and frees every image it sent.
//! The contracts speak of the backend's own record of the requests made of it
//! (see [`Backend::log`]), with whether it accepted each: what the backend
//! received, not what the presenter meant to send.
use vstd::prelude::*;
use crate::backend::{Backend, BackendCall, PresentError};
use crate::geometry::{Placement, Viewport, geometry_of, place_geometry};
use crate::ids::{IdAllocator, ImageId, PlacementId, next_id};
use crate::pixel::{
    Frame, PixelSize, Rect, Rgba, change_rect, changed_region, crop, differs, fit, fit_rect,
    is_change_bbox, lemma_change_bbox_unique, rect_within,
};

verus! {

/// What the presenter holds of the slide on screen.
pub struct SlideView {
    /// Where the base image was placed (the fit of the page into the
    /// viewport); overlays are offset from its origin.
    pub base_rect: Rect,
    /// Every image sent for this slide, base first, in order.
    pub images: Seq<ImageId>,
    /// The overlay placements in the order they were applied.
    pub overlays: Seq<(ImageId, PlacementId)>,
}

/// `st` with one more overlay: placement `pid` of the new image `image`.
pub open spec fn with_overlay(st: SlideView, image: ImageId, pid: PlacementId) -> SlideView {
    SlideView { base_rect: st.base_rect, images: st.images.push(image), overlays: st.overlays.push((image, pid)) }
}

/// `st` without its top overlay; the overlay's image stays with the slide.
pub open spec fn without_top_overlay(st: SlideView) -> SlideView {
    SlideView { base_rect: st.base_rect, images: st.images, overlays: st.overlays.drop_last() }
}

/// Stepping back undoes an overlay: a retreat on the slide left by an
/// accepted overlay soft-deletes that overlay's placement (the top one) and
/// gives back the overlays the slide had before; the overlay's image stays
/// with the slide until it is cleared.
pub proof fn lemma_retreat_undoes_overlay_on_screen(st: SlideView, image: ImageId, pid: PlacementId)
    ensures
        with_overlay(st, image, pid).overlays.len() > 0,
        with_overlay(st, image, pid).overlays.last() == (image, pid),
        without_top_overlay(with_overlay(st, image, pid)) == (SlideView {
            base_rect: st.base_rect,
            images: st.images.push(image),
            overlays: st.overlays,
        }),
{
    assert(st.overlays.push((image, pid)).drop_last() =~= st.overlays);
}

/// Every id of `images` is below `next`.
pub open spec fn ids_below(images: Seq<ImageId>, next: u32) -> bool {
    forall|k: int| 0 <= k < images.len() ==> (#[trigger] images[k]).0 < next
}

/// Each call marked as accepted.
pub open spec fn ok_calls(calls: Seq<BackendCall>) -> Seq<(BackendCall, bool)> {
    calls.map_values(|c: BackendCall| (c, true))
}

/// One hard delete per image, in order.
pub open spec fn delete_calls(images: Seq<ImageId>) -> Seq<BackendCall> {
    images.map_values(|i: ImageId| BackendCall::DeleteImage(i))
}

/// The last request in `after` was refused, and `after` is longer than
/// `before`.
pub open spec fn backend_refused(before: Seq<(BackendCall, bool)>, after: Seq<(BackendCall, bool)>) -> bool {
    after.len() > before.len() && !after.last().1
}

/// The ids of the accepted transmissions in `log`, in order.
pub open spec fn transmitted(log: Seq<(BackendCall, bool)>) -> Seq<ImageId>
    decreases log.len(),
{
    if log.len() == 0 {
        Seq::empty()
    } else {
        let prev = transmitted(log.drop_last());
        match log.last() {
            (BackendCall::Transmit(id, _), true) => prev.push(id),
            _ => prev,
        }
    }
}

/// `sub` is the part of `src` under `rect`.
pub open spec fn is_crop(sub: Rgba, src: Rgba, rect: Rect) -> bool {
    &&& rect_within(rect, src.spec_size())
    &&& sub.spec_size() == (PixelSize { w: rect.w, h: rect.h })
    &&& sub.well_sized()
    &&& forall|x: int, y: int, c: int|
        0 <= x < rect.w && 0 <= y < rect.h && 0 <= c < 4 ==> #[trigger] sub.at(x, y, c) == src.at(
            rect.x + x,
            rect.y + y,
            c,
        )
}

/// `a + b`, or `u32::MAX` when that does not fit.
pub open spec fn sat_add(a: u32, b: u32) -> u32 {
    if a + b <= u32::MAX {
        (a + b) as u32
    } else {
        u32::MAX
    }
}

/// The placement of image `image` with id `pid` at pixel origin `(x, y)`
/// and z-index `z`, when the cell geometry allows one.
pub open spec fn placement_at(x: u32, y: u32, vp: Viewport, image: ImageId, pid: PlacementId, z: i32) -> Placement {
    let g = geometry_of(x, y, vp.cell)->0;
    Placement { image, id: pid, cell: g.0, offset: g.1, z }
}

struct SlideState {
    base_rect: Rect,
    all_images: Vec<ImageId>,
    overlays: Vec<(ImageId, PlacementId)>,
}

impl SlideState {
    spec fn view(&self) -> SlideView {
        SlideView { base_rect: self.base_rect, images: self.all_images@, overlays: self.overlays@ }
    }
}

/// The stateful driver of slide presentation over a backend `B`.
pub struct Presenter<B: Backend> {
    backend: B,
    ids: IdAllocator,
    viewport: Viewport,
    slide: Option<SlideState>,
    slide_start: Ghost<nat>,
}

impl<B: Backend> Presenter<B> {
    /// Every request made of the backend so far, with whether it was accepted.
    pub closed spec fn log(&self) -> Seq<(BackendCall, bool)> {
        self.backend.log()
    }

    /// The slide on screen, if any.
    pub closed spec fn slide(&self) -> Option<SlideView> {
        match self.slide {
            None => None,
            Some(st) => Some(st.view()),
        }
    }

    /// The images of the slide on screen (none without a slide).
    pub open spec fn slide_images(&self) -> Seq<ImageId> {
        match self.slide() {
            None => Seq::empty(),
            Some(st) => st.images,
        }
    }

    /// The viewport.
    pub closed spec fn spec_viewport(&self) -> Viewport {
        self.viewport
    }

    /// The backend.
    pub closed spec fn spec_backend(&self) -> B {
        self.backend
    }

    /// The id of the next image sent.
    pub closed spec fn next_image_id(&self) -> u32 {
        self.ids.peek_image()
    }

    /// The id of the next placement made.
    pub closed spec fn next_placement_id(&self) -> u32 {
        self.ids.peek_placement()
    }

    /// The position in the log where the slide on screen began.
    pub closed spec fn slide_start(&self) -> nat {
        self.slide_start@
    }

    /// The slide on screen holds exactly the images accepted for transmission
    /// since it began, so clearing it frees all of them.
    pub open spec fn tracks(&self) -> bool {
        match self.slide() {
            None => true,
            Some(st) => self.slide_start() <= self.log().len() && st.images == transmitted(
                self.log().skip(self.slide_start() as int),
            ),
        }
    }

    /// Every image of the slide on screen has an id below the next one to be
    /// handed out, so the next image id is not among them.
    pub open spec fn ids_fresh(&self) -> bool {
        ids_below(self.slide_images(), self.next_image_id())
    }

    /// A presenter with no slide on screen and ids starting at 1.
    pub fn new(backend: B, viewport: Viewport) -> (p: Presenter<B>)
        ensures
            p.spec_backend() == backend,
            p.spec_viewport() == viewport,
            p.slide() is None,
            p.log() == backend.log(),
            p.ids_fresh(),
            p.next_image_id() == 1,
            p.next_placement_id() == 1,
    {
        Presenter {
            backend,
            ids: IdAllocator::new(),
            viewport,
            slide: None,
            slide_start: Ghost(0),
        }
    }

    /// The viewport.
    pub fn viewport(&self) -> (v: Viewport)
        ensures
            v == self.spec_viewport(),
    {
        self.viewport
    }

    /// The backend.
    pub fn backend(&self) -> (b: &B)
        ensures
            *b == self.spec_backend(),
    {
        &self.backend
    }
}


proof fn lemma_skip_push(log: Seq<(BackendCall, bool)>, start: int, x: (BackendCall, bool))
    requires
        0 <= start <= log.len(),
    ensures
        log.push(x).skip(start) == log.skip(start).push(x),
{
    assert(log.push(x).skip(start) =~= log.skip(start).push(x));
}

proof fn lemma_transmitted_push(log: Seq<(BackendCall, bool)>, x: (BackendCall, bool))
    ensures
        transmitted(log.push(x)) == match x {
            (BackendCall::Transmit(id, _), true) => transmitted(log).push(id),
            _ => transmitted(log),
        },
{
    assert(log.push(x).drop_last() =~= log);
}

proof fn lemma_ok_calls_push(calls: Seq<BackendCall>, c: BackendCall)
    ensures
        ok_calls(calls.push(c)) == ok_calls(calls).push((c, true)),
{
    assert(ok_calls(calls.push(c)) =~= ok_calls(calls).push((c, true)));
}

proof fn lemma_delete_calls_take(images: Seq<ImageId>, k: int)
    requires
        0 <= k < images.len(),
    ensures
        delete_calls(images.take(k + 1)) == delete_calls(images.take(k)).push(
            BackendCall::DeleteImage(images[k]),
        ),
{
    assert(delete_calls(images.take(k + 1)) =~= delete_calls(images.take(k)).push(
        BackendCall::DeleteImage(images[k]),
    ));
}

impl<B: Backend> Presenter<B> {
    /// Hard-deletes every image of the slide on screen, base and overlays, in
    /// the order they were sent, and forgets the slide; nothing happens
    /// without a slide. Stops at the first refusal of the backend.
    pub fn clear_slide(&mut self, sink: &mut Vec<u8>) -> (r: Result<(), PresentError>)
        ensures
            final(self).slide() is None,
            final(self).spec_viewport() == old(self).spec_viewport(),
            final(self).next_image_id() == old(self).next_image_id(),
            final(self).next_placement_id() == old(self).next_placement_id(),
            r is Ok ==> final(self).log() == old(self).log() + ok_calls(
                delete_calls(old(self).slide_images()),
            ),
            r is Err ==> backend_refused(old(self).log(), final(self).log()),
            final(self).log().len() >= old(self).log().len(),
            final(self).log().take(old(self).log().len() as int) == old(self).log(),
            old(self).slide() is None ==> r is Ok && final(self).log() == old(self).log() && final(sink)@ == old(
                sink,
            )@,
            final(self).ids_fresh(),
    {
        let ghost log0 = self.backend.log();
        let taken = self.slide.take();
        let st = match taken {
            None => {
                proof {
                    assert(ok_calls(delete_calls(Seq::<ImageId>::empty())) =~= Seq::<(BackendCall, bool)>::empty());
                    assert(self.backend.log() + Seq::<(BackendCall, bool)>::empty() =~= self.backend.log());
                    assert(self.backend.log().take(log0.len() as int) =~= log0);
                }
                return Ok(());
            },
            Some(st) => st,
        };
        let ghost images = st.all_images@;
        let n = st.all_images.len();
        let mut k: usize = 0;
        proof {
            assert(images.take(0) =~= Seq::<ImageId>::empty());
            assert(ok_calls(delete_calls(images.take(0))) =~= Seq::<(BackendCall, bool)>::empty());
            assert(self.backend.log() =~= log0 + ok_calls(delete_calls(images.take(0))));
        }
        while k < n
            invariant
                n == images.len(),
                images == st.all_images@,
                k <= n,
                self.slide is None,
                old(self).slide is Some,
                self.viewport == old(self).viewport,
                self.ids == old(self).ids,
                log0 == old(self).backend.log(),
                self.backend.log() == log0 + ok_calls(delete_calls(images.take(k as int))),
            decreases n - k,
        {
            let id = st.all_images[k];
            let rd = self.backend.delete_image(sink, id);
            proof {
                lemma_delete_calls_take(images, k as int);
                lemma_ok_calls_push(delete_calls(images.take(k as int)), BackendCall::DeleteImage(id));
            }
            match rd {
                Err(e) => {
                    proof {
                        assert(self.backend.log().take(log0.len() as int) =~= log0);
                    }
                    return Err(e);
                },
                Ok(()) => {},
            }
            k = k + 1;
        }
        proof {
            assert(images.take(n as int) =~= images);
            assert(self.backend.log().take(log0.len() as int) =~= log0);
        }
        Ok(())
    }
}


impl<B: Backend> Presenter<B> {
    /// Presents the page `base`: clears the slide on screen first, then fits
    /// the page into the viewport, transmits it as a new image and places it
    /// at the fit's origin with `z=0`.
    pub fn present_slide(&mut self, sink: &mut Vec<u8>, base: &Frame) -> (r: Result<(), PresentError>)
        ensures
            final(self).spec_viewport() == old(self).spec_viewport(),
            final(self).log().len() >= old(self).log().len(),
            final(self).log().take(old(self).log().len() as int) == old(self).log(),
            ({
                let vp = old(self).spec_viewport();
                let rect = fit_rect(base.image.spec_size(), vp.spec_pixel_size());
                let image = ImageId(old(self).next_image_id());
                let pid = PlacementId(old(self).next_placement_id());
                &&& r is Ok ==> {
                    &&& geometry_of(rect.x, rect.y, vp.cell) is Some
                    &&& final(self).log() == old(self).log() + ok_calls(
                        delete_calls(old(self).slide_images()) + seq![
                            BackendCall::Transmit(image, base.image),
                            BackendCall::Place(placement_at(rect.x, rect.y, vp, image, pid, 0)),
                        ],
                    )
                    &&& final(self).slide() == Some(
                        SlideView { base_rect: rect, images: seq![image], overlays: Seq::empty() },
                    )
                    &&& final(self).next_image_id() == next_id(old(self).next_image_id())
                    &&& final(self).next_placement_id() == next_id(old(self).next_placement_id())
                    &&& final(self).tracks()
                }
                &&& r is Err ==> backend_refused(old(self).log(), final(self).log()) || (r
                    == Err::<(), PresentError>(PresentError::InvalidGeometry) && geometry_of(
                    rect.x,
                    rect.y,
                    vp.cell,
                ) is None)
                &&& geometry_of(rect.x, rect.y, vp.cell) is None ==> r is Err
            }),
            old(self).ids_fresh() ==> !old(self).slide_images().contains(ImageId(old(self).next_image_id())),
            r is Ok && old(self).next_image_id() < u32::MAX ==> final(self).ids_fresh(),
    {
        let ghost log0 = self.backend.log();
        let ghost old_images = self.slide_images();
        proof {
            if self.ids_fresh() && old_images.contains(ImageId(self.next_image_id())) {
                let k = choose|k: int| 0 <= k < old_images.len() && old_images[k] == ImageId(self.next_image_id());
                assert(self.slide_images()[k].0 < self.next_image_id());
            }
        }
        let ghost img0 = self.ids.peek_image();
        let ghost pid0 = self.ids.peek_placement();
        if self.slide.is_some() {
            let rc = self.clear_slide(sink);
            match rc {
                Err(e) => {
                    return Err(e);
                },
                Ok(()) => {},
            }
        } else {
            proof {
                assert(ok_calls(delete_calls(Seq::<ImageId>::empty())) =~= Seq::<(BackendCall, bool)>::empty());
                assert(self.backend.log() =~= log0 + ok_calls(delete_calls(old_images)));
            }
        }
        let ghost log1 = self.backend.log();
        let base_rect = fit(base.image.size(), self.viewport.pixel_size());
        let image = self.ids.next_image();
        let rt = self.backend.transmit(sink, image, &base.image);
        match rt {
            Err(e) => {
                proof {
                    assert(self.backend.log().take(log0.len() as int) =~= log0);
                }
                return Err(e);
            },
            Ok(()) => {},
        }
        let g = place_geometry(base_rect.x, base_rect.y, self.viewport.cell);
        let (cell, offset) = match g {
            None => {
                proof {
                    assert(self.backend.log().take(log0.len() as int) =~= log0);
                }
                return Err(PresentError::InvalidGeometry);
            },
            Some(v) => v,
        };
        let pid = self.ids.next_placement();
        let p = Placement { image, id: pid, cell, offset, z: 0 };
        let rp = self.backend.place(sink, &p);
        match rp {
            Err(e) => {
                proof {
                    assert(self.backend.log().take(log0.len() as int) =~= log0);
                }
                return Err(e);
            },
            Ok(()) => {},
        }
        let mut all: Vec<ImageId> = Vec::new();
        all.push(image);
        self.slide = Some(SlideState { base_rect, all_images: all, overlays: Vec::new() });
        proof {
            self.slide_start@ = log1.len();
            let tail = self.backend.log().skip(log1.len() as int);
            assert(tail =~= seq![(BackendCall::Transmit(image, base.image), true), (BackendCall::Place(p), true)]);
            let e = Seq::<(BackendCall, bool)>::empty();
            let t_entry = (BackendCall::Transmit(image, base.image), true);
            let p_entry = (BackendCall::Place(p), true);
            lemma_transmitted_push(e, t_entry);
            lemma_transmitted_push(e.push(t_entry), p_entry);
            assert(tail =~= e.push(t_entry).push(p_entry));
            assert(transmitted(e) =~= Seq::<ImageId>::empty());
            assert(transmitted(tail) =~= seq![image]);
            let calls = seq![BackendCall::Transmit(image, base.image), BackendCall::Place(p)];
            assert(ok_calls(delete_calls(old_images) + calls) =~= ok_calls(delete_calls(old_images)) + ok_calls(calls));
            assert(self.backend.log() =~= log0 + ok_calls(delete_calls(old_images) + calls));
            assert(self.backend.log().take(log0.len() as int) =~= log0);
        }
        Ok(())
    }
}


impl<B: Backend> Presenter<B> {
    /// Applies one reveal step as a partial update: only the rectangle where
    /// `prev` and `next` differ is cut out of `next`, transmitted as a new
    /// image and placed over the base with z-index `step`. Identical frames
    /// change nothing; without a slide on screen it fails with
    /// [`PresentError::NoSlide`]. The slide state changes only once both
    /// requests were accepted.
    pub fn apply_overlay(&mut self, sink: &mut Vec<u8>, prev: &Frame, next: &Frame, step: i32) -> (r:
        Result<(), PresentError>)
        ensures
            final(self).spec_viewport() == old(self).spec_viewport(),
            final(self).log().len() >= old(self).log().len(),
            final(self).log().take(old(self).log().len() as int) == old(self).log(),
            old(self).slide() is None ==> r == Err::<(), PresentError>(PresentError::NoSlide)
                && final(self).log() == old(self).log() && final(self).slide() is None && final(sink)@ == old(
                sink,
            )@,
            old(self).ids_fresh() && old(self).next_image_id() < u32::MAX ==> final(self).ids_fresh(),
            ({
                let differ = exists|x: int, y: int| differs(&prev.image, &next.image, x, y);
                let rect = change_rect(&prev.image, &next.image);
                let vp = old(self).spec_viewport();
                let image = ImageId(old(self).next_image_id());
                let pid = PlacementId(old(self).next_placement_id());
                let st = old(self).slide()->0;
                let ox = sat_add(st.base_rect.x, rect.x);
                let oy = sat_add(st.base_rect.y, rect.y);
                let n = old(self).log().len();
                &&& (old(self).slide() is Some && !differ) ==> {
                    &&& r is Ok
                    &&& final(self).log() == old(self).log()
                    &&& final(sink)@ == old(sink)@
                    &&& final(self).slide() == old(self).slide()
                    &&& final(self).next_image_id() == old(self).next_image_id()
                    &&& final(self).next_placement_id() == old(self).next_placement_id()
                    &&& old(self).tracks() ==> final(self).tracks()
                }
                &&& (old(self).slide() is Some && differ && r is Ok) ==> {
                    &&& rect_within(rect, next.image.spec_size())
                    &&& geometry_of(ox, oy, vp.cell) is Some
                    &&& final(self).log().len() == n + 2
                    &&& final(self).log()[n as int].1
                    &&& final(self).log()[n as int].0 matches BackendCall::Transmit(id, sub) && id == image
                        && is_crop(sub, next.image, rect)
                    &&& final(self).log()[n + 1int] == (
                        BackendCall::Place(placement_at(ox, oy, vp, image, pid, step)),
                        true,
                    )
                    &&& final(self).slide() == Some(with_overlay(st, image, pid))
                    &&& final(self).next_image_id() == next_id(old(self).next_image_id())
                    &&& final(self).next_placement_id() == next_id(old(self).next_placement_id())
                    &&& old(self).tracks() ==> final(self).tracks()
                }
                &&& (old(self).slide() is Some && differ && r is Err) ==> {
                    ||| backend_refused(old(self).log(), final(self).log())
                    ||| r == Err::<(), PresentError>(PresentError::RegionOutOfBounds) && !rect_within(
                        rect,
                        next.image.spec_size(),
                    )
                    ||| r == Err::<(), PresentError>(PresentError::InvalidGeometry) && geometry_of(
                        ox,
                        oy,
                        vp.cell,
                    ) is None
                }
                &&& (old(self).slide() is Some && differ && (!rect_within(rect, next.image.spec_size())
                    || geometry_of(ox, oy, vp.cell) is None)) ==> r is Err
            }),
    {
        let ghost log0 = self.backend.log();
        let base_rect = match &self.slide {
            Some(st) => st.base_rect,
            None => {
                return Err(PresentError::NoSlide);
            },
        };
        let rect = match changed_region(prev, next) {
            Some(rc) => rc,
            None => {
                proof {
                    assert(self.backend.log().take(log0.len() as int) =~= log0);
                }
                return Ok(());
            },
        };
        proof {
            assert(exists|y: int| differs(&prev.image, &next.image, rect.x as int, y));
            let y = choose|y: int| differs(&prev.image, &next.image, rect.x as int, y);
            assert(differs(&prev.image, &next.image, rect.x as int, y));
            assert(is_change_bbox(&prev.image, &next.image, change_rect(&prev.image, &next.image)));
            lemma_change_bbox_unique(&prev.image, &next.image, rect, change_rect(&prev.image, &next.image));
        }
        let sub = match crop(&next.image, rect) {
            Some(img) => img,
            None => {
                proof {
                    assert(self.backend.log().take(log0.len() as int) =~= log0);
                }
                return Err(PresentError::RegionOutOfBounds);
            },
        };
        let image = self.ids.next_image();
        proof {
            if old(self).ids_fresh() && old(self).next_image_id() < u32::MAX {
                assert forall|k: int| 0 <= k < self.slide_images().len() implies (#[trigger] self.slide_images()[k]).0
                    < self.next_image_id() by {
                    assert(old(self).slide_images()[k].0 < old(self).next_image_id());
                }
            }
        }
        let rt = self.backend.transmit(sink, image, &sub);
        match rt {
            Err(e) => {
                proof {
                    assert(self.backend.log().take(log0.len() as int) =~= log0);
                }
                return Err(e);
            },
            Ok(()) => {},
        }
        let origin_x = base_rect.x.saturating_add(rect.x);
        let origin_y = base_rect.y.saturating_add(rect.y);
        let g = place_geometry(origin_x, origin_y, self.viewport.cell);
        let (cell, offset) = match g {
            None => {
                proof {
                    assert(self.backend.log().take(log0.len() as int) =~= log0);
                }
                return Err(PresentError::InvalidGeometry);
            },
            Some(v) => v,
        };
        let pid = self.ids.next_placement();
        let p = Placement { image, id: pid, cell, offset, z: step };
        let rp = self.backend.place(sink, &p);
        match rp {
            Err(e) => {
                proof {
                    assert(self.backend.log().take(log0.len() as int) =~= log0);
                }
                return Err(e);
            },
            Ok(()) => {},
        }
        let taken = self.slide.take();
        match taken {
            Some(st) => {
                let mut st = st;
                st.all_images.push(image);
                st.overlays.push((image, pid));
                self.slide = Some(st);
            },
            None => {},
        }
        proof {
            if old(self).ids_fresh() && old(self).next_image_id() < u32::MAX {
                assert forall|k: int| 0 <= k < self.slide_images().len() implies (#[trigger] self.slide_images()[k]).0
                    < self.next_image_id() by {
                    if k < old(self).slide_images().len() {
                        assert(old(self).slide_images()[k].0 < old(self).next_image_id());
                    }
                }
            }
            assert(self.backend.log().take(log0.len() as int) =~= log0);
            let start = self.slide_start@ as int;
            let t_entry = (BackendCall::Transmit(image, sub), true);
            let p_entry = (BackendCall::Place(p), true);
            assert(self.backend.log() =~= log0.push(t_entry).push(p_entry));
            if start <= log0.len() {
                lemma_skip_push(log0, start, t_entry);
                lemma_skip_push(log0.push(t_entry), start, p_entry);
                lemma_transmitted_push(log0.skip(start), t_entry);
                lemma_transmitted_push(log0.skip(start).push(t_entry), p_entry);
            }
        }
        Ok(())
    }

    /// Steps the top overlay back: its placement is soft-deleted (the image
    /// stays, and is freed with the slide); the base is kept. Nothing happens
    /// without an overlay.
    pub fn retreat(&mut self, sink: &mut Vec<u8>) -> (r: Result<(), PresentError>)
        ensures
            final(self).spec_viewport() == old(self).spec_viewport(),
            final(self).next_image_id() == old(self).next_image_id(),
            final(self).next_placement_id() == old(self).next_placement_id(),
            old(self).tracks() ==> final(self).tracks(),
            old(self).ids_fresh() ==> final(self).ids_fresh(),
            match old(self).slide() {
                None => r is Ok && final(self).log() == old(self).log() && final(self).slide() is None
                    && final(sink)@ == old(sink)@,
                Some(st) => if st.overlays.len() == 0 {
                    r is Ok && final(self).log() == old(self).log() && final(self).slide() == old(
                        self,
                    ).slide() && final(sink)@ == old(sink)@
                } else {
                    let top = st.overlays.last();
                    &&& final(self).slide() == Some(without_top_overlay(st))
                    &&& final(self).log() == old(self).log().push(
                        (BackendCall::DeletePlacement(top.0, top.1), r is Ok),
                    )
                },
            },
    {
        let taken = self.slide.take();
        let mut st = match taken {
            None => {
                return Ok(());
            },
            Some(st) => st,
        };
        let popped = st.overlays.pop();
        self.slide = Some(st);
        match popped {
            None => {
                proof {
                    assert(self.slide_images() =~= old(self).slide_images());
                }
                Ok(())
            },
            Some((image, pid)) => {
                let ghost log0 = self.backend.log();
                let rd = self.backend.delete_placement(sink, image, pid);
                proof {
                    let start = self.slide_start@ as int;
                    let entry = (BackendCall::DeletePlacement(image, pid), rd is Ok);
                    if start <= log0.len() {
                        lemma_skip_push(log0, start, entry);
                        lemma_transmitted_push(log0.skip(start), entry);
                    }
                }
                rd
            },
        }
    }

    /// Takes a new viewport: clears the slide on screen, then presents `base`
    /// (the page rasterised for the new size) in it. Overlays are the
    /// caller's to apply again.
    pub fn resize(&mut self, sink: &mut Vec<u8>, viewport: Viewport, base: &Frame) -> (r: Result<(), PresentError>)
        ensures
            final(self).log().len() >= old(self).log().len(),
            final(self).log().take(old(self).log().len() as int) == old(self).log(),
            ({
                let rect = fit_rect(base.image.spec_size(), viewport.spec_pixel_size());
                let image = ImageId(old(self).next_image_id());
                let pid = PlacementId(old(self).next_placement_id());
                &&& r is Ok ==> {
                    &&& final(self).spec_viewport() == viewport
                    &&& geometry_of(rect.x, rect.y, viewport.cell) is Some
                    &&& final(self).log() == old(self).log() + ok_calls(
                        delete_calls(old(self).slide_images()) + seq![
                            BackendCall::Transmit(image, base.image),
                            BackendCall::Place(placement_at(rect.x, rect.y, viewport, image, pid, 0)),
                        ],
                    )
                    &&& final(self).slide() == Some(
                        SlideView { base_rect: rect, images: seq![image], overlays: Seq::empty() },
                    )
                    &&& final(self).tracks()
                }
                &&& r is Err ==> backend_refused(old(self).log(), final(self).log()) || (r
                    == Err::<(), PresentError>(PresentError::InvalidGeometry) && geometry_of(
                    rect.x,
                    rect.y,
                    viewport.cell,
                ) is None)
                &&& geometry_of(rect.x, rect.y, viewport.cell) is None ==> r is Err
            }),
            r is Ok && old(self).next_image_id() < u32::MAX ==> final(self).ids_fresh(),
    {
        let ghost log0 = self.backend.log();
        let ghost old_images = self.slide_images();
        let rc = self.clear_slide(sink);
        match rc {
            Err(e) => {
                return Err(e);
            },
            Ok(()) => {},
        }
        self.viewport = viewport;
        let ghost log1 = self.backend.log();
        let rp = self.present_slide(sink, base);
        proof {
            assert(ok_calls(delete_calls(Seq::<ImageId>::empty())) =~= Seq::<(BackendCall, bool)>::empty());
            let image = ImageId(old(self).next_image_id());
            let pid = PlacementId(old(self).next_placement_id());
            let rect = fit_rect(base.image.spec_size(), viewport.spec_pixel_size());
            let calls = seq![
                BackendCall::Transmit(image, base.image),
                BackendCall::Place(placement_at(rect.x, rect.y, viewport, image, pid, 0)),
            ];
            assert(delete_calls(Seq::<ImageId>::empty()) + calls =~= calls);
            assert(ok_calls(delete_calls(old_images) + calls) =~= ok_calls(delete_calls(old_images))
                + ok_calls(calls));
            if rp is Ok {
                assert(self.backend.log() =~= log0 + ok_calls(delete_calls(old_images) + calls));
            }
            assert(self.backend.log().take(log1.len() as int) == log1);
            assert(self.backend.log().take(log0.len() as int) =~= log0);
            if rp is Err && backend_refused(log1, self.backend.log()) {
                assert(backend_refused(log0, self.backend.log()));
            }
        }
        rp
    }
}

/// No image leaks: when a slide whose images are exactly those accepted for
/// transmission since it began is cleared successfully, every one of those
/// images gets an accepted hard delete after the previous requests.
pub proof fn lemma_clear_frees_every_image<B: Backend>(before: Presenter<B>, after: Presenter<B>)
    requires
        before.tracks(),
        before.slide() is Some,
        after.log() == before.log() + ok_calls(delete_calls(before.slide_images())),
    ensures
        forall|k: int|
            0 <= k < transmitted(before.log().skip(before.slide_start() as int)).len() ==> after.log()[before.log().len()
                + k] == (BackendCall::DeleteImage(transmitted(before.log().skip(before.slide_start() as int))[k]), true),
{
    let images = before.slide_images();
    assert forall|k: int| 0 <= k < images.len() implies after.log()[before.log().len() + k] == (
        BackendCall::DeleteImage(images[k]),
        true,
    ) by {
        assert(ok_calls(delete_calls(images))[k] == (BackendCall::DeleteImage(images[k]), true));
    }
}

} // verus!
