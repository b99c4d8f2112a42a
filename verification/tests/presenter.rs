use paladocs::backend::{Backend, KittyBackend, PresentError};
use paladocs::deck::FrameId;
use paladocs::geometry::{CellSize, Placement, Viewport};
use paladocs::ids::{ImageId, PlacementId};
use paladocs::pixel::{Frame, PixelSize, Rgba};
use paladocs::presenter::Presenter;

fn solid(w: u32, h: u32, rgba: [u8; 4], id: u32) -> Frame {
    let mut data = Vec::with_capacity((w * h * 4) as usize);
    for _ in 0..(w * h) {
        data.extend_from_slice(&rgba);
    }
    Frame { id: FrameId(id), image: Rgba::new(PixelSize { w, h }, data).unwrap() }
}

fn with_pixel(base: &Frame, x: u32, y: u32, rgba: [u8; 4]) -> Frame {
    let size = base.image.size();
    let mut data = base.image.as_bytes().to_vec();
    let i = (y as usize * size.w as usize + x as usize) * 4;
    data[i..i + 4].copy_from_slice(&rgba);
    Frame { id: base.id, image: Rgba::new(size, data).unwrap() }
}

#[derive(Default)]
struct Recorder {
    events: Vec<Ev>,
}

#[derive(Debug, PartialEq, Eq)]
enum Ev {
    Transmit { id: u32, w: u32, h: u32 },
    Place { image: u32, pid: u32, z: i32 },
    DeletePlacement { image: u32, pid: u32 },
    DeleteImage { image: u32 },
}

impl Backend for Recorder {
    fn transmit(&mut self, _sink: &mut Vec<u8>, id: ImageId, img: &Rgba) -> Result<(), PresentError> {
        let s = img.size();
        self.events.push(Ev::Transmit { id: id.0, w: s.w, h: s.h });
        Ok(())
    }
    fn place(&mut self, _sink: &mut Vec<u8>, p: &Placement) -> Result<(), PresentError> {
        self.events.push(Ev::Place { image: p.image.0, pid: p.id.0, z: p.z });
        Ok(())
    }
    fn delete_placement(&mut self, _sink: &mut Vec<u8>, id: ImageId, pid: PlacementId) -> Result<(), PresentError> {
        self.events.push(Ev::DeletePlacement { image: id.0, pid: pid.0 });
        Ok(())
    }
    fn delete_image(&mut self, _sink: &mut Vec<u8>, id: ImageId) -> Result<(), PresentError> {
        self.events.push(Ev::DeleteImage { image: id.0 });
        Ok(())
    }
}

fn viewport() -> Viewport {
    Viewport { cols: 80, rows: 24, cell: CellSize { w_px: 10, h_px: 20 } }
}

#[test]
fn present_transmits_then_places_z0() {
    let mut p = Presenter::new(Recorder::default(), viewport());
    let mut sink = Vec::new();
    let base = solid(600, 480, [10, 20, 30, 255], 0);
    p.present_slide(&mut sink, &base).unwrap();
    assert_eq!(
        p.backend().events,
        vec![Ev::Transmit { id: 1, w: 600, h: 480 }, Ev::Place { image: 1, pid: 1, z: 0 }]
    );
}

#[test]
fn overlay_sends_only_changed_region_with_higher_z() {
    let mut p = Presenter::new(Recorder::default(), viewport());
    let mut sink = Vec::new();
    let base = solid(600, 480, [10, 20, 30, 255], 0);
    p.present_slide(&mut sink, &base).unwrap();
    let next = with_pixel(&base, 0, 0, [99, 0, 0, 255]);
    p.apply_overlay(&mut sink, &base, &next, 1).unwrap();
    assert_eq!(
        p.backend().events[2..],
        [Ev::Transmit { id: 2, w: 1, h: 1 }, Ev::Place { image: 2, pid: 2, z: 1 }]
    );
}

#[test]
fn overlay_noop_when_identical() {
    let mut p = Presenter::new(Recorder::default(), viewport());
    let mut sink = Vec::new();
    let base = solid(600, 480, [10, 20, 30, 255], 0);
    p.present_slide(&mut sink, &base).unwrap();
    let before = p.backend().events.len();
    p.apply_overlay(&mut sink, &base, &base, 1).unwrap();
    assert_eq!(p.backend().events.len(), before, "identical frames -> no transmit/place");
}

#[test]
fn retreat_soft_deletes_top_placement() {
    let mut p = Presenter::new(Recorder::default(), viewport());
    let mut sink = Vec::new();
    let base = solid(600, 480, [10, 20, 30, 255], 0);
    p.present_slide(&mut sink, &base).unwrap();
    let next = with_pixel(&base, 0, 0, [99, 0, 0, 255]);
    p.apply_overlay(&mut sink, &base, &next, 1).unwrap();
    p.retreat(&mut sink).unwrap();
    assert_eq!(p.backend().events.last(), Some(&Ev::DeletePlacement { image: 2, pid: 2 }));
}

#[test]
fn retreat_without_overlay_is_noop() {
    let mut p = Presenter::new(Recorder::default(), viewport());
    let mut sink = Vec::new();
    p.retreat(&mut sink).unwrap();
    let base = solid(600, 480, [10, 20, 30, 255], 0);
    p.present_slide(&mut sink, &base).unwrap();
    p.retreat(&mut sink).unwrap();
    assert_eq!(p.backend().events.len(), 2);
}

#[test]
fn next_slide_hard_deletes_all_images_no_leak() {
    let mut p = Presenter::new(Recorder::default(), viewport());
    let mut sink = Vec::new();
    let base = solid(600, 480, [10, 20, 30, 255], 0);
    p.present_slide(&mut sink, &base).unwrap();
    let next = with_pixel(&base, 0, 0, [99, 0, 0, 255]);
    p.apply_overlay(&mut sink, &base, &next, 1).unwrap();
    p.retreat(&mut sink).unwrap();
    let base2 = solid(600, 480, [40, 50, 60, 255], 1);
    p.present_slide(&mut sink, &base2).unwrap();
    let ev = &p.backend().events;
    let deletes: Vec<&Ev> = ev.iter().filter(|e| matches!(e, Ev::DeleteImage { .. })).collect();
    assert!(deletes.contains(&&Ev::DeleteImage { image: 1 }));
    assert!(deletes.contains(&&Ev::DeleteImage { image: 2 }));
    assert_eq!(deletes.len(), 2, "exactly the two slide images freed, no leak");
    assert!(ev.contains(&Ev::Transmit { id: 3, w: 600, h: 480 }));
}

#[test]
fn apply_overlay_without_slide_errors() {
    let mut p = Presenter::new(Recorder::default(), viewport());
    let mut sink = Vec::new();
    let a = solid(600, 480, [0, 0, 0, 255], 0);
    let b = with_pixel(&a, 0, 0, [1, 0, 0, 255]);
    let err = p.apply_overlay(&mut sink, &a, &b, 1).unwrap_err();
    assert_eq!(err, PresentError::NoSlide);
    assert_eq!(err.message(), "apply_overlay without a current slide");
    assert!(sink.is_empty());
    assert!(p.backend().events.is_empty());
}

#[test]
fn zero_cell_size_is_invalid_geometry() {
    let vp = Viewport { cols: 80, rows: 24, cell: CellSize { w_px: 0, h_px: 20 } };
    let mut p = Presenter::new(Recorder::default(), vp);
    let mut sink = Vec::new();
    let base = solid(4, 4, [1, 2, 3, 255], 0);
    assert_eq!(p.present_slide(&mut sink, &base), Err(PresentError::InvalidGeometry));
}

#[test]
fn resize_clears_then_re_presents() {
    let mut p = Presenter::new(Recorder::default(), viewport());
    let mut sink = Vec::new();
    let base = solid(600, 480, [10, 20, 30, 255], 0);
    p.present_slide(&mut sink, &base).unwrap();
    let new_vp = Viewport { cols: 100, rows: 30, cell: CellSize { w_px: 12, h_px: 24 } };
    let base2 = solid(600, 480, [10, 20, 30, 255], 0);
    p.resize(&mut sink, new_vp, &base2).unwrap();
    assert_eq!(p.viewport(), new_vp);
    let ev = &p.backend().events;
    assert!(ev.contains(&Ev::DeleteImage { image: 1 }));
    assert!(ev.contains(&Ev::Transmit { id: 2, w: 600, h: 480 }));
}

fn find(hay: &[u8], needle: &str) -> Option<usize> {
    let n = needle.as_bytes();
    hay.windows(n.len()).position(|w| w == n)
}

#[test]
fn full_lifecycle_wire_stream() {
    let mut sink: Vec<u8> = Vec::new();
    let mut p = Presenter::new(KittyBackend::new(), viewport());
    let base = solid(600, 480, [10, 20, 30, 255], 0);
    p.present_slide(&mut sink, &base).unwrap();
    assert!(find(&sink, "a=t,f=32,s=600,v=480,i=1").is_some());
    assert!(find(&sink, "a=p,i=1,p=1").is_some());
    let mark = sink.len();
    let next = with_pixel(&base, 0, 0, [99, 0, 0, 255]);
    p.apply_overlay(&mut sink, &base, &next, 1).unwrap();
    let overlay_bytes = &sink[mark..];
    assert!(find(overlay_bytes, "s=1,v=1,i=2").is_some(), "overlay transmits 1x1");
    assert!(find(overlay_bytes, "a=p,i=2,p=2").is_some());
    assert!(find(overlay_bytes, "z=1").is_some());
    let mark = sink.len();
    p.retreat(&mut sink).unwrap();
    let retreat_bytes = &sink[mark..];
    assert!(find(retreat_bytes, "a=d,d=i,i=2,p=2").is_some(), "soft placement delete");
    let mark = sink.len();
    let base2 = solid(600, 480, [40, 50, 60, 255], 1);
    p.present_slide(&mut sink, &base2).unwrap();
    let next_bytes = &sink[mark..];
    assert!(find(next_bytes, "a=d,d=I,i=1").is_some(), "hard delete image 1");
    assert!(find(next_bytes, "a=d,d=I,i=2").is_some(), "hard delete image 2");
    assert!(find(next_bytes, "i=3").is_some(), "new slide uses fresh id");
}
