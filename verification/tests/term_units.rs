use paladocs::backend::{Backend, KittyBackend};
use paladocs::geometry::{place_geometry, CellPos, CellSize, PixelOffset, Placement, Viewport};
use paladocs::ids::{IdAllocator, ImageId, PlacementId};
use paladocs::medium::{select_medium, Capability, Medium, DIRECT_MAX_PAYLOAD_BYTES};
use paladocs::pixel::{fit, PixelSize, Rgba};

const BIG: usize = DIRECT_MAX_PAYLOAD_BYTES + 1;
const SMALL: usize = DIRECT_MAX_PAYLOAD_BYTES;

#[test]
fn direct_only_capability_is_always_direct() {
    assert_eq!(select_medium(Capability::DirectOnly, SMALL), Medium::Direct);
    assert_eq!(select_medium(Capability::DirectOnly, BIG), Medium::Direct);
}

#[test]
fn capable_terminal_uses_reference_for_large_payloads() {
    assert_eq!(select_medium(Capability::SharedMem, BIG), Medium::SharedMem);
    assert_eq!(select_medium(Capability::TempFile, BIG), Medium::TempFile);
}

#[test]
fn small_payloads_stay_direct_even_when_capable() {
    assert_eq!(select_medium(Capability::SharedMem, SMALL), Medium::Direct);
    assert_eq!(select_medium(Capability::TempFile, SMALL), Medium::Direct);
}

#[test]
fn wire_keys_are_kitty_spec() {
    assert_eq!(Medium::Direct.wire_key(), 'd');
    assert_eq!(Medium::SharedMem.wire_key(), 's');
    assert_eq!(Medium::TempFile.wire_key(), 'f');
}

#[test]
fn allocates_nonzero_monotonic() {
    let mut a = IdAllocator::new();
    assert_eq!(a.next_image(), ImageId(1));
    assert_eq!(a.next_image(), ImageId(2));
    assert_eq!(a.next_placement(), PlacementId(1));
    assert_eq!(a.next_placement(), PlacementId(2));
    assert_eq!(a.next_image(), ImageId(3));
    assert_eq!(a.next_placement(), PlacementId(3));
}

#[test]
fn default_allocator_starts_at_one() {
    let mut a = IdAllocator::default();
    assert_eq!(a.next_image(), ImageId(1));
    assert_eq!(a.next_placement(), PlacementId(1));
}

fn cell() -> CellSize {
    CellSize { w_px: 10, h_px: 20 }
}

#[test]
fn origin_maps_to_cell_zero() {
    assert_eq!(place_geometry(0, 0, cell()), Some((CellPos { col: 0, row: 0 }, PixelOffset { x: 0, y: 0 })));
}

#[test]
fn fractional_offset_within_cell() {
    assert_eq!(place_geometry(25, 45, cell()), Some((CellPos { col: 2, row: 2 }, PixelOffset { x: 5, y: 5 })));
}

#[test]
fn exact_cell_boundary_has_zero_offset() {
    assert_eq!(place_geometry(20, 40, cell()), Some((CellPos { col: 2, row: 2 }, PixelOffset { x: 0, y: 0 })));
}

#[test]
fn offset_always_below_cell_size() {
    for x in 0..100u32 {
        let (_, off) = place_geometry(x, 0, cell()).unwrap();
        assert!((off.x as u32) < cell().w_px);
    }
}

#[test]
fn zero_cell_is_none() {
    assert_eq!(place_geometry(5, 5, CellSize { w_px: 0, h_px: 20 }), None);
    assert_eq!(place_geometry(5, 5, CellSize { w_px: 10, h_px: 0 }), None);
}

#[test]
fn oversized_cell_offset_is_none() {
    assert_eq!(place_geometry(70000, 0, CellSize { w_px: 100000, h_px: 1 }), None);
}

#[test]
fn fit_then_place_composes() {
    let vp = Viewport { cols: 80, rows: 24, cell: cell() };
    let rect = fit(PixelSize { w: 600, h: 480 }, vp.pixel_size());
    assert_eq!((rect.x, rect.y, rect.w, rect.h), (100, 0, 600, 480));
    assert_eq!(
        place_geometry(rect.x, rect.y, vp.cell),
        Some((CellPos { col: 10, row: 0 }, PixelOffset { x: 0, y: 0 }))
    );
}

#[test]
fn viewport_pixel_size_saturates() {
    let vp = Viewport { cols: u32::MAX, rows: 2, cell: CellSize { w_px: 2, h_px: 3 } };
    assert_eq!(vp.pixel_size(), PixelSize { w: u32::MAX, h: 6 });
}

#[test]
fn kitty_transmit_uses_image_size() {
    let img = Rgba::transparent(PixelSize { w: 2, h: 3 });
    let mut out = Vec::new();
    let mut be = KittyBackend::new();
    be.transmit(&mut out, ImageId(5), &img).unwrap();
    let s = String::from_utf8(out).unwrap();
    assert!(s.contains("s=2"));
    assert!(s.contains("v=3"));
    assert!(s.contains("i=5"));
}

#[test]
fn kitty_place_delegates() {
    let p = Placement {
        image: ImageId(1),
        id: PlacementId(2),
        cell: CellPos { col: 0, row: 0 },
        offset: PixelOffset { x: 0, y: 0 },
        z: 0,
    };
    let mut out = Vec::new();
    let mut be = KittyBackend::new();
    be.place(&mut out, &p).unwrap();
    assert!(String::from_utf8(out).unwrap().contains("a=p"));
}
