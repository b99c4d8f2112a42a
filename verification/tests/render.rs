use paladocs::composite::composite;
use paladocs::deck::FrameId;
use paladocs::pixel::{changed_region, crop, fit, Frame, Layer, PixelSize, Rect, Rgba, RgbaError};

fn frame(size: PixelSize, data: Vec<u8>) -> Frame {
    Frame {
        id: FrameId(0),
        image: Rgba::new(size, data).unwrap(),
    }
}

#[test]
fn rgba_new_length_mismatch() {
    let size = PixelSize { w: 2, h: 2 };
    let err = Rgba::new(size, vec![0u8; 15]).unwrap_err();
    assert_eq!(
        err,
        RgbaError::LengthMismatch {
            expected: 16,
            found: 15,
        }
    );
}

#[test]
fn rgba_transparent_is_all_zero() {
    let img = Rgba::transparent(PixelSize { w: 2, h: 2 });
    assert_eq!(img.as_bytes().len(), 16);
    assert!(img.as_bytes().iter().all(|&b| b == 0));
}

#[test]
fn rgba_pixel_out_of_range() {
    let img = Rgba::transparent(PixelSize { w: 2, h: 2 });
    assert_eq!(img.pixel(0, 0), Some([0, 0, 0, 0]));
    assert_eq!(img.pixel(2, 0), None);
    assert_eq!(img.pixel(0, 2), None);
}

#[test]
fn changed_region_identical() {
    let size = PixelSize { w: 3, h: 3 };
    let data = vec![1u8; size.byte_len()];
    let a = frame(size, data.clone());
    let b = frame(size, data);
    assert_eq!(changed_region(&a, &b), None);
}

#[test]
fn changed_region_single_center_pixel() {
    let size = PixelSize { w: 3, h: 3 };
    let data = vec![0u8; size.byte_len()];
    let a = frame(size, data.clone());
    let mut data_b = data;
    let (x, y) = (1usize, 1usize);
    let i = (y * 3 + x) * 4;
    data_b[i] = 255;
    let b = frame(size, data_b);
    assert_eq!(changed_region(&a, &b), Some(Rect { x: 1, y: 1, w: 1, h: 1 }));
}

#[test]
fn changed_region_rectangular_block() {
    let size = PixelSize { w: 4, h: 4 };
    let data = vec![0u8; size.byte_len()];
    let a = frame(size, data.clone());
    let mut data_b = data;
    for y in 1..=2u32 {
        for x in 1..=2u32 {
            let i = (y as usize * 4 + x as usize) * 4;
            data_b[i + 1] = 200;
        }
    }
    let b = frame(size, data_b);
    assert_eq!(changed_region(&a, &b), Some(Rect { x: 1, y: 1, w: 2, h: 2 }));
}

#[test]
fn changed_region_four_corners() {
    let size = PixelSize { w: 4, h: 4 };
    let data = vec![0u8; size.byte_len()];
    let a = frame(size, data.clone());
    let mut data_b = data;
    for (x, y) in [(0u32, 0u32), (3, 0), (0, 3), (3, 3)] {
        let i = (y as usize * 4 + x as usize) * 4;
        data_b[i + 2] = 123;
    }
    let b = frame(size, data_b);
    assert_eq!(changed_region(&a, &b), Some(Rect { x: 0, y: 0, w: 4, h: 4 }));
}

#[test]
fn changed_region_of_different_sizes_uses_common_area() {
    let a = frame(PixelSize { w: 2, h: 2 }, vec![0u8; 16]);
    let mut data = vec![0u8; 36];
    data[(2 * 3 + 2) * 4] = 9;
    let b = frame(PixelSize { w: 3, h: 3 }, data);
    assert_eq!(changed_region(&a, &b), None);
}

#[test]
fn crop_inner_rect() {
    let size = PixelSize { w: 2, h: 2 };
    let data = vec![10, 11, 12, 13, 20, 21, 22, 23, 30, 31, 32, 33, 40, 41, 42, 43];
    let img = Rgba::new(size, data).unwrap();
    let out = crop(&img, Rect { x: 1, y: 0, w: 1, h: 2 }).unwrap();
    assert_eq!(out.size(), PixelSize { w: 1, h: 2 });
    assert_eq!(out.as_bytes(), &[20, 21, 22, 23, 40, 41, 42, 43]);
}

#[test]
fn crop_out_of_range() {
    let img = Rgba::transparent(PixelSize { w: 2, h: 2 });
    assert_eq!(crop(&img, Rect { x: 1, y: 1, w: 2, h: 2 }), None);
}

#[test]
fn crop_overflowing_rect_is_none() {
    let img = Rgba::transparent(PixelSize { w: 2, h: 2 });
    assert_eq!(crop(&img, Rect { x: u32::MAX, y: 0, w: 2, h: 1 }), None);
}

#[test]
fn composite_opaque_layer_replaces() {
    let size = PixelSize { w: 2, h: 2 };
    let base = frame(size, vec![10u8; size.byte_len()]);
    let layer = Layer {
        rect: Rect { x: 0, y: 0, w: 2, h: 2 },
        image: Rgba::new(size, vec![50, 60, 70, 255, 50, 60, 70, 255, 50, 60, 70, 255, 50, 60, 70, 255])
            .unwrap(),
        z: 0,
    };
    let out = composite(&base, &[layer]);
    assert_eq!(out.image.pixel(0, 0), Some([50, 60, 70, 255]));
    assert_eq!(out.image.pixel(1, 1), Some([50, 60, 70, 255]));
}

#[test]
fn composite_alpha_128_over_opaque() {
    let size = PixelSize { w: 1, h: 1 };
    let base = frame(size, vec![40, 40, 40, 255]);
    let layer = Layer {
        rect: Rect { x: 0, y: 0, w: 1, h: 1 },
        image: Rgba::new(size, vec![200, 200, 200, 128]).unwrap(),
        z: 0,
    };
    let out = composite(&base, &[layer]);
    assert_eq!(out.image.pixel(0, 0), Some([120, 120, 120, 255]));
}

#[test]
fn composite_rect_offset() {
    let size = PixelSize { w: 3, h: 3 };
    let base = frame(size, vec![0u8; size.byte_len()]);
    let layer = Layer {
        rect: Rect { x: 1, y: 2, w: 1, h: 1 },
        image: Rgba::new(PixelSize { w: 1, h: 1 }, vec![9, 8, 7, 255]).unwrap(),
        z: 0,
    };
    let out = composite(&base, &[layer]);
    assert_eq!(out.image.pixel(1, 2), Some([9, 8, 7, 255]));
    assert_eq!(out.image.pixel(0, 0), Some([0, 0, 0, 0]));
    assert_eq!(out.image.pixel(2, 2), Some([0, 0, 0, 0]));
}

#[test]
fn composite_z_order() {
    let size = PixelSize { w: 1, h: 1 };
    let base = frame(size, vec![0, 0, 0, 255]);
    let rect = Rect { x: 0, y: 0, w: 1, h: 1 };
    let low = Layer {
        rect,
        image: Rgba::new(size, vec![10, 10, 10, 255]).unwrap(),
        z: 0,
    };
    let high = Layer {
        rect,
        image: Rgba::new(size, vec![200, 200, 200, 255]).unwrap(),
        z: 5,
    };
    let out = composite(&base, &[high.clone(), low.clone()]);
    assert_eq!(out.image.pixel(0, 0), Some([200, 200, 200, 255]));
    let out2 = composite(&base, &[low, high]);
    assert_eq!(out2.image.pixel(0, 0), Some([200, 200, 200, 255]));
}

#[test]
fn composite_overhang_clipped() {
    let size = PixelSize { w: 2, h: 2 };
    let base = frame(size, vec![0u8; size.byte_len()]);
    let layer = Layer {
        rect: Rect { x: 1, y: 1, w: 2, h: 2 },
        image: Rgba::new(PixelSize { w: 2, h: 2 }, vec![255u8; 16]).unwrap(),
        z: 0,
    };
    let out = composite(&base, &[layer]);
    assert_eq!(out.image.pixel(1, 1), Some([255, 255, 255, 255]));
    assert_eq!(out.image.pixel(0, 0), Some([0, 0, 0, 0]));
}

#[test]
fn composite_equal_z_keeps_input_order() {
    let size = PixelSize { w: 1, h: 1 };
    let base = frame(size, vec![0, 0, 0, 255]);
    let rect = Rect { x: 0, y: 0, w: 1, h: 1 };
    let first = Layer { rect, image: Rgba::new(size, vec![1, 1, 1, 255]).unwrap(), z: 3 };
    let second = Layer { rect, image: Rgba::new(size, vec![2, 2, 2, 255]).unwrap(), z: 3 };
    let out = composite(&base, &[first, second]);
    assert_eq!(out.image.pixel(0, 0), Some([2, 2, 2, 255]));
}

#[test]
fn fit_same_aspect() {
    let r = fit(PixelSize { w: 1920, h: 1080 }, PixelSize { w: 1280, h: 720 });
    assert_eq!(r, Rect { x: 0, y: 0, w: 1280, h: 720 });
}

#[test]
fn fit_letterbox_top_bottom() {
    let r = fit(PixelSize { w: 1600, h: 900 }, PixelSize { w: 800, h: 600 });
    assert_eq!(r, Rect { x: 0, y: 75, w: 800, h: 450 });
}

#[test]
fn fit_pillarbox_left_right() {
    let r = fit(PixelSize { w: 800, h: 600 }, PixelSize { w: 1600, h: 900 });
    assert_eq!(r, Rect { x: 200, y: 0, w: 1200, h: 900 });
}

#[test]
fn fit_zero_content() {
    let r = fit(PixelSize { w: 0, h: 0 }, PixelSize { w: 100, h: 100 });
    assert_eq!(r, Rect { x: 0, y: 0, w: 0, h: 0 });
}

#[test]
fn fit_rounds_half_up() {
    // 3x2 into 2x2: width-limited, h = round(2*2/3) = round(1.33) = 1, y = (2-1)/2 = 0.
    let r = fit(PixelSize { w: 3, h: 2 }, PixelSize { w: 2, h: 2 });
    assert_eq!(r, Rect { x: 0, y: 0, w: 2, h: 1 });
    // 2x3 into 3x3: height-limited, w = round(2*3/3) = 2, x = (3-2)/2 = 0.
    let r2 = fit(PixelSize { w: 2, h: 3 }, PixelSize { w: 3, h: 3 });
    assert_eq!(r2, Rect { x: 0, y: 0, w: 2, h: 3 });
}
