//! Pixel primitives: the canonical RGBA buffer and pure image operations.
//!
//! The canonical pixel format, shared by every producer and consumer of frames:
//! RGBA8 (`R, G, B, A`, one byte each), straight (not premultiplied) alpha,
//! row-major with the origin at the top left and no padding (stride
//! `width * 4`), colours kept in sRGB byte space (blending is done on sRGB
//! bytes, not in linear light).
//!
//! [`changed_region`], [`crop`], [`composite`] and [`fit`] are pure and never
//! panic: out-of-range input gives `None` or is clipped.
use vstd::prelude::*;
use crate::deck::FrameId;

verus! {

/// A size in pixels.
#[derive(Debug, Clone, Copy, PartialEq, Eq, Structural)]
pub struct PixelSize {
    /// Width in pixels.
    pub w: u32,
    /// Height in pixels.
    pub h: u32,
}

impl PixelSize {
    /// Number of pixels, `w * h`.
    pub open spec fn pixels(self) -> nat {
        self.w as nat * self.h as nat
    }

    /// Number of bytes in the canonical format, `w * h * 4`.
    pub open spec fn bytes(self) -> nat {
        self.pixels() * 4
    }

    /// Number of pixels (`w * h`).
    pub fn area(self) -> (r: usize)
        requires
            self.pixels() <= usize::MAX,
        ensures
            r == self.pixels(),
    {
        proof {
            vstd::arithmetic::mul::lemma_mul_upper_bound(self.w as int, self.w as int, self.h as int, self.h as int);
        }
        self.w as usize * self.h as usize
    }

    /// Number of bytes in the canonical format (`area * 4`).
    pub fn byte_len(self) -> (r: usize)
        requires
            self.bytes() <= usize::MAX,
        ensures
            r == self.bytes(),
    {
        self.area() * 4
    }
}

/// Byte offset of channel `c` of pixel `(x, y)` in a row-major RGBA buffer of
/// width `w`.
pub open spec fn px_index(w: int, x: int, y: int, c: int) -> int {
    (y * w + x) * 4 + c
}

/// An owned RGBA buffer in the canonical format.
///
/// Invariant: the byte length is `size().bytes()`; the buffer is private and
/// [`Rgba::new`] checks the length.
#[derive(Debug, PartialEq, Eq)]
pub struct Rgba {
    size: PixelSize,
    data: Vec<u8>,
}

impl View for Rgba {
    type V = Seq<u8>;

    closed spec fn view(&self) -> Seq<u8> {
        self.data@
    }
}

impl Rgba {
    #[verifier::type_invariant]
    closed spec fn inv(&self) -> bool {
        self.data@.len() == self.size.bytes()
    }

    /// Size of the image.
    pub closed spec fn spec_size(&self) -> PixelSize {
        self.size
    }

    /// The buffer holds exactly `size().bytes()` bytes.
    pub open spec fn well_sized(&self) -> bool {
        self@.len() == self.spec_size().bytes()
    }

    /// Byte `c` of pixel `(x, y)`.
    pub open spec fn at(&self, x: int, y: int, c: int) -> u8 {
        self@[px_index(self.spec_size().w as int, x, y, c)]
    }

    /// Takes `data` as an RGBA buffer of `size`; fails with
    /// [`RgbaError::LengthMismatch`] when its length is not `size.byte_len()`.
    pub fn new(size: PixelSize, data: Vec<u8>) -> (r: Result<Rgba, RgbaError>)
        requires
            size.bytes() <= usize::MAX,
        ensures
            match r {
                Ok(img) => data@.len() == size.bytes() && img.spec_size() == size && img@ == data@,
                Err(e) => data@.len() != size.bytes() && e == (RgbaError::LengthMismatch {
                    expected: size.bytes() as usize,
                    found: data@.len() as usize,
                }),
            },
    {
        let expected = size.byte_len();
        if data.len() != expected {
            return Err(RgbaError::LengthMismatch { expected, found: data.len() });
        }
        Ok(Rgba { size, data })
    }

    /// An image of `size` whose pixels are all `(0, 0, 0, 0)`.
    pub fn transparent(size: PixelSize) -> (r: Rgba)
        requires
            size.bytes() <= usize::MAX,
        ensures
            r.spec_size() == size,
            r@.len() == size.bytes(),
            forall|i: int| 0 <= i < r@.len() ==> r@[i] == 0,
    {
        let n = size.byte_len();
        let mut data: Vec<u8> = Vec::with_capacity(n);
        let mut i: usize = 0;
        while i < n
            invariant
                0 <= i <= n,
                data@.len() == i,
                forall|k: int| 0 <= k < i ==> data@[k] == 0,
            decreases n - i,
        {
            data.push(0);
            i = i + 1;
        }
        Rgba { size, data }
    }

    /// Size of the image.
    #[verifier::when_used_as_spec(spec_size)]
    pub fn size(&self) -> (r: PixelSize)
        ensures
            r == self.spec_size(),
            self.well_sized(),
    {
        proof {
            use_type_invariant(self);
        }
        self.size
    }

    /// The raw bytes (`R, G, B, A`, row-major).
    pub fn as_bytes(&self) -> (r: &[u8])
        ensures
            r@ == self@,
            self.well_sized(),
    {
        proof {
            use_type_invariant(self);
        }
        self.data.as_slice()
    }

    /// The four bytes `[r, g, b, a]` of pixel `(x, y)`; `None` out of range.
    pub fn pixel(&self, x: u32, y: u32) -> (r: Option<[u8; 4]>)
        ensures
            self.well_sized(),
            match r {
                Some(p) => x < self.spec_size().w && y < self.spec_size().h && p@ == seq![
                    self.at(x as int, y as int, 0),
                    self.at(x as int, y as int, 1),
                    self.at(x as int, y as int, 2),
                    self.at(x as int, y as int, 3),
                ],
                None => !(x < self.spec_size().w && y < self.spec_size().h),
            },
    {
        proof {
            use_type_invariant(self);
        }
        if x >= self.size.w || y >= self.size.h {
            return None;
        }
        let n = self.data.len();
        let i = pixel_offset(self.size.w, self.size.h, x, y, n);
        Some([self.data[i], self.data[i + 1], self.data[i + 2], self.data[i + 3]])
    }

    /// An independent copy of this image.
    pub fn duplicate(&self) -> (r: Rgba)
        ensures
            r.spec_size() == self.spec_size(),
            r@ == self@,
    {
        proof {
            use_type_invariant(self);
        }
        Rgba { size: self.size, data: self.data.clone() }
    }
}

impl Clone for Rgba {
    fn clone(&self) -> (r: Rgba)
        ensures
            r.spec_size() == self.spec_size(),
            r@ == self@,
    {
        self.duplicate()
    }
}

/// Byte offset of pixel `(x, y)` in a `w * h` buffer of `n` bytes.
pub fn pixel_offset(w: u32, h: u32, x: u32, y: u32, n: usize) -> (i: usize)
    requires
        x < w,
        y < h,
        n == w * h * 4,
    ensures
        i == px_index(w as int, x as int, y as int, 0),
        i + 4 <= n,
{
    proof {
        lemma_px_index_bound(w as int, h as int, x as int, y as int);
        assert(0 <= y * w <= y * w + x) by (nonlinear_arith)
            requires 0 <= y, 0 <= w, 0 <= x;
    }
    (y as usize * w as usize + x as usize) * 4
}

/// The last byte of pixel `(x, y)` lies inside a `w * h` buffer.
pub proof fn lemma_px_index_bound(w: int, h: int, x: int, y: int)
    requires
        0 <= x < w,
        0 <= y < h,
    ensures
        0 <= px_index(w, x, y, 0),
        px_index(w, x, y, 3) < w * h * 4,
        px_index(w, x, y, 3) + 1 <= w * h * 4,
{
    assert(0 <= y * w) by (nonlinear_arith)
        requires
            0 <= y,
            0 <= w,
    ;
    assert(y * w + x < w * h) by (nonlinear_arith)
        requires
            0 <= x < w,
            0 <= y < h,
    ;
}

/// A rectangle in pixel space (frame coordinates, origin top left).
#[derive(Debug, Clone, Copy, PartialEq, Eq, Structural)]
pub struct Rect {
    /// Left edge.
    pub x: u32,
    /// Top edge.
    pub y: u32,
    /// Width.
    pub w: u32,
    /// Height.
    pub h: u32,
}

/// A fully rendered page.
#[derive(Debug, Clone)]
pub struct Frame {
    /// Page number in presentation order.
    pub id: FrameId,
    /// The whole page in the canonical format.
    pub image: Rgba,
}

/// A partial image to composite: `image` is placed at `rect`, and `z` orders
/// layers (smaller is lower).
#[derive(Debug, Clone)]
pub struct Layer {
    /// Placement in frame coordinates.
    pub rect: Rect,
    /// The image, expected to be `rect.w x rect.h`.
    pub image: Rgba,
    /// Stacking order: smaller is lower, larger is higher.
    pub z: i32,
}

/// Error of [`Rgba::new`].
#[derive(Debug, Clone, Copy, PartialEq, Eq)]
pub enum RgbaError {
    /// The data length is not `size.byte_len()`.
    LengthMismatch {
        /// Expected byte length.
        expected: usize,
        /// Actual byte length.
        found: usize,
    },
}

/// Pixel `(x, y)` lies in the area common to both frames and differs there.
pub open spec fn differs(a: &Rgba, b: &Rgba, x: int, y: int) -> bool {
    &&& 0 <= x < a.spec_size().w
    &&& x < b.spec_size().w
    &&& 0 <= y < a.spec_size().h
    &&& y < b.spec_size().h
    &&& !(a.at(x, y, 0) == b.at(x, y, 0) && a.at(x, y, 1) == b.at(x, y, 1) && a.at(x, y, 2)
        == b.at(x, y, 2) && a.at(x, y, 3) == b.at(x, y, 3))
}

/// `r` is the smallest rectangle holding every pixel that differs between the
/// two images.
pub open spec fn is_change_bbox(a: &Rgba, b: &Rgba, r: Rect) -> bool {
    &&& r.w >= 1
    &&& r.h >= 1
    &&& forall|x: int, y: int|
        #[trigger] differs(a, b, x, y) ==> r.x <= x < r.x + r.w && r.y <= y < r.y + r.h
    &&& exists|y: int| #[trigger] differs(a, b, r.x as int, y)
    &&& exists|y: int| #[trigger] differs(a, b, r.x + r.w - 1, y)
    &&& exists|x: int| #[trigger] differs(a, b, x, r.y as int)
    &&& exists|x: int| #[trigger] differs(a, b, x, r.y + r.h - 1)
}

/// There is at most one smallest rectangle of change: two rectangles that
/// both are the change bounding box of the same pair of images are equal.
pub proof fn lemma_change_bbox_unique(a: &Rgba, b: &Rgba, r1: Rect, r2: Rect)
    requires
        is_change_bbox(a, b, r1),
        is_change_bbox(a, b, r2),
    ensures
        r1 == r2,
{
    let y1 = choose|y: int| #[trigger] differs(a, b, r1.x as int, y);
    let y2 = choose|y: int| #[trigger] differs(a, b, r2.x as int, y);
    let y3 = choose|y: int| #[trigger] differs(a, b, r1.x + r1.w - 1, y);
    let y4 = choose|y: int| #[trigger] differs(a, b, r2.x + r2.w - 1, y);
    let x1 = choose|x: int| #[trigger] differs(a, b, x, r1.y as int);
    let x2 = choose|x: int| #[trigger] differs(a, b, x, r2.y as int);
    let x3 = choose|x: int| #[trigger] differs(a, b, x, r1.y + r1.h - 1);
    let x4 = choose|x: int| #[trigger] differs(a, b, x, r2.y + r2.h - 1);
    assert(differs(a, b, r1.x as int, y1));
    assert(differs(a, b, r2.x as int, y2));
    assert(differs(a, b, r1.x + r1.w - 1, y3));
    assert(differs(a, b, r2.x + r2.w - 1, y4));
    assert(differs(a, b, x1, r1.y as int));
    assert(differs(a, b, x2, r2.y as int));
    assert(differs(a, b, x3, r1.y + r1.h - 1));
    assert(differs(a, b, x4, r2.y + r2.h - 1));
}

/// The change bounding box of two images, when they differ somewhere.
pub open spec fn change_rect(a: &Rgba, b: &Rgba) -> Rect {
    choose|r: Rect| is_change_bbox(a, b, r)
}

/// Smallest rectangle covering every pixel that differs between the two
/// frames, over the area they have in common; `None` when they agree there.
pub fn changed_region(a: &Frame, b: &Frame) -> (r: Option<Rect>)
    ensures
        match r {
            None => forall|x: int, y: int| !#[trigger] differs(&a.image, &b.image, x, y),
            Some(rect) => is_change_bbox(&a.image, &b.image, rect),
        },
{
    let sa = a.image.size();
    let sb = b.image.size();
    let w = if sa.w < sb.w { sa.w } else { sb.w };
    let h = if sa.h < sb.h { sa.h } else { sb.h };
    let ab = a.image.as_bytes();
    let bb = b.image.as_bytes();
    let na = ab.len();
    let nb = bb.len();
    let mut min_x: u32 = u32::MAX;
    let mut min_y: u32 = u32::MAX;
    let mut max_x: u32 = 0;
    let mut max_y: u32 = 0;
    let mut found = false;
    let ghost mut wminx: (int, int) = (0, 0);
    let ghost mut wmaxx: (int, int) = (0, 0);
    let ghost mut wminy: (int, int) = (0, 0);
    let ghost mut wmaxy: (int, int) = (0, 0);
    let mut y: u32 = 0;
    while y < h
        invariant
            sa == a.image.spec_size(),
            sb == b.image.spec_size(),
            ab@ == a.image@,
            bb@ == b.image@,
            a.image.well_sized(),
            b.image.well_sized(),
            w <= sa.w,
            w <= sb.w,
            h <= sa.h,
            h <= sb.h,
            w == sa.w || w == sb.w,
            w >= sa.w || w >= sb.w,
            h >= sa.h || h >= sb.h,
            na == ab@.len(),
            nb == bb@.len(),
            y <= h,
            scan_state(&a.image, &b.image, w as int, y as int, 0, found, min_x as int, max_x as int, min_y as int, max_y as int, wminx, wmaxx, wminy, wmaxy),
        decreases h - y,
    {
        let mut x: u32 = 0;
        while x < w
            invariant
                sa == a.image.spec_size(),
                sb == b.image.spec_size(),
                ab@ == a.image@,
                bb@ == b.image@,
                a.image.well_sized(),
                b.image.well_sized(),
                w <= sa.w,
                w <= sb.w,
                h <= sa.h,
                h <= sb.h,
                w == sa.w || w == sb.w,
                na == ab@.len(),
                nb == bb@.len(),
                y < h,
                x <= w,
                scan_state(&a.image, &b.image, w as int, y as int, x as int, found, min_x as int, max_x as int, min_y as int, max_y as int, wminx, wmaxx, wminy, wmaxy),
            decreases w - x,
        {
            let ia = pixel_offset(sa.w, sa.h, x, y, na);
            let ib = pixel_offset(sb.w, sb.h, x, y, nb);
            let same = ab[ia] == bb[ib] && ab[ia + 1] == bb[ib + 1] && ab[ia + 2] == bb[ib + 2]
                && ab[ia + 3] == bb[ib + 3];
            proof {
                assert(same == !differs(&a.image, &b.image, x as int, y as int));
            }
            if !same {
                if !found || x < min_x {
                    min_x = x;
                    proof { wminx = (x as int, y as int); }
                }
                if !found || x > max_x {
                    max_x = x;
                    proof { wmaxx = (x as int, y as int); }
                }
                if !found || y < min_y {
                    min_y = y;
                    proof { wminy = (x as int, y as int); }
                }
                if !found || y > max_y {
                    max_y = y;
                    proof { wmaxy = (x as int, y as int); }
                }
                found = true;
            }
            x = x + 1;
        }
        proof {
            lemma_scan_row_done(&a.image, &b.image, w as int, y as int, found, min_x as int, max_x as int, min_y as int, max_y as int, wminx, wmaxx, wminy, wmaxy);
        }
        y = y + 1;
    }
    proof {
        assert forall|px: int, py: int| #[trigger] differs(&a.image, &b.image, px, py) implies py < h && px < w by {}
    }
    if !found {
        return None;
    }
    let r = Rect { x: min_x, y: min_y, w: max_x - min_x + 1, h: max_y - min_y + 1 };
    proof {
        assert(differs(&a.image, &b.image, r.x as int, wminx.1));
        assert(differs(&a.image, &b.image, r.x + r.w - 1, wmaxx.1));
        assert(differs(&a.image, &b.image, wminy.0, r.y as int));
        assert(differs(&a.image, &b.image, wmaxy.0, r.y + r.h - 1));
    }
    Some(r)
}

/// `rect` lies inside an image of `size`.
pub open spec fn rect_within(rect: Rect, size: PixelSize) -> bool {
    rect.x + rect.w <= size.w && rect.y + rect.h <= size.h
}

/// Cuts `rect` out of `src` into a new image; `None` when `rect` overhangs
/// `src` by even one pixel (overflowing coordinates included).
pub fn crop(src: &Rgba, rect: Rect) -> (r: Option<Rgba>)
    ensures
        match r {
            None => !rect_within(rect, src.spec_size()),
            Some(out) => {
                &&& rect_within(rect, src.spec_size())
                &&& out.spec_size() == (PixelSize { w: rect.w, h: rect.h })
                &&& out.well_sized()
                &&& forall|x: int, y: int, c: int|
                    0 <= x < rect.w && 0 <= y < rect.h && 0 <= c < 4 ==> #[trigger] out.at(x, y, c)
                        == src.at(rect.x + x, rect.y + y, c)
            },
        },
{
    let size = src.size();
    let right = match rect.x.checked_add(rect.w) {
        Some(v) => v,
        None => return None,
    };
    let bottom = match rect.y.checked_add(rect.h) {
        Some(v) => v,
        None => return None,
    };
    if right > size.w || bottom > size.h {
        return None;
    }
    let bytes = src.as_bytes();
    let n = bytes.len();
    let ghost out_size = PixelSize { w: rect.w, h: rect.h };
    proof {
        assert(out_size.bytes() <= size.bytes()) by (nonlinear_arith)
            requires out_size.w <= size.w, out_size.h <= size.h;
    }
    let mut data: Vec<u8> = Vec::new();
    let mut row: u32 = 0;
    while row < rect.h
        invariant
            size == src.spec_size(),
            bytes@ == src@,
            src.well_sized(),
            n == bytes@.len(),
            rect_within(rect, size),
            out_size == (PixelSize { w: rect.w, h: rect.h }),
            out_size.bytes() <= n,
            row <= rect.h,
            data@.len() == px_index(rect.w as int, 0, row as int, 0),
            forall|x: int, y: int, c: int|
                0 <= x < rect.w && 0 <= y < row && 0 <= c < 4 ==> #[trigger] data@[px_index(rect.w as int, x, y, c)]
                    == src.at(rect.x + x, rect.y + y, c),
        decreases rect.h - row,
    {
        let mut col: u32 = 0;
        while col < rect.w
            invariant
                size == src.spec_size(),
                bytes@ == src@,
                src.well_sized(),
                n == bytes@.len(),
                rect_within(rect, size),
                out_size == (PixelSize { w: rect.w, h: rect.h }),
                out_size.bytes() <= n,
                row < rect.h,
                col <= rect.w,
                data@.len() == px_index(rect.w as int, col as int, row as int, 0),
                forall|x: int, y: int, c: int|
                    0 <= x < rect.w && 0 <= y < row && 0 <= c < 4 ==> #[trigger] data@[px_index(rect.w as int, x, y, c)]
                        == src.at(rect.x + x, rect.y + y, c),
                forall|x: int, c: int|
                    0 <= x < col && 0 <= c < 4 ==> #[trigger] data@[px_index(rect.w as int, x, row as int, c)]
                        == src.at(rect.x + x, rect.y + row, c),
            decreases rect.w - col,
        {
            let s = pixel_offset(size.w, size.h, rect.x + col, rect.y + row, n);
            proof {
                lemma_px_index_bound(rect.w as int, rect.h as int, col as int, row as int);
                assert(px_index(rect.w as int, col as int, row as int, 3) < out_size.bytes());
            }
            let ghost before = data@;
            data.push(bytes[s]);
            data.push(bytes[s + 1]);
            data.push(bytes[s + 2]);
            data.push(bytes[s + 3]);
            proof {
                assert(data@ == before + seq![bytes@[s as int], bytes@[s + 1], bytes@[s + 2], bytes@[s + 3]]);
                assert forall|x: int, y: int, c: int|
                    0 <= x < rect.w && 0 <= y < row && 0 <= c < 4 implies #[trigger] data@[px_index(rect.w as int, x, y, c)]
                        == src.at(rect.x + x, rect.y + y, c) by {
                    lemma_px_index_lex(rect.w as int, x, y, c, col as int, row as int);
                }
                assert forall|x: int, c: int|
                    0 <= x < col + 1 && 0 <= c < 4 implies #[trigger] data@[px_index(rect.w as int, x, row as int, c)]
                        == src.at(rect.x + x, rect.y + row, c) by {
                    if x < col {
                        lemma_px_index_lex(rect.w as int, x, row as int, c, col as int, row as int);
                    }
                }
            }
            col = col + 1;
        }
        proof {
            assert(px_index(rect.w as int, rect.w as int, row as int, 0) == px_index(rect.w as int, 0, row + 1, 0)) by (nonlinear_arith);
        }
        row = row + 1;
    }
    proof {
        assert(px_index(rect.w as int, 0, rect.h as int, 0) == rect.w * rect.h * 4) by (nonlinear_arith);
    }
    let r = Rgba { size: PixelSize { w: rect.w, h: rect.h }, data };
    Some(r)
}

/// Row-major offsets grow with the position: a pixel before `(cx, cy)` has
/// all its bytes before the first byte of `(cx, cy)`.
pub proof fn lemma_px_index_lex(w: int, x: int, y: int, c: int, cx: int, cy: int)
    requires
        0 <= x < w,
        0 <= cx <= w,
        0 <= c < 4,
        0 <= y,
        y < cy || (y == cy && x < cx),
    ensures
        px_index(w, x, y, c) < px_index(w, cx, cy, 0),
{
    assert(y * w + x < cy * w + cx) by (nonlinear_arith)
        requires
            0 <= x < w,
            0 <= cx,
            0 <= y,
            y < cy || (y == cy && x < cx),
    ;
}

/// `n / d` rounded to the nearest integer, halves rounded up (`d > 0`).
pub open spec fn round_div(n: int, d: int) -> int {
    (2 * n + d) / (2 * d)
}

/// The aspect-preserving fit of `content` into `viewport`: scale
/// `min(vw / cw, vh / ch)`, size rounded to the nearest pixel and clamped to
/// the viewport, centred with the odd pixel of a margin left at the right or
/// bottom. An empty content gives the empty rectangle at the origin.
pub open spec fn fit_rect(content: PixelSize, viewport: PixelSize) -> Rect {
    let (cw, ch, vw, vh) = (content.w as int, content.h as int, viewport.w as int, viewport.h as int);
    if cw == 0 || ch == 0 {
        Rect { x: 0, y: 0, w: 0, h: 0 }
    } else {
        let w0 = if vw * ch <= vh * cw { vw } else { round_div(cw * vh, ch) };
        let h0 = if vw * ch <= vh * cw { round_div(ch * vw, cw) } else { vh };
        let w = if w0 < vw { w0 } else { vw };
        let h = if h0 < vh { h0 } else { vh };
        Rect { x: ((vw - w) / 2) as u32, y: ((vh - h) / 2) as u32, w: w as u32, h: h as u32 }
    }
}

/// Largest aspect-preserving rectangle of `content` inside `viewport`,
/// centred (viewport coordinates). The scale is `min(vw / cw, vh / ch)`; the
/// size is rounded to the nearest pixel and clamped to the viewport; an odd
/// margin leaves its extra pixel at the right or bottom. Empty content gives
/// `Rect { x: 0, y: 0, w: 0, h: 0 }`.
pub fn fit(content: PixelSize, viewport: PixelSize) -> (r: Rect)
    ensures
        r == fit_rect(content, viewport),
        r.w <= viewport.w,
        r.h <= viewport.h,
        r.x + r.w <= viewport.w,
        r.y + r.h <= viewport.h,
{
    if content.w == 0 || content.h == 0 {
        return Rect { x: 0, y: 0, w: 0, h: 0 };
    }
    let cw = content.w as u128;
    let ch = content.h as u128;
    let vw = viewport.w as u128;
    let vh = viewport.h as u128;
    proof {
        assert(vw * ch <= 0xffff_ffffu128 * 0xffff_ffffu128) by (nonlinear_arith)
            requires vw <= 0xffff_ffffu128, ch <= 0xffff_ffffu128;
        assert(vh * cw <= 0xffff_ffffu128 * 0xffff_ffffu128) by (nonlinear_arith)
            requires vh <= 0xffff_ffffu128, cw <= 0xffff_ffffu128;
        assert(ch * vw <= 0xffff_ffffu128 * 0xffff_ffffu128) by (nonlinear_arith)
            requires vw <= 0xffff_ffffu128, ch <= 0xffff_ffffu128;
        assert(cw * vh <= 0xffff_ffffu128 * 0xffff_ffffu128) by (nonlinear_arith)
            requires vh <= 0xffff_ffffu128, cw <= 0xffff_ffffu128;
    }
    let width_limited = vw * ch <= vh * cw;
    let w0: u128 = if width_limited { vw } else { (2 * (cw * vh) + ch) / (2 * ch) };
    let h0: u128 = if width_limited { (2 * (ch * vw) + cw) / (2 * cw) } else { vh };
    let w: u32 = if w0 < vw { w0 as u32 } else { viewport.w };
    let h: u32 = if h0 < vh { h0 as u32 } else { viewport.h };
    let x = (viewport.w - w) / 2;
    let y = (viewport.h - h) / 2;
    Rect { x, y, w, h }
}

/// Pixel `(x, y)` comes before the scan position `(cx, cy)` in row-major order.
pub open spec fn scanned(x: int, y: int, cx: int, cy: int) -> bool {
    y < cy || (y == cy && x < cx)
}

/// State of the scan of [`changed_region`] at `(cx, cy)`.
pub open spec fn scan_state(
    a: &Rgba,
    b: &Rgba,
    w: int,
    cy: int,
    cx: int,
    found: bool,
    min_x: int,
    max_x: int,
    min_y: int,
    max_y: int,
    wminx: (int, int),
    wmaxx: (int, int),
    wminy: (int, int),
    wmaxy: (int, int),
) -> bool {
    &&& found <==> exists|x: int, y: int|
        #[trigger] differs(a, b, x, y) && x < w && scanned(x, y, cx, cy)
    &&& found ==> {
        &&& forall|x: int, y: int|
            #[trigger] differs(a, b, x, y) && x < w && scanned(x, y, cx, cy) ==> min_x <= x
                <= max_x && min_y <= y <= max_y
        &&& differs(a, b, wminx.0, wminx.1) && wminx.0 == min_x
        &&& differs(a, b, wmaxx.0, wmaxx.1) && wmaxx.0 == max_x
        &&& differs(a, b, wminy.0, wminy.1) && wminy.1 == min_y
        &&& differs(a, b, wmaxy.0, wmaxy.1) && wmaxy.1 == max_y
        &&& 0 <= min_x <= max_x
        &&& 0 <= min_y <= max_y
        &&& max_x < w
        &&& max_y <= cy
    }
}

proof fn lemma_scan_row_done(
    a: &Rgba,
    b: &Rgba,
    w: int,
    y: int,
    found: bool,
    min_x: int,
    max_x: int,
    min_y: int,
    max_y: int,
    wminx: (int, int),
    wmaxx: (int, int),
    wminy: (int, int),
    wmaxy: (int, int),
)
    requires
        scan_state(a, b, w, y, w, found, min_x, max_x, min_y, max_y, wminx, wmaxx, wminy, wmaxy),
    ensures
        scan_state(a, b, w, y + 1, 0, found, min_x, max_x, min_y, max_y, wminx, wmaxx, wminy, wmaxy),
{
    if found {
        assert forall|x: int, yy: int|
            #[trigger] differs(a, b, x, yy) && x < w && scanned(x, yy, 0, y + 1) implies min_x <= x
            <= max_x && min_y <= yy <= max_y by {
            assert(scanned(x, yy, w, y));
        }
    }
    if exists|x: int, yy: int| #[trigger] differs(a, b, x, yy) && x < w && scanned(x, yy, 0, y + 1) {
        let (x, yy) = choose|x: int, yy: int|
            #[trigger] differs(a, b, x, yy) && x < w && scanned(x, yy, 0, y + 1);
        assert(scanned(x, yy, w, y));
    }
}

} // verus!
