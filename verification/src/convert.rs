//! Conversion of a rasterised page from premultiplied RGBA (what the
//! rasteriser produces) to the canonical straight-alpha [`Rgba`].
use vstd::prelude::*;
use crate::diagnostic::EngineError;
use crate::pixel::{PixelSize, Rgba};

verus! {

/// The straight-alpha bytes `[r, g, b, a]` of the valid premultiplied colour
/// `(r, g, b, a)`, as `tiny_skia::PremultipliedColorU8::demultiply` computes
/// them.
pub uninterp spec fn demultiplied(r: u8, g: u8, b: u8, a: u8) -> Seq<u8>;

/// Wraps `tiny_skia::PremultipliedColorU8::from_rgba` and `demultiply`: the
/// straight-alpha colour of a valid premultiplied one. The source shows that
/// alpha is kept and that an opaque colour is returned unchanged.
#[verifier::external_body]
fn demultiply_px(r: u8, g: u8, b: u8, a: u8) -> (c: [u8; 4])
    requires
        r <= a,
        g <= a,
        b <= a,
    ensures
        c@ == demultiplied(r, g, b, a),
        c[3] == a,
        a == 255 ==> c@ == seq![r, g, b, a],
{
    match tiny_skia::PremultipliedColorU8::from_rgba(r, g, b, a) {
        Some(p) => {
            let s = p.demultiply();
            [s.red(), s.green(), s.blue(), s.alpha()]
        },
        None => [r, g, b, a],
    }
}

/// Every pixel of `data` is a valid premultiplied colour: no colour channel
/// exceeds alpha.
pub open spec fn premultiplied(data: Seq<u8>) -> bool {
    forall|i: int| 0 <= i < data.len() / 4 ==> {
        &&& #[trigger] data[4 * i] <= data[4 * i + 3]
        &&& data[4 * i + 1] <= data[4 * i + 3]
        &&& data[4 * i + 2] <= data[4 * i + 3]
    }
}

/// The canonical image of a premultiplied `width x height` raster: each
/// pixel demultiplied, in row-major order from the top left; the channel
/// order RGBA is kept.
pub fn pixmap_to_rgba(width: u32, height: u32, data: &[u8]) -> (r: Result<Rgba, EngineError>)
    requires
        data@.len() == (PixelSize { w: width, h: height }).bytes(),
        premultiplied(data@),
    ensures
        r matches Ok(img) && img.spec_size() == (PixelSize { w: width, h: height }) && img@.len()
            == data@.len() && forall|i: int|
            0 <= i < data@.len() / 4 ==> #[trigger] img@.subrange(4 * i, 4 * i + 4) == demultiplied(
                data@[4 * i],
                data@[4 * i + 1],
                data@[4 * i + 2],
                data@[4 * i + 3],
            ),
{
    let size = PixelSize { w: width, h: height };
    let len = data.len();
    let n = len / 4;
    let mut out: Vec<u8> = Vec::with_capacity(data.len());
    let mut i: usize = 0;
    proof {
        let t = width as int * height as int;
        assert((t * 4) % 4 == 0) by (nonlinear_arith);
    }
    while i < n
        invariant
            n == data@.len() / 4,
            4 * n == data@.len(),
            len == data@.len(),
            data@.len() % 4 == 0,
            premultiplied(data@),
            i <= n,
            out@.len() == 4 * i,
            forall|k: int| 0 <= k < i ==> #[trigger] out@.subrange(4 * k, 4 * k + 4) == demultiplied(
                data@[4 * k],
                data@[4 * k + 1],
                data@[4 * k + 2],
                data@[4 * k + 3],
            ),
        decreases n - i,
    {
        let base = 4 * i;
        proof {
            assert(data@[4 * i] <= data@[4 * i + 3]);
        }
        let c = demultiply_px(data[base], data[base + 1], data[base + 2], data[base + 3]);
        let ghost before = out@;
        out.push(c[0]);
        out.push(c[1]);
        out.push(c[2]);
        out.push(c[3]);
        proof {
            assert(out@.subrange(4 * i, 4 * i + 4) =~= c@);
            assert forall|k: int| 0 <= k < i + 1 implies #[trigger] out@.subrange(4 * k, 4 * k + 4)
                == demultiplied(data@[4 * k], data@[4 * k + 1], data@[4 * k + 2], data@[4 * k + 3]) by {
                if k < i {
                    assert(out@.subrange(4 * k, 4 * k + 4) =~= before.subrange(4 * k, 4 * k + 4));
                }
            }
        }
        i = i + 1;
    }
    match Rgba::new(size, out) {
        Ok(img) => Ok(img),
        Err(_) => Err(EngineError::Render(String::from_str("raster size mismatch"))),
    }
}

} // verus!
