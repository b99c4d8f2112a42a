//! Source-over compositing of layers onto a frame.
use vstd::prelude::*;
use crate::pixel::{Frame, Layer, PixelSize, Rgba, lemma_px_index_bound, lemma_px_index_lex, pixel_offset, px_index, scanned};

verus! {

/// `round(a * b / 255)` for bytes `a` and `b`.
pub open spec fn mul255(a: int, b: int) -> int {
    (a * b + 127) / 255
}

/// Channel `c` of straight-alpha source-over of pixel `s` onto pixel `d`
/// (sRGB bytes): a transparent source leaves `d`; otherwise
/// `out_a = sa + mul255(da, 255 - sa)` and
/// `out_c = (sc * sa + dc * mul255(da, 255 - sa)) / out_a` (0 when `out_a` is 0).
pub open spec fn over(s: Seq<u8>, d: Seq<u8>, c: int) -> u8 {
    let sa = s[3] as int;
    if sa == 0 {
        d[c]
    } else {
        let dc = mul255(d[3] as int, 255 - sa);
        let oa = sa + dc;
        if c == 3 {
            oa as u8
        } else if oa == 0 {
            0
        } else {
            ((s[c] * sa + d[c] * dc) / oa) as u8
        }
    }
}

/// The four bytes of pixel `(x, y)` of `img`.
pub open spec fn px4(img: &Rgba, x: int, y: int) -> Seq<u8> {
    seq![img.at(x, y, 0), img.at(x, y, 1), img.at(x, y, 2), img.at(x, y, 3)]
}

/// `layer` covers frame pixel `(x, y)`.
pub open spec fn covers(layer: &Layer, x: int, y: int) -> bool {
    &&& layer.rect.x <= x < layer.rect.x + layer.image.spec_size().w
    &&& layer.rect.y <= y < layer.rect.y + layer.image.spec_size().h
}

/// Pixel `(x, y)` after stacking the layers `order` (bottom first) on `base`.
pub open spec fn stack_px(base: &Rgba, layers: Seq<Layer>, order: Seq<usize>, x: int, y: int) -> Seq<
    u8,
>
    decreases order.len(),
{
    if order.len() == 0 {
        px4(base, x, y)
    } else {
        let below = stack_px(base, layers, order.drop_last(), x, y);
        let l = layers[order.last() as int];
        if covers(&l, x, y) {
            let s = px4(&l.image, x - l.rect.x, y - l.rect.y);
            seq![over(s, below, 0), over(s, below, 1), over(s, below, 2), over(s, below, 3)]
        } else {
            below
        }
    }
}

/// Source-over of pixel `s` onto pixel `d`, all four channels.
pub open spec fn over4(s: Seq<u8>, d: Seq<u8>) -> Seq<u8> {
    seq![over(s, d, 0), over(s, d, 1), over(s, d, 2), over(s, d, 3)]
}

/// The four bytes of pixel `(x, y)` of a row-major buffer of width `w`.
pub open spec fn buf_px(data: Seq<u8>, w: int, x: int, y: int) -> Seq<u8> {
    seq![
        data[px_index(w, x, y, 0)],
        data[px_index(w, x, y, 1)],
        data[px_index(w, x, y, 2)],
        data[px_index(w, x, y, 3)],
    ]
}

/// The stacking order used by [`composite`]: the unique bottom-to-top
/// ordering of the layers.
pub open spec fn stacking(layers: Seq<Layer>) -> Seq<usize> {
    choose|o: Seq<usize>| is_z_order(layers, o)
}

/// `out` is what compositing `layers` onto `base` gives: `base`'s id and
/// size, each pixel the layers stacked in their z order (see [`composite`]).
pub open spec fn composited(base: &Frame, layers: Seq<Layer>, out: Frame) -> bool {
    &&& out.id == base.id
    &&& out.image.spec_size() == base.image.spec_size()
    &&& out.image.well_sized()
    &&& is_z_order(layers, stacking(layers))
    &&& forall|x: int, y: int, c: int|
        0 <= x < base.image.spec_size().w && 0 <= y < base.image.spec_size().h && 0 <= c < 4
            ==> #[trigger] out.image.at(x, y, c) == stack_px(&base.image, layers, stacking(layers), x, y)[c]
}

/// Composites `layers` onto `base` by increasing `z` (equal `z` in input
/// order) with straight-alpha source-over in sRGB byte space. Each layer's
/// image is placed with its top-left pixel at `rect.x, rect.y`; pixels outside
/// `base` are clipped. The result keeps `base.id`.
pub fn composite(base: &Frame, layers: &[Layer]) -> (out: Frame)
    ensures
        out.id == base.id,
        out.image.spec_size() == base.image.spec_size(),
        out.image.well_sized(),
        is_z_order(layers@, stacking(layers@)),
        forall|x: int, y: int, c: int|
            0 <= x < base.image.spec_size().w && 0 <= y < base.image.spec_size().h && 0 <= c < 4
                ==> #[trigger] out.image.at(x, y, c) == stack_px(&base.image, layers@, stacking(layers@), x, y)[c],
        composited(base, layers@, out),
{
    let size = base.image.size();
    let bytes = base.image.as_bytes();
    let mut data: Vec<u8> = vstd::slice::slice_to_vec(bytes);
    let n = data.len();
    let order = z_order(layers);
    proof {
        lemma_z_order_unique(layers@, order@, stacking(layers@));
        assert(order@.take(0) =~= Seq::<usize>::empty());
    }
    let mut k: usize = 0;
    while k < order.len()
        invariant
            size == base.image.spec_size(),
            base.image.well_sized(),
            n == data@.len(),
            n == size.bytes(),
            is_z_order(layers@, order@),
            0 <= k <= order@.len(),
            forall|x: int, y: int, c: int|
                0 <= x < size.w && 0 <= y < size.h && 0 <= c < 4 ==> #[trigger] data@[px_index(size.w as int, x, y, c)]
                    == stack_px(&base.image, layers@, order@.take(k as int), x, y)[c],
        decreases order@.len() - k,
    {
        let layer = &layers[order[k]];
        let lsize = layer.image.size();
        let lbytes = layer.image.as_bytes();
        let ln = lbytes.len();
        let ghost prev = data@;
        let mut ly: u32 = 0;
        while ly < lsize.h
            invariant
                size == base.image.spec_size(),
                n == data@.len(),
                n == size.bytes(),
                lsize == layer.image.spec_size(),
                lbytes@ == layer.image@,
                layer.image.well_sized(),
                ln == lbytes@.len(),
                prev.len() == n,
                ly <= lsize.h,
                layer_progress(data@, prev, size, layer, 0, ly as int),
            decreases lsize.h - ly,
        {
            let fy: u64 = layer.rect.y as u64 + ly as u64;
            let mut lx: u32 = 0;
            while lx < lsize.w
                invariant
                    size == base.image.spec_size(),
                    n == data@.len(),
                    n == size.bytes(),
                    lsize == layer.image.spec_size(),
                    lbytes@ == layer.image@,
                    layer.image.well_sized(),
                    ln == lbytes@.len(),
                    prev.len() == n,
                    ly < lsize.h,
                    fy == layer.rect.y + ly,
                    lx <= lsize.w,
                    layer_progress(data@, prev, size, layer, lx as int, ly as int),
                decreases lsize.w - lx,
            {
                let fx: u64 = layer.rect.x as u64 + lx as u64;
                let ghost before = data@;
                if fy < size.h as u64 && fx < size.w as u64 {
                    let si = pixel_offset(lsize.w, lsize.h, lx, ly, ln);
                    let di = pixel_offset(size.w, size.h, fx as u32, fy as u32, n);
                    let sa = lbytes[si + 3];
                    if sa != 0 {
                        let da = data[di + 3];
                        let dcontrib = mul255_exec(da, 255 - sa);
                        let out_a: u32 = sa as u32 + dcontrib as u32;
                        let r0 = blend_channel(lbytes[si], sa, data[di], dcontrib, out_a);
                        let r1 = blend_channel(lbytes[si + 1], sa, data[di + 1], dcontrib, out_a);
                        let r2 = blend_channel(lbytes[si + 2], sa, data[di + 2], dcontrib, out_a);
                        data.set(di, r0);
                        data.set(di + 1, r1);
                        data.set(di + 2, r2);
                        data.set(di + 3, out_a as u8);
                    }
                    proof {
                        lemma_progress_step(before, data@, prev, size, layer, lx as int, ly as int);
                    }
                } else {
                    proof {
                        lemma_progress_skip(data@, prev, size, layer, lx as int, ly as int);
                    }
                }
                lx = lx + 1;
            }
            proof {
                lemma_progress_row(data@, prev, size, layer, ly as int);
            }
            ly = ly + 1;
        }
        proof {
            lemma_progress_done(data@, prev, &base.image, layers@, order@, k as int, size);
        }
        k = k + 1;
    }
    proof {
        assert(order@.take(order@.len() as int) =~= order@);
    }
    let image = match Rgba::new(size, data) {
        Ok(img) => img,
        Err(_) => {
            proof {
                assert(false);
            }
            Rgba::transparent(size)
        }
    };
    Frame { id: base.id, image }
}

/// `round(a * b / 255)`.
fn mul255_exec(a: u8, b: u8) -> (r: u8)
    ensures
        r == mul255(a as int, b as int),
        r <= b,
{
    proof {
        assert(0 <= a * b <= 255 * 255) by (nonlinear_arith)
            requires a <= 255, b <= 255;
        assert((a * b + 127) / 255 <= b) by (nonlinear_arith)
            requires a <= 255, b >= 0;
    }
    ((a as u32 * b as u32 + 127) / 255) as u8
}

/// One colour channel of source-over onto an opaque-or-not destination.
fn blend_channel(sc: u8, sa: u8, dc: u8, dcontrib: u8, out_a: u32) -> (r: u8)
    requires
        out_a == sa + dcontrib,
    ensures
        r == (if out_a == 0 { 0u8 } else { ((sc * sa + dc * dcontrib) / (out_a as int)) as u8 }),
{
    if out_a == 0 {
        return 0;
    }
    proof {
        assert(0 <= sc * sa <= 255 * 255) by (nonlinear_arith)
            requires sc <= 255, sa <= 255;
        assert(0 <= dc * dcontrib <= 255 * 255) by (nonlinear_arith)
            requires dc <= 255, dcontrib <= 255;
    }
    ((sc as u32 * sa as u32 + dc as u32 * dcontrib as u32) / out_a) as u8
}

proof fn lemma_stack_px_len(base: &Rgba, layers: Seq<Layer>, order: Seq<usize>, x: int, y: int)
    ensures
        stack_px(base, layers, order, x, y).len() == 4,
    decreases order.len(),
{
    if order.len() > 0 {
        lemma_stack_px_len(base, layers, order.drop_last(), x, y);
    }
}

/// Progress of applying `layer` onto the buffer `prev` (frame `size`): pixels
/// covered by the layer at a layer position before `(lx, ly)` are blended, all
/// others are unchanged.
pub open spec fn layer_progress(data: Seq<u8>, prev: Seq<u8>, size: PixelSize, layer: &Layer, lx: int, ly: int) -> bool {
    &&& data.len() == prev.len()
    &&& forall|x: int, y: int, c: int|
        0 <= x < size.w && 0 <= y < size.h && 0 <= c < 4 ==> #[trigger] data[px_index(size.w as int, x, y, c)]
            == if covers(layer, x, y) && scanned(x - layer.rect.x, y - layer.rect.y, lx, ly) {
                over(px4(&layer.image, x - layer.rect.x, y - layer.rect.y), buf_px(prev, size.w as int, x, y), c)
            } else {
                prev[px_index(size.w as int, x, y, c)]
            }
}

proof fn lemma_progress_step(before: Seq<u8>, data: Seq<u8>, prev: Seq<u8>, size: PixelSize, layer: &Layer, lx: int, ly: int)
    requires
        layer_progress(before, prev, size, layer, lx, ly),
        0 <= lx < layer.image.spec_size().w,
        0 <= ly < layer.image.spec_size().h,
        layer.rect.x + lx < size.w,
        layer.rect.y + ly < size.h,
        before.len() == size.bytes(),
        data.len() == before.len(),
        forall|c: int| 0 <= c < 4 ==> #[trigger] data[px_index(size.w as int, layer.rect.x + lx, layer.rect.y + ly, c)]
            == over(px4(&layer.image, lx, ly), buf_px(before, size.w as int, layer.rect.x + lx, layer.rect.y + ly), c),
        forall|i: int| 0 <= i < data.len() && !(px_index(size.w as int, layer.rect.x + lx, layer.rect.y + ly, 0) <= i < px_index(size.w as int, layer.rect.x + lx, layer.rect.y + ly, 0) + 4) ==> #[trigger] data[i] == before[i],
    ensures
        layer_progress(data, prev, size, layer, lx + 1, ly),
{
    let fx = layer.rect.x + lx;
    let fy = layer.rect.y + ly;
    let w = size.w as int;
    assert forall|x: int, y: int, c: int|
        0 <= x < size.w && 0 <= y < size.h && 0 <= c < 4 implies #[trigger] data[px_index(w, x, y, c)]
            == if covers(layer, x, y) && scanned(x - layer.rect.x, y - layer.rect.y, lx + 1, ly) {
                over(px4(&layer.image, x - layer.rect.x, y - layer.rect.y), buf_px(prev, w, x, y), c)
            } else {
                prev[px_index(w, x, y, c)]
            } by {
        lemma_px_index_bound(w, size.h as int, x, y);
        if x == fx && y == fy {
            assert(buf_px(before, w, x, y) =~= buf_px(prev, w, x, y)) by {
                assert(before[px_index(w, x, y, 0)] == prev[px_index(w, x, y, 0)]);
                assert(before[px_index(w, x, y, 1)] == prev[px_index(w, x, y, 1)]);
                assert(before[px_index(w, x, y, 2)] == prev[px_index(w, x, y, 2)]);
                assert(before[px_index(w, x, y, 3)] == prev[px_index(w, x, y, 3)]);
            }
        } else {
            if y < fy || (y == fy && x < fx) {
                lemma_px_index_lex(w, x, y, c, fx, fy);
            } else {
                lemma_px_index_lex(w, fx, fy, 3, x, y);
            }
        }
    }
}

proof fn lemma_progress_skip(data: Seq<u8>, prev: Seq<u8>, size: PixelSize, layer: &Layer, lx: int, ly: int)
    requires
        layer_progress(data, prev, size, layer, lx, ly),
        0 <= lx,
        0 <= ly,
        !(layer.rect.x + lx < size.w && layer.rect.y + ly < size.h),
    ensures
        layer_progress(data, prev, size, layer, lx + 1, ly),
{
}

proof fn lemma_progress_row(data: Seq<u8>, prev: Seq<u8>, size: PixelSize, layer: &Layer, ly: int)
    requires
        layer_progress(data, prev, size, layer, layer.image.spec_size().w as int, ly),
    ensures
        layer_progress(data, prev, size, layer, 0, ly + 1),
{
}

proof fn lemma_progress_done(data: Seq<u8>, prev: Seq<u8>, base: &Rgba, layers: Seq<Layer>, order: Seq<usize>, k: int, size: PixelSize)
    requires
        0 <= k < order.len(),
        order[k] < layers.len(),
        size == base.spec_size(),
        prev.len() == size.bytes(),
        forall|x: int, y: int, c: int|
            0 <= x < size.w && 0 <= y < size.h && 0 <= c < 4 ==> #[trigger] prev[px_index(size.w as int, x, y, c)]
                == stack_px(base, layers, order.take(k), x, y)[c],
        layer_progress(data, prev, size, &layers[order[k] as int], 0, layers[order[k] as int].image.spec_size().h as int),
    ensures
        forall|x: int, y: int, c: int|
            0 <= x < size.w && 0 <= y < size.h && 0 <= c < 4 ==> #[trigger] data[px_index(size.w as int, x, y, c)]
                == stack_px(base, layers, order.take(k + 1), x, y)[c],
{
    let layer = layers[order[k] as int];
    let t = order.take(k + 1);
    assert(t.drop_last() =~= order.take(k));
    assert(t.last() == order[k]);
    assert forall|x: int, y: int, c: int|
        0 <= x < size.w && 0 <= y < size.h && 0 <= c < 4 implies #[trigger] data[px_index(size.w as int, x, y, c)]
            == stack_px(base, layers, t, x, y)[c] by {
        let pb = stack_px(base, layers, order.take(k), x, y);
        lemma_stack_px_len(base, layers, order.take(k), x, y);
        assert(buf_px(prev, size.w as int, x, y) =~= pb) by {
            assert(prev[px_index(size.w as int, x, y, 0)] == pb[0]);
            assert(prev[px_index(size.w as int, x, y, 1)] == pb[1]);
            assert(prev[px_index(size.w as int, x, y, 2)] == pb[2]);
            assert(prev[px_index(size.w as int, x, y, 3)] == pb[3]);
        }
        if covers(&layer, x, y) {
            assert(scanned(x - layer.rect.x, y - layer.rect.y, 0, layer.image.spec_size().h as int));
        }
    }
}

/// Layer `i` goes below layer `j`: a smaller `z`, or the same `z` and an
/// earlier position.
pub open spec fn below(layers: Seq<Layer>, i: int, j: int) -> bool {
    layers[i].z < layers[j].z || (layers[i].z == layers[j].z && i < j)
}

/// `order` lists every layer index exactly once, from the bottom to the top:
/// by increasing `z`, equal `z` in input order.
pub open spec fn is_z_order(layers: Seq<Layer>, order: Seq<usize>) -> bool {
    &&& order.len() == layers.len()
    &&& forall|k: int| 0 <= k < order.len() ==> #[trigger] order[k] < layers.len()
    &&& forall|x: usize| x < layers.len() ==> #[trigger] order.contains(x)
    &&& forall|k1: int, k2: int|
        0 <= k1 < k2 < order.len() ==> below(layers, #[trigger] order[k1] as int, #[trigger] order[k2] as int)
}

/// Stable ordering of the layers by `z`.
pub fn z_order(layers: &[Layer]) -> (order: Vec<usize>)
    ensures
        is_z_order(layers@, order@),
{
    let n = layers.len();
    let mut order: Vec<usize> = Vec::new();
    let mut i: usize = 0;
    while i < n
        invariant
            n == layers@.len(),
            0 <= i <= n,
            order@.len() == i,
            forall|k: int| 0 <= k < order@.len() ==> #[trigger] order@[k] < i,
            forall|x: usize| x < i ==> #[trigger] order@.contains(x),
            forall|k1: int, k2: int|
                0 <= k1 < k2 < order@.len() ==> below(layers@, #[trigger] order@[k1] as int, #[trigger] order@[k2] as int),
        decreases n - i,
    {
        let zi = layers[i].z;
        let mut pos: usize = 0;
        while pos < order.len() && layers[order[pos]].z <= zi
            invariant
                n == layers@.len(),
                i < n,
                zi == layers@[i as int].z,
                0 <= pos <= order@.len(),
                forall|k: int| 0 <= k < order@.len() ==> #[trigger] order@[k] < i,
                forall|k: int| 0 <= k < pos ==> layers@[#[trigger] order@[k] as int].z <= zi,
            decreases order@.len() - pos,
        {
            pos = pos + 1;
        }
        let ghost old_order = order@;
        order.insert(pos, i);
        proof {
            assert forall|k: int| 0 <= k < order@.len() implies #[trigger] order@[k] < i + 1 by {
                if k < pos {
                    assert(order@[k] == old_order[k]);
                } else if k > pos {
                    assert(order@[k] == old_order[k - 1]);
                }
            }
            assert forall|x: usize| x < i + 1 implies #[trigger] order@.contains(x) by {
                if x == i {
                    assert(order@[pos as int] == i);
                } else {
                    assert(old_order.contains(x));
                    let k = choose|k: int| 0 <= k < old_order.len() && old_order[k] == x;
                    if k < pos {
                        assert(order@[k] == old_order[k]);
                    } else {
                        assert(order@[k + 1] == old_order[k]);
                    }
                }
            }
            assert forall|k1: int, k2: int|
                0 <= k1 < k2 < order@.len() implies below(layers@, #[trigger] order@[k1] as int, #[trigger] order@[k2] as int) by {
                if k2 < pos {
                    assert(order@[k1] == old_order[k1] && order@[k2] == old_order[k2]);
                } else if k2 == pos {
                    assert(order@[k1] == old_order[k1]);
                } else if k1 < pos {
                    assert(order@[k1] == old_order[k1] && order@[k2] == old_order[k2 - 1]);
                } else if k1 == pos {
                    assert(order@[k2] == old_order[k2 - 1]);
                    if pos < old_order.len() {
                        assert(layers@[old_order[pos as int] as int].z > zi);
                        if k2 - 1 > pos {
                            assert(below(layers@, old_order[pos as int] as int, old_order[k2 - 1] as int));
                        }
                    }
                } else {
                    assert(order@[k1] == old_order[k1 - 1] && order@[k2] == old_order[k2 - 1]);
                }
            }
        }
        i = i + 1;
    }
    order
}

/// Two bottom-to-top orderings of the same layers are the same sequence: the
/// stacking order of [`composite`] is determined by the layers alone.
pub proof fn lemma_z_order_unique(layers: Seq<Layer>, p1: Seq<usize>, p2: Seq<usize>)
    requires
        is_z_order(layers, p1),
        is_z_order(layers, p2),
    ensures
        p1 == p2,
{
    assert forall|x: usize| p1.contains(x) <==> p2.contains(x) by {
        if p1.contains(x) {
            let k = choose|k: int| 0 <= k < p1.len() && p1[k] == x;
            assert(p2.contains(p1[k]));
        }
        if p2.contains(x) {
            let k = choose|k: int| 0 <= k < p2.len() && p2[k] == x;
            assert(p1.contains(p2[k]));
        }
    }
    lemma_sorted_same_elems(layers, p1, p2);
}

proof fn lemma_sorted_same_elems(layers: Seq<Layer>, p1: Seq<usize>, p2: Seq<usize>)
    requires
        forall|k: int| 0 <= k < p1.len() ==> #[trigger] p1[k] < layers.len(),
        forall|k: int| 0 <= k < p2.len() ==> #[trigger] p2[k] < layers.len(),
        forall|k1: int, k2: int|
            0 <= k1 < k2 < p1.len() ==> below(layers, #[trigger] p1[k1] as int, #[trigger] p1[k2] as int),
        forall|k1: int, k2: int|
            0 <= k1 < k2 < p2.len() ==> below(layers, #[trigger] p2[k1] as int, #[trigger] p2[k2] as int),
        forall|x: usize| p1.contains(x) <==> p2.contains(x),
    ensures
        p1 == p2,
    decreases p1.len() + p2.len(),
{
    if p1.len() == 0 {
        if p2.len() > 0 {
            assert(p2.contains(p2[0]));
        }
        assert(p1 =~= p2);
    } else if p2.len() == 0 {
        assert(p1.contains(p1[0]));
    } else {
        let a = p1.last();
        let b = p2.last();
        assert(p1.contains(a));
        assert(p2.contains(b));
        let ka = choose|k: int| 0 <= k < p2.len() && p2[k] == a;
        let kb = choose|k: int| 0 <= k < p1.len() && p1[k] == b;
        if a != b {
            assert(ka < p2.len() - 1);
            assert(kb < p1.len() - 1);
            assert(below(layers, a as int, b as int));
            assert(below(layers, b as int, a as int));
        }
        let q1 = p1.drop_last();
        let q2 = p2.drop_last();
        assert forall|x: usize| q1.contains(x) <==> q2.contains(x) by {
            if q1.contains(x) {
                let k = choose|k: int| 0 <= k < q1.len() && q1[k] == x;
                assert(p1.contains(x));
                let k2 = choose|k2: int| 0 <= k2 < p2.len() && p2[k2] == x;
                if k2 == p2.len() - 1 {
                    assert(below(layers, p1[k] as int, p1[p1.len() - 1] as int));
                }
                assert(q2[k2] == x);
            }
            if q2.contains(x) {
                let k = choose|k: int| 0 <= k < q2.len() && q2[k] == x;
                assert(p2.contains(x));
                let k1 = choose|k1: int| 0 <= k1 < p1.len() && p1[k1] == x;
                if k1 == p1.len() - 1 {
                    assert(below(layers, p2[k] as int, p2[p2.len() - 1] as int));
                }
                assert(q1[k1] == x);
            }
        }
        lemma_sorted_same_elems(layers, q1, q2);
        assert(p1 =~= q1.push(a));
        assert(p2 =~= q2.push(b));
    }
}

/// Pixel `(x, y)` after stacking the layers `ls` (bottom first) on `base`.
pub open spec fn stack_layers(base: &Rgba, ls: Seq<Layer>, x: int, y: int) -> Seq<u8>
    decreases ls.len(),
{
    if ls.len() == 0 {
        px4(base, x, y)
    } else {
        let below = stack_layers(base, ls.drop_last(), x, y);
        let l = ls.last();
        if covers(&l, x, y) {
            let s = px4(&l.image, x - l.rect.x, y - l.rect.y);
            seq![over(s, below, 0), over(s, below, 1), over(s, below, 2), over(s, below, 3)]
        } else {
            below
        }
    }
}

/// The layers of `layers` in the order `order`.
pub open spec fn ordered_layers(layers: Seq<Layer>, order: Seq<usize>) -> Seq<Layer> {
    order.map_values(|i: usize| layers[i as int])
}

/// The layers have pairwise distinct `z`.
pub open spec fn distinct_z(layers: Seq<Layer>) -> bool {
    forall|i: int, j: int| 0 <= i < j < layers.len() ==> #[trigger] layers[i].z != #[trigger] layers[j].z
}

proof fn lemma_stack_px_layers(base: &Rgba, layers: Seq<Layer>, order: Seq<usize>, x: int, y: int)
    ensures
        stack_px(base, layers, order, x, y) == stack_layers(base, ordered_layers(layers, order), x, y),
    decreases order.len(),
{
    if order.len() > 0 {
        lemma_stack_px_layers(base, layers, order.drop_last(), x, y);
        assert(ordered_layers(layers, order).drop_last() =~= ordered_layers(layers, order.drop_last()));
    }
}

/// In a z order of layers with distinct `z`, `z` strictly increases.
proof fn lemma_z_strict(layers: Seq<Layer>, order: Seq<usize>)
    requires
        is_z_order(layers, order),
        distinct_z(layers),
    ensures
        forall|k1: int, k2: int|
            0 <= k1 < k2 < order.len() ==> (#[trigger] ordered_layers(layers, order)[k1]).z < (
            #[trigger] ordered_layers(layers, order)[k2]).z,
{
    assert forall|k1: int, k2: int| 0 <= k1 < k2 < order.len() implies (#[trigger] ordered_layers(
        layers,
        order,
    )[k1]).z < (#[trigger] ordered_layers(layers, order)[k2]).z by {
        let i = order[k1] as int;
        let j = order[k2] as int;
        assert(below(layers, i, j));
        if i < j {
            assert(layers[i].z != layers[j].z);
        } else if j < i {
            assert(layers[j].z != layers[i].z);
        }
    }
}

/// Two lists of layers, each strictly increasing in `z`, holding the same
/// layers, are equal.
proof fn lemma_z_sorted_equal(a: Seq<Layer>, b: Seq<Layer>)
    requires
        forall|i: int, j: int| 0 <= i < j < a.len() ==> (#[trigger] a[i]).z < (#[trigger] a[j]).z,
        forall|i: int, j: int| 0 <= i < j < b.len() ==> (#[trigger] b[i]).z < (#[trigger] b[j]).z,
        forall|i: int| 0 <= i < a.len() ==> b.contains(#[trigger] a[i]),
        forall|j: int| 0 <= j < b.len() ==> a.contains(#[trigger] b[j]),
    ensures
        a == b,
    decreases a.len(),
{
    if a.len() == 0 {
        if b.len() > 0 {
            assert(a.contains(b[0]));
        }
        assert(a =~= b);
    } else {
        if b.len() == 0 {
            assert(b.contains(a[0]));
        }
        assert(b.contains(a[0]));
        assert(a.contains(b[0]));
        let j0 = choose|j: int| 0 <= j < b.len() && b[j] == a[0];
        let i0 = choose|i: int| 0 <= i < a.len() && a[i] == b[0];
        if j0 > 0 {
            assert(b[0].z < b[j0].z);
            if i0 > 0 {
                assert(a[0].z < a[i0].z);
            }
        }
        assert(a[0] == b[0]);
        let a1 = a.drop_first();
        let b1 = b.drop_first();
        assert forall|i: int| 0 <= i < a1.len() implies b1.contains(#[trigger] a1[i]) by {
            assert(a1[i] == a[i + 1]);
            assert(a[0].z < a[i + 1].z);
            assert(b.contains(a[i + 1]));
            let j = choose|j: int| 0 <= j < b.len() && b[j] == a[i + 1];
            assert(j != 0);
            assert(b1[j - 1] == b[j]);
        }
        assert forall|j: int| 0 <= j < b1.len() implies a1.contains(#[trigger] b1[j]) by {
            assert(b1[j] == b[j + 1]);
            assert(b[0].z < b[j + 1].z);
            assert(a.contains(b[j + 1]));
            let i = choose|i: int| 0 <= i < a.len() && a[i] == b[j + 1];
            assert(i != 0);
            assert(a1[i - 1] == a[i]);
        }
        assert forall|i: int, j: int| 0 <= i < j < a1.len() implies (#[trigger] a1[i]).z < (#[trigger] a1[j]).z by {
            assert(a[i + 1].z < a[j + 1].z);
        }
        assert forall|i: int, j: int| 0 <= i < j < b1.len() implies (#[trigger] b1[i]).z < (#[trigger] b1[j]).z by {
            assert(b[i + 1].z < b[j + 1].z);
        }
        lemma_z_sorted_equal(a1, b1);
        assert forall|k: int| 0 <= k < a.len() implies a[k] == b[k] by {
            if k > 0 {
                assert(a[k] == a1[k - 1]);
                assert(b[k] == b1[k - 1]);
            }
        }
        assert(a =~= b);
    }
}

/// Each layer of `layers`, taken in `order`, is a layer of `layers`, and
/// every layer of `layers` is taken.
proof fn lemma_ordered_same_layers(layers: Seq<Layer>, order: Seq<usize>)
    requires
        is_z_order(layers, order),
        layers.len() <= usize::MAX,
    ensures
        forall|k: int| 0 <= k < order.len() ==> layers.contains(#[trigger] ordered_layers(layers, order)[k]),
        forall|i: int| 0 <= i < layers.len() ==> ordered_layers(layers, order).contains(#[trigger] layers[i]),
{
    assert forall|k: int| 0 <= k < order.len() implies layers.contains(#[trigger] ordered_layers(layers, order)[k]) by {
        assert(order[k] < layers.len());
        assert(layers[order[k] as int] == ordered_layers(layers, order)[k]);
    }
    assert forall|i: int| 0 <= i < layers.len() implies ordered_layers(layers, order).contains(#[trigger] layers[i]) by {
        let u = i as usize;
        assert(order.contains(u));
        let k = choose|k: int| 0 <= k < order.len() && order[k] == u;
        assert(ordered_layers(layers, order)[k] == layers[i]);
    }
}

/// The input order of the layers does not matter when their `z` differ:
/// if `layers2` holds the same layers as `layers` (each layer of one is a
/// layer of the other) and the `z` values are pairwise distinct, stacking
/// each in its z order gives the same pixels, so [`composite`] gives the
/// same image for both.
pub proof fn lemma_composite_order_free(
    base: &Rgba,
    layers: Seq<Layer>,
    layers2: Seq<Layer>,
    o1: Seq<usize>,
    o2: Seq<usize>,
    x: int,
    y: int,
)
    requires
        layers.len() <= usize::MAX,
        layers2.len() <= usize::MAX,
        distinct_z(layers),
        distinct_z(layers2),
        forall|i: int| 0 <= i < layers.len() ==> layers2.contains(#[trigger] layers[i]),
        forall|j: int| 0 <= j < layers2.len() ==> layers.contains(#[trigger] layers2[j]),
        is_z_order(layers, o1),
        is_z_order(layers2, o2),
    ensures
        stack_px(base, layers, o1, x, y) == stack_px(base, layers2, o2, x, y),
{
    let a = ordered_layers(layers, o1);
    let b = ordered_layers(layers2, o2);
    lemma_z_strict(layers, o1);
    lemma_z_strict(layers2, o2);
    lemma_ordered_same_layers(layers, o1);
    lemma_ordered_same_layers(layers2, o2);
    assert forall|i: int| 0 <= i < a.len() implies b.contains(#[trigger] a[i]) by {
        assert(layers.contains(a[i]));
        let j = choose|j: int| 0 <= j < layers.len() && layers[j] == a[i];
        assert(layers2.contains(layers[j]));
        let m = choose|m: int| 0 <= m < layers2.len() && layers2[m] == layers[j];
        assert(b.contains(layers2[m]));
    }
    assert forall|j: int| 0 <= j < b.len() implies a.contains(#[trigger] b[j]) by {
        assert(layers2.contains(b[j]));
        let m = choose|m: int| 0 <= m < layers2.len() && layers2[m] == b[j];
        assert(layers.contains(layers2[m]));
        let i = choose|i: int| 0 <= i < layers.len() && layers[i] == layers2[m];
        assert(a.contains(layers[i]));
    }
    lemma_z_sorted_equal(a, b);
    lemma_stack_px_layers(base, layers, o1, x, y);
    lemma_stack_px_layers(base, layers2, o2, x, y);
}

/// The input order of the layers does not matter when their `z` differ:
/// compositing a reordering `layers2` of `layers` (each layer of one is a
/// layer of the other, `z` pairwise distinct) onto the same base gives the
/// same image, pixel for pixel.
pub proof fn lemma_composite_permutation(
    base: &Frame,
    layers: Seq<Layer>,
    layers2: Seq<Layer>,
    out1: Frame,
    out2: Frame,
)
    requires
        layers.len() <= usize::MAX,
        layers2.len() <= usize::MAX,
        distinct_z(layers),
        distinct_z(layers2),
        forall|i: int| 0 <= i < layers.len() ==> layers2.contains(#[trigger] layers[i]),
        forall|j: int| 0 <= j < layers2.len() ==> layers.contains(#[trigger] layers2[j]),
        composited(base, layers, out1),
        composited(base, layers2, out2),
    ensures
        out1.image.spec_size() == out2.image.spec_size(),
        forall|x: int, y: int, c: int|
            0 <= x < out1.image.spec_size().w && 0 <= y < out1.image.spec_size().h && 0 <= c < 4
                ==> #[trigger] out1.image.at(x, y, c) == out2.image.at(x, y, c),
{
    assert forall|x: int, y: int, c: int|
        0 <= x < out1.image.spec_size().w && 0 <= y < out1.image.spec_size().h && 0 <= c < 4 implies #[trigger] out1.image.at(
        x,
        y,
        c,
    ) == out2.image.at(x, y, c) by {
        lemma_composite_order_free(
            &base.image,
            layers,
            layers2,
            stacking(layers),
            stacking(layers2),
            x,
            y,
        );
    }
}

} // verus!
