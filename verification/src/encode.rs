//! The Kitty graphics wire encoder.
//!
//! An APC is `ESC _ G <keys> ; <payload> ESC \`. Every function here only
//! appends bytes to a sink; none owns a terminal or any state. Constraints
//! that the wire keeps:
//! - transmission is `a=t,f=32` (RGBA) with non-zero `s=` / `v=` and `t=d`;
//! - the base64 payload is cut into chunks of at most 4096 bytes: the first
//!   chunk carries every control key and `m=1` when more follow, the later
//!   chunks carry `m=` only, the last one `m=0`;
//! - a placement (`a=p`) carries no payload and no `;`;
//! - `d=i` (soft, one placement) and `d=I` (hard, the whole image) delete;
//! - every command carries `q=1`.
use vstd::prelude::*;
use crate::base64::{b64_encode, encode as base64_encode};
use crate::decimal::{dec, dec_signed, push_dec, push_dec_signed};
use crate::geometry::Placement;
use crate::medium::Medium;

verus! {

/// Largest base64 chunk of one APC, in bytes.
pub const MAX_CHUNK_BYTES: usize = 4096;

/// `ESC _ G`, the start of a graphics APC.
pub open spec fn apc_open() -> Seq<u8> {
    seq![27u8, 95u8, 71u8]
}

/// `ESC \`, the string terminator.
pub open spec fn string_terminator() -> Seq<u8> {
    seq![27u8, 92u8]
}

/// An APC with a payload: `ESC _ G keys ; payload ESC \`.
pub open spec fn apc(keys: Seq<u8>, payload: Seq<u8>) -> Seq<u8> {
    apc_open() + keys + seq![59u8] + payload + string_terminator()
}

/// An APC without payload: `ESC _ G keys ESC \`.
pub open spec fn apc_keys(keys: Seq<u8>) -> Seq<u8> {
    apc_open() + keys + string_terminator()
}

/// The digit `1` when `b`, else `0`.
pub open spec fn flag_digit(b: bool) -> u8 {
    if b {
        49u8
    } else {
        48u8
    }
}

/// The byte of the `t=` value of a medium: `d`, `s` or `f`.
pub open spec fn medium_byte(m: Medium) -> u8 {
    match m {
        Medium::Direct => 100u8,
        Medium::SharedMem => 115u8,
        Medium::TempFile => 102u8,
    }
}

/// The control keys of a transmission:
/// `a=t,f=32,s=<w>,v=<h>,i=<image>,t=<t>,q=1,m=<0|1>`.
pub open spec fn transmit_keys(image: u32, width: u32, height: u32, t: u8, more: bool) -> Seq<u8> {
    seq![97u8, 61u8, 116u8, 44u8, 102u8, 61u8, 51u8, 50u8, 44u8, 115u8, 61u8] + dec(width as nat)
        + seq![44u8, 118u8, 61u8] + dec(height as nat) + seq![44u8, 105u8, 61u8] + dec(image as nat)
        + seq![44u8, 116u8, 61u8, t, 44u8, 113u8, 61u8, 49u8, 44u8, 109u8, 61u8, flag_digit(more)]
}

/// The keys of a continuation chunk: `m=<0|1>`.
pub open spec fn more_keys(more: bool) -> Seq<u8> {
    seq![109u8, 61u8, flag_digit(more)]
}

/// Number of chunks of a payload of `len` bytes: `ceil(len / 4096)`.
pub open spec fn chunk_count(len: nat) -> nat {
    ((len + 4095) / 4096) as nat
}

/// Chunk `i` of `s`: bytes `4096 * i` up to `4096 * (i + 1)` or the end.
pub open spec fn chunk_of(s: Seq<u8>, i: int) -> Seq<u8> {
    let end = if (i + 1) * 4096 < s.len() {
        (i + 1) * 4096
    } else {
        s.len() as int
    };
    s.subrange(i * 4096, end)
}

/// The APCs of chunks `i..` of the base64 text `b64` of image `image`.
pub open spec fn transmit_apcs(image: u32, width: u32, height: u32, b64: Seq<u8>, i: nat) -> Seq<u8>
    decreases chunk_count(b64.len()) - i,
{
    if i >= chunk_count(b64.len()) {
        Seq::empty()
    } else {
        let more = i + 1 < chunk_count(b64.len());
        let keys = if i == 0 {
            transmit_keys(image, width, height, 100u8, more)
        } else {
            more_keys(more)
        };
        apc(keys, chunk_of(b64, i as int)) + transmit_apcs(image, width, height, b64, i + 1)
    }
}

/// The bytes that transmit `payload` as image `image` of `width` by `height`.
pub open spec fn transmit_wire(image: u32, width: u32, height: u32, payload: Seq<u8>) -> Seq<u8> {
    transmit_apcs(image, width, height, b64_encode(payload), 0)
}

/// The bytes that transmit `reference` (a shared-memory name or a file path)
/// with medium `medium`: one APC, `m=0`, the reference in base64.
pub open spec fn transmit_reference_wire(
    image: u32,
    width: u32,
    height: u32,
    medium: Medium,
    reference: Seq<u8>,
) -> Seq<u8> {
    apc(transmit_keys(image, width, height, medium_byte(medium), false), b64_encode(reference))
}

/// `n + 1`, or `u32::MAX` when that does not fit.
pub open spec fn one_based(n: u32) -> u32 {
    if n == u32::MAX {
        u32::MAX
    } else {
        (n + 1) as u32
    }
}

/// The keys of a placement:
/// `a=p,i=<image>,p=<id>,X=<x>,Y=<y>,z=<z>,C=1,q=1`.
pub open spec fn place_keys(p: Placement) -> Seq<u8> {
    seq![97u8, 61u8, 112u8, 44u8, 105u8, 61u8] + dec(p.image.0 as nat) + seq![44u8, 112u8, 61u8]
        + dec(p.id.0 as nat) + seq![44u8, 88u8, 61u8] + dec(p.offset.x as nat) + seq![
        44u8,
        89u8,
        61u8,
    ] + dec(p.offset.y as nat) + seq![44u8, 122u8, 61u8] + dec_signed(p.z as int) + seq![
        44u8,
        67u8,
        61u8,
        49u8,
        44u8,
        113u8,
        61u8,
        49u8,
    ]
}

/// The bytes of a placement: save the cursor (`ESC 7`), move it to the anchor
/// cell (`ESC [ row ; col H`, 1-based), the `a=p` APC, restore the cursor
/// (`ESC 8`).
pub open spec fn place_wire(p: Placement) -> Seq<u8> {
    seq![27u8, 55u8, 27u8, 91u8] + dec(one_based(p.cell.row) as nat) + seq![59u8] + dec(
        one_based(p.cell.col) as nat,
    ) + seq![72u8] + apc_keys(place_keys(p)) + seq![27u8, 56u8]
}

/// The bytes of a soft delete of one placement: `a=d,d=i,i=<image>,p=<id>,q=1`.
pub open spec fn delete_placement_wire(image: u32, placement: u32) -> Seq<u8> {
    apc_keys(
        seq![97u8, 61u8, 100u8, 44u8, 100u8, 61u8, 105u8, 44u8, 105u8, 61u8] + dec(image as nat)
            + seq![44u8, 112u8, 61u8] + dec(placement as nat) + seq![44u8, 113u8, 61u8, 49u8],
    )
}

/// The bytes of a hard delete of an image: `a=d,d=I,i=<image>,q=1`.
pub open spec fn delete_image_wire(image: u32) -> Seq<u8> {
    apc_keys(
        seq![97u8, 61u8, 100u8, 44u8, 100u8, 61u8, 73u8, 44u8, 105u8, 61u8] + dec(image as nat)
            + seq![44u8, 113u8, 61u8, 49u8],
    )
}

/// The payloads of chunks `i..` of `s`, concatenated in order.
pub open spec fn chunks_from(s: Seq<u8>, i: nat) -> Seq<u8>
    decreases chunk_count(s.len()) - i,
{
    if i >= chunk_count(s.len()) {
        Seq::empty()
    } else {
        chunk_of(s, i as int) + chunks_from(s, i + 1)
    }
}

proof fn lemma_chunks_from(s: Seq<u8>, i: nat)
    requires
        i <= chunk_count(s.len()),
    ensures
        chunks_from(s, i) == s.skip(if i * 4096 <= s.len() { (i * 4096) as int } else { s.len() as int }),
    decreases chunk_count(s.len()) - i,
{
    if i < chunk_count(s.len()) {
        lemma_chunks_from(s, i + 1);
        let start = (i * 4096) as int;
        let end = if (i + 1) * 4096 < s.len() { ((i + 1) * 4096) as int } else { s.len() as int };
        assert(s.subrange(start, end) + s.skip(end) =~= s.skip(start));
    } else {
        assert(s.skip(s.len() as int) =~= Seq::<u8>::empty());
    }
}

/// Cutting a base64 text into chunks keeps every byte and respects the
/// limit: the chunks of `s`, concatenated in order, give `s` back, and each
/// chunk holds between 1 and [`MAX_CHUNK_BYTES`] bytes.
pub proof fn lemma_chunks_reassemble(s: Seq<u8>)
    ensures
        chunks_from(s, 0) == s,
        forall|i: int|
            0 <= i < chunk_count(s.len()) ==> 1 <= #[trigger] chunk_of(s, i).len() <= MAX_CHUNK_BYTES,
{
    lemma_chunks_from(s, 0);
    assert(s.skip(0) =~= s);
}

/// Appends `bytes` to `sink`.
pub fn push_bytes(sink: &mut Vec<u8>, bytes: &[u8])
    ensures
        final(sink)@ == old(sink)@ + bytes@,
{
    let ghost before = sink@;
    sink.extend_from_slice(bytes);
    proof {
        assert(sink@ =~= before + bytes@);
    }
}

/// Appends `src[from..to]` to `sink`.
fn push_range(sink: &mut Vec<u8>, src: &Vec<u8>, from: usize, to: usize)
    requires
        from <= to <= src@.len(),
    ensures
        final(sink)@ == old(sink)@ + src@.subrange(from as int, to as int),
{
    let ghost before = sink@;
    let mut k = from;
    while k < to
        invariant
            from <= k <= to,
            to <= src@.len(),
            sink@ == before + src@.subrange(from as int, k as int),
        decreases to - k,
    {
        sink.push(src[k]);
        proof {
            assert(src@.subrange(from as int, k + 1) =~= src@.subrange(from as int, k as int).push(
                src@[k as int],
            ));
        }
        k = k + 1;
    }
}

fn push_transmit_keys(sink: &mut Vec<u8>, image: u32, width: u32, height: u32, t: u8, more: bool)
    ensures
        final(sink)@ == old(sink)@ + transmit_keys(image, width, height, t, more),
{
    let ghost before = sink@;
    push_bytes(sink, &[97u8, 61u8, 116u8, 44u8, 102u8, 61u8, 51u8, 50u8, 44u8, 115u8, 61u8]);
    push_dec(sink, width as u64);
    push_bytes(sink, &[44u8, 118u8, 61u8]);
    push_dec(sink, height as u64);
    push_bytes(sink, &[44u8, 105u8, 61u8]);
    push_dec(sink, image as u64);
    let m: u8 = if more {
        49
    } else {
        48
    };
    push_bytes(sink, &[44u8, 116u8, 61u8, t, 44u8, 113u8, 61u8, 49u8, 44u8, 109u8, 61u8, m]);
    proof {
        assert(sink@ =~= before + transmit_keys(image, width, height, t, more));
    }
}

/// Appends the APC of one chunk: the full transmission keys for the first
/// chunk, `m=` alone for the others.
fn push_chunk(
    sink: &mut Vec<u8>,
    image: u32,
    width: u32,
    height: u32,
    first: bool,
    more: bool,
    b64: &Vec<u8>,
    pos: usize,
    end: usize,
)
    requires
        pos <= end <= b64@.len(),
    ensures
        final(sink)@ == old(sink)@ + apc(
            if first {
                transmit_keys(image, width, height, 100u8, more)
            } else {
                more_keys(more)
            },
            b64@.subrange(pos as int, end as int),
        ),
{
    let ghost before = sink@;
    push_bytes(sink, &[27u8, 95u8, 71u8]);
    if first {
        push_transmit_keys(sink, image, width, height, 100u8, more);
    } else {
        let m: u8 = if more {
            49
        } else {
            48
        };
        push_bytes(sink, &[109u8, 61u8, m]);
    }
    push_bytes(sink, &[59u8]);
    push_range(sink, b64, pos, end);
    push_bytes(sink, &[27u8, 92u8]);
    proof {
        let keys = if first {
            transmit_keys(image, width, height, 100u8, more)
        } else {
            more_keys(more)
        };
        assert(sink@ =~= before + apc(keys, b64@.subrange(pos as int, end as int)));
    }
}

proof fn lemma_chunk_step(image: u32, width: u32, height: u32, s: Seq<u8>, i: nat, pos: int, end: int)
    requires
        pos == i * 4096,
        pos < s.len(),
        end == (if s.len() - pos > 4096 { pos + 4096 } else { s.len() as int }),
    ensures
        i < chunk_count(s.len()),
        (end < s.len()) == (i + 1 < chunk_count(s.len())),
        end < s.len() ==> end == (i + 1) * 4096,
        chunk_of(s, i as int) == s.subrange(pos, end),
        transmit_apcs(image, width, height, s, i) == apc(
            if i == 0 {
                transmit_keys(image, width, height, 100u8, end < s.len())
            } else {
                more_keys(end < s.len())
            },
            s.subrange(pos, end),
        ) + transmit_apcs(image, width, height, s, i + 1),
{
}

/// Transmits the RGBA `payload` as image `image` of `width` by `height`
/// (`a=t,f=32,t=d`), in base64 chunks of at most [`MAX_CHUNK_BYTES`]; writes
/// nothing for an empty payload.
pub fn transmit(sink: &mut Vec<u8>, image: u32, width: u32, height: u32, payload: &[u8])
    ensures
        final(sink)@ == old(sink)@ + transmit_wire(image, width, height, payload@),
{
    let b64 = base64_encode(payload);
    let n = b64.len();
    let ghost s = b64@;
    let mut i: usize = 0;
    let mut pos: usize = 0;
    while pos < n
        invariant
            n == s.len(),
            s == b64@,
            s == b64_encode(payload@),
            pos <= n,
            pos < n ==> pos == i * 4096,
            pos >= n ==> i >= chunk_count(n as nat),
            old(sink)@ + transmit_apcs(image, width, height, s, 0) == sink@ + transmit_apcs(
                image,
                width,
                height,
                s,
                i as nat,
            ),
        decreases n - pos,
    {
        let end: usize = if n - pos > 4096 {
            pos + 4096
        } else {
            n
        };
        let more = end < n;
        proof {
            lemma_chunk_step(image, width, height, s, i as nat, pos as int, end as int);
        }
        push_chunk(sink, image, width, height, i == 0, more, &b64, pos, end);
        i = i + 1;
        pos = end;
    }
    proof {
        if n == 0 {
            assert(chunk_count(0) == 0);
        }
        assert(transmit_apcs(image, width, height, s, i as nat) =~= Seq::<u8>::empty());
    }
}

/// Transmits an image by reference (`t=s` shared memory or `t=f` temporary
/// file): one APC whose payload is the base64 of `reference`. Allocating the
/// referenced object is the caller's business.
pub fn transmit_reference(
    sink: &mut Vec<u8>,
    image: u32,
    width: u32,
    height: u32,
    medium: Medium,
    reference: &[u8],
)
    ensures
        final(sink)@ == old(sink)@ + transmit_reference_wire(image, width, height, medium, reference@),
{
    let ghost before = sink@;
    let b64 = base64_encode(reference);
    let t: u8 = match medium {
        Medium::Direct => 100,
        Medium::SharedMem => 115,
        Medium::TempFile => 102,
    };
    push_bytes(sink, &[27u8, 95u8, 71u8]);
    push_transmit_keys(sink, image, width, height, t, false);
    push_bytes(sink, &[59u8]);
    push_bytes(sink, b64.as_slice());
    push_bytes(sink, &[27u8, 92u8]);
    proof {
        assert(sink@ =~= before + transmit_reference_wire(image, width, height, medium, reference@));
    }
}

fn push_place_keys(sink: &mut Vec<u8>, p: &Placement)
    ensures
        final(sink)@ == old(sink)@ + place_keys(*p),
{
    let ghost before = sink@;
    push_bytes(sink, &[97u8, 61u8, 112u8, 44u8, 105u8, 61u8]);
    push_dec(sink, p.image.0 as u64);
    push_bytes(sink, &[44u8, 112u8, 61u8]);
    push_dec(sink, p.id.0 as u64);
    push_bytes(sink, &[44u8, 88u8, 61u8]);
    push_dec(sink, p.offset.x as u64);
    push_bytes(sink, &[44u8, 89u8, 61u8]);
    push_dec(sink, p.offset.y as u64);
    push_bytes(sink, &[44u8, 122u8, 61u8]);
    push_dec_signed(sink, p.z as i64);
    push_bytes(sink, &[44u8, 67u8, 61u8, 49u8, 44u8, 113u8, 61u8, 49u8]);
    proof {
        assert(sink@ =~= before + place_keys(*p));
    }
}

/// Places an already transmitted image (`a=p`, `C=1`), moving the cursor to
/// the anchor cell first and saving and restoring it around the command.
pub fn place(sink: &mut Vec<u8>, p: &Placement)
    ensures
        final(sink)@ == old(sink)@ + place_wire(*p),
{
    let ghost before = sink@;
    let row = p.cell.row.saturating_add(1);
    let col = p.cell.col.saturating_add(1);
    push_bytes(sink, &[27u8, 55u8, 27u8, 91u8]);
    push_dec(sink, row as u64);
    push_bytes(sink, &[59u8]);
    push_dec(sink, col as u64);
    push_bytes(sink, &[72u8]);
    let ghost head = sink@;
    push_bytes(sink, &[27u8, 95u8, 71u8]);
    push_place_keys(sink, p);
    push_bytes(sink, &[27u8, 92u8]);
    proof {
        assert(sink@ =~= head + apc_keys(place_keys(*p)));
    }
    push_bytes(sink, &[27u8, 56u8]);
    proof {
        assert(row == one_based(p.cell.row) && col == one_based(p.cell.col));
        assert(sink@ =~= before + place_wire(*p));
    }
}

/// Soft-deletes one placement (`d=i` with `i=` and `p=`); the image data
/// stays.
pub fn delete_placement(sink: &mut Vec<u8>, image: u32, placement: u32)
    ensures
        final(sink)@ == old(sink)@ + delete_placement_wire(image, placement),
{
    let ghost before = sink@;
    push_bytes(sink, &[27u8, 95u8, 71u8, 97u8, 61u8, 100u8, 44u8, 100u8, 61u8, 105u8, 44u8, 105u8, 61u8]);
    push_dec(sink, image as u64);
    push_bytes(sink, &[44u8, 112u8, 61u8]);
    push_dec(sink, placement as u64);
    push_bytes(sink, &[44u8, 113u8, 61u8, 49u8, 27u8, 92u8]);
    proof {
        assert(sink@ =~= before + delete_placement_wire(image, placement));
    }
}

/// Hard-deletes an image (`d=I` with `i=`), its data and its placements.
pub fn delete_image(sink: &mut Vec<u8>, image: u32)
    ensures
        final(sink)@ == old(sink)@ + delete_image_wire(image),
{
    let ghost before = sink@;
    push_bytes(sink, &[27u8, 95u8, 71u8, 97u8, 61u8, 100u8, 44u8, 100u8, 61u8, 73u8, 44u8, 105u8, 61u8]);
    push_dec(sink, image as u64);
    push_bytes(sink, &[44u8, 113u8, 61u8, 49u8, 27u8, 92u8]);
    proof {
        assert(sink@ =~= before + delete_image_wire(image));
    }
}

} // verus!
