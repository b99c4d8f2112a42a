//! Standard base64 (RFC 4648: alphabet `A-Z a-z 0-9 + /`, `=` padding).
//!
//! Kitty graphics payloads travel as base64. Both functions are pure and
//! never panic.
use vstd::prelude::*;

verus! {

/// The alphabet character of the 6-bit value `v`.
pub open spec fn b64_char(v: int) -> u8 {
    if v < 26 {
        (65 + v) as u8
    } else if v < 52 {
        (97 + v - 26) as u8
    } else if v < 62 {
        (48 + v - 52) as u8
    } else if v == 62 {
        43u8
    } else {
        47u8
    }
}

/// The 6-bit value of an alphabet character; `None` for any other byte
/// (the padding `=` included).
pub open spec fn b64_value(c: u8) -> Option<u32> {
    if 65 <= c <= 90 {
        Some((c - 65) as u32)
    } else if 97 <= c <= 122 {
        Some((c - 97 + 26) as u32)
    } else if 48 <= c <= 57 {
        Some((c - 48 + 52) as u32)
    } else if c == 43 {
        Some(62)
    } else if c == 47 {
        Some(63)
    } else {
        None
    }
}

/// The 24-bit group of up to three bytes (missing bytes are zero).
pub open spec fn group(b0: u8, b1: u8, b2: u8) -> u32 {
    ((b0 as u32) << 16u32) | ((b1 as u32) << 8u32) | (b2 as u32)
}

/// The four output characters of a chunk of `len` (1 to 3) input bytes.
pub open spec fn encode_chunk(b0: u8, b1: u8, b2: u8, len: int) -> Seq<u8> {
    let n = group(b0, b1, b2);
    seq![
        b64_char(((n >> 18u32) & 0x3f) as int),
        b64_char(((n >> 12u32) & 0x3f) as int),
        if len > 1 { b64_char(((n >> 6u32) & 0x3f) as int) } else { 61u8 },
        if len > 2 { b64_char((n & 0x3f) as int) } else { 61u8 },
    ]
}

/// Standard padded base64 of `input`.
pub open spec fn b64_encode(input: Seq<u8>) -> Seq<u8>
    decreases input.len(),
{
    if input.len() == 0 {
        Seq::empty()
    } else if input.len() == 1 {
        encode_chunk(input[0], 0, 0, 1)
    } else if input.len() == 2 {
        encode_chunk(input[0], input[1], 0, 2)
    } else {
        encode_chunk(input[0], input[1], input[2], 3) + b64_encode(input.skip(3))
    }
}

/// The bytes of one 4-character chunk: characters 0 and 1 must be alphabet
/// characters; character 2 and 3 are alphabet characters or `=`, and each
/// alphabet character in position 2 or 3 adds one output byte.
pub open spec fn decode_chunk(c0: u8, c1: u8, c2: u8, c3: u8) -> Option<Seq<u8>> {
    if b64_value(c0) is None || b64_value(c1) is None {
        None
    } else if c2 != 61 && b64_value(c2) is None {
        None
    } else if c3 != 61 && b64_value(c3) is None {
        None
    } else {
        let v0 = b64_value(c0)->0;
        let v1 = b64_value(c1)->0;
        let v2 = if c2 == 61 { 0u32 } else { b64_value(c2)->0 };
        let v3 = if c3 == 61 { 0u32 } else { b64_value(c3)->0 };
        let n = (v0 << 18u32) | (v1 << 12u32) | (v2 << 6u32) | v3;
        let first = seq![(n >> 16u32) as u8];
        let second = if c2 != 61 { first.push((n >> 8u32) as u8) } else { first };
        Some(if c3 != 61 { second.push(n as u8) } else { second })
    }
}

/// Decoding of `input` as a sequence of 4-character chunks; `None` when the
/// length is not a multiple of 4 or a chunk is malformed.
pub open spec fn b64_decode(input: Seq<u8>) -> Option<Seq<u8>>
    decreases input.len(),
{
    if input.len() % 4 != 0 {
        None
    } else if input.len() == 0 {
        Some(Seq::empty())
    } else {
        match decode_chunk(input[0], input[1], input[2], input[3]) {
            None => None,
            Some(head) => match b64_decode(input.skip(4)) {
                None => None,
                Some(tail) => Some(head + tail),
            },
        }
    }
}

fn b64_char_exec(v: u32) -> (c: u8)
    requires
        v < 64,
    ensures
        c == b64_char(v as int),
{
    if v < 26 {
        (65 + v) as u8
    } else if v < 52 {
        (97 + v - 26) as u8
    } else if v < 62 {
        (48 + v - 52) as u8
    } else if v == 62 {
        43
    } else {
        47
    }
}

/// Encodes `input` as standard padded base64; the output length is always
/// `ceil(len / 3) * 4`.
pub fn encode(input: &[u8]) -> (out: Vec<u8>)
    ensures
        out@ == b64_encode(input@),
        out@.len() == (input@.len() + 2) / 3 * 4,
{
    let n = input.len();
    let mut out: Vec<u8> = Vec::new();
    let mut i: usize = 0;
    proof {
        assert(input@.skip(0) =~= input@);
    }
    while i < n
        invariant
            n == input@.len(),
            i <= n,
            out@ + b64_encode(input@.skip(i as int)) == b64_encode(input@),
            out@.len() == (i + 2) / 3 * 4,
            i % 3 == 0 || i == n,
        decreases n - i,
    {
        let rest = n - i;
        let b0 = input[i];
        let b1 = if rest > 1 { input[i + 1] } else { 0 };
        let b2 = if rest > 2 { input[i + 2] } else { 0 };
        let len: usize = if rest >= 3 { 3 } else { rest };
        let grp: u32 = ((b0 as u32) << 16u32) | ((b1 as u32) << 8u32) | (b2 as u32);
        proof {
            assert(grp == group(b0, b1, b2));
            assert((grp >> 18u32) & 0x3f < 64) by (bit_vector);
            assert((grp >> 12u32) & 0x3f < 64) by (bit_vector);
            assert((grp >> 6u32) & 0x3f < 64) by (bit_vector);
            assert(grp & 0x3f < 64) by (bit_vector);
        }
        let c0 = b64_char_exec((grp >> 18u32) & 0x3f);
        let c1 = b64_char_exec((grp >> 12u32) & 0x3f);
        let c2 = if len > 1 { b64_char_exec((grp >> 6u32) & 0x3f) } else { 61u8 };
        let c3 = if len > 2 { b64_char_exec(grp & 0x3f) } else { 61u8 };
        let ghost before = out@;
        out.push(c0);
        out.push(c1);
        out.push(c2);
        out.push(c3);
        proof {
            let s = input@.skip(i as int);
            assert(out@ == before + encode_chunk(b0, b1, b2, len as int));
            if rest >= 3 {
                assert(s[0] == b0 && s[1] == b1 && s[2] == b2);
                assert(s.skip(3) =~= input@.skip(i + 3));
                assert(b64_encode(s) == encode_chunk(s[0], s[1], s[2], 3) + b64_encode(s.skip(3)));
                assert(before + b64_encode(s) == out@ + b64_encode(input@.skip(i + 3)));
            } else {
                assert(s[0] == b0);
                assert(rest == 2 ==> s[1] == b1);
                assert(b64_encode(s) == encode_chunk(b0, b1, b2, len as int));
                assert(input@.skip(i + len) =~= Seq::<u8>::empty());
            }
        }
        i = i + len;
    }
    proof {
        assert(input@.skip(n as int) =~= Seq::<u8>::empty());
    }
    out
}

fn b64_value_exec(c: u8) -> (r: Option<u32>)
    ensures
        r == b64_value(c),
{
    if 65 <= c && c <= 90 {
        Some((c - 65) as u32)
    } else if 97 <= c && c <= 122 {
        Some((c - 97 + 26) as u32)
    } else if 48 <= c && c <= 57 {
        Some((c - 48 + 52) as u32)
    } else if c == 43 {
        Some(62)
    } else if c == 47 {
        Some(63)
    } else {
        None
    }
}

/// Decodes standard base64; `None` when the length is not a multiple of 4 or
/// a character is invalid.
pub fn decode(input: &[u8]) -> (r: Option<Vec<u8>>)
    ensures
        match r {
            Some(v) => b64_decode(input@) == Some(v@),
            None => b64_decode(input@) is None,
        },
{
    let n = input.len();
    if n % 4 != 0 {
        return None;
    }
    let mut out: Vec<u8> = Vec::new();
    let mut i: usize = 0;
    proof {
        assert(input@.skip(0) =~= input@);
    }
    while i < n
        invariant
            n == input@.len(),
            n % 4 == 0,
            i <= n,
            i % 4 == 0,
            b64_decode(input@) == match b64_decode(input@.skip(i as int)) {
                None => None,
                Some(tail) => Some(out@ + tail),
            },
        decreases n - i,
    {
        let ghost s = input@.skip(i as int);
        proof {
            assert(s.skip(4) =~= input@.skip(i + 4));
            assert(s[0] == input@[i as int] && s[1] == input@[i + 1] && s[2] == input@[i + 2] && s[3] == input@[i + 3]);
        }
        let c0 = input[i];
        let c1 = input[i + 1];
        let c2 = input[i + 2];
        let c3 = input[i + 3];
        let v0 = match b64_value_exec(c0) {
            Some(v) => v,
            None => return None,
        };
        let v1 = match b64_value_exec(c1) {
            Some(v) => v,
            None => return None,
        };
        let v2 = if c2 == 61 {
            0u32
        } else {
            match b64_value_exec(c2) {
                Some(v) => v,
                None => return None,
            }
        };
        let v3 = if c3 == 61 {
            0u32
        } else {
            match b64_value_exec(c3) {
                Some(v) => v,
                None => return None,
            }
        };
        let num: u32 = (v0 << 18u32) | (v1 << 12u32) | (v2 << 6u32) | v3;
        let ghost before = out@;
        out.push((num >> 16u32) as u8);
        if c2 != 61 {
            out.push((num >> 8u32) as u8);
        }
        if c3 != 61 {
            out.push(num as u8);
        }
        proof {
            let head = decode_chunk(c0, c1, c2, c3)->0;
            assert(out@ =~= before + head);
            match b64_decode(s.skip(4)) {
                None => {},
                Some(tail) => {
                    assert(before + (head + tail) =~= out@ + tail);
                },
            }
        }
        i = i + 4;
    }
    proof {
        assert(input@.skip(n as int) =~= Seq::<u8>::empty());
    }
    Some(out)
}

proof fn lemma_value_of_char(v: int)
    requires
        0 <= v < 64,
    ensures
        b64_value(b64_char(v)) == Some(v as u32),
        b64_char(v) != 61,
{
}

/// Decoding undoes encoding: `decode(encode(x)) == Some(x)` for every byte
/// string `x`.
pub proof fn lemma_decode_encode(input: Seq<u8>)
    ensures
        b64_decode(b64_encode(input)) == Some(input),
    decreases input.len(),
{
    let len = input.len();
    if len == 0 {
        assert(b64_encode(input) =~= Seq::<u8>::empty());
        return;
    }
    let b0 = input[0];
    let b1: u8 = if len > 1 { input[1] } else { 0 };
    let b2: u8 = if len > 2 { input[2] } else { 0 };
    let n = group(b0, b1, b2);
    let k0 = (n >> 18u32) & 0x3f;
    let k1 = (n >> 12u32) & 0x3f;
    let k2 = (n >> 6u32) & 0x3f;
    let k3 = n & 0x3f;
    assert(k0 < 64 && k1 < 64 && k2 < 64 && k3 < 64) by (bit_vector)
        requires
            k0 == (n >> 18u32) & 0x3f,
            k1 == (n >> 12u32) & 0x3f,
            k2 == (n >> 6u32) & 0x3f,
            k3 == n & 0x3f,
    ;
    lemma_value_of_char(k0 as int);
    lemma_value_of_char(k1 as int);
    lemma_value_of_char(k2 as int);
    lemma_value_of_char(k3 as int);
    let chunk = encode_chunk(b0, b1, b2, if len > 3 { 3 } else { len as int });
    let v2: u32 = if len > 1 { k2 } else { 0 };
    let v3: u32 = if len > 2 { k3 } else { 0 };
    let m = (k0 << 18u32) | (k1 << 12u32) | (v2 << 6u32) | v3;
    assert(n == group(b0, b1, b2));
    assert((m >> 16u32) as u8 == b0) by (bit_vector)
        requires
            n == ((b0 as u32) << 16u32) | ((b1 as u32) << 8u32) | (b2 as u32),
            k0 == (n >> 18u32) & 0x3f,
            k1 == (n >> 12u32) & 0x3f,
            v2 == 0 || v2 == (n >> 6u32) & 0x3f,
            v3 == 0 || v3 == n & 0x3f,
            m == (k0 << 18u32) | (k1 << 12u32) | (v2 << 6u32) | v3,
    ;
    if len > 1 {
        assert((m >> 8u32) as u8 == b1) by (bit_vector)
            requires
                n == ((b0 as u32) << 16u32) | ((b1 as u32) << 8u32) | (b2 as u32),
                k0 == (n >> 18u32) & 0x3f,
                k1 == (n >> 12u32) & 0x3f,
                v2 == (n >> 6u32) & 0x3f,
                v3 == 0 || v3 == n & 0x3f,
                m == (k0 << 18u32) | (k1 << 12u32) | (v2 << 6u32) | v3,
        ;
    }
    if len > 2 {
        assert(m as u8 == b2) by (bit_vector)
            requires
                n == ((b0 as u32) << 16u32) | ((b1 as u32) << 8u32) | (b2 as u32),
                k0 == (n >> 18u32) & 0x3f,
                k1 == (n >> 12u32) & 0x3f,
                v2 == (n >> 6u32) & 0x3f,
                v3 == n & 0x3f,
                m == (k0 << 18u32) | (k1 << 12u32) | (v2 << 6u32) | v3,
        ;
    }
    let head = decode_chunk(chunk[0], chunk[1], chunk[2], chunk[3])->0;
    assert(decode_chunk(chunk[0], chunk[1], chunk[2], chunk[3]) is Some);
    if len <= 3 {
        assert(head =~= input);
        assert(b64_encode(input) == chunk);
        assert(chunk.skip(4) =~= Seq::<u8>::empty());
        assert(b64_decode(chunk.skip(4)) == Some(Seq::<u8>::empty()));
        assert(head + Seq::<u8>::empty() =~= input);
    } else {
        let rest = input.skip(3);
        lemma_decode_encode(rest);
        let enc = b64_encode(input);
        assert(enc == chunk + b64_encode(rest));
        lemma_encode_len(rest);
        assert(enc.skip(4) =~= b64_encode(rest));
        assert(enc[0] == chunk[0] && enc[1] == chunk[1] && enc[2] == chunk[2] && enc[3] == chunk[3]);
        assert(head =~= input.take(3));
        assert(input.take(3) + rest =~= input);
    }
}

/// The encoded length is `ceil(len / 3) * 4`.
pub proof fn lemma_encode_len(input: Seq<u8>)
    ensures
        b64_encode(input).len() == (input.len() + 2) / 3 * 4,
    decreases input.len(),
{
    if input.len() >= 3 {
        lemma_encode_len(input.skip(3));
        assert(b64_encode(input) == encode_chunk(input[0], input[1], input[2], 3) + b64_encode(input.skip(3)));
    }
}

} // verus!
