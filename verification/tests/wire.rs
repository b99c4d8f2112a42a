use paladocs::base64::{decode, encode};
use paladocs::encode::{delete_image, delete_placement, place, transmit, transmit_reference, MAX_CHUNK_BYTES};
use paladocs::geometry::{CellPos, PixelOffset, Placement};
use paladocs::ids::{ImageId, PlacementId};
use paladocs::medium::Medium;

#[test]
fn known_vectors() {
    assert_eq!(encode(b""), b"");
    assert_eq!(encode(b"f"), b"Zg==");
    assert_eq!(encode(b"fo"), b"Zm8=");
    assert_eq!(encode(b"foo"), b"Zm9v");
    assert_eq!(encode(b"foob"), b"Zm9vYg==");
    assert_eq!(encode(b"fooba"), b"Zm9vYmE=");
    assert_eq!(encode(b"foobar"), b"Zm9vYmFy");
}

#[test]
fn roundtrip_all_padding_classes() {
    for len in 0..200usize {
        let input: Vec<u8> = (0..len).map(|i| (i * 7 + 3) as u8).collect();
        let enc = encode(&input);
        assert!(enc.len() % 4 == 0, "len {len}");
        let dec = decode(&enc).expect("decode");
        assert_eq!(dec, input, "roundtrip len {len}");
    }
}

#[test]
fn decode_rejects_bad_length() {
    assert_eq!(decode(b"Zg="), None);
    assert_eq!(decode(b"Z"), None);
}

#[test]
fn decode_rejects_invalid_character() {
    assert_eq!(decode(b"Zm9*"), None);
    assert_eq!(decode(b"=m9v"), None);
}

fn parse_apcs(bytes: &[u8]) -> Vec<(String, String)> {
    let mut out = Vec::new();
    let mut i = 0;
    while i + 3 <= bytes.len() {
        if &bytes[i..i + 3] == b"\x1b_G" {
            let start = i + 3;
            let mut j = start;
            while j + 1 < bytes.len() && !(bytes[j] == 0x1b && bytes[j + 1] == b'\\') {
                j += 1;
            }
            let body = &bytes[start..j];
            let (keys, payload) = match body.iter().position(|&b| b == b';') {
                Some(p) => (&body[..p], &body[p + 1..]),
                None => (body, &body[body.len()..]),
            };
            out.push((String::from_utf8(keys.to_vec()).unwrap(), String::from_utf8(payload.to_vec()).unwrap()));
            i = j + 2;
        } else {
            i += 1;
        }
    }
    out
}

#[test]
fn transmit_single_chunk_roundtrip() {
    let pixels = vec![1, 2, 3, 4, 5, 6, 7, 8];
    let mut out = Vec::new();
    transmit(&mut out, 7, 2, 1, &pixels);
    let apcs = parse_apcs(&out);
    assert_eq!(apcs.len(), 1);
    let (keys, payload) = &apcs[0];
    for needle in ["a=t", "f=32", "i=7", "s=2", "v=1", "t=d", "m=0"] {
        assert!(keys.contains(needle), "keys {keys:?} missing {needle}");
    }
    let decoded = decode(payload.as_bytes()).unwrap();
    assert_eq!(decoded, pixels);
}

#[test]
fn transmit_keys_exact_text() {
    let mut out = Vec::new();
    transmit(&mut out, 7, 2, 1, &[1, 2, 3, 4, 5, 6, 7, 8]);
    assert_eq!(out, b"\x1b_Ga=t,f=32,s=2,v=1,i=7,t=d,q=1,m=0;AQIDBAUGBwg=\x1b\\".to_vec());
}

#[test]
fn transmit_chunks_respect_limit_and_reassemble() {
    let pixels: Vec<u8> = (0..4000u32).map(|i| (i % 251) as u8).collect();
    let mut out = Vec::new();
    transmit(&mut out, 42, 1000, 1, &pixels);
    let apcs = parse_apcs(&out);
    assert!(apcs.len() >= 2, "expected multiple chunks, got {}", apcs.len());
    let (first_keys, _) = &apcs[0];
    for needle in ["a=t", "f=32", "i=42", "s=1000", "v=1", "t=d", "m=1"] {
        assert!(first_keys.contains(needle), "first {first_keys:?} missing {needle}");
    }
    for (keys, _) in &apcs[1..] {
        assert!(keys.starts_with("m="), "continuation keys must be m= only: {keys:?}");
        assert!(!keys.contains("a="), "continuation must not repeat a=: {keys:?}");
        assert!(!keys.contains("i="), "continuation must not repeat i=: {keys:?}");
    }
    let (last_keys, _) = apcs.last().unwrap();
    assert_eq!(last_keys, "m=0");
    let mut joined = String::new();
    for (_, payload) in &apcs {
        assert!(payload.len() <= MAX_CHUNK_BYTES, "chunk too big: {}", payload.len());
        joined.push_str(payload);
    }
    let decoded = decode(joined.as_bytes()).unwrap();
    assert_eq!(decoded, pixels);
}

#[test]
fn transmit_exactly_one_full_chunk() {
    // 3072 bytes encode to exactly 4096 base64 bytes: one chunk, m=0.
    let pixels = vec![0u8; 3072];
    let mut out = Vec::new();
    transmit(&mut out, 1, 768, 1, &pixels);
    let apcs = parse_apcs(&out);
    assert_eq!(apcs.len(), 1);
    assert!(apcs[0].0.ends_with("m=0"));
    assert_eq!(apcs[0].1.len(), 4096);
}

#[test]
fn place_emits_cursor_and_keys() {
    let p = Placement {
        image: ImageId(3),
        id: PlacementId(9),
        cell: CellPos { col: 4, row: 2 },
        offset: PixelOffset { x: 5, y: 6 },
        z: 7,
    };
    let mut out = Vec::new();
    place(&mut out, &p);
    let s = String::from_utf8(out).unwrap();
    assert!(s.contains('\u{1b}'));
    assert!(s.starts_with("\x1b7"), "DECSC first");
    assert!(s.contains("\x1b[3;5H"), "CUP 1-based row;col");
    assert!(s.ends_with("\x1b8"), "DECRC last");
    for needle in ["a=p", "i=3", "p=9", "X=5", "Y=6", "z=7", "C=1"] {
        assert!(s.contains(needle), "missing {needle} in {s:?}");
    }
    assert!(!s.contains("C=1,q=1;"), "place must not emit payload separator");
}

#[test]
fn place_negative_z_exact_text() {
    let p = Placement {
        image: ImageId(1),
        id: PlacementId(2),
        cell: CellPos { col: 0, row: 0 },
        offset: PixelOffset { x: 0, y: 0 },
        z: -3,
    };
    let mut out = Vec::new();
    place(&mut out, &p);
    assert_eq!(
        String::from_utf8(out).unwrap(),
        "\x1b7\x1b[1;1H\x1b_Ga=p,i=1,p=2,X=0,Y=0,z=-3,C=1,q=1\x1b\\\x1b8"
    );
}

#[test]
fn delete_selectors_are_soft_and_hard() {
    let mut soft = Vec::new();
    delete_placement(&mut soft, 3, 9);
    let soft = String::from_utf8(soft).unwrap();
    assert!(soft.contains("a=d"));
    assert!(soft.contains("d=i"));
    assert!(soft.contains("i=3"));
    assert!(soft.contains("p=9"));
    let mut hard = Vec::new();
    delete_image(&mut hard, 3);
    let hard = String::from_utf8(hard).unwrap();
    assert!(hard.contains("a=d"));
    assert!(hard.contains("d=I"));
    assert!(hard.contains("i=3"));
    assert!(!hard.contains("p="), "image delete targets the whole image");
}

#[test]
fn transmit_reference_emits_medium_key_and_b64_reference() {
    let mut shm = Vec::new();
    transmit_reference(&mut shm, 7, 64, 48, Medium::SharedMem, b"/paladocs-7");
    let apcs = parse_apcs(&shm);
    assert_eq!(apcs.len(), 1);
    let (keys, payload) = &apcs[0];
    for needle in ["a=t", "f=32", "i=7", "s=64", "v=48", "t=s", "m=0"] {
        assert!(keys.contains(needle), "keys {keys:?} missing {needle}");
    }
    assert!(!keys.contains("t=d"), "must not be direct: {keys:?}");
    let decoded = decode(payload.as_bytes()).unwrap();
    assert_eq!(decoded, b"/paladocs-7");
    let mut file = Vec::new();
    transmit_reference(&mut file, 9, 10, 10, Medium::TempFile, b"/tmp/p.rgba");
    let (keys, payload) = &parse_apcs(&file)[0];
    assert!(keys.contains("t=f"), "keys {keys:?} missing t=f");
    let decoded = decode(payload.as_bytes()).unwrap();
    assert_eq!(decoded, b"/tmp/p.rgba");
}

#[test]
fn transmit_empty_payload_writes_nothing() {
    let mut out = Vec::new();
    transmit(&mut out, 1, 0, 0, &[]);
    assert!(out.is_empty());
}
