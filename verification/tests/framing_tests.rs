use capglyph::framing::cbor;
use capglyph::framing::{
    open, seal, sealed_len, validate_frame, FrameError, FrameHeader, Params, PayloadType,
};
use hmac::Mac;

fn test_key() -> [u8; 32] {
    [0x42u8; 32]
}

#[test]
fn seal_open_roundtrip_credential_128b() {
    let payload = b"\x00\x11\x22\x33\x44\x55\x66\x77\x88\x99\xaa\xbb\xcc\xdd\xee\xff";
    let params = Params {
        version: 1,
        payload_type: PayloadType::Credential,
        flags: 0,
    };
    let sealed = seal(payload, &params, &test_key());
    let (hdr, out) = open(&sealed, &test_key()).unwrap();
    assert_eq!(hdr.version, 1);
    assert_eq!(hdr.payload_type, PayloadType::Credential);
    assert_eq!(hdr.payload_len, 16);
    assert_eq!(out, payload);
}

#[test]
fn seal_detects_tamper() {
    let payload = b"hello credential";
    let sealed = seal(payload, &Params::default(), &test_key());
    let mut tampered = sealed.clone();
    tampered[5] ^= 0x01;
    assert!(open(&tampered, &test_key()).is_err());
}

#[test]
fn framing_wrong_key_fails() {
    let sealed = seal(b"test", &Params::default(), &test_key());
    let wrong = [0x00u8; 32];
    assert!(open(&sealed, &wrong).is_err());
}

#[test]
fn cbor_validate_preflight() {
    let frame = cbor::encode(b"abc", &Params::default());
    let hdr = cbor::validate(&frame).unwrap();
    assert_eq!(hdr.version, 1);
    assert_eq!(hdr.payload_len, 3);
}

#[test]
fn empty_payload_roundtrip() {
    let sealed = seal(b"", &Params::default(), &test_key());
    let (_, out) = open(&sealed, &test_key()).unwrap();
    assert_eq!(out, b"");
}

#[test]
fn pointer_type_roundtrip() {
    let params = Params {
        version: 1,
        payload_type: PayloadType::Pointer,
        flags: 1,
    };
    let sealed = seal(b"pointer-data", &params, &test_key());
    let (hdr, out) = open(&sealed, &test_key()).unwrap();
    assert_eq!(hdr.payload_type, PayloadType::Pointer);
    assert_eq!(hdr.flags, 1);
    assert_eq!(out, b"pointer-data");
}

#[test]
fn cbor_encoding_bytes() {
    let frame = cbor::encode(b"abc", &Params::default());
    assert_eq!(frame, vec![0x85, 0x01, 0x01, 0x00, 0x03, 0x43, b'a', b'b', b'c']);
    let params = Params {
        version: 200,
        payload_type: PayloadType::Locator,
        flags: 30,
    };
    let payload = vec![7u8; 300];
    let frame = cbor::encode(&payload, &params);
    assert_eq!(&frame[..10], &[0x85, 0x18, 200, 0x04, 0x18, 30, 0x19, 0x01, 0x2c, 0x59]);
    assert_eq!(&frame[10..12], &[0x01, 0x2c]);
    assert_eq!(frame.len(), 12 + 300);
}

#[test]
fn cbor_encoding_matches_ciborium() {
    for (len, t) in [(0usize, PayloadType::Credential), (23, PayloadType::Pointer), (24, PayloadType::Message), (300, PayloadType::Locator)] {
        let payload: Vec<u8> = (0..len).map(|i| i as u8).collect();
        let params = Params { version: 1, payload_type: t, flags: 5 };
        let ours = cbor::encode(&payload, &params);
        let tuple = (1u8, t.to_u8(), 5u8, len as u16, serde_bytes::ByteBuf::from(payload.clone()));
        let mut theirs = Vec::new();
        ciborium::ser::into_writer(&tuple, &mut theirs).unwrap();
        assert_eq!(ours, theirs);
    }
}

#[test]
fn cbor_decode_accepts_wide_heads() {
    let frame = vec![0x85, 0x18, 0x01, 0x19, 0x00, 0x02, 0x00, 0x1a, 0, 0, 0, 2, 0x58, 0x02, 9, 9];
    let (hdr, payload) = cbor::decode(&frame).unwrap();
    assert_eq!(hdr, FrameHeader::new(1, PayloadType::Pointer, 0, 2));
    assert_eq!(payload, vec![9, 9]);
}

#[test]
fn cbor_decode_errors() {
    assert_eq!(cbor::decode(&[]), Err(FrameError::Malformed));
    assert_eq!(cbor::decode(&[0x84, 1, 1, 0, 0]), Err(FrameError::Malformed));
    assert_eq!(cbor::decode(&[0x85, 1, 9, 0, 0, 0x40]), Err(FrameError::UnknownPayloadType(9)));
    assert_eq!(cbor::decode(&[0x85, 1, 1, 0, 2, 0x41, 7]), Err(FrameError::LengthMismatch));
    assert_eq!(cbor::decode(&[0x85, 1, 1, 0, 1, 0x42, 7]), Err(FrameError::Malformed));
    assert_eq!(cbor::validate(&[0x85, 2, 1, 0, 0, 0x40]), Err(FrameError::UnsupportedVersion(2)));
}

#[test]
fn open_errors() {
    assert_eq!(open(&[0u8; 31], &test_key()), Err(FrameError::TooShort));
    let params = Params { version: 2, payload_type: PayloadType::Credential, flags: 0 };
    let sealed = seal(b"x", &params, &test_key());
    assert_eq!(open(&sealed, &test_key()), Err(FrameError::UnsupportedVersion(2)));
    let mut bad = sealed.clone();
    let n = bad.len();
    bad[n - 1] ^= 0x80;
    assert_eq!(open(&bad, &test_key()), Err(FrameError::AuthFailed));
}

#[test]
fn seal_tag_is_hmac_sha256_of_frame() {
    let frame = cbor::encode(b"abc", &Params::default());
    let sealed = seal(b"abc", &Params::default(), &test_key());
    let mut mac = <hmac::Hmac<sha2::Sha256> as hmac::digest::KeyInit>::new_from_slice(&test_key()).unwrap();
    mac.update(&frame);
    let tag = mac.finalize().into_bytes();
    assert_eq!(&sealed[..frame.len()], &frame[..]);
    assert_eq!(&sealed[frame.len()..], &tag[..]);
}

#[test]
fn sealed_len_matches_seal() {
    for len in [0usize, 16, 23, 24, 48, 255, 256, 1000] {
        let payload = vec![3u8; len];
        let params = Params { version: 1, payload_type: PayloadType::Message, flags: 0 };
        assert_eq!(sealed_len(len, &params), seal(&payload, &params, &test_key()).len());
    }
}

#[test]
fn validate_frame_sealed_and_bare() {
    let sealed = seal(b"hello", &Params::default(), &test_key());
    let hdr = validate_frame(&sealed).unwrap();
    assert_eq!(hdr.payload_len, 5);
    let frame = cbor::encode(b"hello", &Params::default());
    assert_eq!(validate_frame(&frame).unwrap().payload_len, 5);
    assert_eq!(validate_frame(&[0u8; 3]), Err(FrameError::Malformed));
}

#[test]
fn payload_type_codes() {
    assert_eq!(PayloadType::from_u8(1), Ok(PayloadType::Credential));
    assert_eq!(PayloadType::from_u8(4), Ok(PayloadType::Locator));
    assert_eq!(PayloadType::from_u8(0), Err(FrameError::UnknownPayloadType(0)));
    assert_eq!(PayloadType::Message.to_u8(), 3);
}

fn ciborium_reading(frame: &[u8]) -> Option<(u8, u8, u8, u16, Vec<u8>)> {
    let r: Result<(u8, u8, u8, u16, serde_bytes::ByteBuf), _> = ciborium::de::from_reader(frame);
    r.ok().map(|(v, t, f, l, p)| (v, t, f, l, p.into_vec()))
}

#[test]
fn cbor_decode_agrees_with_ciborium() {
    let frames: Vec<Vec<u8>> = vec![
        vec![0x9f, 1, 1, 0, 2, 0x42, 7, 8, 0xff],
        vec![0xc6, 0x85, 1, 1, 0, 2, 0x42, 7, 8],
        vec![0x85, 1, 1, 0, 3, 0x5f, 0x42, 1, 2, 0x41, 3, 0xff],
        vec![0x85, 1, 1, 0, 2, 0x82, 7, 0x18, 200],
        vec![0x85, 1, 1, 0, 1, 0x9f, 5, 0xff],
        vec![0x85, 0xc2, 0x41, 1, 1, 0, 0, 0x40],
        vec![0x85, 0xc2, 0x43, 0, 0, 1, 1, 0, 0, 0x40],
        vec![0x85, 0xc3, 0x41, 1, 1, 0, 0, 0x40],
        vec![0x86, 1, 1, 0, 0, 0x40, 0],
        vec![0x9f, 1, 1, 0, 0, 0xff],
        vec![0x85, 1, 1, 0, 1, 0xc6, 0x41, 9],
        vec![0x85, 1, 1, 0xd8, 0x20, 0, 1, 0x41, 9],
        vec![0x85, 1, 1, 0, 0, 0x5f, 0xff],
        vec![0x85, 1, 1, 0, 0, 0x80],
        vec![0x85, 1, 1, 0, 1, 0x81, 0x19, 1, 0],
        vec![0x85, 0x1c, 1, 0, 0, 0x40],
        vec![0x85, 1, 1, 0, 0],
    ];
    for frame in &frames {
        let ours = cbor::decode(frame);
        match ciborium_reading(frame) {
            Some((v, t, f, l, p)) => {
                if !(1..=4).contains(&t) {
                    assert_eq!(ours, Err(FrameError::UnknownPayloadType(t)), "{:x?}", frame);
                } else if p.len() != l as usize {
                    assert_eq!(ours, Err(FrameError::LengthMismatch), "{:x?}", frame);
                } else {
                    let (h, q) = ours.expect("ciborium accepts this frame");
                    assert_eq!((h.version, h.payload_type.to_u8(), h.flags, h.payload_len), (v, t, f, l));
                    assert_eq!(q, p, "{:x?}", frame);
                }
            }
            None => assert_eq!(ours, Err(FrameError::Malformed), "{:x?}", frame),
        }
    }
}

#[test]
fn cbor_decode_tagged_and_indefinite_items() {
    let (h, p) = cbor::decode(&[0x9f, 1, 1, 0, 2, 0x42, 7, 8, 0xff]).unwrap();
    assert_eq!(h, FrameHeader::new(1, PayloadType::Credential, 0, 2));
    assert_eq!(p, vec![7, 8]);
    let (_, p) = cbor::decode(&[0x85, 1, 1, 0, 3, 0x5f, 0x42, 1, 2, 0x41, 3, 0xff]).unwrap();
    assert_eq!(p, vec![1, 2, 3]);
    let (_, p) = cbor::decode(&[0x85, 1, 1, 0, 2, 0x82, 7, 0x18, 200]).unwrap();
    assert_eq!(p, vec![7, 200]);
    assert_eq!(cbor::decode(&[0x9f, 1, 1, 0, 0, 0xff]), Err(FrameError::Malformed));
}
