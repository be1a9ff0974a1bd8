//! Framing layer: CBOR envelope + HMAC authentication.
//!
//! Stack: `payload (raw bytes)` → CBOR frame (`[version, type, flags, len, payload]`)
//! → `frame_bytes || HMAC-SHA256(K_mac, frame_bytes)`.
//!
//! Carrier agnostic: the same `seal` / `open` serve every carrier.
use vstd::prelude::*;
use crate::crypto::hmac_sha256;

pub mod auth;
pub mod cbor;

use self::cbor::{cbor_frame, frame_decoded, frame_len_spec, validated, lemma_frame_roundtrip, lemma_frame_len, lemma_frame_prefix_refused};

verus! {

// ── Types ───────────────────────────────────────────────────────────────────

/// Payload type: credential, pointer, message or locator (wire codes 1–4).
#[derive(Debug, Clone, Copy, PartialEq, Eq, Structural)]
pub enum PayloadType {
    Credential,
    Pointer,
    Message,
    Locator,
}

/// Wire code of a payload type.
pub open spec fn type_code(t: PayloadType) -> u8 {
    match t {
        PayloadType::Credential => 1,
        PayloadType::Pointer => 2,
        PayloadType::Message => 3,
        PayloadType::Locator => 4,
    }
}

/// Payload type with wire code `v`, for `1 <= v <= 4`.
pub open spec fn type_of_code(v: u8) -> PayloadType {
    if v == 1 {
        PayloadType::Credential
    } else if v == 2 {
        PayloadType::Pointer
    } else if v == 3 {
        PayloadType::Message
    } else {
        PayloadType::Locator
    }
}

/// Why a frame was refused.
#[derive(Debug, Clone, Copy, PartialEq, Eq, Structural)]
pub enum FrameError {
    /// The bytes are not a CBOR array `[uint8, uint8, uint8, uint16, bytes]`.
    Malformed,
    /// The type byte is not one of the four payload types.
    UnknownPayloadType(u8),
    /// The header length differs from the payload's length.
    LengthMismatch,
    /// The version is not 1.
    UnsupportedVersion(u8),
    /// Fewer than 32 bytes: no room for the tag.
    TooShort,
    /// The HMAC tag does not match the frame.
    AuthFailed,
}

impl PayloadType {
    /// Wire code (1–4).
    pub fn to_u8(self) -> (v: u8)
        ensures
            v == type_code(self),
    {
        match self {
            PayloadType::Credential => 1,
            PayloadType::Pointer => 2,
            PayloadType::Message => 3,
            PayloadType::Locator => 4,
        }
    }

    /// Payload type for a wire code; codes other than 1–4 are refused.
    pub fn from_u8(v: u8) -> (r: Result<Self, FrameError>)
        ensures
            (1 <= v <= 4) <==> r is Ok,
            r matches Ok(t) ==> type_code(t) == v && t == type_of_code(v),
            r matches Err(e) ==> e == FrameError::UnknownPayloadType(v),
    {
        match v {
            1 => Ok(PayloadType::Credential),
            2 => Ok(PayloadType::Pointer),
            3 => Ok(PayloadType::Message),
            4 => Ok(PayloadType::Locator),
            _ => Err(FrameError::UnknownPayloadType(v)),
        }
    }
}

/// CBOR frame header, always at the front of a sealed payload.
#[derive(Debug, Clone, Copy, PartialEq, Eq, Structural)]
pub struct FrameHeader {
    pub version: u8,
    pub payload_type: PayloadType,
    pub flags: u8,
    pub payload_len: u16,
}

impl FrameHeader {
    pub fn new(version: u8, payload_type: PayloadType, flags: u8, payload_len: u16) -> (h: Self)
        ensures
            h == (FrameHeader { version, payload_type, flags, payload_len }),
    {
        FrameHeader { version, payload_type, flags, payload_len }
    }
}

/// Framing parameters used at seal time (no key here).
#[derive(Debug, Clone, Copy, PartialEq, Eq, Structural)]
pub struct Params {
    pub version: u8,
    pub payload_type: PayloadType,
    pub flags: u8,
}

impl Default for Params {
    fn default() -> (p: Self)
        ensures
            p == (Params { version: 1, payload_type: PayloadType::Credential, flags: 0 }),
    {
        Params { version: 1, payload_type: PayloadType::Credential, flags: 0 }
    }
}

/// The header that a frame of `len` payload bytes under `params` carries.
pub open spec fn header_for(params: Params, len: nat) -> FrameHeader {
    FrameHeader {
        version: params.version,
        payload_type: params.payload_type,
        flags: params.flags,
        payload_len: (len % 65536) as u16,
    }
}

// ── Seal / open ─────────────────────────────────────────────────────────────

/// What `seal` produces: the CBOR frame followed by its HMAC-SHA256 tag.
pub open spec fn sealed(payload: Seq<u8>, params: Params, k_mac: Seq<u8>) -> Seq<u8> {
    cbor_frame(payload, params) + hmac_sha256(k_mac, cbor_frame(payload, params))
}

/// The frame part of sealed bytes (all but the last 32).
pub open spec fn frame_part(s: Seq<u8>) -> Seq<u8> {
    s.subrange(0, s.len() - 32)
}

/// The tag part of sealed bytes (the last 32).
pub open spec fn tag_part(s: Seq<u8>) -> Seq<u8> {
    s.subrange(s.len() - 32, s.len() as int)
}

/// What `open` returns for `s` under `k_mac`.
pub open spec fn opened(s: Seq<u8>, k_mac: Seq<u8>) -> Result<(FrameHeader, Seq<u8>), FrameError> {
    if s.len() < 32 {
        Err(FrameError::TooShort)
    } else if tag_part(s) != hmac_sha256(k_mac, frame_part(s)) {
        Err(FrameError::AuthFailed)
    } else {
        match frame_decoded(frame_part(s)) {
            Ok((h, p)) => if h.version != 1 {
                Err(FrameError::UnsupportedVersion(h.version))
            } else {
                Ok((h, p))
            },
            Err(e) => Err(e),
        }
    }
}

/// What `validate_frame` returns: the header of the frame with its last 32
/// bytes removed if that validates, else of the bytes as they are.
pub open spec fn frame_validated(bytes: Seq<u8>) -> Result<FrameHeader, FrameError> {
    if bytes.len() >= 32 && validated(frame_part(bytes)) is Ok {
        validated(frame_part(bytes))
    } else {
        validated(bytes)
    }
}

/// Payload → CBOR frame → HMAC tag → `frame || tag`.
pub fn seal(payload: &[u8], params: &Params, k_mac: &[u8; 32]) -> (out: Vec<u8>)
    ensures
        out@ == sealed(payload@, *params, k_mac@),
        hmac_sha256(k_mac@, cbor_frame(payload@, *params)).len() == 32,
{
    let frame = cbor::encode(payload, params);
    let tag = auth::tag(&frame, k_mac);
    let mut out = frame;
    let mut i: usize = 0;
    let ghost frame_view = out@;
    while i < 32
        invariant
            0 <= i <= 32,
            out@ == frame_view + tag@.subrange(0, i as int),
        decreases 32 - i,
    {
        out.push(tag[i]);
        i += 1;
        proof {
            assert(out@ =~= frame_view + tag@.subrange(0, i as int));
        }
    }
    proof {
        assert(tag@.subrange(0, 32) =~= tag@);
    }
    out
}

/// Inverse of `seal`: check the tag (fail-closed), decode the frame, then require
/// version 1. Returns the header and the payload.
pub fn open(sealed_bytes: &[u8], k_mac: &[u8; 32]) -> (r: Result<(FrameHeader, Vec<u8>), FrameError>)
    ensures
        match r {
            Ok((h, p)) => opened(sealed_bytes@, k_mac@) == Ok::<(FrameHeader, Seq<u8>), FrameError>(
                (h, p@),
            ),
            Err(e) => opened(sealed_bytes@, k_mac@) == Err::<(FrameHeader, Seq<u8>), FrameError>(e),
        },
{
    if sealed_bytes.len() < 32 {
        return Err(FrameError::TooShort);
    }
    let split = sealed_bytes.len() - 32;
    let (frame, tag_bytes) = sealed_bytes.split_at(split);
    let mut tag = [0u8; 32];
    let mut i: usize = 0;
    while i < 32
        invariant
            0 <= i <= 32,
            tag_bytes@.len() == 32,
            forall|j: int| 0 <= j < i ==> tag@[j] == tag_bytes@[j],
        decreases 32 - i,
    {
        tag[i] = tag_bytes[i];
        i += 1;
    }
    proof {
        assert(tag@ =~= tag_bytes@);
        assert(frame@ =~= frame_part(sealed_bytes@));
        assert(tag_bytes@ =~= tag_part(sealed_bytes@));
    }
    auth::verify(frame, &tag, k_mac)?;
    let (header, payload) = cbor::decode(frame)?;
    if header.version != 1 {
        return Err(FrameError::UnsupportedVersion(header.version));
    }
    Ok((header, payload))
}

/// Validate a header without the key (browser preflight). `bytes` may be
/// sealed (`frame || tag`) or a bare frame: the stripped form is tried first.
pub fn validate_frame(bytes: &[u8]) -> (r: Result<FrameHeader, FrameError>)
    ensures
        match r {
            Ok(h) => frame_validated(bytes@) == Ok::<FrameHeader, FrameError>(h),
            Err(e) => frame_validated(bytes@) == Err::<FrameHeader, FrameError>(e),
        },
{
    if bytes.len() >= 32 {
        let frame_part_bytes = vstd::slice::slice_subrange(bytes, 0, bytes.len() - 32);
        proof {
            assert(frame_part_bytes@ =~= frame_part(bytes@));
        }
        let first = cbor::validate(frame_part_bytes);
        if let Ok(h) = first {
            return Ok(h);
        }
    }
    cbor::validate(bytes)
}

/// Sealed length for a payload of `payload_len` bytes: CBOR overhead plus the 32-byte tag.
pub fn sealed_len(payload_len: usize, params: &Params) -> (n: usize)
    requires
        payload_len <= isize::MAX,
    ensures
        n == frame_len_spec(payload_len as nat, *params) + 32,
{
    cbor::frame_len(payload_len, params) + 32
}

// ── Laws ────────────────────────────────────────────────────────────────────

/// Opening what was sealed under the same key gives back the payload and its
/// header, for version-1 parameters and payloads of at most 65535 bytes.
pub proof fn lemma_open_seal(payload: Seq<u8>, params: Params, k_mac: Seq<u8>)
    requires
        params.version == 1,
        payload.len() <= 65535,
        hmac_sha256(k_mac, cbor_frame(payload, params)).len() == 32,
    ensures
        opened(sealed(payload, params, k_mac), k_mac) == Ok::<(FrameHeader, Seq<u8>), FrameError>(
            (header_for(params, payload.len()), payload),
        ),
{
    let f = cbor_frame(payload, params);
    let s = sealed(payload, params, k_mac);
    assert(frame_part(s) =~= f);
    assert(tag_part(s) =~= hmac_sha256(k_mac, f));
    lemma_frame_roundtrip(payload, params);
}

/// `sealed_len` is the length of what `seal` produces for a payload of that length.
pub proof fn lemma_sealed_len(payload: Seq<u8>, params: Params, k_mac: Seq<u8>)
    requires
        hmac_sha256(k_mac, cbor_frame(payload, params)).len() == 32,
    ensures
        sealed(payload, params, k_mac).len() == frame_len_spec(payload.len(), params) + 32,
{
    lemma_frame_len(payload, params);
}

/// A successful open authenticates: the bytes are a frame followed by that
/// frame's HMAC-SHA256 tag under the key, and the payload is what the frame carries.
pub proof fn lemma_open_authentic(s: Seq<u8>, k_mac: Seq<u8>, h: FrameHeader, p: Seq<u8>)
    requires
        opened(s, k_mac) == Ok::<(FrameHeader, Seq<u8>), FrameError>((h, p)),
    ensures
        s == frame_part(s) + hmac_sha256(k_mac, frame_part(s)),
        frame_decoded(frame_part(s)) == Ok::<(FrameHeader, Seq<u8>), FrameError>((h, p)),
        h.version == 1,
        p.len() == h.payload_len,
{
    assert(s =~= frame_part(s) + tag_part(s));
    cbor::lemma_decoded_len(frame_part(s));
}

/// The key-less preflight accepts what `seal` produced (version 1, payloads of
/// at most 65535 bytes) and reports its header.
pub proof fn lemma_validate_sealed(payload: Seq<u8>, params: Params, k_mac: Seq<u8>)
    requires
        params.version == 1,
        payload.len() <= 65535,
        hmac_sha256(k_mac, cbor_frame(payload, params)).len() == 32,
    ensures
        frame_validated(sealed(payload, params, k_mac)) == Ok::<FrameHeader, FrameError>(
            header_for(params, payload.len()),
        ),
{
    let f = cbor_frame(payload, params);
    let s = sealed(payload, params, k_mac);
    assert(frame_part(s) =~= f);
    lemma_frame_roundtrip(payload, params);
    lemma_frame_len(payload, params);
}

/// The key-less preflight accepts a bare frame (no tag) as well, for version 1
/// and payloads of at most 65535 bytes: stripping 32 bytes from it never leaves
/// a frame, so the whole input is read.
pub proof fn lemma_validate_bare_frame(payload: Seq<u8>, params: Params)
    requires
        params.version == 1,
        payload.len() <= 0xffff,
    ensures
        frame_validated(cbor_frame(payload, params)) == Ok::<FrameHeader, FrameError>(
            header_for(params, payload.len()),
        ),
{
    let b = cbor_frame(payload, params);
    lemma_frame_roundtrip(payload, params);
    if b.len() >= 32 {
        lemma_frame_prefix_refused(payload, params, b.len() - 32);
        assert(frame_part(b) =~= b.take(b.len() - 32));
    }
}

} // verus!
