//! Pointer mode: image → capability → encrypted object.
//!
//! Profiles:
//! - pointer-online (default): a 16-byte capability id in the carrier, resolved
//!   by the server with authorisation;
//! - pointer-offline: object id (16 bytes) + content key (32 bytes) in the
//!   carrier for direct decryption, on images of at least 1024×1024.
//!
//! AEAD: ChaCha20-Poly1305 with a 12-byte nonce, 16-byte tag, 32-byte key.
//! The carrier stack is the credential one: seal (CBOR + HMAC) → ECC → bits.
use vstd::prelude::*;
use vstd::utf8::encode_utf8;
use crate::bits::{bits_of, bits_of_bitbytes, pack_bits};
use crate::cli::EmbedMode;
use crate::crypto::{
    base64_standard_decode, base64_standard_decode_str, base64_url_decode, base64_url_decode_str,
    base64_url_encode, base64_url_encode_bytes, lemma_base64_url_alphabet, chacha20poly1305_decrypt, chacha20poly1305_encrypt,
    chacha20poly1305_seal, hex_decode_str, hex_decoded, hmac_sha256, is_base64_url_char,
    random_bytes, trim, trimmed,
};
use crate::ecc::{
    self, bch_stream_decodes_to, coded_bits_len, coded_bits_len_spec, ecc_encoded, rep_decode,
    EccError, Profile, lemma_bch_profile_roundtrip,
    lemma_repetition_profile_roundtrip,
};
use crate::framing::{
    self, FrameError, Params, PayloadType, header_for, lemma_open_seal, opened, sealed,
};
use crate::framing::cbor::{cbor_frame, frame_len_spec, lemma_frame_len};
use crate::keying::{KeyMaterial, derived_key, embed_domain, mac_domain};
use crate::models::{IdError, lemma_trim_unchanged};
use crate::octets::{concat, first_16, first_32};

verus! {

/// Minimum width and height for the offline pointer profile.
pub const OFFLINE_MIN_DIMENSION: u32 = 1024;

/// Why a pointer operation failed.
#[derive(Debug, Clone, Copy, PartialEq, Eq, Structural)]
pub enum PointerError {
    /// Encryption refused the plaintext (too long for the cipher).
    Encrypt,
    /// The AEAD tag did not verify.
    TagMismatch,
    /// An offline payload is not 48 bytes.
    OfflinePayloadLength,
    /// The image is smaller than the offline profile needs.
    ImageTooSmall,
    /// Pointer embedding supports the DCT and DWT carriers only.
    UnsupportedMode,
    /// The carrier bits could not be channel-decoded.
    Ecc(EccError),
    /// The frame was refused.
    Frame(FrameError),
    /// The frame carries another payload type than expected.
    WrongPayloadType,
    /// The frame's payload has another length than expected.
    WrongPayloadLength,
    /// A capability id text was refused.
    Capability(IdError),
}

// ── Randomness ──────────────────────────────────────────────────────────────

/// A fresh 32-byte content key (CSPRNG).
pub fn generate_content_key() -> (k: [u8; 32]) {
    let v = random_bytes(32);
    first_32(v.as_slice())
}

/// A fresh 12-byte nonce (CSPRNG).
pub fn generate_nonce() -> (n: [u8; 12]) {
    let v = random_bytes(12);
    let mut n = [0u8; 12];
    let mut i: usize = 0;
    while i < 12
        invariant
            0 <= i <= 12,
            v@.len() == 12,
        decreases 12 - i,
    {
        n[i] = v[i];
        i += 1;
    }
    n
}

/// A fresh 16-byte capability id (CSPRNG).
pub fn generate_capability_id() -> (c: [u8; 16]) {
    let v = random_bytes(16);
    first_16(v.as_slice())
}

// ── AEAD helpers (ChaCha20-Poly1305) ────────────────────────────────────────

/// Largest plaintext, in 64-byte blocks (exclusive), the cipher accepts.
pub open spec fn aead_accepts(len: nat) -> bool {
    len / 64 < 0xffff_ffff
}

/// Encrypt `plaintext`; returns (cipher text, 16-byte tag).
pub fn aead_encrypt(plaintext: &[u8], key: &[u8; 32], nonce_bytes: &[u8; 12]) -> (r: Result<
    (Vec<u8>, Vec<u8>),
    PointerError,
>)
    ensures
        r is Ok <==> aead_accepts(plaintext@.len()),
        r matches Ok((ct, tag)) ==> ct@ + tag@ == chacha20poly1305_seal(key@, nonce_bytes@, plaintext@)
            && tag@.len() == 16 && ct@.len() == plaintext@.len(),
        r matches Err(e) ==> e == PointerError::Encrypt,
{
    let combined = match chacha20poly1305_encrypt(key, nonce_bytes, plaintext) {
        Some(c) => c,
        None => return Err(PointerError::Encrypt),
    };
    let split = combined.len() - 16;
    let ct = vstd::slice::slice_to_vec(vstd::slice::slice_subrange(combined.as_slice(), 0, split));
    let tag = vstd::slice::slice_to_vec(
        vstd::slice::slice_subrange(combined.as_slice(), split, combined.len()),
    );
    proof {
        assert(ct@ + tag@ =~= combined@);
    }
    Ok((ct, tag))
}

/// Decrypt `ciphertext || tag`. Exactly the outputs of `aead_encrypt` under the
/// same key and nonce decrypt, each to its own plaintext.
pub fn aead_decrypt(ciphertext: &[u8], tag: &[u8], key: &[u8; 32], nonce_bytes: &[u8; 12]) -> (r:
    Result<Vec<u8>, PointerError>)
    ensures
        r matches Ok(p) ==> ciphertext@ + tag@ == chacha20poly1305_seal(key@, nonce_bytes@, p@),
        forall|q: Seq<u8>|
            aead_accepts(q.len()) && ciphertext@ + tag@ == #[trigger] chacha20poly1305_seal(
                key@,
                nonce_bytes@,
                q,
            ) ==> (r matches Ok(p) && p@ == q),
        r matches Err(e) ==> e == PointerError::TagMismatch,
{
    let combined = concat(ciphertext, tag);
    match chacha20poly1305_decrypt(key, nonce_bytes, combined.as_slice()) {
        Some(p) => Ok(p),
        None => Err(PointerError::TagMismatch),
    }
}

// ── Payloads ────────────────────────────────────────────────────────────────

/// Online payload: the 16-byte capability id.
pub fn payload_online(capability_id: &[u8; 16]) -> (out: Vec<u8>)
    ensures
        out@ == capability_id@,
{
    vstd::slice::slice_to_vec(capability_id.as_slice())
}

/// Offline payload: object id (16 bytes, RFC 4122 byte order) || content key (32 bytes).
pub fn payload_offline(object_id: &[u8; 16], content_key: &[u8; 32]) -> (out: Vec<u8>)
    ensures
        out@ == object_id@ + content_key@,
        out@.len() == 48,
{
    concat(object_id.as_slice(), content_key.as_slice())
}

/// Parse an offline payload back to (object id, content key).
pub fn parse_payload_offline(payload: &[u8]) -> (r: Result<([u8; 16], [u8; 32]), PointerError>)
    ensures
        r is Ok <==> payload@.len() == 48,
        r matches Ok((id, key)) ==> id@ == payload@.subrange(0, 16) && key@ == payload@.subrange(
            16,
            48,
        ),
        r matches Err(e) ==> e == PointerError::OfflinePayloadLength,
{
    if payload.len() != 48 {
        return Err(PointerError::OfflinePayloadLength);
    }
    let id = first_16(payload);
    let key = first_32(vstd::slice::slice_subrange(payload, 16, 48));
    proof {
        assert(key@ =~= payload@.subrange(16, 48));
    }
    Ok((id, key))
}

/// An offline payload parses back to its object id and content key.
pub proof fn lemma_offline_payload_roundtrip(object_id: Seq<u8>, content_key: Seq<u8>)
    requires
        object_id.len() == 16,
        content_key.len() == 32,
    ensures
        (object_id + content_key).len() == 48,
        (object_id + content_key).subrange(0, 16) == object_id,
        (object_id + content_key).subrange(16, 48) == content_key,
{
    assert((object_id + content_key).subrange(0, 16) =~= object_id);
    assert((object_id + content_key).subrange(16, 48) =~= content_key);
}

// ── Carrier helpers ─────────────────────────────────────────────────────────

/// The ECC profile for an image size and mode.
pub open spec fn selected_profile(w: u32, h: u32, mode: EmbedMode) -> Profile {
    match mode {
        EmbedMode::Dct => if w < 1024 || h < 1024 {
            Profile::Bch { t: 3 }
        } else {
            Profile::Repetition8
        },
        EmbedMode::Dwt => Profile::Repetition8,
        _ => Profile::Bch { t: 3 },
    }
}

/// Profile choice for DCT embedding: an image whose width or height is below
/// 1024 px gets BCH t=3, and only one at least 1024 px in both dimensions gets
/// repetition-8; DWT always gets repetition-8, the other modes BCH t=3.
pub proof fn lemma_selected_profile(w: u32, h: u32, mode: EmbedMode)
    ensures
        mode == EmbedMode::Dct && (w < 1024 || h < 1024) ==> selected_profile(w, h, mode) == (Profile::Bch { t: 3 }),
        mode == EmbedMode::Dct && w >= 1024 && h >= 1024 ==> selected_profile(w, h, mode) == Profile::Repetition8,
        mode == EmbedMode::Dwt ==> selected_profile(w, h, mode) == Profile::Repetition8,
        mode == EmbedMode::Alpha || mode == EmbedMode::Learned ==> selected_profile(w, h, mode) == (Profile::Bch { t: 3 }),
{
}

/// Choose the ECC profile: DCT below 1024 px uses BCH t=3, DCT from 1024 px and
/// DWT use repetition-8, other modes BCH t=3.
pub fn select_profile(w: u32, h: u32, mode: &EmbedMode) -> (p: Profile)
    ensures
        p == selected_profile(w, h, *mode),
        *mode == EmbedMode::Dct ==> (p == (Profile::Bch { t: 3 }) <==> (w < 1024 || h < 1024)),
        *mode == EmbedMode::Dct ==> (p == Profile::Repetition8 <==> (w >= 1024 && h >= 1024)),
        *mode == EmbedMode::Dwt ==> p == Profile::Repetition8,
        *mode == EmbedMode::Alpha || *mode == EmbedMode::Learned ==> p == (Profile::Bch { t: 3 }),
{
    match mode {
        EmbedMode::Dct => {
            if w < 1024 || h < 1024 {
                Profile::Bch { t: 3 }
            } else {
                Profile::Repetition8
            }
        },
        EmbedMode::Dwt => Profile::Repetition8,
        _ => Profile::Bch { t: 3 },
    }
}

/// Framing parameters for pointer-online (capability id).
pub open spec fn online_params() -> Params {
    Params { version: 1, payload_type: PayloadType::Pointer, flags: 0 }
}

/// Framing parameters for pointer-offline (object id + content key).
pub open spec fn offline_params() -> Params {
    Params { version: 1, payload_type: PayloadType::Locator, flags: 0 }
}

pub fn params_online() -> (p: Params)
    ensures
        p == online_params(),
        p == (Params { version: 1, payload_type: PayloadType::Pointer, flags: 0 }),
{
    Params { version: 1, payload_type: PayloadType::Pointer, flags: 0 }
}

pub fn params_offline() -> (p: Params)
    ensures
        p == offline_params(),
        p == (Params { version: 1, payload_type: PayloadType::Locator, flags: 0 }),
{
    Params { version: 1, payload_type: PayloadType::Locator, flags: 0 }
}

/// Carrier bits for coded bytes: one bit per byte for the bit-level codes, the
/// MSB-first bits of every byte for Reed-Solomon.
pub open spec fn carrier_bits(coded: Seq<u8>, profile: Profile) -> Seq<bool> {
    match profile {
        Profile::RsInterleaved { .. } => bits_of(coded),
        _ => bits_of_bitbytes(coded),
    }
}

/// The bits that embedding writes for `payload`.
pub open spec fn pointer_bits(payload: Seq<u8>, params: Params, k_mac: Seq<u8>, profile: Profile) -> Seq<bool> {
    carrier_bits(ecc_encoded(sealed(payload, params, k_mac), profile), profile)
}

/// Seal `payload`, channel-code it and give the bits the carrier writes.
pub fn pointer_coded_bits(payload: &[u8], params: &Params, k_mac: &[u8; 32], profile: Profile) -> (bits: Vec<bool>)
    ensures
        bits@ == pointer_bits(payload@, *params, k_mac@, profile),
        hmac_sha256(k_mac@, cbor_frame(payload@, *params)).len() == 32,
{
    let s = framing::seal(payload, params, k_mac);
    let coded = ecc::encode(s.as_slice(), profile);
    match profile {
        Profile::RsInterleaved { .. } => crate::bits::bytes_to_bits(coded.as_slice()),
        _ => ecc::bitbytes_to_bits(coded.as_slice()),
    }
}

/// The offline profile needs at least 1024×1024 pixels.
pub fn check_offline_size(w: u32, h: u32) -> (r: Result<(), PointerError>)
    ensures
        r is Ok <==> w >= OFFLINE_MIN_DIMENSION && h >= OFFLINE_MIN_DIMENSION,
        r is Ok <==> w >= 1024 && h >= 1024,
        r matches Err(e) ==> e == PointerError::ImageTooSmall,
{
    if w >= OFFLINE_MIN_DIMENSION && h >= OFFLINE_MIN_DIMENSION {
        Ok(())
    } else {
        Err(PointerError::ImageTooSmall)
    }
}

/// Pointer embedding runs on the DCT and DWT carriers only.
pub fn check_pointer_mode(mode: EmbedMode) -> (r: Result<(), PointerError>)
    ensures
        r is Ok <==> (mode == EmbedMode::Dct || mode == EmbedMode::Dwt),
        r matches Err(e) ==> e == PointerError::UnsupportedMode,
{
    match mode {
        EmbedMode::Dct | EmbedMode::Dwt => Ok(()),
        _ => Err(PointerError::UnsupportedMode),
    }
}

/// Framing parameters for an expected payload type.
pub open spec fn expected_params(t: PayloadType) -> Params {
    Params { version: 1, payload_type: t, flags: 0 }
}

/// Sealed length of a payload of `expected_len` bytes of type `t`.
pub open spec fn expected_sealed_len(expected_len: nat, t: PayloadType) -> nat {
    frame_len_spec(expected_len, expected_params(t)) + 32
}

/// Number of carrier bits to extract for a payload of `expected_len` bytes.
pub fn needed_bits(expected_len: usize, expected_type: PayloadType, profile: Profile) -> (n: usize)
    requires
        expected_len <= 0xffff,
    ensures
        n == coded_bits_len_spec(expected_sealed_len(expected_len as nat, expected_type) as int, profile),
{
    let params = Params { version: 1, payload_type: expected_type, flags: 0 };
    let s = framing::sealed_len(expected_len, &params);
    coded_bits_len(s, profile)
}

/// What `payload_from_decoded` returns.
pub open spec fn payload_checked(
    decoded: Seq<u8>,
    sealed_len: nat,
    k_mac: Seq<u8>,
    expected_len: nat,
    expected_type: PayloadType,
) -> Result<Seq<u8>, PointerError> {
    let s = if decoded.len() > sealed_len {
        decoded.subrange(0, sealed_len as int)
    } else {
        decoded
    };
    match opened(s, k_mac) {
        Err(e) => Err(PointerError::Frame(e)),
        Ok((h, p)) => if h.payload_type != expected_type {
            Err(PointerError::WrongPayloadType)
        } else if p.len() != expected_len {
            Err(PointerError::WrongPayloadLength)
        } else {
            Ok(p)
        },
    }
}

/// After channel decoding: cut the bytes to the sealed length (codes pad), open
/// the frame and check its payload type and length.
pub fn payload_from_decoded(
    decoded: Vec<u8>,
    sealed_len: usize,
    k_mac: &[u8; 32],
    expected_len: usize,
    expected_type: PayloadType,
) -> (r: Result<Vec<u8>, PointerError>)
    ensures
        match r {
            Ok(p) => payload_checked(decoded@, sealed_len as nat, k_mac@, expected_len as nat, expected_type)
                == Ok::<Seq<u8>, PointerError>(p@),
            Err(e) => payload_checked(decoded@, sealed_len as nat, k_mac@, expected_len as nat, expected_type)
                == Err::<Seq<u8>, PointerError>(e),
        },
        ({
            let cut = if decoded@.len() > sealed_len { decoded@.subrange(0, sealed_len as int) } else { decoded@ };
            &&& r is Ok <==> (opened(cut, k_mac@) matches Ok((h, q)) && h.payload_type == expected_type
                && q.len() == expected_len)
            &&& r matches Ok(p) ==> opened(cut, k_mac@) matches Ok((h, q)) && q == p@
        }),
{
    let mut d = decoded;
    if d.len() > sealed_len {
        d.truncate(sealed_len);
    }
    let (hdr, payload) = match framing::open(d.as_slice(), k_mac) {
        Ok(x) => x,
        Err(e) => return Err(PointerError::Frame(e)),
    };
    if hdr.payload_type != expected_type {
        return Err(PointerError::WrongPayloadType);
    }
    if payload.len() != expected_len {
        return Err(PointerError::WrongPayloadLength);
    }
    Ok(payload)
}

/// An extracted online payload as the capability id.
pub fn capability_from_payload(payload: &[u8]) -> (c: [u8; 16])
    requires
        payload@.len() == 16,
    ensures
        c@ == payload@,
{
    let c = first_16(payload);
    proof {
        assert(c@ =~= payload@);
    }
    c
}

/// Without channel errors, the bits written for a payload decode back to it:
/// for repetition-8 and BCH, hard decoding the carrier bits, cutting to the
/// sealed length and opening gives the payload (version-1 parameters, payloads of
/// at most 65535 bytes).
pub proof fn lemma_pointer_roundtrip(payload: Seq<u8>, t: PayloadType, k_mac: Seq<u8>, profile: Profile)
    requires
        payload.len() <= 0xffff,
        hmac_sha256(k_mac, cbor_frame(payload, expected_params(t))).len() == 32,
        !(profile is RsInterleaved),
    ensures
        profile == Profile::Repetition8 ==> payload_checked(
            pack_bits(rep_decode(pointer_bits(payload, expected_params(t), k_mac, profile))),
            expected_sealed_len(payload.len(), t),
            k_mac,
            payload.len(),
            t,
        ) == Ok::<Seq<u8>, PointerError>(payload),
        profile matches Profile::Bch { t: tt } ==> forall|dec: Seq<bool>|
            #[trigger] bch_stream_decodes_to(
                pointer_bits(payload, expected_params(t), k_mac, profile),
                tt,
                dec,
            ) ==> payload_checked(
                pack_bits(dec),
                expected_sealed_len(payload.len(), t),
                k_mac,
                payload.len(),
                t,
            ) == Ok::<Seq<u8>, PointerError>(payload),
{
    let params = expected_params(t);
    let s = sealed(payload, params, k_mac);
    lemma_frame_len(payload, params);
    assert(s.len() == expected_sealed_len(payload.len(), t));
    lemma_open_seal(payload, params, k_mac);
    match profile {
        Profile::Repetition8 => {
            lemma_repetition_profile_roundtrip(s);
        },
        Profile::Bch { t: tt } => {
            assert forall|dec: Seq<bool>|
                #[trigger] bch_stream_decodes_to(pointer_bits(payload, params, k_mac, profile), tt, dec)
                implies payload_checked(
                pack_bits(dec),
                expected_sealed_len(payload.len(), t),
                k_mac,
                payload.len(),
                t,
            ) == Ok::<Seq<u8>, PointerError>(payload) by {
                lemma_bch_profile_roundtrip(s, tt, dec);
                let d = pack_bits(dec);
                if d.len() == s.len() {
                    assert(d =~= d.subrange(0, s.len() as int));
                }
                let cut = if d.len() > s.len() {
                    d.subrange(0, s.len() as int)
                } else {
                    d
                };
                assert(cut == s);
                assert(opened(s, k_mac) == Ok::<(framing::FrameHeader, Seq<u8>), FrameError>(
                    (header_for(params, payload.len()), payload),
                ));
            }
        },
        Profile::RsInterleaved { .. } => {},
    }
}

// ── Keys ────────────────────────────────────────────────────────────────────

/// Fixed key material for tests and the CLI without `--key`.
pub fn test_keys() -> (km: KeyMaterial)
    ensures
        km.embed_key() == Seq::new(32, |i: int| 0x11u8),
        km.mac_key() == Seq::new(32, |i: int| 0x22u8),
        km.object_key() is None,
{
    let km = KeyMaterial::from_keys([0x11u8; 32], [0x22u8; 32]);
    proof {
        assert(km.embed_key() =~= Seq::new(32, |i: int| 0x11u8));
        assert(km.mac_key() =~= Seq::new(32, |i: int| 0x22u8));
    }
    km
}

/// Key material from an optional `--key`: derived with an all-zero cover id, or
/// the fixed test keys when absent.
pub fn keys_from_opt(key: Option<&str>) -> (km: KeyMaterial)
    ensures
        match key {
            Some(k) => km.embed_key() == derived_key(encode_utf8(k@), embed_domain(), Seq::new(16, |i: int| 0u8))
                && km.mac_key() == derived_key(encode_utf8(k@), mac_domain(), Seq::new(16, |i: int| 0u8)),
            None => km.embed_key() == Seq::new(32, |i: int| 0x11u8) && km.mac_key() == Seq::new(
                32,
                |i: int| 0x22u8,
            ),
        },
        km.object_key() is None,
{
    match key {
        Some(k) => {
            let zero = [0u8; 16];
            let km = KeyMaterial::from_ikm(k, &zero);
            proof {
                assert(zero@ =~= Seq::new(16, |i: int| 0u8));
            }
            km
        },
        None => test_keys(),
    }
}

// ── Capability text ─────────────────────────────────────────────────────────

/// What `capability_from_base64url` decodes the trimmed text to: base64url,
/// else standard base64, else hex, the first that succeeds.
pub open spec fn capability_bytes(t: Seq<char>) -> Option<Seq<u8>> {
    if base64_url_decode(t) is Some {
        base64_url_decode(t)
    } else if base64_standard_decode(t) is Some {
        base64_standard_decode(t)
    } else {
        hex_decoded(encode_utf8(t))
    }
}

/// What `capability_from_base64url` returns.
pub open spec fn capability_parsed(s: Seq<char>) -> Result<Seq<u8>, PointerError> {
    match capability_bytes(trimmed(s)) {
        None => Err(PointerError::Capability(IdError::InvalidEncoding)),
        Some(b) => if b.len() != 16 {
            Err(PointerError::Capability(IdError::WrongLength))
        } else {
            Ok(b)
        },
    }
}

/// A capability id as base64url text; parsing the text gives the id back.
pub fn capability_to_base64url(cap: &[u8; 16]) -> (s: String)
    ensures
        s@ == base64_url_encode(cap@),
        capability_parsed(s@) == Ok::<Seq<u8>, PointerError>(cap@),
{
    let s = base64_url_encode_bytes(cap.as_slice());
    proof {
        lemma_base64_url_alphabet(cap@);
        if s@.len() > 0 {
            assert(is_base64_url_char(s@[0]));
            assert(is_base64_url_char(s@[s@.len() - 1]));
        }
        lemma_trim_unchanged(s@);
    }
    s
}

/// Parse a capability id from base64url, standard base64 or hex text; it must
/// decode to exactly 16 bytes.
pub fn capability_from_base64url(s: &str) -> (r: Result<[u8; 16], PointerError>)
    ensures
        match r {
            Ok(c) => capability_parsed(s@) == Ok::<Seq<u8>, PointerError>(c@),
            Err(e) => capability_parsed(s@) == Err::<Seq<u8>, PointerError>(e),
        },
{
    let t = trim(s);
    let bytes = match base64_url_decode_str(t) {
        Some(b) => b,
        None => match base64_standard_decode_str(t) {
            Some(b) => b,
            None => match hex_decode_str(t) {
                Some(b) => b,
                None => return Err(PointerError::Capability(IdError::InvalidEncoding)),
            },
        },
    };
    if bytes.len() != 16 {
        return Err(PointerError::Capability(IdError::WrongLength));
    }
    let c = first_16(bytes.as_slice());
    proof {
        assert(c@ =~= bytes@);
    }
    Ok(c)
}

} // verus!
