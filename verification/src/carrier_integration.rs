//! Credential tokens through the framing + ECC stack.
//!
//! `token_id (16 bytes)` → CBOR frame sealed with K_mac → repetition-8 coding →
//! carrier. Extraction is the inverse: hard or soft bits → ECC decode → open.
use vstd::prelude::*;
use crate::bits::{bits_of, bits_of_bitbytes, pack_bits, lemma_pack_bits_of};
use crate::crypto::hmac_sha256;
use crate::ecc::{
    self, ecc_encoded, rep_decode, EccError, Profile, lemma_repetition_profile_roundtrip, count_true, group_flips,
    lemma_rep_corrects,
};
use crate::framing::{self, FrameError, Params, PayloadType, opened, sealed, lemma_open_seal, frame_part, lemma_open_authentic};
use crate::framing::cbor::{cbor_frame, frame_decoded};
use crate::octets::first_16;

verus! {

/// Why a token could not be recovered.
#[derive(Debug, Clone, Copy, PartialEq, Eq, Structural)]
pub enum TokenError {
    /// The channel code could not be decoded.
    Ecc(EccError),
    /// The frame was refused (tag, structure, version).
    Frame(FrameError),
    /// The authenticated payload is not 16 bytes long.
    TokenLength,
}

/// Framing parameters for credential tokens.
pub open spec fn credential_params() -> Params {
    Params { version: 1, payload_type: PayloadType::Credential, flags: 0 }
}

/// The carrier-ready bytes (one 0/1 byte per coded bit) for `token_id`.
pub open spec fn credential_coded(token_id: Seq<u8>, k_mac: Seq<u8>) -> Seq<u8> {
    ecc_encoded(sealed(token_id, credential_params(), k_mac), Profile::Repetition8)
}

/// What `token_from_sealed` returns for sealed bytes.
pub open spec fn token_opened(sealed_bytes: Seq<u8>, k_mac: Seq<u8>) -> Result<Seq<u8>, TokenError> {
    match opened(sealed_bytes, k_mac) {
        Err(e) => Err(TokenError::Frame(e)),
        Ok((_, p)) => if p.len() != 16 {
            Err(TokenError::TokenLength)
        } else {
            Ok(p)
        },
    }
}

/// What `decode_credential_token` returns for carrier bytes.
pub open spec fn token_decoded(coded: Seq<u8>, k_mac: Seq<u8>) -> Result<Seq<u8>, TokenError> {
    let bits = bits_of_bitbytes(coded);
    if bits.len() % 8 != 0 {
        Err(TokenError::Ecc(EccError::RepetitionLength))
    } else {
        token_opened(pack_bits(rep_decode(bits)), k_mac)
    }
}

/// Encode a credential token into carrier-ready bytes:
/// `token_id → seal (CBOR + HMAC) → repetition-8`.
pub fn encode_credential_token(token_id: &[u8; 16], k_mac: &[u8; 32]) -> (coded: Vec<u8>)
    ensures
        coded@ == credential_coded(token_id@, k_mac@),
        coded@ == ecc_encoded(
            sealed(token_id@, Params { version: 1, payload_type: PayloadType::Credential, flags: 0 }, k_mac@),
            Profile::Repetition8,
        ),
        hmac_sha256(k_mac@, cbor_frame(token_id@, credential_params())).len() == 32,
{
    let params = Params { version: 1, payload_type: PayloadType::Credential, flags: 0 };
    let s = framing::seal(token_id.as_slice(), &params, k_mac);
    ecc::encode(s.as_slice(), Profile::Repetition8)
}

/// Open sealed bytes and require a 16-byte payload.
pub fn token_from_sealed(sealed_bytes: &[u8], k_mac: &[u8; 32]) -> (r: Result<[u8; 16], TokenError>)
    ensures
        match r {
            Ok(t) => token_opened(sealed_bytes@, k_mac@) == Ok::<Seq<u8>, TokenError>(t@),
            Err(e) => token_opened(sealed_bytes@, k_mac@) == Err::<Seq<u8>, TokenError>(e),
        },
{
    let (_hdr, payload) = match framing::open(sealed_bytes, k_mac) {
        Ok(x) => x,
        Err(e) => return Err(TokenError::Frame(e)),
    };
    if payload.len() != 16 {
        return Err(TokenError::TokenLength);
    }
    let out = first_16(payload.as_slice());
    proof {
        assert(out@ =~= payload@);
    }
    Ok(out)
}

/// Decode carrier bytes (nonzero = 1) back to the token, verifying the HMAC.
pub fn decode_credential_token(coded: &[u8], k_mac: &[u8; 32]) -> (r: Result<[u8; 16], TokenError>)
    ensures
        match r {
            Ok(t) => token_decoded(coded@, k_mac@) == Ok::<Seq<u8>, TokenError>(t@),
            Err(e) => token_decoded(coded@, k_mac@) == Err::<Seq<u8>, TokenError>(e),
        },
{
    let bits = ecc::bitbytes_to_bits(coded);
    let s = match ecc::decode_hard(bits.as_slice(), Profile::Repetition8) {
        Ok(s) => s,
        Err(e) => return Err(TokenError::Ecc(e)),
    };
    token_from_sealed(s.as_slice(), k_mac)
}

/// Credential tokens are framed as credential payloads: version 1, type
/// `Credential` (wire code 1), no flags. The sealed frame of a token opens with
/// exactly that header and the 16 token bytes.
pub proof fn lemma_token_frame_is_credential(token_id: Seq<u8>, k_mac: Seq<u8>)
    requires
        token_id.len() == 16,
        hmac_sha256(k_mac, cbor_frame(token_id, credential_params())).len() == 32,
    ensures
        credential_params().payload_type == PayloadType::Credential,
        framing::type_code(credential_params().payload_type) == 1,
        credential_params().version == 1 && credential_params().flags == 0,
        opened(sealed(token_id, credential_params(), k_mac), k_mac) matches Ok((h, p)) && h.payload_type
            == PayloadType::Credential && h.version == 1 && h.flags == 0 && h.payload_len == 16 && p
            == token_id,
{
    lemma_open_seal(token_id, credential_params(), k_mac);
}

/// A token encoded under a key decodes back to itself under the same key.
pub proof fn lemma_token_roundtrip(token_id: Seq<u8>, k_mac: Seq<u8>)
    requires
        token_id.len() == 16,
        hmac_sha256(k_mac, cbor_frame(token_id, credential_params())).len() == 32,
    ensures
        token_decoded(credential_coded(token_id, k_mac), k_mac) == Ok::<Seq<u8>, TokenError>(token_id),
{
    let s = sealed(token_id, credential_params(), k_mac);
    lemma_repetition_profile_roundtrip(s);
    lemma_open_seal(token_id, credential_params(), k_mac);
}

/// A credential token survives channel errors: if in every group of eight
/// carrier bytes at most three read (as nonzero = 1) differently from the bit
/// the group carries, the carrier still decodes to the token.
pub proof fn lemma_token_corrects(token_id: Seq<u8>, k_mac: Seq<u8>, received: Seq<u8>)
    requires
        token_id.len() == 16,
        hmac_sha256(k_mac, cbor_frame(token_id, credential_params())).len() == 32,
        received.len() == credential_coded(token_id, k_mac).len(),
        forall|j: int|
            0 <= j < bits_of(sealed(token_id, credential_params(), k_mac)).len() ==> count_true(
                #[trigger] group_flips(
                    bits_of_bitbytes(received),
                    j,
                    bits_of(sealed(token_id, credential_params(), k_mac))[j],
                ),
            ) <= 3,
    ensures
        token_decoded(received, k_mac) == Ok::<Seq<u8>, TokenError>(token_id),
{
    let s = sealed(token_id, credential_params(), k_mac);
    let bits = bits_of(s);
    let rb = bits_of_bitbytes(received);
    assert(rb.len() == 8 * bits.len());
    lemma_rep_corrects(bits, rb);
    assert(rb.len() % 8 == 0);
    lemma_pack_bits_of(s);
    lemma_open_seal(token_id, credential_params(), k_mac);
}

/// A decoded token is authentic: whatever carrier bytes were received, a
/// decoded token is the payload of a frame whose HMAC-SHA256 tag under the key
/// follows it in the repetition-decoded bytes.
pub proof fn lemma_token_authentic(received: Seq<u8>, k_mac: Seq<u8>, t: Seq<u8>)
    requires
        token_decoded(received, k_mac) == Ok::<Seq<u8>, TokenError>(t),
    ensures
        ({
            let s = pack_bits(rep_decode(bits_of_bitbytes(received)));
            &&& s == frame_part(s) + hmac_sha256(k_mac, frame_part(s))
            &&& frame_decoded(frame_part(s)) matches Ok((h, p)) && p == t && h.version == 1
            &&& t.len() == 16
        }),
{
    let s = pack_bits(rep_decode(bits_of_bitbytes(received)));
    let (h, p) = opened(s, k_mac)->Ok_0;
    lemma_open_authentic(s, k_mac, h, p);
}

} // verus!
