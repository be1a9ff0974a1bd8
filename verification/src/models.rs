//! Token and capability identifiers: text encodings of 16-byte ids, and the
//! request bodies that carry them.
use vstd::prelude::*;
use vstd::utf8::encode_utf8;
use crate::crypto::{
    base64_standard_decode, base64_standard_decode_str, base64_url_decode, base64_url_decode_str,
    base64_url_encode, base64_url_encode_bytes, lemma_base64_url_alphabet, hex_decode_str, hex_decoded, is_base64_url_char,
    is_white_space, sha256_digest, trim, trimmed,
};
use crate::octets::{first_16, opt_bytes};

verus! {

/// Why an id string was refused.
#[derive(Debug, Clone, Copy, PartialEq, Eq, Structural)]
pub enum IdError {
    /// No accepted encoding decodes it (to 16 bytes, where that is required).
    InvalidEncoding,
    /// It decodes, but not to 16 bytes.
    WrongLength,
}

/// Body of a verify request: the token id as text (base64url or hex).
pub struct VerifyRequest {
    pub token_id: String,
}

/// JSON body of the HTTP verify handler.
pub struct VerifyBody {
    pub token_id: String,
}

/// A decoding that succeeded with exactly 16 bytes.
pub open spec fn decodes_to_16(d: Option<Seq<u8>>) -> bool {
    d matches Some(v) && v.len() == 16
}

/// What `parse_token_id` accepts and returns: the trimmed text as base64url
/// (no padding), else as hex, else as standard base64, whichever first yields
/// exactly 16 bytes.
pub open spec fn token_id_parsed(s: Seq<char>) -> Option<Seq<u8>> {
    let t = trimmed(s);
    if decodes_to_16(base64_url_decode(t)) {
        base64_url_decode(t)
    } else if decodes_to_16(hex_decoded(encode_utf8(t))) {
        hex_decoded(encode_utf8(t))
    } else if decodes_to_16(base64_standard_decode(t)) {
        base64_standard_decode(t)
    } else {
        None
    }
}

/// A 16-byte id from a decoding result, if it has exactly 16 bytes.
pub fn token_from_decoded(bytes: Option<Vec<u8>>) -> (r: Option<[u8; 16]>)
    ensures
        match r {
            Some(a) => decodes_to_16(opt_bytes(bytes)) && opt_bytes(bytes) == Some(a@),
            None => !decodes_to_16(opt_bytes(bytes)),
        },
{
    match bytes {
        Some(v) => {
            if v.len() == 16 {
                let a = first_16(v.as_slice());
                proof {
                    assert(a@ =~= v@);
                }
                Some(a)
            } else {
                None
            }
        },
        None => None,
    }
}

/// Parse a 16-byte token id from base64url, hex or standard base64 text
/// (surrounding white space ignored).
pub fn parse_token_id(s: &str) -> (r: Result<[u8; 16], IdError>)
    ensures
        match r {
            Ok(a) => token_id_parsed(s@) == Some(a@),
            Err(e) => token_id_parsed(s@) is None && e == IdError::InvalidEncoding,
        },
{
    let t = trim(s);
    if let Some(a) = token_from_decoded(base64_url_decode_str(t)) {
        return Ok(a);
    }
    if let Some(a) = token_from_decoded(hex_decode_str(t)) {
        return Ok(a);
    }
    if let Some(a) = token_from_decoded(base64_standard_decode_str(t)) {
        return Ok(a);
    }
    Err(IdError::InvalidEncoding)
}

/// Text without white space at either end is its own trim.
pub proof fn lemma_trim_unchanged(s: Seq<char>)
    requires
        s.len() > 0 ==> !is_white_space(s[0]) && !is_white_space(s.last()),
    ensures
        trimmed(s) == s,
{
}

/// A token id as base64url text (no padding). Parsing the text gives the token back.
pub fn token_id_to_base64url(token: &[u8; 16]) -> (s: String)
    ensures
        s@ == base64_url_encode(token@),
        token_id_parsed(s@) == Some(token@),
{
    let s = base64_url_encode_bytes(token.as_slice());
    proof {
        lemma_base64_url_alphabet(token@);
        if s@.len() > 0 {
            assert(is_base64_url_char(s@[0]));
            assert(is_base64_url_char(s@[s@.len() - 1]));
        }
        lemma_trim_unchanged(s@);
    }
    s
}

/// SHA-256 digest of `data`.
pub fn sha256(data: &[u8]) -> (d: Vec<u8>)
    ensures
        d@ == sha256_digest(data@),
        d@.len() == 32,
{
    let digest = crate::crypto::sha256(data);
    vstd::slice::slice_to_vec(digest.as_slice())
}

/// Parse a capability id (same encodings as token ids).
pub fn parse_capability_id(s: &str) -> (r: Result<[u8; 16], IdError>)
    ensures
        match r {
            Ok(a) => token_id_parsed(s@) == Some(a@),
            Err(e) => token_id_parsed(s@) is None && e == IdError::InvalidEncoding,
        },
{
    parse_token_id(s)
}

/// A capability id as base64url text.
pub fn capability_id_to_base64url(cap: &[u8; 16]) -> (s: String)
    ensures
        s@ == base64_url_encode(cap@),
        token_id_parsed(s@) == Some(cap@),
{
    token_id_to_base64url(cap)
}

} // verus!
