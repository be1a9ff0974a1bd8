use capglyph::models::{
    capability_id_to_base64url, parse_capability_id, parse_token_id, sha256,
    token_id_to_base64url, IdError,
};
use sha2::Digest;

#[test]
fn token_id_base64url_roundtrip() {
    let token: [u8; 16] = core::array::from_fn(|i| (i * 17) as u8);
    let s = token_id_to_base64url(&token);
    assert_eq!(s.len(), 22);
    assert_eq!(parse_token_id(&s), Ok(token));
    assert_eq!(parse_token_id(&format!(" {} ", s)), Ok(token));
}

#[test]
fn token_id_known_encoding() {
    assert_eq!(token_id_to_base64url(&[0u8; 16]), "AAAAAAAAAAAAAAAAAAAAAA");
    assert_eq!(capability_id_to_base64url(&[0xFFu8; 16]), "_____________________w");
}

#[test]
fn token_id_hex_fallback() {
    let hex = "000102030405060708090a0b0c0d0e0f";
    let expect: [u8; 16] = core::array::from_fn(|i| i as u8);
    assert_eq!(parse_token_id(hex), Ok(expect));
    assert_eq!(parse_capability_id("000102030405060708090A0B0C0D0E0F"), Ok(expect));
}

#[test]
fn token_id_standard_base64_fallback() {
    // '+' and '/' are outside the URL-safe alphabet; padding is required here.
    let token = [0xFBu8; 16];
    assert_eq!(parse_token_id("+/v7+/v7+/v7+/v7+/v7+w=="), Ok(token));
}

#[test]
fn token_id_rejects() {
    assert_eq!(parse_token_id("abc"), Err(IdError::InvalidEncoding));
    assert_eq!(parse_token_id(""), Err(IdError::InvalidEncoding));
    assert_eq!(parse_token_id("AAAA"), Err(IdError::InvalidEncoding));
}

#[test]
fn sha256_digest_matches_sha2() {
    let d = sha256(b"demo-cover");
    let expect = sha2::Sha256::digest(b"demo-cover");
    assert_eq!(d, expect.to_vec());
    assert_eq!(d.len(), 32);
}
