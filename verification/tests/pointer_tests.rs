use capglyph::cli::EmbedMode;
use capglyph::ecc::{decode_hard, Profile};
use capglyph::framing::{sealed_len, PayloadType};
use capglyph::pointer::{
    aead_decrypt, aead_encrypt, capability_from_base64url, capability_to_base64url,
    check_offline_size, keys_from_opt, needed_bits, params_offline, params_online,
    parse_payload_offline, payload_from_decoded, payload_offline, payload_online,
    pointer_coded_bits, select_profile, test_keys, PointerError,
};
use capglyph::models::IdError;
use uuid::Uuid;

#[test]
fn aead_roundtrip() {
    let key = [0x42u8; 32];
    let nonce = [0x11u8; 12];
    let pt = b"hello pointer mode";
    let (ct, tag) = aead_encrypt(pt, &key, &nonce).unwrap();
    let pt2 = aead_decrypt(&ct, &tag, &key, &nonce).unwrap();
    assert_eq!(pt.to_vec(), pt2);
}

#[test]
fn aead_tamper_fails() {
    let key = [0x42u8; 32];
    let nonce = [0x11u8; 12];
    let pt = b"secret message";
    let (mut ct, tag) = aead_encrypt(pt, &key, &nonce).unwrap();
    ct[0] ^= 1;
    assert!(aead_decrypt(&ct, &tag, &key, &nonce).is_err());
}

#[test]
fn payload_offline_roundtrip() {
    let id = Uuid::new_v4();
    let key = [0xAAu8; 32];
    let payload = payload_offline(id.as_bytes(), &key);
    assert_eq!(payload.len(), 48);
    let (id2, key2) = parse_payload_offline(&payload).unwrap();
    assert_eq!(id, Uuid::from_bytes(id2));
    assert_eq!(key, key2);
}

#[test]
fn aead_output_shape_and_cipher() {
    let key = [1u8; 32];
    let nonce = [2u8; 12];
    let (ct, tag) = aead_encrypt(b"abcdef", &key, &nonce).unwrap();
    assert_eq!(ct.len(), 6);
    assert_eq!(tag.len(), 16);
    assert_ne!(ct, b"abcdef".to_vec());
    assert_eq!(aead_decrypt(&ct, &tag, &key, &[3u8; 12]), Err(PointerError::TagMismatch));
}

#[test]
fn offline_payload_length_error() {
    assert_eq!(parse_payload_offline(&[0u8; 47]), Err(PointerError::OfflinePayloadLength));
}

#[test]
fn profile_selection() {
    assert_eq!(select_profile(512, 512, &EmbedMode::Dct), Profile::Bch { t: 3 });
    assert_eq!(select_profile(1024, 1024, &EmbedMode::Dct), Profile::Repetition8);
    assert_eq!(select_profile(512, 512, &EmbedMode::Dwt), Profile::Repetition8);
    assert_eq!(select_profile(2048, 2048, &EmbedMode::Alpha), Profile::Bch { t: 3 });
}

#[test]
fn offline_requires_1024() {
    assert_eq!(capglyph::pointer::OFFLINE_MIN_DIMENSION, 1024);
    assert_eq!(check_offline_size(512, 512), Err(PointerError::ImageTooSmall));
    assert_eq!(check_offline_size(1024, 1023), Err(PointerError::ImageTooSmall));
    assert_eq!(check_offline_size(1024, 1024), Ok(()));
}

#[test]
fn pointer_bits_roundtrip_repetition_and_bch() {
    let keys = test_keys();
    let cap = [0x5Au8; 16];
    let payload = payload_online(&cap);
    for profile in [Profile::Repetition8, Profile::Bch { t: 3 }] {
        let params = params_online();
        let bits = pointer_coded_bits(&payload, &params, keys.k_mac(), profile);
        let decoded = decode_hard(&bits, profile).unwrap();
        let sl = sealed_len(16, &params);
        let out = payload_from_decoded(decoded, sl, keys.k_mac(), 16, PayloadType::Pointer).unwrap();
        assert_eq!(out, cap.to_vec());
    }
}

#[test]
fn payload_type_mismatch_is_refused() {
    let keys = test_keys();
    let payload = payload_offline(&[1u8; 16], &[2u8; 32]);
    let params = params_offline();
    let bits = pointer_coded_bits(&payload, &params, keys.k_mac(), Profile::Repetition8);
    let decoded = decode_hard(&bits, Profile::Repetition8).unwrap();
    let sl = sealed_len(48, &params);
    assert_eq!(
        payload_from_decoded(decoded.clone(), sl, keys.k_mac(), 48, PayloadType::Pointer),
        Err(PointerError::WrongPayloadType)
    );
    assert_eq!(
        payload_from_decoded(decoded, sl, keys.k_mac(), 16, PayloadType::Locator),
        Err(PointerError::WrongPayloadLength)
    );
}

#[test]
fn needed_bits_matches_coding() {
    let keys = test_keys();
    let params = params_online();
    let bits = pointer_coded_bits(&[0u8; 16], &params, keys.k_mac(), Profile::Repetition8);
    assert_eq!(needed_bits(16, PayloadType::Pointer, Profile::Repetition8), bits.len());
}

#[test]
fn capability_text_roundtrip() {
    let cap = [0xFBu8; 16];
    let s = capability_to_base64url(&cap);
    assert_eq!(s, "-_v7-_v7-_v7-_v7-_v7-w");
    assert_eq!(capability_from_base64url(&s), Ok(cap));
    assert_eq!(capability_from_base64url(&format!("  {}\n", s)), Ok(cap));
    // 32 hex digits are also valid base64url (24 bytes), which is tried first.
    let hex = "000102030405060708090a0b0c0d0e0f";
    assert_eq!(
        capability_from_base64url(hex),
        Err(PointerError::Capability(IdError::WrongLength))
    );
    assert_eq!(
        capability_from_base64url("AAAA"),
        Err(PointerError::Capability(IdError::WrongLength))
    );
    assert_eq!(
        capability_from_base64url("***"),
        Err(PointerError::Capability(IdError::InvalidEncoding))
    );
}

#[test]
fn key_material_defaults() {
    let k = keys_from_opt(None);
    assert_eq!(k.k_embed(), &[0x11u8; 32]);
    assert_eq!(k.k_mac(), &[0x22u8; 32]);
    let k2 = keys_from_opt(Some("secret"));
    assert_ne!(k2.k_mac(), &[0x22u8; 32]);
}
