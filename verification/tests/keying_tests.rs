use capglyph::keying::{key_seed, keystream_bytes, prf_k_embed, prf_k_mac_tag, KeyMaterial};
use hmac::Mac;

fn hmac(key: &[u8], parts: &[&[u8]]) -> [u8; 32] {
    let mut mac = <hmac::Hmac<sha2::Sha256> as hmac::digest::KeyInit>::new_from_slice(key).unwrap();
    for p in parts {
        mac.update(p);
    }
    let out = mac.finalize().into_bytes();
    let mut a = [0u8; 32];
    a.copy_from_slice(&out);
    a
}

#[test]
fn from_ikm_derives_domain_separated_keys() {
    let cover = [7u8; 16];
    let km = KeyMaterial::from_ikm("secret", &cover);
    assert_eq!(km.k_embed(), &hmac(b"secret", &[b"sigil-k-embed-v1", &cover]));
    assert_eq!(km.k_mac(), &hmac(b"secret", &[b"sigil-k-mac-v1", &cover]));
    assert_ne!(km.k_embed(), km.k_mac());
    assert!(km.k_object().is_none());
}

#[test]
fn explicit_keys() {
    let km = KeyMaterial::from_keys([1u8; 32], [2u8; 32]);
    assert_eq!(km.k_embed(), &[1u8; 32]);
    assert_eq!(km.k_mac(), &[2u8; 32]);
    let km2 = KeyMaterial::from_keys_with_object([1u8; 32], [2u8; 32], [3u8; 32]);
    assert_eq!(km2.k_object(), Some(&[3u8; 32]));
}

#[test]
fn prf_values_match_hmac() {
    let k = [9u8; 32];
    let h: u64 = 0x0102_0304_0506_0708;
    let mac = hmac(&k, &[b"sigil-k-embed-prf-v1", &h.to_le_bytes()]);
    assert_eq!(prf_k_embed(&k, h), u64::from_le_bytes(mac[..8].try_into().unwrap()));
    assert_eq!(prf_k_mac_tag(&k, b"frame"), hmac(&k, &[b"sigil-k-mac-tag-v1", b"frame"]));
}

#[test]
fn seed_and_keystream_match_hmac() {
    let h: u64 = 42;
    let mac = hmac(b"key", &[b"sigil-secret-layer-v1", &h.to_le_bytes()]);
    assert_eq!(key_seed("key", h), u64::from_le_bytes(mac[..8].try_into().unwrap()));
    assert_eq!(
        keystream_bytes("key", "recipient-id", h),
        hmac(b"key", &[b"sigil-learned-keystream-v1", b"recipient-id", &h.to_le_bytes()])
    );
    assert_ne!(key_seed("key", 1), key_seed("key", 2));
}
