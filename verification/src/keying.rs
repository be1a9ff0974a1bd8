//! Key material and keyed derivations.
//!
//! A secret key yields domain-separated HMAC-SHA256 derivations: the embedding
//! key (placement PRNG), the frame MAC key, an optional object key, per-image
//! placement seeds and the keystream that hides learned-mode payload bits.
use vstd::prelude::*;
use vstd::utf8::encode_utf8;
use crate::crypto::{hmac_sha256, hmac_sha256_tag};
use crate::octets::{concat, le_bytes, le_value, u64_from_le, u64_le_bytes};

verus! {

// ── Domain strings ──────────────────────────────────────────────────────────

/// Domain string for the embedding key.
pub open spec fn embed_domain() -> Seq<u8> {
    encode_utf8("sigil-k-embed-v1"@)
}

/// Domain string for the frame MAC key.
pub open spec fn mac_domain() -> Seq<u8> {
    encode_utf8("sigil-k-mac-v1"@)
}

/// Domain string for the placement PRF.
pub open spec fn embed_prf_domain() -> Seq<u8> {
    encode_utf8("sigil-k-embed-prf-v1"@)
}

/// Domain string for the domain-separated frame tag.
pub open spec fn mac_tag_domain() -> Seq<u8> {
    encode_utf8("sigil-k-mac-tag-v1"@)
}

/// Domain string for the secret-layer seed.
pub open spec fn secret_layer_domain() -> Seq<u8> {
    encode_utf8("sigil-secret-layer-v1"@)
}

/// Domain string for the learned-mode keystream.
pub open spec fn keystream_domain() -> Seq<u8> {
    encode_utf8("sigil-learned-keystream-v1"@)
}

/// A key derived from `ikm` for `context` and `cover_id`.
pub open spec fn derived_key(ikm: Seq<u8>, context: Seq<u8>, cover_id: Seq<u8>) -> Seq<u8> {
    hmac_sha256(ikm, context + cover_id)
}

/// The placement seed `prf_k_embed` gives.
pub open spec fn embed_prf(k_embed: Seq<u8>, image_hash: u64) -> nat {
    le_value(hmac_sha256(k_embed, embed_prf_domain() + le_bytes(image_hash as nat, 8)).subrange(0, 8))
}

/// The seed `key_seed` gives.
pub open spec fn secret_seed(secret_key: Seq<char>, image_hash: u64) -> nat {
    le_value(
        hmac_sha256(
            encode_utf8(secret_key),
            secret_layer_domain() + le_bytes(image_hash as nat, 8),
        ).subrange(0, 8),
    )
}

/// The keystream `keystream_bytes` gives.
pub open spec fn keystream(secret_key: Seq<char>, context: Seq<char>, image_hash: u64) -> Seq<u8> {
    hmac_sha256(
        encode_utf8(secret_key),
        keystream_domain() + encode_utf8(context) + le_bytes(image_hash as nat, 8),
    )
}

// ── Key material ────────────────────────────────────────────────────────────

/// Domain-separated key material for framing and placement.
/// `k_embed` seeds placement, `k_mac` authenticates frames, `k_object`
/// optionally encrypts pointer objects.
#[derive(Clone, Debug)]
pub struct KeyMaterial {
    k_embed: [u8; 32],
    k_mac: [u8; 32],
    k_object: Option<[u8; 32]>,
}

impl KeyMaterial {
    /// The embedding key.
    pub closed spec fn embed_key(self) -> Seq<u8> {
        self.k_embed@
    }

    /// The frame MAC key.
    pub closed spec fn mac_key(self) -> Seq<u8> {
        self.k_mac@
    }

    /// The object key, if any.
    pub closed spec fn object_key(self) -> Option<Seq<u8>> {
        match self.k_object {
            Some(k) => Some(k@),
            None => None,
        }
    }

    /// Derive from a single key string (the CLI `--key`), with context separation.
    pub fn from_ikm(ikm: &str, cover_id: &[u8; 16]) -> (km: Self)
        ensures
            km.embed_key() == derived_key(encode_utf8(ikm@), embed_domain(), cover_id@),
            km.mac_key() == derived_key(encode_utf8(ikm@), mac_domain(), cover_id@),
            km.object_key() is None,
    {
        let ikm_bytes = ikm.as_bytes();
        KeyMaterial {
            k_embed: Self::derive(ikm_bytes, "sigil-k-embed-v1".as_bytes(), cover_id),
            k_mac: Self::derive(ikm_bytes, "sigil-k-mac-v1".as_bytes(), cover_id),
            k_object: None,
        }
    }

    /// Directly from explicit keys (tests / KMS integration).
    pub fn from_keys(k_embed: [u8; 32], k_mac: [u8; 32]) -> (km: Self)
        ensures
            km.embed_key() == k_embed@,
            km.mac_key() == k_mac@,
            km.object_key() is None,
    {
        KeyMaterial { k_embed, k_mac, k_object: None }
    }

    /// With an explicit object key (pointer mode).
    pub fn from_keys_with_object(k_embed: [u8; 32], k_mac: [u8; 32], k_object: [u8; 32]) -> (km:
        Self)
        ensures
            km.embed_key() == k_embed@,
            km.mac_key() == k_mac@,
            km.object_key() == Some(k_object@),
    {
        KeyMaterial { k_embed, k_mac, k_object: Some(k_object) }
    }

    fn derive(ikm: &[u8], context: &[u8], cover_id: &[u8; 16]) -> (key: [u8; 32])
        ensures
            key@ == derived_key(ikm@, context@, cover_id@),
    {
        let msg = concat(context, cover_id.as_slice());
        hmac_sha256_tag(ikm, msg.as_slice())
    }

    pub fn k_embed(&self) -> (k: &[u8; 32])
        ensures
            k@ == self.embed_key(),
    {
        &self.k_embed
    }

    pub fn k_mac(&self) -> (k: &[u8; 32])
        ensures
            k@ == self.mac_key(),
    {
        &self.k_mac
    }

    pub fn k_object(&self) -> (k: Option<&[u8; 32]>)
        ensures
            match k {
                Some(key) => self.object_key() == Some(key@),
                None => self.object_key() is None,
            },
    {
        match &self.k_object {
            Some(key) => Some(key),
            None => None,
        }
    }
}

// ── Keyed derivations ───────────────────────────────────────────────────────

/// PRF for placement: `k_embed` mixed with an image hash into a `u64` seed.
pub fn prf_k_embed(k_embed: &[u8; 32], image_hash: u64) -> (seed: u64)
    ensures
        seed as nat == embed_prf(k_embed@, image_hash),
{
    let hash_le = u64_le_bytes(image_hash);
    let msg = concat("sigil-k-embed-prf-v1".as_bytes(), hash_le.as_slice());
    let mac = hmac_sha256_tag(k_embed.as_slice(), msg.as_slice());
    u64_from_le(mac.as_slice())
}

/// Domain-separated HMAC tag of `frame` under `k_mac`.
pub fn prf_k_mac_tag(k_mac: &[u8; 32], frame: &[u8]) -> (tag: [u8; 32])
    ensures
        tag@ == hmac_sha256(k_mac@, mac_tag_domain() + frame@),
{
    let msg = concat("sigil-k-mac-tag-v1".as_bytes(), frame);
    hmac_sha256_tag(k_mac.as_slice(), msg.as_slice())
}

/// The `u64` key seed for an image: the same image hash and key always give the
/// same seed, different images diverge under the same key.
pub fn key_seed(secret_key: &str, image_hash: u64) -> (seed: u64)
    ensures
        seed as nat == secret_seed(secret_key@, image_hash),
{
    let hash_le = u64_le_bytes(image_hash);
    let msg = concat("sigil-secret-layer-v1".as_bytes(), hash_le.as_slice());
    let mac = hmac_sha256_tag(secret_key.as_bytes(), msg.as_slice());
    u64_from_le(mac.as_slice())
}

/// A 32-byte keystream for hiding learned-mode payload bits; `context`
/// separates it from other derivations.
pub fn keystream_bytes(secret_key: &str, context: &str, image_hash: u64) -> (ks: [u8; 32])
    ensures
        ks@ == keystream(secret_key@, context@, image_hash),
{
    let hash_le = u64_le_bytes(image_hash);
    let head = concat("sigil-learned-keystream-v1".as_bytes(), context.as_bytes());
    let msg = concat(head.as_slice(), hash_le.as_slice());
    hmac_sha256_tag(secret_key.as_bytes(), msg.as_slice())
}

} // verus!
