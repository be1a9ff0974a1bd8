//! Primitives taken from outside crates: HMAC-SHA256, SHA-256, ChaCha20-Poly1305,
//! base64, hex, the thread RNG, and two `std` string helpers.
//!
//! Each function here is a thin trusted wrapper. Where a primitive's output takes
//! pages to describe (a digest, a cipher text, a base64 text) its result is given a
//! name below and the wrapper says the result is that name applied to its inputs.
use vstd::prelude::*;
use vstd::utf8::{valid_utf8, decode_utf8, encode_utf8};
use base64::Engine as _;
use chacha20poly1305::aead::Aead as _;
use chacha20poly1305::KeyInit as _;
use hmac::Mac as _;
use rand::RngCore as _;
use sha2::Digest as _;

verus! {

// ── Names for results of outside functions ──────────────────────────────────

/// HMAC-SHA256 tag of `msg` under `key` (32 bytes).
pub uninterp spec fn hmac_sha256(key: Seq<u8>, msg: Seq<u8>) -> Seq<u8>;

/// SHA-256 digest of `data` (32 bytes).
pub uninterp spec fn sha256_digest(data: Seq<u8>) -> Seq<u8>;

/// ChaCha20-Poly1305 output (cipher text followed by the 16-byte tag) for
/// `plaintext` under `key` and `nonce`, with no associated data.
pub uninterp spec fn chacha20poly1305_seal(key: Seq<u8>, nonce: Seq<u8>, plaintext: Seq<u8>) -> Seq<u8>;


/// Bytes that `text` decodes to as URL-safe base64 without padding, if it is valid.
pub uninterp spec fn base64_url_decode(text: Seq<char>) -> Option<Seq<u8>>;

/// Bytes that `text` decodes to as standard base64 with canonical padding, if valid.
pub uninterp spec fn base64_standard_decode(text: Seq<char>) -> Option<Seq<u8>>;


// ── Plain specifications ────────────────────────────────────────────────────

/// The URL-safe base64 character for a 6-bit value: `A-Z`, `a-z`, `0-9`, `-`, `_`.
pub open spec fn b64_url_char(v: int) -> char {
    if v < 26 {
        ('A' as int + v) as char
    } else if v < 52 {
        ('a' as int + (v - 26)) as char
    } else if v < 62 {
        ('0' as int + (v - 52)) as char
    } else if v == 62 {
        '-'
    } else {
        '_'
    }
}

/// Base64 text (URL-safe alphabet, no padding) of `data`: every 3 bytes give 4
/// characters of 6 bits each, most significant first; a final 1 or 2 bytes give
/// 2 or 3 characters, the last zero-filled on the right.
pub open spec fn base64_url_encode(data: Seq<u8>) -> Seq<char>
    decreases data.len(),
{
    if data.len() == 0 {
        Seq::empty()
    } else if data.len() == 1 {
        seq![b64_url_char(data[0] as int / 4), b64_url_char((data[0] % 4) * 16)]
    } else if data.len() == 2 {
        seq![
            b64_url_char(data[0] as int / 4),
            b64_url_char((data[0] % 4) * 16 + data[1] / 16),
            b64_url_char((data[1] % 16) * 4),
        ]
    } else {
        seq![
            b64_url_char(data[0] as int / 4),
            b64_url_char((data[0] % 4) * 16 + data[1] / 16),
            b64_url_char((data[1] % 16) * 4 + data[2] / 64),
            b64_url_char(data[2] as int % 64),
        ] + base64_url_encode(data.skip(3))
    }
}

/// Base64url text uses only the URL-safe alphabet.
pub proof fn lemma_base64_url_alphabet(data: Seq<u8>)
    ensures
        forall|i: int| 0 <= i < base64_url_encode(data).len() ==> is_base64_url_char(
            #[trigger] base64_url_encode(data)[i],
        ),
    decreases data.len(),
{
    if data.len() > 3 {
        lemma_base64_url_alphabet(data.skip(3));
    }
    assert forall|v: int| 0 <= v < 64 implies is_base64_url_char(#[trigger] b64_url_char(v)) by {}
    if data.len() >= 3 {
        let e = base64_url_encode(data);
        let head = seq![
            b64_url_char(data[0] as int / 4),
            b64_url_char((data[0] % 4) * 16 + data[1] / 16),
            b64_url_char((data[1] % 16) * 4 + data[2] / 64),
            b64_url_char(data[2] as int % 64),
        ];
        assert forall|i: int| 0 <= i < e.len() implies is_base64_url_char(#[trigger] e[i]) by {
            if i < 4 {
                assert(e[i] == head[i]);
            } else {
                assert(e[i] == base64_url_encode(data.skip(3))[i - 4]);
            }
        }
    }
}


/// A character of the URL-safe base64 alphabet.
pub open spec fn is_base64_url_char(c: char) -> bool {
    ('A' <= c <= 'Z') || ('a' <= c <= 'z') || ('0' <= c <= '9') || c == '-' || c == '_'
}

/// A character with the Unicode `White_Space` property (what `char::is_whitespace` tests).
pub open spec fn is_white_space(c: char) -> bool {
    ('\u{9}' <= c <= '\u{d}') || c == ' ' || c == '\u{85}' || c == '\u{a0}' || c == '\u{1680}'
        || ('\u{2000}' <= c <= '\u{200a}') || c == '\u{2028}' || c == '\u{2029}' || c == '\u{202f}'
        || c == '\u{205f}' || c == '\u{3000}'
}

/// `text` without its leading white space.
pub open spec fn trimmed_start(text: Seq<char>) -> Seq<char>
    decreases text.len(),
{
    if text.len() > 0 && is_white_space(text[0]) {
        trimmed_start(text.drop_first())
    } else {
        text
    }
}

/// `text` without its trailing white space.
pub open spec fn trimmed_end(text: Seq<char>) -> Seq<char>
    decreases text.len(),
{
    if text.len() > 0 && is_white_space(text.last()) {
        trimmed_end(text.drop_last())
    } else {
        text
    }
}

/// `text` without its leading and trailing white space.
pub open spec fn trimmed(text: Seq<char>) -> Seq<char> {
    trimmed_end(trimmed_start(text))
}

/// Value of a hexadecimal digit byte, if it is one.
pub open spec fn hex_digit_value(b: u8) -> Option<u8> {
    if 0x30 <= b <= 0x39 {
        Some((b - 0x30) as u8)
    } else if 0x41 <= b <= 0x46 {
        Some((b - 0x41 + 10) as u8)
    } else if 0x61 <= b <= 0x66 {
        Some((b - 0x61 + 10) as u8)
    } else {
        None
    }
}

/// Hex decoding of a byte string: two digits per byte, high nibble first,
/// upper or lower case; `None` for an odd length or a non-digit.
pub open spec fn hex_decoded(text: Seq<u8>) -> Option<Seq<u8>> {
    if text.len() % 2 != 0 {
        None
    } else if exists|i: int| 0 <= i < text.len() && (#[trigger] hex_digit_value(text[i])) is None {
        None
    } else {
        Some(
            Seq::new(
                text.len() / 2,
                |i: int|
                    (hex_digit_value(text[2 * i])->0 * 16 + hex_digit_value(text[2 * i + 1])->0) as u8,
            ),
        )
    }
}

// ── HMAC-SHA256 (crate `hmac` over `sha2::Sha256`) ──────────────────────────

/// Computes HMAC-SHA256 of `msg` under `key` with `hmac::Hmac<sha2::Sha256>`
/// (`new_from_slice`, `update`, `finalize`). HMAC accepts keys of any length, so
/// the key setup never fails. The contract claims only that the tag is
/// `hmac_sha256(key, msg)`.
#[verifier::external_body]
pub(crate) fn hmac_sha256_tag(key: &[u8], msg: &[u8]) -> (tag: [u8; 32])
    ensures
        tag@ == hmac_sha256(key@, msg@),
{
    let mut mac = <hmac::Hmac<sha2::Sha256> as hmac::digest::KeyInit>::new_from_slice(key)
        .expect("HMAC accepts keys of any length");
    mac.update(msg);
    let out = mac.finalize().into_bytes();
    let mut tag = [0u8; 32];
    tag.copy_from_slice(&out);
    tag
}

/// Checks a tag with `hmac::Mac::verify_slice`, which compares the recomputed
/// HMAC-SHA256 of `msg` under `key` with `tag` in constant time. The contract
/// claims that the check passes exactly when `tag` is `hmac_sha256(key, msg)`.
#[verifier::external_body]
pub(crate) fn hmac_sha256_verify(key: &[u8], msg: &[u8], tag: &[u8; 32]) -> (ok: bool)
    ensures
        ok == (tag@ == hmac_sha256(key@, msg@)),
{
    let mut mac = <hmac::Hmac<sha2::Sha256> as hmac::digest::KeyInit>::new_from_slice(key)
        .expect("HMAC accepts keys of any length");
    mac.update(msg);
    mac.verify_slice(tag).is_ok()
}

// ── SHA-256 (crate `sha2`) ──────────────────────────────────────────────────

/// Computes the SHA-256 digest of `data` with `sha2::Sha256` (`new`, `update`,
/// `finalize`). The contract claims only that it is `sha256_digest(data)`.
#[verifier::external_body]
pub(crate) fn sha256(data: &[u8]) -> (d: [u8; 32])
    ensures
        d@ == sha256_digest(data@),
{
    let mut h = sha2::Sha256::new();
    h.update(data);
    let out = h.finalize();
    let mut d = [0u8; 32];
    d.copy_from_slice(&out);
    d
}

// ── ChaCha20-Poly1305 (crate `chacha20poly1305`) ────────────────────────────

/// Encrypts with `chacha20poly1305::ChaCha20Poly1305::encrypt` (no associated
/// data). The crate refuses a plaintext of `u32::MAX` 64-byte blocks or more and
/// otherwise returns the cipher text with the 16-byte tag appended. The contract
/// claims exactly that, with the output named `chacha20poly1305_seal`.
#[verifier::external_body]
pub(crate) fn chacha20poly1305_encrypt(key: &[u8; 32], nonce: &[u8; 12], plaintext: &[u8]) -> (r:
    Option<Vec<u8>>)
    ensures
        r is Some <==> plaintext@.len() / 64 < 0xffff_ffff,
        r matches Some(c) ==> c@ == chacha20poly1305_seal(key@, nonce@, plaintext@) && c@.len()
            == plaintext@.len() + 16,
{
    let cipher = chacha20poly1305::ChaCha20Poly1305::new(chacha20poly1305::Key::from_slice(key));
    cipher.encrypt(chacha20poly1305::Nonce::from_slice(nonce), plaintext).ok()
}

/// Decrypts with `chacha20poly1305::ChaCha20Poly1305::decrypt` (no associated
/// data). The crate strips the last 16 bytes as the tag, checks it against the
/// rest and only then decrypts, so it succeeds exactly on the outputs of
/// encryption under the same key and nonce, and gives back that plaintext. The
/// contract claims that, over `chacha20poly1305_seal`.
#[verifier::external_body]
pub(crate) fn chacha20poly1305_decrypt(key: &[u8; 32], nonce: &[u8; 12], combined: &[u8]) -> (r:
    Option<Vec<u8>>)
    ensures
        r matches Some(p) ==> combined@ == chacha20poly1305_seal(key@, nonce@, p@) && (forall|
            q: Seq<u8>,
        | combined@ == #[trigger] chacha20poly1305_seal(key@, nonce@, q) ==> q == p@),
        r is None ==> forall|q: Seq<u8>|
            q.len() / 64 < 0xffff_ffff ==> combined@ != #[trigger] chacha20poly1305_seal(
                key@,
                nonce@,
                q,
            ),
{
    let cipher = chacha20poly1305::ChaCha20Poly1305::new(chacha20poly1305::Key::from_slice(key));
    cipher.decrypt(chacha20poly1305::Nonce::from_slice(nonce), combined).ok()
}

// ── Random bytes (crate `rand`) ─────────────────────────────────────────────

/// Fills `n` fresh bytes from `rand::thread_rng()` (a CSPRNG). Nothing is
/// claimed of the bytes but their number.
#[verifier::external_body]
pub(crate) fn random_bytes(n: usize) -> (r: Vec<u8>)
    ensures
        r@.len() == n,
{
    let mut buf = vec![0u8; n];
    rand::thread_rng().fill_bytes(&mut buf);
    buf
}

// ── Base64 (crate `base64`) ─────────────────────────────────────────────────

/// Encodes with `base64::engine::general_purpose::URL_SAFE_NO_PAD`. The contract
/// claims the text is the unpadded URL-safe base64 of `data` (`base64_url_encode`,
/// stated in full above), and that the same engine decodes it back to `data`.
#[verifier::external_body]
pub(crate) fn base64_url_encode_bytes(data: &[u8]) -> (s: String)
    ensures
        s@ == base64_url_encode(data@),
        base64_url_decode(s@) == Some(data@),
{
    base64::engine::general_purpose::URL_SAFE_NO_PAD.encode(data)
}

/// Decodes with `base64::engine::general_purpose::URL_SAFE_NO_PAD`; an error
/// becomes `None`. The contract claims only that the result is
/// `base64_url_decode(text)`.
#[verifier::external_body]
pub(crate) fn base64_url_decode_str(text: &str) -> (r: Option<Vec<u8>>)
    ensures
        match r {
            Some(v) => base64_url_decode(text@) == Some(v@),
            None => base64_url_decode(text@) is None,
        },
{
    base64::engine::general_purpose::URL_SAFE_NO_PAD.decode(text).ok()
}

/// Decodes with `base64::engine::general_purpose::STANDARD`; an error becomes
/// `None`. The contract claims only that the result is `base64_standard_decode(text)`.
#[verifier::external_body]
pub(crate) fn base64_standard_decode_str(text: &str) -> (r: Option<Vec<u8>>)
    ensures
        match r {
            Some(v) => base64_standard_decode(text@) == Some(v@),
            None => base64_standard_decode(text@) is None,
        },
{
    base64::engine::general_purpose::STANDARD.decode(text).ok()
}

// ── Hex (crate `hex`) ───────────────────────────────────────────────────────

/// Decodes with `hex::decode` over the UTF-8 bytes of `text`; an error becomes
/// `None`. The crate rejects an odd byte length, then any byte that is not an
/// ASCII hex digit, and otherwise packs two digits per byte, high first. The
/// contract states that in full (`hex_decoded`).
#[verifier::external_body]
pub(crate) fn hex_decode_str(text: &str) -> (r: Option<Vec<u8>>)
    ensures
        match r {
            Some(v) => hex_decoded(encode_utf8(text@)) == Some(v@),
            None => hex_decoded(encode_utf8(text@)) is None,
        },
{
    hex::decode(text).ok()
}

// ── std string helpers ──────────────────────────────────────────────────────

/// `str::trim`: removes leading and trailing white space, where white space is
/// the Unicode `White_Space` property. The contract states that in full (`trimmed`).
#[verifier::external_body]
pub(crate) fn trim(text: &str) -> (res: &str)
    ensures
        res@ == trimmed(text@),
{
    text.trim()
}

/// `String::from_utf8`; an error becomes `None`. The contract states what the
/// documentation says: it succeeds exactly on valid UTF-8 and then holds the
/// decoded characters.
#[verifier::external_body]
pub(crate) fn string_from_utf8(bytes: Vec<u8>) -> (r: Option<String>)
    ensures
        r is Some <==> valid_utf8(bytes@),
        r matches Some(s) ==> s@ == decode_utf8(bytes@),
{
    String::from_utf8(bytes).ok()
}

} // verus!
