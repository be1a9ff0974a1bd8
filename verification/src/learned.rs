//! Payload bitstrings for the learned (neural) watermark layer.
//!
//! A recipient id becomes a string of '0'/'1' characters of the BCH_5 data
//! capacity (61 bits). With a key, the bits are XORed with a keyed keystream so
//! the payload is pseudorandom without the key and recoverable with it.
use vstd::prelude::*;
use vstd::string::StrSliceExecFns;
use vstd::utf8::{
    encode_utf8, encode_utf8_decode_utf8, encode_utf8_valid_utf8, is_ascii_chars,
    is_ascii_chars_encode_utf8,
};
use crate::bits::{bits_of, byte_bit, bytes_to_bits};
use crate::crypto::string_from_utf8;
use crate::keying::{keystream, keystream_bytes};

verus! {

/// BCH_5 data capacity of the learned watermark, in bits.
pub const BCH5_DATA_BITS: usize = 61;

/// A bit as a '0' / '1' character.
pub open spec fn bit_char(b: bool) -> char {
    if b {
        '1'
    } else {
        '0'
    }
}

/// Bits as a '0' / '1' string.
pub open spec fn bit_chars(bits: Seq<bool>) -> Seq<char> {
    bits.map_values(|b: bool| bit_char(b))
}

/// `bits` cut or zero-padded to exactly `n` bits.
pub open spec fn fit_bits(bits: Seq<bool>, n: nat) -> Seq<bool> {
    if bits.len() >= n {
        bits.take(n as int)
    } else {
        bits + Seq::new((n - bits.len()) as nat, |i: int| false)
    }
}

/// What `id_to_bitstring` returns: the id's UTF-8 bits (MSB first), cut or
/// zero-padded to 61.
pub open spec fn id_bits(id: Seq<char>) -> Seq<char> {
    bit_chars(fit_bits(bits_of(encode_utf8(id)), BCH5_DATA_BITS as nat))
}

/// Bit `i` of a keystream, MSB first within each byte.
pub open spec fn keystream_bit(ks: Seq<u8>, i: int) -> bool {
    byte_bit(ks[i / 8], i % 8)
}

/// What `xor_bitstring` returns: '1' where the input is '1' and the keystream
/// bit is clear or the input is anything else and the keystream bit is set.
pub open spec fn xor_chars(bits: Seq<char>, ks: Seq<u8>) -> Seq<char> {
    Seq::new(bits.len(), |i: int| bit_char((bits[i] == '1') != keystream_bit(ks, i)))
}

/// What `payload_bits` returns.
pub open spec fn payload_chars(id: Seq<char>, key: Option<Seq<char>>, image_seed: u64) -> Seq<char> {
    match key {
        Some(k) => xor_chars(id_bits(id), keystream(k, "recipient-id"@, image_seed)),
        None => id_bits(id),
    }
}

/// A string whose characters are all '0' or '1'.
pub open spec fn is_bitstring(s: Seq<char>) -> bool {
    forall|i: int| 0 <= i < s.len() ==> #[trigger] s[i] == '0' || s[i] == '1'
}

fn string_of_bits(bits: &[bool]) -> (s: String)
    ensures
        s@ == bit_chars(bits@),
{
    let ghost chars = bit_chars(bits@);
    let mut bytes: Vec<u8> = Vec::new();
    let mut i: usize = 0;
    while i < bits.len()
        invariant
            0 <= i <= bits@.len(),
            chars == bit_chars(bits@),
            bytes@.len() == i,
            forall|j: int| 0 <= j < i ==> #[trigger] bytes@[j] == chars[j] as u8,
        decreases bits@.len() - i,
    {
        bytes.push(if bits[i] { 0x31u8 } else { 0x30u8 });
        i += 1;
    }
    proof {
        assert(is_ascii_chars(chars));
        is_ascii_chars_encode_utf8(chars);
        assert(encode_utf8(chars) =~= bytes@);
        encode_utf8_valid_utf8(chars);
        encode_utf8_decode_utf8(chars);
    }
    match string_from_utf8(bytes) {
        Some(s) => s,
        None => {
            proof {
                assert(false);
            }
            String::new()
        },
    }
}

/// An ASCII recipient id as a TrustMark bitstring: the id's bytes as bits (MSB
/// first), zero-padded or truncated to the 61-bit BCH_5 capacity.
pub fn id_to_bitstring(id: &str) -> (s: String)
    ensures
        s@ == id_bits(id@),
{
    let all = bytes_to_bits(id.as_bytes());
    let mut fitted: Vec<bool> = Vec::new();
    let mut i: usize = 0;
    while i < BCH5_DATA_BITS
        invariant
            0 <= i <= BCH5_DATA_BITS,
            fitted@ == fit_bits(all@, BCH5_DATA_BITS as nat).take(i as int),
        decreases BCH5_DATA_BITS - i,
    {
        fitted.push(if i < all.len() { all[i] } else { false });
        i += 1;
        proof {
            assert(fitted@ =~= fit_bits(all@, BCH5_DATA_BITS as nat).take(i as int));
        }
    }
    proof {
        assert(fit_bits(all@, BCH5_DATA_BITS as nat).take(61) =~= fit_bits(
            all@,
            BCH5_DATA_BITS as nat,
        ));
    }
    string_of_bits(fitted.as_slice())
}

/// XOR a bitstring against the keystream (bit `i` against bit `i % 8` of byte
/// `i / 8`, MSB first).
pub fn xor_bitstring(bits: &str, keystream: &[u8; 32]) -> (out: String)
    requires
        bits@.len() <= 256,
    ensures
        out@ == xor_chars(bits@, keystream@),
{
    let n = bits.unicode_len();
    let mut out: Vec<bool> = Vec::new();
    let mut i: usize = 0;
    while i < n
        invariant
            n == bits@.len(),
            n <= 256,
            0 <= i <= n,
            out@.len() == i,
            forall|j: int| 0 <= j < i ==> #[trigger] bit_char(out@[j]) == xor_chars(bits@, keystream@)[j],
        decreases n - i,
    {
        let c = bits.get_char(i);
        let shift: u8 = 7 - (i % 8) as u8;
        let k = (keystream[i / 8] >> shift) & 1;
        out.push((c == '1') != (k == 1));
        i += 1;
    }
    let s = string_of_bits(out.as_slice());
    proof {
        assert(s@ =~= xor_chars(bits@, keystream@));
    }
    s
}

/// The payload bitstring written into the watermark: the plain id bits, or with
/// a key the id bits XOR the keyed keystream for this image seed. The keystream
/// does not depend on the id, so extraction recovers an unknown id with the key.
pub fn payload_bits(recipient_id: &str, key: Option<&str>, image_seed: u64) -> (s: String)
    ensures
        s@ == payload_chars(
            recipient_id@,
            match key {
                Some(k) => Some(k@),
                None => None,
            },
            image_seed,
        ),
{
    let plain = id_to_bitstring(recipient_id);
    match key {
        Some(k) => {
            let ks = keystream_bytes(k, "recipient-id", image_seed);
            xor_bitstring(plain.as_str(), &ks)
        },
        None => plain,
    }
}

/// Recover the plain id bitstring from a decoded payload bitstring.
pub fn decrypt_bits(decoded: &str, key: &str, image_seed: u64) -> (s: String)
    requires
        decoded@.len() <= 256,
    ensures
        s@ == xor_chars(decoded@, keystream(key@, "recipient-id"@, image_seed)),
{
    let ks = keystream_bytes(key, "recipient-id", image_seed);
    xor_bitstring(decoded, &ks)
}

// ── Laws ────────────────────────────────────────────────────────────────────

/// An id's bitstring has 61 characters, each '0' or '1'.
pub proof fn lemma_id_bits_shape(id: Seq<char>)
    ensures
        id_bits(id).len() == BCH5_DATA_BITS,
        is_bitstring(id_bits(id)),
{
}

/// XOR with the same keystream twice gives a bitstring back.
pub proof fn lemma_xor_involution(bits: Seq<char>, ks: Seq<u8>)
    requires
        is_bitstring(bits),
    ensures
        xor_chars(xor_chars(bits, ks), ks) == bits,
{
    assert forall|i: int| 0 <= i < bits.len() implies #[trigger] xor_chars(xor_chars(bits, ks), ks)[i]
        == bits[i] by {
        assert(bits[i] == '0' || bits[i] == '1');
    }
    assert(xor_chars(xor_chars(bits, ks), ks) =~= bits);
}

/// With the key and image seed used at embedding, the keyed payload decrypts to
/// the id's plain bitstring.
pub proof fn lemma_payload_decrypts(id: Seq<char>, key: Seq<char>, image_seed: u64)
    ensures
        xor_chars(payload_chars(id, Some(key), image_seed), keystream(key, "recipient-id"@, image_seed))
            == id_bits(id),
{
    lemma_id_bits_shape(id);
    lemma_xor_involution(id_bits(id), keystream(key, "recipient-id"@, image_seed));
}

} // verus!
