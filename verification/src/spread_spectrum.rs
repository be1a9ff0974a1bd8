//! Recipient-id codec for spread-spectrum embedding: a string becomes its UTF-8
//! bits (MSB first) and back.
use vstd::prelude::*;
use vstd::utf8::{decode_utf8, encode_utf8, encode_utf8_decode_utf8, encode_utf8_valid_utf8, valid_utf8};
use crate::bits::{
    bits_of, bits_of_bitbytes, bitbytes_of, bits_value, pack_bits, pad8, chunk8,
    bytes_to_bits, bits_to_bytes, lemma_pack_bits_of, lemma_bits_value_bound,
};
use crate::crypto::string_from_utf8;
use crate::ecc::bits_to_bitbytes;
use crate::prng::{two64, LCG_MUL};
use vstd::arithmetic::div_mod::lemma_add_mod_noop;

verus! {

/// How many coefficients carry each bit.
pub const REDUNDANCY: usize = 8;

/// Why bits could not be read back as a string.
#[derive(Debug, Clone, Copy, PartialEq, Eq, Structural)]
pub enum BitsError {
    /// The bit count is not a multiple of 8.
    BitCount,
    /// The bytes are not valid UTF-8.
    InvalidUtf8,
}

/// Byte folded from byte-valued bits, MSB first: `acc = (acc << 1) | bit`.
pub open spec fn fold_byte(s: Seq<u8>) -> u8
    decreases s.len(),
{
    if s.len() == 0 {
        0
    } else {
        (fold_byte(s.drop_last()) << 1u8) | s.last()
    }
}

/// Bytes folded from byte-valued bits, 8 per byte.
pub open spec fn fold_bytes(bits: Seq<u8>) -> Seq<u8> {
    Seq::new(bits.len() / 8, |j: int| fold_byte(bits.subrange(8 * j, 8 * j + 8)))
}

/// What `bits_to_str` returns.
pub open spec fn bits_read(bits: Seq<bool>) -> Result<Seq<char>, BitsError> {
    if bits.len() % 8 != 0 {
        Err(BitsError::BitCount)
    } else if !valid_utf8(pack_bits(bits)) {
        Err(BitsError::InvalidUtf8)
    } else {
        Ok(decode_utf8(pack_bits(bits)))
    }
}

/// What `decode_bits` returns.
pub open spec fn bitbytes_read(bits: Seq<u8>) -> Result<Seq<char>, BitsError> {
    if bits.len() % 8 != 0 {
        Err(BitsError::BitCount)
    } else if !valid_utf8(fold_bytes(bits)) {
        Err(BitsError::InvalidUtf8)
    } else {
        Ok(decode_utf8(fold_bytes(bits)))
    }
}

/// A recipient id as 0/1 bytes, MSB first.
pub fn encode_bits(recipient_id: &str) -> (out: Vec<u8>)
    ensures
        out@ == bitbytes_of(bits_of(encode_utf8(recipient_id@))),
{
    let bits = bytes_to_bits(recipient_id.as_bytes());
    bits_to_bitbytes(bits.as_slice())
}

/// A string as bits, MSB first.
pub fn str_to_bits(s: &str) -> (out: Vec<bool>)
    ensures
        out@ == bits_of(encode_utf8(s@)),
{
    bytes_to_bits(s.as_bytes())
}

/// Bits back to a string: 8 bits per byte, then UTF-8.
pub fn bits_to_str(bits: &[bool]) -> (r: Result<String, BitsError>)
    ensures
        match r {
            Ok(s) => bits_read(bits@) == Ok::<Seq<char>, BitsError>(s@),
            Err(e) => bits_read(bits@) == Err::<Seq<char>, BitsError>(e),
        },
{
    if bits.len() % 8 != 0 {
        return Err(BitsError::BitCount);
    }
    let bytes = bits_to_bytes(bits);
    match string_from_utf8(bytes) {
        Some(s) => Ok(s),
        None => Err(BitsError::InvalidUtf8),
    }
}

fn fold_chunk(bits: &[u8], start: usize) -> (b: u8)
    requires
        start + 8 <= bits@.len(),
    ensures
        b == fold_byte(bits@.subrange(start as int, start + 8)),
{
    let n = bits.len();
    let mut acc: u8 = 0;
    let mut i: usize = 0;
    proof {
        assert(bits@.subrange(start as int, start as int) =~= Seq::<u8>::empty());
    }
    while i < 8
        invariant
            0 <= i <= 8,
            start + 8 <= bits@.len(),
            n == bits@.len(),
            acc == fold_byte(bits@.subrange(start as int, start + i)),
        decreases 8 - i,
    {
        proof {
            let t = bits@.subrange(start as int, start + i + 1);
            assert(t.drop_last() =~= bits@.subrange(start as int, start + i));
        }
        acc = (acc << 1u8) | bits[start + i];
        i += 1;
    }
    acc
}

/// Byte-valued bits back to a string: each byte folds 8 values with
/// `(acc << 1) | bit`, then UTF-8.
pub fn decode_bits(bits: &[u8]) -> (r: Result<String, BitsError>)
    ensures
        match r {
            Ok(s) => bitbytes_read(bits@) == Ok::<Seq<char>, BitsError>(s@),
            Err(e) => bitbytes_read(bits@) == Err::<Seq<char>, BitsError>(e),
        },
{
    if bits.len() % 8 != 0 {
        return Err(BitsError::BitCount);
    }
    let mut bytes: Vec<u8> = Vec::new();
    let mut j: usize = 0;
    let nb = bits.len() / 8;
    while j < nb
        invariant
            nb == bits@.len() / 8,
            bits@.len() <= usize::MAX,
            bits@.len() % 8 == 0,
            0 <= j <= nb,
            bytes@.len() == j,
            forall|q: int| 0 <= q < j ==> #[trigger] bytes@[q] == fold_byte(bits@.subrange(8 * q, 8 * q + 8)),
        decreases nb - j,
    {
        let b = fold_chunk(bits, 8 * j);
        bytes.push(b);
        j += 1;
    }
    proof {
        assert(bytes@ =~= fold_bytes(bits@));
    }
    match string_from_utf8(bytes) {
        Some(s) => Ok(s),
        None => Err(BitsError::InvalidUtf8),
    }
}

// ── Laws ────────────────────────────────────────────────────────────────────

/// A string's bits read back as the string.
pub proof fn lemma_str_bits_roundtrip(s: Seq<char>)
    ensures
        bits_read(bits_of(encode_utf8(s))) == Ok::<Seq<char>, BitsError>(s),
{
    lemma_pack_bits_of(encode_utf8(s));
    encode_utf8_valid_utf8(s);
    encode_utf8_decode_utf8(s);
}

proof fn lemma_fold_step(acc: u8, b: u8)
    requires
        acc < 128,
        b <= 1,
    ensures
        (acc << 1u8) | b == acc * 2 + b,
{
    assert((acc << 1u8) | b == acc * 2 + b) by (bit_vector)
        requires
            acc < 128,
            b <= 1,
    ;
}

proof fn lemma_fold_prefix(s: Seq<u8>, i: int)
    requires
        0 <= i <= s.len(),
        s.len() <= 8,
        forall|k: int| 0 <= k < s.len() ==> #[trigger] s[k] <= 1,
    ensures
        fold_byte(s.take(i)) as nat == bits_value(bits_of_bitbytes(s.take(i))),
        (fold_byte(s.take(i)) as nat) < vstd::arithmetic::power2::pow2(i as nat),
    decreases i,
{
    vstd::arithmetic::power2::lemma2_to64();
    if i > 0 {
        lemma_fold_prefix(s, i - 1);
        let t = s.take(i);
        assert(t.drop_last() =~= s.take(i - 1));
        assert(bits_of_bitbytes(t).drop_last() =~= bits_of_bitbytes(s.take(i - 1)));
        let acc = fold_byte(s.take(i - 1));
        if i < 8 {
            vstd::arithmetic::power2::lemma_pow2_strictly_increases((i - 1) as nat, 7);
        }
        assert(acc < 128);
        lemma_fold_step(acc, s[i - 1]);
        vstd::arithmetic::power2::lemma_pow2_unfold(i as nat);
    } else {
        assert(bits_of_bitbytes(s.take(0)) =~= Seq::<bool>::empty());
    }
}

/// The 0/1 bytes of a bit string fold back to the bytes that the bits pack to.
pub proof fn lemma_fold_bitbytes(bits: Seq<bool>)
    requires
        bits.len() % 8 == 0,
    ensures
        fold_bytes(bitbytes_of(bits)) == pack_bits(bits),
{
    let bb = bitbytes_of(bits);
    assert(bits_of_bitbytes(bb) =~= bits);
    assert forall|j: int| 0 <= j < bits.len() / 8 implies #[trigger] fold_bytes(bb)[j] == pack_bits(
        bits,
    )[j] by {
        let c = bb.subrange(8 * j, 8 * j + 8);
        lemma_fold_prefix(c, 8);
        assert(c.take(8) =~= c);
        assert(bits_of_bitbytes(c) =~= chunk8(bits, j));
        assert(pad8(chunk8(bits, j)) =~= chunk8(bits, j));
        lemma_bits_value_bound(chunk8(bits, j));
    }
    assert(fold_bytes(bb) =~= pack_bits(bits));
}

/// A recipient id's 0/1 bytes decode back to the id.
pub proof fn lemma_encode_decode_bits(s: Seq<char>)
    ensures
        bitbytes_read(bitbytes_of(bits_of(encode_utf8(s)))) == Ok::<Seq<char>, BitsError>(s),
{
    lemma_fold_bitbytes(bits_of(encode_utf8(s)));
    lemma_str_bits_roundtrip(s);
}


/// One step of the shuffle's generator: `state * LCG_MUL + 1` modulo 2^64.
pub open spec fn shuffle_rng_step(state: u64) -> u64 {
    ((state as nat * LCG_MUL as nat + 1) % two64()) as u64
}

/// `s` with positions `i` and `j` exchanged.
pub open spec fn swapped(s: Seq<usize>, i: int, j: int) -> Seq<usize> {
    s.update(i, s[j]).update(j, s[i])
}

/// Fisher–Yates from position `i` down to 1: draw the next generator state
/// `r`, exchange position `i` with position `r mod (i + 1)`.
pub open spec fn shuffle_down(s: Seq<usize>, i: int, rng: u64) -> Seq<usize>
    decreases i,
{
    if i < 1 {
        s
    } else {
        let r = shuffle_rng_step(rng);
        let j = ((r as usize) % ((i + 1) as usize)) as int;
        shuffle_down(swapped(s, i, j), i - 1, r)
    }
}

/// The indices `0 .. len` in order.
pub open spec fn identity(len: nat) -> Seq<usize> {
    Seq::new(len, |k: int| k as usize)
}

/// The coefficient order that spread-spectrum embedding uses for `perm_seed`.
pub open spec fn shuffled(len: nat, perm_seed: u64) -> Seq<usize> {
    shuffle_down(identity(len), len - 1, perm_seed)
}

/// Every element of `s` is below `len` and no two are equal.
pub open spec fn is_index_permutation(s: Seq<usize>, len: nat) -> bool {
    &&& s.len() == len
    &&& forall|a: int| 0 <= a < s.len() ==> #[trigger] s[a] < len
    &&& forall|a: int, b: int| 0 <= a < b < s.len() ==> #[trigger] s[a] != #[trigger] s[b]
}

/// Pseudo-random permutation of the coefficient indices `0 .. len`: a
/// Fisher–Yates shuffle driven by `state * LCG_MUL + 1` from `perm_seed`.
pub fn permutation(len: usize, perm_seed: u64) -> (indices: Vec<usize>)
    ensures
        indices@ == shuffled(len as nat, perm_seed),
        is_index_permutation(indices@, len as nat),
{
    let mut indices: Vec<usize> = Vec::new();
    let mut k: usize = 0;
    while k < len
        invariant
            k <= len,
            indices@ == identity(k as nat),
        decreases len - k,
    {
        indices.push(k);
        k += 1;
        proof {
            assert(indices@ =~= identity(k as nat));
        }
    }
    let ghost target = shuffled(len as nat, perm_seed);
    assert(is_index_permutation(indices@, len as nat));
    let mut rng: u64 = perm_seed;
    let mut i: usize = len;
    while i > 1
        invariant
            i <= len,
            shuffle_down(indices@, i - 1, rng) == target,
            is_index_permutation(indices@, len as nat),
        decreases i,
    {
        i -= 1;
        let ghost prev = rng;
        let m = rng.wrapping_mul(LCG_MUL);
        proof {
            lemma_add_mod_noop((rng as nat * LCG_MUL as nat) as int, 1, two64() as int);
            assert(1nat % two64() == 1);
        }
        rng = m.wrapping_add(1);
        assert(rng == shuffle_rng_step(prev));
        let j = (rng as usize) % (i + 1);
        let ghost before = indices@;
        let a = indices[i];
        let b = indices[j];
        indices.set(i, b);
        indices.set(j, a);
        proof {
            assert(indices@ =~= swapped(before, i as int, j as int));
            assert forall|x: int, y: int| 0 <= x < y < indices@.len() implies #[trigger] indices@[x]
                != #[trigger] indices@[y] by {
                let sx = if x == i as int { j as int } else if x == j as int { i as int } else { x };
                let sy = if y == i as int { j as int } else if y == j as int { i as int } else { y };
                assert(indices@[x] == before[sx]);
                assert(indices@[y] == before[sy]);
                if sx < sy {
                    assert(before[sx] != before[sy]);
                } else {
                    assert(before[sy] != before[sx]);
                }
            }
            assert forall|x: int| 0 <= x < indices@.len() implies #[trigger] indices@[x] < len by {
                let sx = if x == i as int { j as int } else if x == j as int { i as int } else { x };
                assert(indices@[x] == before[sx]);
            }
        }
    }
    indices
}

} // verus!
