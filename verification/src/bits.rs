//! Bit/byte packing shared by the channel codes and the recipient-id codec.
//!
//! Bits are MSB-first: byte `b` becomes `[b7, b6, ..., b0]`.
use vstd::prelude::*;

verus! {

/// Bit `i` (0 = most significant) of byte `b`.
pub open spec fn byte_bit(b: u8, i: int) -> bool {
    ((b >> ((7 - i) as u8)) & 1u8) == 1u8
}

/// MSB-first bit expansion of a byte string.
pub open spec fn bits_of(bytes: Seq<u8>) -> Seq<bool> {
    Seq::new((bytes.len() * 8) as nat, |k: int| byte_bit(bytes[k / 8], k % 8))
}

/// Numeric value of a bit string read MSB-first.
pub open spec fn bits_value(bits: Seq<bool>) -> nat
    decreases bits.len(),
{
    if bits.len() == 0 {
        0
    } else {
        2 * bits_value(bits.drop_last()) + if bits.last() { 1nat } else { 0nat }
    }
}

/// `bits` followed by zeros up to length 8.
pub open spec fn pad8(bits: Seq<bool>) -> Seq<bool> {
    bits + Seq::new((8 - bits.len()) as nat, |i: int| false)
}

/// Byte packed from at most 8 bits, MSB first, zero-padded on the right.
pub open spec fn pack_byte(bits: Seq<bool>) -> u8 {
    bits_value(pad8(bits)) as u8
}

/// Number of bytes needed for `n` bits.
pub open spec fn bytes_for_bits(n: int) -> int {
    if n % 8 == 0 { n / 8 } else { n / 8 + 1 }
}

/// The `j`-th chunk of (at most) 8 bits.
pub open spec fn chunk8(bits: Seq<bool>, j: int) -> Seq<bool> {
    bits.subrange(8 * j, if 8 * j + 8 <= bits.len() { 8 * j + 8 } else { bits.len() as int })
}

/// Bytes packed from a bit string, 8 bits per byte, last byte zero-padded.
pub open spec fn pack_bits(bits: Seq<bool>) -> Seq<u8> {
    Seq::new(bytes_for_bits(bits.len() as int) as nat, |j: int| pack_byte(chunk8(bits, j)))
}

/// One byte per bit, holding 0 or 1.
pub open spec fn bitbytes_of(bits: Seq<bool>) -> Seq<u8> {
    bits.map_values(|b: bool| if b { 1u8 } else { 0u8 })
}

/// A byte string where every byte is 0 or 1, read back as bits (non-zero = 1).
pub open spec fn bits_of_bitbytes(bb: Seq<u8>) -> Seq<bool> {
    bb.map_values(|b: u8| b != 0)
}

pub proof fn lemma_bits_value_bound(bits: Seq<bool>)
    ensures
        bits_value(bits) < vstd::arithmetic::power2::pow2(bits.len()),
    decreases bits.len(),
{
    if bits.len() > 0 {
        lemma_bits_value_bound(bits.drop_last());
        vstd::arithmetic::power2::lemma_pow2_unfold(bits.len());
    } else {
        vstd::arithmetic::power2::lemma2_to64();
    }
}

proof fn lemma_bits_value_push(bits: Seq<bool>, b: bool)
    ensures
        bits_value(bits.push(b)) == 2 * bits_value(bits) + if b { 1nat } else { 0nat },
{
    assert(bits.push(b).drop_last() =~= bits);
}

/// Packing the 8 bits of a byte gives the byte back.
pub proof fn lemma_pack_byte_bits(b: u8)
    ensures
        pack_byte(Seq::new(8, |i: int| byte_bit(b, i))) == b,
{
    let s = Seq::new(8, |i: int| byte_bit(b, i));
    assert(pad8(s) =~= s);
    let v0 = ((b >> 7u8) & 1u8);
    let v1 = ((b >> 6u8) & 1u8);
    let v2 = ((b >> 5u8) & 1u8);
    let v3 = ((b >> 4u8) & 1u8);
    let v4 = ((b >> 3u8) & 1u8);
    let v5 = ((b >> 2u8) & 1u8);
    let v6 = ((b >> 1u8) & 1u8);
    let v7 = ((b >> 0u8) & 1u8);
    assert(v0 <= 1 && v1 <= 1 && v2 <= 1 && v3 <= 1 && v4 <= 1 && v5 <= 1 && v6 <= 1 && v7 <= 1)
        by (bit_vector)
        requires
            v0 == ((b >> 7u8) & 1u8),
            v1 == ((b >> 6u8) & 1u8),
            v2 == ((b >> 5u8) & 1u8),
            v3 == ((b >> 4u8) & 1u8),
            v4 == ((b >> 3u8) & 1u8),
            v5 == ((b >> 2u8) & 1u8),
            v6 == ((b >> 1u8) & 1u8),
            v7 == ((b >> 0u8) & 1u8),
    ;
    assert(b == ((((((((v0 * 2 + v1) * 2 + v2) * 2 + v3) * 2 + v4) * 2 + v5) * 2 + v6) * 2 + v7)))
        by (bit_vector)
        requires
            v0 == ((b >> 7u8) & 1u8),
            v1 == ((b >> 6u8) & 1u8),
            v2 == ((b >> 5u8) & 1u8),
            v3 == ((b >> 4u8) & 1u8),
            v4 == ((b >> 3u8) & 1u8),
            v5 == ((b >> 2u8) & 1u8),
            v6 == ((b >> 1u8) & 1u8),
            v7 == ((b >> 0u8) & 1u8),
    ;
    let mut k: int = 0;
    assert(bits_value(s.take(0)) == 0);
    assert(s.take(1).drop_last() =~= s.take(0));
    assert(s.take(2).drop_last() =~= s.take(1));
    assert(s.take(3).drop_last() =~= s.take(2));
    assert(s.take(4).drop_last() =~= s.take(3));
    assert(s.take(5).drop_last() =~= s.take(4));
    assert(s.take(6).drop_last() =~= s.take(5));
    assert(s.take(7).drop_last() =~= s.take(6));
    assert(s.take(8).drop_last() =~= s.take(7));
    assert(s.take(8) =~= s);
    assert(bits_value(s.take(1)) == v0 as nat);
    assert(bits_value(s.take(2)) == (v0 * 2 + v1) as nat);
    assert(bits_value(s.take(3)) == ((v0 * 2 + v1) * 2 + v2) as nat);
    assert(bits_value(s.take(4)) == (((v0 * 2 + v1) * 2 + v2) * 2 + v3) as nat);
    assert(bits_value(s.take(5)) == ((((v0 * 2 + v1) * 2 + v2) * 2 + v3) * 2 + v4) as nat);
    assert(bits_value(s.take(6)) == (((((v0 * 2 + v1) * 2 + v2) * 2 + v3) * 2 + v4) * 2
        + v5) as nat);
    assert(bits_value(s.take(7)) == ((((((v0 * 2 + v1) * 2 + v2) * 2 + v3) * 2 + v4) * 2 + v5)
        * 2 + v6) as nat);
    assert(bits_value(s.take(8)) == (((((((v0 * 2 + v1) * 2 + v2) * 2 + v3) * 2 + v4) * 2 + v5)
        * 2 + v6) * 2 + v7) as nat);
}

/// The bits of the byte that 8 bits pack to are those bits.
proof fn lemma_value_bits(s: Seq<bool>)
    requires
        s.len() == 8,
    ensures
        forall|j: int| 0 <= j < 8 ==> #[trigger] byte_bit(bits_value(s) as u8, j) == s[j],
{
    let v0: u8 = if s[0] { 1 } else { 0 };
    let v1: u8 = if s[1] { 1 } else { 0 };
    let v2: u8 = if s[2] { 1 } else { 0 };
    let v3: u8 = if s[3] { 1 } else { 0 };
    let v4: u8 = if s[4] { 1 } else { 0 };
    let v5: u8 = if s[5] { 1 } else { 0 };
    let v6: u8 = if s[6] { 1 } else { 0 };
    let v7: u8 = if s[7] { 1 } else { 0 };
    assert(s.take(1).drop_last() =~= s.take(0));
    assert(s.take(2).drop_last() =~= s.take(1));
    assert(s.take(3).drop_last() =~= s.take(2));
    assert(s.take(4).drop_last() =~= s.take(3));
    assert(s.take(5).drop_last() =~= s.take(4));
    assert(s.take(6).drop_last() =~= s.take(5));
    assert(s.take(7).drop_last() =~= s.take(6));
    assert(s.take(8).drop_last() =~= s.take(7));
    assert(s.take(8) =~= s);
    assert(bits_value(s.take(0)) == 0);
    assert(bits_value(s.take(1)) == v0 as nat);
    assert(bits_value(s.take(2)) == (v0 * 2 + v1) as nat);
    assert(bits_value(s.take(3)) == ((v0 * 2 + v1) * 2 + v2) as nat);
    assert(bits_value(s.take(4)) == (((v0 * 2 + v1) * 2 + v2) * 2 + v3) as nat);
    assert(bits_value(s.take(5)) == ((((v0 * 2 + v1) * 2 + v2) * 2 + v3) * 2 + v4) as nat);
    assert(bits_value(s.take(6)) == (((((v0 * 2 + v1) * 2 + v2) * 2 + v3) * 2 + v4) * 2
        + v5) as nat);
    assert(bits_value(s.take(7)) == ((((((v0 * 2 + v1) * 2 + v2) * 2 + v3) * 2 + v4) * 2 + v5)
        * 2 + v6) as nat);
    let x: u8 = ((((((((v0 * 2 + v1) * 2 + v2) * 2 + v3) * 2 + v4) * 2 + v5) * 2 + v6) * 2 + v7)) as u8;
    assert(bits_value(s) == (((((((v0 * 2 + v1) * 2 + v2) * 2 + v3) * 2 + v4) * 2 + v5) * 2 + v6) * 2
        + v7) as nat);
    assert({
        &&& ((x >> 7u8) & 1u8 == 1u8) == (v0 == 1)
        &&& ((x >> 6u8) & 1u8 == 1u8) == (v1 == 1)
        &&& ((x >> 5u8) & 1u8 == 1u8) == (v2 == 1)
        &&& ((x >> 4u8) & 1u8 == 1u8) == (v3 == 1)
        &&& ((x >> 3u8) & 1u8 == 1u8) == (v4 == 1)
        &&& ((x >> 2u8) & 1u8 == 1u8) == (v5 == 1)
        &&& ((x >> 1u8) & 1u8 == 1u8) == (v6 == 1)
        &&& ((x >> 0u8) & 1u8 == 1u8) == (v7 == 1)
    }) by (bit_vector)
        requires
            v0 <= 1,
            v1 <= 1,
            v2 <= 1,
            v3 <= 1,
            v4 <= 1,
            v5 <= 1,
            v6 <= 1,
            v7 <= 1,
            x == ((((((((v0 * 2 + v1) * 2 + v2) * 2 + v3) * 2 + v4) * 2 + v5) * 2 + v6) * 2 + v7)) as u8,
    ;
}

/// Bit `j` of packed byte `i` is bit `8i + j` of the input, and zero past its end.
pub proof fn lemma_pack_bits_bit(bits: Seq<bool>, i: int, j: int)
    requires
        0 <= i < pack_bits(bits).len(),
        0 <= j < 8,
    ensures
        byte_bit(pack_bits(bits)[i], j) == (8 * i + j < bits.len() && bits[8 * i + j]),
{
    let c = chunk8(bits, i);
    let p = pad8(c);
    assert(p.len() == 8);
    lemma_value_bits(p);
    assert(byte_bit(bits_value(p) as u8, j) == p[j]);
}

/// MSB-first expansion of `bytes` into bits.
pub fn bytes_to_bits(bytes: &[u8]) -> (out: Vec<bool>)
    ensures
        out@ == bits_of(bytes@),
{
    let mut out: Vec<bool> = Vec::new();
    let mut j: usize = 0;
    while j < bytes.len()
        invariant
            0 <= j <= bytes@.len(),
            out@.len() == 8 * j,
            forall|k: int| 0 <= k < out@.len() ==> #[trigger] out@[k] == byte_bit(bytes@[k / 8], k % 8),
        decreases bytes.len() - j,
    {
        let b = bytes[j];
        let mut i: u8 = 0;
        while i < 8
            invariant
                0 <= i <= 8,
                0 <= j < bytes@.len(),
                b == bytes@[j as int],
                out@.len() == 8 * j + i,
                forall|k: int| 0 <= k < out@.len() ==> #[trigger] out@[k] == byte_bit(bytes@[k / 8], k % 8),
            decreases 8 - i,
        {
            let bit = ((b >> (7 - i)) & 1) == 1;
            proof {
                let k = (8 * j + i) as int;
                assert(k / 8 == j && k % 8 == i);
            }
            out.push(bit);
            i += 1;
        }
        j += 1;
    }
    assert(out@ =~= bits_of(bytes@));
    out
}

/// Pack bits MSB-first into bytes; a short last chunk is zero-padded on the right.
pub fn bits_to_bytes(bits: &[bool]) -> (out: Vec<u8>)
    ensures
        out@ == pack_bits(bits@),
        out@.len() == bytes_for_bits(bits@.len() as int),
        forall|i: int, j: int|
            0 <= i < out@.len() && 0 <= j < 8 ==> #[trigger] byte_bit(out@[i], j) == (8 * i + j
                < bits@.len() && bits@[8 * i + j]),
{
    let n = bits.len();
    let mut out: Vec<u8> = Vec::new();
    let mut start: usize = 0;
    while start < n
        invariant
            0 <= start,
            n == bits@.len(),
            start <= n,
            start < n ==> start % 8 == 0,
            start < n ==> out@.len() == start / 8,
            start >= n ==> out@.len() == bytes_for_bits(n as int),
            forall|j: int| 0 <= j < out@.len() ==> #[trigger] out@[j] == pack_byte(chunk8(bits@, j)),
        decreases n - start,
    {
        let end = if n - start >= 8 { start + 8 } else { n };
        let ghost chunk = bits@.subrange(start as int, end as int);
        let ghost padded = pad8(chunk);
        let mut byte: u8 = 0;
        let mut i: usize = 0;
        while i < 8
            invariant
                0 <= i <= 8,
                start < end <= n,
                end - start <= 8,
                n == bits@.len(),
                chunk == bits@.subrange(start as int, end as int),
                padded == pad8(chunk),
                padded.len() == 8,
                byte as nat == bits_value(padded.take(i as int)),
            decreases 8 - i,
        {
            let bit = if i < end - start { bits[start + i] } else { false };
            proof {
                assert(padded[i as int] == bit);
                assert(padded.take(i + 1) =~= padded.take(i as int).push(bit));
                lemma_bits_value_push(padded.take(i as int), bit);
                lemma_bits_value_bound(padded.take(i as int));
                vstd::arithmetic::power2::lemma2_to64();
                if i < 7 {
                    vstd::arithmetic::power2::lemma_pow2_strictly_increases(i as nat, 7);
                }
            }
            byte = byte * 2 + if bit { 1u8 } else { 0u8 };
            i += 1;
        }
        proof {
            assert(padded.take(8) =~= padded);
            assert(chunk8(bits@, (start / 8) as int) =~= chunk);
        }
        out.push(byte);
        start = end;
        proof {

        }
    }
    assert(out@ =~= pack_bits(bits@));
    proof {
        assert forall|i: int, j: int| 0 <= i < out@.len() && 0 <= j < 8 implies #[trigger] byte_bit(
            out@[i],
            j,
        ) == (8 * i + j < bits@.len() && bits@[8 * i + j]) by {
            lemma_pack_bits_bit(bits@, i, j);
        }
    }
    out
}

/// Packing the bit expansion of a byte string gives the bytes back.
pub proof fn lemma_pack_bits_of(bytes: Seq<u8>)
    ensures
        pack_bits(bits_of(bytes)) == bytes,
{
    let bits = bits_of(bytes);
    assert forall|j: int| 0 <= j < bytes.len() implies #[trigger] pack_bits(bits)[j] == bytes[j] by {
        let c = chunk8(bits, j);
        assert(c =~= Seq::new(8, |i: int| byte_bit(bytes[j], i))) by {
            assert forall|i: int| 0 <= i < 8 implies c[i] == byte_bit(bytes[j], i) by {
                assert((8 * j + i) / 8 == j);
                assert((8 * j + i) % 8 == i);
            }
        }
        lemma_pack_byte_bits(bytes[j]);
    }
    assert(pack_bits(bits) =~= bytes);
}

} // verus!
