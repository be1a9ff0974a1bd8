//! Channel coding: repetition-8, binary BCH, Reed-Solomon + byte interleave.
//!
//! Bit-level codes (repetition, BCH) produce one byte (0 or 1) per coded bit;
//! Reed-Solomon produces ordinary bytes (data + parity per block), optionally
//! interleaved.
use vstd::prelude::*;
use vstd::arithmetic::div_mod::{lemma_fundamental_div_mod, lemma_fundamental_div_mod_converse};
use vstd::arithmetic::mul::{
    lemma_mul_inequality, lemma_mul_is_distributive_add, lemma_mul_is_commutative,
    lemma_mul_nonnegative, lemma_mul_strict_inequality,
};
use crate::bits::{
    bits_of, bitbytes_of, bits_of_bitbytes, pack_bits, lemma_pack_bits_of,
};
pub use crate::bits::{bits_to_bytes, bytes_to_bits};
use crate::bch::{
    bch_n, bch_k, bch_codeword, block_decodes_to, decodable, bch_params, bch_encode_word,
    bch_decode_word, flip, lemma_bch_word_roundtrip, lemma_bch_codeword_decodable,
    lemma_hamming_corrects_one, lemma_bch15_corrects_two, is_combo,
};
use crate::interleave::{
    interleave, deinterleave, interleaved, deinterleaved,
    lemma_interleave_is_interleaved, lemma_deinterleave_is_deinterleaved, lemma_deinterleaved_interleaved,
};

pub mod rs;

use self::rs::{rs_parity, encode_systematic};

verus! {

// ── Public types ────────────────────────────────────────────────────────────

/// Coding stack for a given image size / attack target.
#[derive(Debug, Clone, Copy, PartialEq, Eq, Structural)]
pub enum Profile {
    /// 8× bit repetition with majority decoding.
    Repetition8,
    /// Binary BCH; `t` selects the block code.
    Bch { t: u8 },
    /// Reed-Solomon blocks of `n` bytes carrying `k` data bytes, then byte interleave.
    RsInterleaved { n: u8, k: u8, interleave_depth: u8 },
}

impl Default for Profile {
    fn default() -> (p: Self)
        ensures
            p == Profile::Repetition8,
    {
        Profile::Repetition8
    }
}

impl Profile {
    /// Interleave depth for burst handling (0 if none).
    pub fn interleave_depth(self) -> (d: u8)
        ensures
            d == (match self {
                Profile::RsInterleaved { interleave_depth, .. } => interleave_depth,
                _ => 0u8,
            }),
    {
        match self {
            Profile::RsInterleaved { interleave_depth, .. } => interleave_depth,
            _ => 0,
        }
    }
}

/// Why decoding failed.
#[derive(Debug, Clone, Copy, PartialEq, Eq, Structural)]
pub enum EccError {
    /// Repetition-coded length is not a multiple of 8.
    RepetitionLength,
    /// BCH-coded length is not a multiple of the block length.
    BchLength,
    /// Some BCH block has no correctable error pattern.
    BchUncorrectable,
    /// Reed-Solomon soft length is not a multiple of 8 bits.
    RsSoftLength,
    /// Reed-Solomon coded length is not a multiple of `n`.
    RsLength,
    /// Some Reed-Solomon block's parity does not match its data.
    RsParityMismatch,
    /// `k == 0` or `n <= k`.
    RsInvalidParams,
    /// Reed-Solomon profiles are decoded from bytes, not through `decode_hard`.
    RsNeedsByteDecode,
}

// ── Index arithmetic helper ─────────────────────────────────────────────────

proof fn lemma_block_index(b: int, j: int, n: int)
    requires
        n > 0,
        b >= 0,
        0 <= j < n,
    ensures
        (b * n + j) / n == b,
        (b * n + j) % n == j,
        b * n + j >= 0,
{
    lemma_mul_nonnegative(b, n);
    lemma_fundamental_div_mod_converse(b * n + j, n, b, j);
}

proof fn lemma_block_bound(b: int, j: int, n: int, blocks: int)
    requires
        n > 0,
        0 <= b < blocks,
        0 <= j < n,
    ensures
        b * n + j < blocks * n,
{
    lemma_mul_inequality(b + 1, blocks, n);
    lemma_mul_is_distributive_add(n, b, 1);
    lemma_mul_is_commutative(n, b);
    lemma_mul_is_commutative(n, b + 1);
}

proof fn lemma_split_index(i: int, n: int)
    requires
        n > 0,
        i >= 0,
    ensures
        i == (i / n) * n + i % n,
        0 <= i % n < n,
        i / n >= 0,
{
    lemma_fundamental_div_mod(i, n);
    lemma_mul_is_commutative(n, i / n);
}

// ── Repetition-8 ────────────────────────────────────────────────────────────

/// Each bit repeated 8 times.
pub open spec fn rep_encode(bits: Seq<bool>) -> Seq<bool> {
    Seq::new((bits.len() * 8) as nat, |i: int| bits[i / 8])
}

/// Number of set bits.
pub open spec fn count_true(s: Seq<bool>) -> nat
    decreases s.len(),
{
    if s.len() == 0 {
        0
    } else {
        count_true(s.drop_last()) + if s.last() { 1nat } else { 0nat }
    }
}

/// Majority vote (at least 4 of 8) per group of 8 bits.
pub open spec fn rep_decode(bits: Seq<bool>) -> Seq<bool> {
    Seq::new((bits.len() / 8) as nat, |j: int| count_true(bits.subrange(8 * j, 8 * j + 8)) >= 4)
}

fn encode_repetition(bits: &[bool]) -> (out: Vec<bool>)
    ensures
        out@ == rep_encode(bits@),
{
    let mut out: Vec<bool> = Vec::new();
    let mut j: usize = 0;
    while j < bits.len()
        invariant
            0 <= j <= bits@.len(),
            out@.len() == 8 * j,
            forall|i: int| 0 <= i < out@.len() ==> #[trigger] out@[i] == bits@[i / 8],
        decreases bits@.len() - j,
    {
        let b = bits[j];
        let mut r: usize = 0;
        while r < 8
            invariant
                0 <= r <= 8,
                0 <= j < bits@.len(),
                b == bits@[j as int],
                out@.len() == 8 * j + r,
                forall|i: int| 0 <= i < out@.len() ==> #[trigger] out@[i] == bits@[i / 8],
            decreases 8 - r,
        {
            out.push(b);
            r += 1;
        }
        j += 1;
    }
    proof {
        assert(out@ =~= rep_encode(bits@));
    }
    out
}

fn decode_repetition_hard(bits: &[bool]) -> (r: Result<Vec<bool>, EccError>)
    ensures
        bits@.len() % 8 != 0 <==> r == Err::<Vec<bool>, EccError>(EccError::RepetitionLength),
        r is Err ==> r == Err::<Vec<bool>, EccError>(EccError::RepetitionLength),
        r matches Ok(out) ==> out@ == rep_decode(bits@),
{
    if bits.len() % 8 != 0 {
        return Err(EccError::RepetitionLength);
    }
    let mut out: Vec<bool> = Vec::new();
    let mut start: usize = 0;
    while start < bits.len()
        invariant
            bits@.len() % 8 == 0,
            start % 8 == 0,
            start <= bits@.len(),
            out@.len() == start / 8,
            forall|j: int| 0 <= j < out@.len() ==> #[trigger] out@[j] == (count_true(
                bits@.subrange(8 * j, 8 * j + 8),
            ) >= 4),
        decreases bits@.len() - start,
    {
        assert(start + 8 <= bits@.len());
        let chunk_end: usize = start + 8;
        let ghost chunk = bits@.subrange(start as int, start + 8);
        let mut ones: usize = 0;
        let mut i: usize = 0;
        while i < 8
            invariant
                0 <= i <= 8,
                start + 8 <= bits@.len(),
                chunk_end == start + 8,
                chunk == bits@.subrange(start as int, start + 8),
                ones == count_true(chunk.take(i as int)),
                ones <= i,
            decreases 8 - i,
        {
            proof {
                assert(chunk.take(i + 1).drop_last() =~= chunk.take(i as int));
            }
            if bits[start + i] {
                ones += 1;
            }
            i += 1;
        }
        proof {
            assert(chunk.take(8) =~= chunk);
        }
        out.push(ones >= 4);
        start += 8;
    }
    proof {
        assert(out@ =~= rep_decode(bits@));
    }
    Ok(out)
}

/// A majority decode of a repetition code gives the encoded bits back.
pub proof fn lemma_rep_roundtrip(bits: Seq<bool>)
    ensures
        rep_decode(rep_encode(bits)) == bits,
{
    let enc = rep_encode(bits);
    assert forall|j: int| 0 <= j < bits.len() implies #[trigger] rep_decode(enc)[j] == bits[j] by {
        let chunk = enc.subrange(8 * j, 8 * j + 8);
        assert(chunk =~= Seq::new(8, |i: int| bits[j])) by {
            assert forall|i: int| 0 <= i < 8 implies chunk[i] == bits[j] by {
                assert((8 * j + i) / 8 == j);
            }
        }
        lemma_count_const(bits[j], 8);
    }
    assert(rep_decode(enc) =~= bits);
}

proof fn lemma_count_const(b: bool, m: nat)
    ensures
        count_true(Seq::new(m, |i: int| b)) == if b { m } else { 0 },
    decreases m,
{
    if m > 0 {
        assert(Seq::new(m, |i: int| b).drop_last() =~= Seq::new((m - 1) as nat, |i: int| b));
        lemma_count_const(b, (m - 1) as nat);
    }
}

/// Positions of the `j`-th group of 8 received bits that differ from `b`.
pub open spec fn group_flips(received: Seq<bool>, j: int, b: bool) -> Seq<bool> {
    Seq::new(8, |i: int| received[8 * j + i] != b)
}

proof fn lemma_count_complement(s: Seq<bool>)
    ensures
        count_true(s) + count_true(Seq::new(s.len(), |i: int| !s[i])) == s.len(),
    decreases s.len(),
{
    if s.len() > 0 {
        let t = Seq::new(s.len(), |i: int| !s[i]);
        assert(t.drop_last() =~= Seq::new(s.drop_last().len(), |i: int| !s.drop_last()[i]));
        lemma_count_complement(s.drop_last());
    }
}

/// Majority decoding corrects up to three flipped bits in every group of eight.
pub proof fn lemma_rep_corrects(bits: Seq<bool>, received: Seq<bool>)
    requires
        received.len() == 8 * bits.len(),
        forall|j: int| 0 <= j < bits.len() ==> count_true(#[trigger] group_flips(received, j, bits[j])) <= 3,
    ensures
        rep_decode(received) == bits,
{
    assert forall|j: int| 0 <= j < bits.len() implies #[trigger] rep_decode(received)[j] == bits[j] by {
        let chunk = received.subrange(8 * j, 8 * j + 8);
        let f = group_flips(received, j, bits[j]);
        assert(count_true(f) <= 3);
        if bits[j] {
            assert(f =~= Seq::new(chunk.len(), |i: int| !chunk[i]));
        } else {
            assert(f =~= chunk);
        }
        lemma_count_complement(chunk);
    }
    assert(rep_decode(received) =~= bits);
}

// ── BCH streams ─────────────────────────────────────────────────────────────

/// Number of `k`-bit blocks needed for `len` bits.
pub open spec fn blocks_for(len: int, k: int) -> int {
    if len % k == 0 { len / k } else { len / k + 1 }
}

/// `bits` zero-padded to a multiple of `k`.
pub open spec fn pad_to(bits: Seq<bool>, k: int) -> Seq<bool> {
    Seq::new((blocks_for(bits.len() as int, k) * k) as nat, |i: int| i < bits.len() && bits[i])
}

/// BCH stream encoding: each padded `k`-bit chunk becomes an `n`-bit codeword.
pub open spec fn bch_stream(bits: Seq<bool>, t: u8) -> Seq<bool> {
    let n = bch_n(t);
    let k = bch_k(t);
    Seq::new(
        (blocks_for(bits.len() as int, k) * n) as nat,
        |i: int| bch_codeword(pad_to(bits, k).subrange((i / n) * k, (i / n) * k + k), t)[i % (n as int)],
    )
}

/// Every `n`-bit block of `bits` decodes to the matching `k` bits of `out`.
pub open spec fn bch_stream_decodes_to(bits: Seq<bool>, t: u8, out: Seq<bool>) -> bool {
    let n = bch_n(t);
    let k = bch_k(t);
    &&& (bits.len() as int) % n == 0
    &&& out.len() == ((bits.len() as int) / n) * k
    &&& forall|b: int|
        0 <= b < (bits.len() as int) / n ==> #[trigger] block_decodes_to(
            bits.subrange(b * n, b * n + n),
            t,
            out.subrange(b * k, b * k + k),
        )
}

/// Every `n`-bit block of `bits` can be decoded.
pub open spec fn bch_stream_decodable(bits: Seq<bool>, t: u8) -> bool {
    let n = bch_n(t);
    forall|b: int|
        0 <= b < (bits.len() as int) / n ==> #[trigger] decodable(bits.subrange(b * n, b * n + n), t)
}

proof fn lemma_bch_dims(t: u8)
    ensures
        bch_k(t) >= 4,
        bch_n(t) > bch_k(t),
        bch_n(t) <= 63,
{
}

proof fn lemma_blocks_for(len: int, k: int)
    requires
        len >= 0,
        k > 0,
    ensures
        len == 0 ==> blocks_for(len, k) == 0,
        blocks_for(len, k) >= 0,
        blocks_for(len, k) * k >= len,
        blocks_for(len, k) * k < len + k,
{
    lemma_fundamental_div_mod(len, k);
    lemma_mul_is_commutative(k, len / k);
    lemma_mul_is_distributive_add(k, len / k, 1);
    lemma_mul_is_commutative(k, len / k + 1);
    if len / k < 0 {
        vstd::arithmetic::div_mod::lemma_div_pos_is_pos(len, k);
    }
    if len == 0 {
        vstd::arithmetic::div_mod::lemma_small_mod(0, k as nat);
        vstd::arithmetic::div_mod::lemma_div_basics(k);
    }
}

fn encode_bch(bits: &[bool], t: u8) -> (out: Vec<bool>)
    ensures
        out@ == bch_stream(bits@, t),
{
    proof {
        lemma_bch_dims(t);
    }
    let (n, k) = bch_params(t);
    let len = bits.len();
    let ghost padded = pad_to(bits@, k as int);
    proof {
        lemma_blocks_for(len as int, k as int);
    }
    let mut out: Vec<bool> = Vec::new();
    let mut pos: usize = 0;
    let ghost mut b: int = 0;
    while pos < len
        invariant
            n == bch_n(t),
            k == bch_k(t),
            4 <= k < n <= 63,
            len == bits@.len(),
            padded == pad_to(bits@, k as int),
            padded.len() == blocks_for(len as int, k as int) * k,
            b >= 0,
            pos <= len,
            pos < len ==> pos == b * k,
            pos < len ==> b < blocks_for(len as int, k as int),
            pos >= len ==> b == blocks_for(len as int, k as int),
            out@.len() == b * n,
            forall|i: int| 0 <= i < out@.len() ==> #[trigger] out@[i] == bch_codeword(
                padded.subrange((i / (n as int)) * (k as int), (i / (n as int)) * (k as int) + (k as int)),
                t,
            )[i % (n as int)],
        decreases len - pos,
    {
        let mut chunk: Vec<bool> = Vec::new();
        let mut j: usize = 0;
        while j < k
            invariant
                0 <= j <= k,
                k == bch_k(t),
                4 <= k,
                len == bits@.len(),
                pos < len,
                pos == b * k,
                padded == pad_to(bits@, k as int),
                padded.len() == blocks_for(len as int, k as int) * k,
                b < blocks_for(len as int, k as int),
                chunk@.len() == j,
                forall|m: int| 0 <= m < j ==> #[trigger] chunk@[m] == padded[b * k + m],
            decreases k - j,
        {
            proof {
                lemma_block_bound(b, j as int, k as int, blocks_for(len as int, k as int));
            }
            let bit = if j < len - pos { bits[pos + j] } else { false };
            chunk.push(bit);
            j += 1;
        }
        proof {
            lemma_block_bound(b, 0, k as int, blocks_for(len as int, k as int));
            lemma_mul_is_distributive_add(k as int, b, 1);
            lemma_mul_is_commutative(k as int, b);
            lemma_mul_is_commutative(k as int, b + 1);
            assert(chunk@ =~= padded.subrange(b * k, b * k + k));
        }
        let word = bch_encode_word(&chunk, t);
        let mut q: usize = 0;
        while q < n
            invariant
                0 <= q <= n,
                n == bch_n(t),
                k == bch_k(t),
                4 <= k < n <= 63,
                b >= 0,
                word@ == bch_codeword(padded.subrange(b * k, b * k + k), t),
                word@.len() == n,
                out@.len() == b * n + q,
                forall|i: int| 0 <= i < out@.len() ==> #[trigger] out@[i] == bch_codeword(
                    padded.subrange((i / (n as int)) * (k as int), (i / (n as int)) * (k as int) + (k as int)),
                    t,
                )[i % (n as int)],
            decreases n - q,
        {
            proof {
                lemma_block_index(b, q as int, n as int);
            }
            out.push(word[q]);
            q += 1;
        }
        proof {
            lemma_mul_is_distributive_add(n as int, b, 1);
            lemma_mul_is_commutative(n as int, b);
            lemma_mul_is_commutative(n as int, b + 1);
            lemma_mul_is_distributive_add(k as int, b, 1);
            lemma_mul_is_commutative(k as int, b);
            lemma_mul_is_commutative(k as int, b + 1);
            if pos + k < len {
                assert(b + 1 < blocks_for(len as int, k as int)) by {
                    if b + 1 >= blocks_for(len as int, k as int) {
                        lemma_mul_inequality(blocks_for(len as int, k as int), b + 1, k as int);
                    }
                }
            } else {
                assert(b + 1 == blocks_for(len as int, k as int)) by {
                    if b + 1 < blocks_for(len as int, k as int) {
                        lemma_mul_inequality(b + 2, blocks_for(len as int, k as int), k as int);
                        lemma_mul_is_distributive_add(k as int, b + 1, 1);
                        lemma_mul_is_commutative(k as int, b + 2);
                    }
                }
            }
        }
        proof {
            b = b + 1;
        }
        if len - pos > k {
            pos = pos + k;
        } else {
            pos = len;
            proof {
                assert(len as int <= b * k);
            }
        }
    }
    proof {
        if len == 0 {
            assert(blocks_for(0, k as int) == 0);
        }
        assert(out@ =~= bch_stream(bits@, t));
    }
    out
}

fn decode_bch_hard(bits: &[bool], t: u8) -> (r: Result<Vec<bool>, EccError>)
    ensures
        (bits@.len() as int) % bch_n(t) != 0 <==> r == Err::<Vec<bool>, EccError>(EccError::BchLength),
        (bits@.len() as int) % bch_n(t) == 0 && !bch_stream_decodable(bits@, t) <==> r == Err::<
            Vec<bool>,
            EccError,
        >(EccError::BchUncorrectable),
        r matches Ok(out) ==> bch_stream_decodes_to(bits@, t, out@),
        r is Err ==> r == Err::<Vec<bool>, EccError>(EccError::BchLength) || r == Err::<
            Vec<bool>,
            EccError,
        >(EccError::BchUncorrectable),
{
    proof {
        lemma_bch_dims(t);
    }
    let (n, k) = bch_params(t);
    let len = bits.len();
    if len % n != 0 {
        return Err(EccError::BchLength);
    }
    let ghost nb: int = (len / n) as int;
    proof {
        lemma_split_index(len as int, n as int);
    }
    let mut out: Vec<bool> = Vec::new();
    let mut pos: usize = 0;
    let ghost mut b: int = 0;
    while pos < len
        invariant
            n == bch_n(t),
            k == bch_k(t),
            4 <= k < n <= 63,
            len == bits@.len(),
            len % n == 0,
            nb == len / n,
            len == nb * n,
            0 <= b <= nb,
            pos == b * n,
            out@.len() == b * k,
            forall|bb: int|
                0 <= bb < b ==> #[trigger] block_decodes_to(
                    bits@.subrange(bb * n, bb * n + n),
                    t,
                    out@.subrange(bb * k, bb * k + k),
                ),
            forall|bb: int| 0 <= bb < b ==> #[trigger] decodable(bits@.subrange(bb * n, bb * n + n), t),
        decreases len - pos,
    {
        proof {
            assert(b < nb) by {
                if b >= nb {
                    lemma_mul_inequality(nb, b, n as int);
                }
            }
            lemma_block_bound(b, 0, n as int, nb);
            lemma_mul_is_distributive_add(n as int, b, 1);
            lemma_mul_is_commutative(n as int, b);
            lemma_mul_is_commutative(n as int, b + 1);
            lemma_mul_inequality(b + 1, nb, n as int);
        }
        let mut chunk: Vec<bool> = Vec::new();
        let mut j: usize = 0;
        while j < n
            invariant
                0 <= j <= n,
                pos + n <= len,
                len == bits@.len(),
                chunk@.len() == j,
                forall|m: int| 0 <= m < j ==> #[trigger] chunk@[m] == bits@[pos + m],
            decreases n - j,
        {
            chunk.push(bits[pos + j]);
            j += 1;
        }
        proof {
            assert(chunk@ =~= bits@.subrange(b * n, b * n + n));
        }
        match bch_decode_word(&chunk, t) {
            Some(word) => {
                let ghost before = out@;
                let mut q: usize = 0;
                while q < word.len()
                    invariant
                        0 <= q <= word@.len(),
                        out@.len() == before.len() + q,
                        forall|m: int| 0 <= m < before.len() ==> #[trigger] out@[m] == before[m],
                        forall|m: int| 0 <= m < q ==> #[trigger] out@[before.len() + m] == word@[m],
                    decreases word@.len() - q,
                {
                    out.push(word[q]);
                    q += 1;
                }
                proof {
                    let c = choose|c: Seq<int>|
                        #[trigger] crate::bch::is_first_correction(chunk@, t, c) && word@ == crate::bch::flip(
                            chunk@,
                            c,
                        ).take(bch_k(t));
                    assert(word@.len() == k);
                    lemma_mul_is_distributive_add(k as int, b, 1);
                    lemma_mul_is_commutative(k as int, b);
                    lemma_mul_is_commutative(k as int, b + 1);
                    assert(before.len() == b * k);
                    assert forall|m: int| 0 <= m < k implies out@.subrange(b * k, b * k + k)[m] == word@[m] by {
                        assert(out@[before.len() + m] == word@[m]);
                    }
                    assert(out@.subrange(b * k, b * k + k) =~= word@);
                    assert forall|bb: int| 0 <= bb < b + 1 implies #[trigger] block_decodes_to(
                        bits@.subrange(bb * n, bb * n + n),
                        t,
                        out@.subrange(bb * k, bb * k + k),
                    ) by {
                        if bb < b {
                            lemma_mul_inequality(bb + 1, b, k as int);
                            lemma_mul_is_distributive_add(k as int, bb, 1);
                            lemma_mul_is_commutative(k as int, bb);
                            lemma_mul_is_commutative(k as int, bb + 1);
                            lemma_mul_nonnegative(bb, k as int);
                            assert(out@.subrange(bb * k, bb * k + k) =~= before.subrange(
                                bb * k,
                                bb * k + k,
                            ));
                        }
                    }
                }
            },
            None => {
                proof {
                    assert(!bch_stream_decodable(bits@, t)) by {
                        assert(!decodable(bits@.subrange(b * n, b * n + n), t));
                    }
                }
                return Err(EccError::BchUncorrectable);
            },
        }
        pos += n;
        proof {
            b = b + 1;
        }
    }
    proof {
        assert(b == nb) by {
            if b < nb {
                lemma_mul_strict_inequality(b, nb, n as int);
            }
        }
        assert(bch_stream_decodable(bits@, t));
    }
    Ok(out)
}

/// Decoding a BCH stream gives back the zero-padded input bits.
pub proof fn lemma_bch_stream_roundtrip(bits: Seq<bool>, t: u8, out: Seq<bool>)
    requires
        bch_stream_decodes_to(bch_stream(bits, t), t, out),
    ensures
        out == pad_to(bits, bch_k(t)),
{
    lemma_bch_dims(t);
    let n = bch_n(t);
    let k = bch_k(t);
    let enc = bch_stream(bits, t);
    let nb = blocks_for(bits.len() as int, k);
    lemma_blocks_for(bits.len() as int, k);
    let padded = pad_to(bits, k);
    assert((enc.len() as int) / n == nb) by {
        lemma_block_index(nb, 0, n);
    }
    assert forall|i: int| 0 <= i < out.len() implies #[trigger] out[i] == padded[i] by {
        lemma_split_index(i, k);
        let b = i / k;
        let j = i % k;
        lemma_mul_is_commutative(nb, k);
        assert(b < nb) by {
            if b >= nb {
                lemma_mul_inequality(nb, b, k);
            }
        }
        let blk = enc.subrange(b * n, b * n + n);
        let chunk = padded.subrange(b * k, b * k + k);
        lemma_block_bound(b, 0, n, nb);
        lemma_mul_is_distributive_add(n, b, 1);
        lemma_mul_is_commutative(n, b);
        lemma_mul_is_commutative(n, b + 1);
        lemma_mul_inequality(b + 1, nb, n);
        assert(blk =~= bch_codeword(chunk, t)) by {
            assert forall|q: int| 0 <= q < n implies blk[q] == bch_codeword(chunk, t)[q] by {
                lemma_block_index(b, q, n);
            }
        }
        assert(block_decodes_to(blk, t, out.subrange(b * k, b * k + k)));
        lemma_block_bound(b, 0, k, nb);
        lemma_mul_is_distributive_add(k, b, 1);
        lemma_mul_is_commutative(k, b);
        lemma_mul_is_commutative(k, b + 1);
        lemma_mul_inequality(b + 1, nb, k);
        lemma_bch_word_roundtrip(chunk, t, out.subrange(b * k, b * k + k));
        assert(out.subrange(b * k, b * k + k)[j] == out[i]);
    }
    assert(out =~= padded);
}

/// Each 7-bit block of `received` is the matching block of `sent` or differs
/// from it in one position.
pub open spec fn one_flip_per_block(received: Seq<bool>, sent: Seq<bool>) -> bool {
    &&& received.len() == sent.len()
    &&& forall|b: int|
        0 <= b < (sent.len() as int) / 7 ==> #[trigger] received.subrange(7 * b, 7 * b + 7) == sent.subrange(
            7 * b,
            7 * b + 7,
        ) || exists|e: int|
            0 <= e < 7 && received.subrange(7 * b, 7 * b + 7) == flip(sent.subrange(7 * b, 7 * b + 7), seq![e])
}

/// A Hamming(7,4) stream (t = 1) with at most one flipped bit in every block
/// can be decoded: every block is decodable, so `decode_hard` succeeds on it.
pub proof fn lemma_hamming_stream_decodable(bits: Seq<bool>, received: Seq<bool>)
    requires
        one_flip_per_block(received, bch_stream(bits, 1)),
    ensures
        (received.len() as int) % 7 == 0,
        bch_stream_decodable(received, 1),
{
    lemma_bch_dims(1);
    lemma_bch_stream_decodable(bits, 1);
    let n = 7int;
    let k = 4int;
    let enc = bch_stream(bits, 1);
    let nb = blocks_for(bits.len() as int, k);
    lemma_blocks_for(bits.len() as int, k);
    let padded = pad_to(bits, k);
    assert((enc.len() as int) / n == nb) by {
        lemma_block_index(nb, 0, n);
    }
    assert forall|b: int| 0 <= b < (received.len() as int) / n implies #[trigger] decodable(
        received.subrange(b * n, b * n + n),
        1,
    ) by {
        let blk = enc.subrange(b * n, b * n + n);
        let chunk = padded.subrange(b * k, b * k + k);
        lemma_block_bound(b, 0, n, nb);
        lemma_mul_is_distributive_add(n, b, 1);
        lemma_mul_is_commutative(n, b);
        lemma_mul_is_commutative(n, b + 1);
        lemma_mul_inequality(b + 1, nb, n);
        assert(blk =~= bch_codeword(chunk, 1)) by {
            assert forall|q: int| 0 <= q < n implies blk[q] == bch_codeword(chunk, 1)[q] by {
                lemma_block_index(b, q, n);
            }
        }
        lemma_block_bound(b, 0, k, nb);
        lemma_mul_is_distributive_add(k, b, 1);
        lemma_mul_is_commutative(k, b);
        lemma_mul_is_commutative(k, b + 1);
        lemma_mul_inequality(b + 1, nb, k);
        let rb = received.subrange(b * n, b * n + n);
        assert(rb == blk || exists|e: int| 0 <= e < 7 && rb == flip(blk, seq![e]));
        if rb == blk {
            lemma_bch_codeword_decodable(chunk, 1);
        } else {
            let e = choose|e: int| 0 <= e < 7 && rb == flip(blk, seq![e]);
            lemma_hamming_corrects_one(chunk, e, Seq::<bool>::empty());
        }
    }
}

/// The Hamming(7,4) stream (t = 1) corrects one flipped bit in every block: the
/// decoded bits are the input bits, zero-padded.
pub proof fn lemma_hamming_stream_corrects(bits: Seq<bool>, received: Seq<bool>, out: Seq<bool>)
    requires
        one_flip_per_block(received, bch_stream(bits, 1)),
        bch_stream_decodes_to(received, 1, out),
    ensures
        out == pad_to(bits, 4),
{
    lemma_bch_dims(1);
    let n = 7int;
    let k = 4int;
    let enc = bch_stream(bits, 1);
    let nb = blocks_for(bits.len() as int, k);
    lemma_blocks_for(bits.len() as int, k);
    let padded = pad_to(bits, k);
    assert((enc.len() as int) / n == nb) by {
        lemma_block_index(nb, 0, n);
    }
    assert forall|i: int| 0 <= i < out.len() implies #[trigger] out[i] == padded[i] by {
        lemma_split_index(i, k);
        let b = i / k;
        let j = i % k;
        lemma_mul_is_commutative(nb, k);
        assert(b < nb) by {
            if b >= nb {
                lemma_mul_inequality(nb, b, k);
            }
        }
        let blk = enc.subrange(b * n, b * n + n);
        let chunk = padded.subrange(b * k, b * k + k);
        lemma_block_bound(b, 0, n, nb);
        lemma_mul_is_distributive_add(n, b, 1);
        lemma_mul_is_commutative(n, b);
        lemma_mul_is_commutative(n, b + 1);
        lemma_mul_inequality(b + 1, nb, n);
        assert(blk =~= bch_codeword(chunk, 1)) by {
            assert forall|q: int| 0 <= q < n implies blk[q] == bch_codeword(chunk, 1)[q] by {
                lemma_block_index(b, q, n);
            }
        }
        let rb = received.subrange(b * n, b * n + n);
        assert(block_decodes_to(rb, 1, out.subrange(b * k, b * k + k)));
        lemma_block_bound(b, 0, k, nb);
        lemma_mul_is_distributive_add(k, b, 1);
        lemma_mul_is_commutative(k, b);
        lemma_mul_is_commutative(k, b + 1);
        lemma_mul_inequality(b + 1, nb, k);
        assert(rb == blk || exists|e: int| 0 <= e < 7 && rb == flip(blk, seq![e]));
        if rb == blk {
            lemma_bch_word_roundtrip(chunk, 1, out.subrange(b * k, b * k + k));
        } else {
            let e = choose|e: int| 0 <= e < 7 && rb == flip(blk, seq![e]);
            lemma_hamming_corrects_one(chunk, e, out.subrange(b * k, b * k + k));
        }
        assert(out.subrange(b * k, b * k + k)[j] == out[i]);
    }
    assert(out =~= padded);
}

/// Every 15-bit block of `received` is the matching block of `sent` with at most
/// two bits flipped.
pub open spec fn two_flips_per_block(received: Seq<bool>, sent: Seq<bool>) -> bool {
    &&& received.len() == sent.len()
    &&& forall|b: int|
        0 <= b < (sent.len() as int) / 15 ==> exists|e: Seq<int>|
            is_combo(e, 15) && e.len() <= 2 && #[trigger] received.subrange(15 * b, 15 * b + 15) == flip(
                sent.subrange(15 * b, 15 * b + 15),
                e,
            )
}

/// A BCH(15,7) stream (t = 2) with at most two flipped bits in every block
/// can be decoded: every block is decodable, so `decode_hard` succeeds on it.
pub proof fn lemma_bch15_stream_decodable(bits: Seq<bool>, received: Seq<bool>)
    requires
        two_flips_per_block(received, bch_stream(bits, 2)),
    ensures
        (received.len() as int) % 15 == 0,
        bch_stream_decodable(received, 2),
{
    lemma_bch_dims(2);
    lemma_bch_stream_decodable(bits, 2);
    let n = 15int;
    let k = 7int;
    let enc = bch_stream(bits, 2);
    let nb = blocks_for(bits.len() as int, k);
    lemma_blocks_for(bits.len() as int, k);
    let padded = pad_to(bits, k);
    assert((enc.len() as int) / n == nb) by {
        lemma_block_index(nb, 0, n);
    }
    assert forall|b: int| 0 <= b < (received.len() as int) / n implies #[trigger] decodable(
        received.subrange(b * n, b * n + n),
        2,
    ) by {
        let blk = enc.subrange(b * n, b * n + n);
        let chunk = padded.subrange(b * k, b * k + k);
        lemma_block_bound(b, 0, n, nb);
        lemma_mul_is_distributive_add(n, b, 1);
        lemma_mul_is_commutative(n, b);
        lemma_mul_is_commutative(n, b + 1);
        lemma_mul_inequality(b + 1, nb, n);
        assert(blk =~= bch_codeword(chunk, 2)) by {
            assert forall|q: int| 0 <= q < n implies blk[q] == bch_codeword(chunk, 2)[q] by {
                lemma_block_index(b, q, n);
            }
        }
        lemma_block_bound(b, 0, k, nb);
        lemma_mul_is_distributive_add(k, b, 1);
        lemma_mul_is_commutative(k, b);
        lemma_mul_is_commutative(k, b + 1);
        lemma_mul_inequality(b + 1, nb, k);
        let rb = received.subrange(b * n, b * n + n);
        let e = choose|e: Seq<int>| is_combo(e, 15) && e.len() <= 2 && rb == flip(blk, e);
        lemma_bch15_corrects_two(chunk, e, Seq::<bool>::empty());
    }
}

/// The BCH(15,7) stream (t = 2) corrects up to two flipped bits in every block:
/// the decoded bits are the input bits, zero-padded.
pub proof fn lemma_bch15_stream_corrects(bits: Seq<bool>, received: Seq<bool>, out: Seq<bool>)
    requires
        two_flips_per_block(received, bch_stream(bits, 2)),
        bch_stream_decodes_to(received, 2, out),
    ensures
        out == pad_to(bits, 7),
{
    lemma_bch_dims(2);
    let n = 15int;
    let k = 7int;
    let enc = bch_stream(bits, 2);
    let nb = blocks_for(bits.len() as int, k);
    lemma_blocks_for(bits.len() as int, k);
    let padded = pad_to(bits, k);
    assert((enc.len() as int) / n == nb) by {
        lemma_block_index(nb, 0, n);
    }
    assert forall|i: int| 0 <= i < out.len() implies #[trigger] out[i] == padded[i] by {
        lemma_split_index(i, k);
        let b = i / k;
        let j = i % k;
        lemma_mul_is_commutative(nb, k);
        assert(b < nb) by {
            if b >= nb {
                lemma_mul_inequality(nb, b, k);
            }
        }
        let blk = enc.subrange(b * n, b * n + n);
        let chunk = padded.subrange(b * k, b * k + k);
        lemma_block_bound(b, 0, n, nb);
        lemma_mul_is_distributive_add(n, b, 1);
        lemma_mul_is_commutative(n, b);
        lemma_mul_is_commutative(n, b + 1);
        lemma_mul_inequality(b + 1, nb, n);
        assert(blk =~= bch_codeword(chunk, 2)) by {
            assert forall|q: int| 0 <= q < n implies blk[q] == bch_codeword(chunk, 2)[q] by {
                lemma_block_index(b, q, n);
            }
        }
        let rb = received.subrange(b * n, b * n + n);
        assert(block_decodes_to(rb, 2, out.subrange(b * k, b * k + k)));
        lemma_block_bound(b, 0, k, nb);
        lemma_mul_is_distributive_add(k, b, 1);
        lemma_mul_is_commutative(k, b);
        lemma_mul_is_commutative(k, b + 1);
        lemma_mul_inequality(b + 1, nb, k);
        let e = choose|e: Seq<int>| is_combo(e, 15) && e.len() <= 2 && rb == flip(blk, e);
        lemma_bch15_corrects_two(chunk, e, out.subrange(b * k, b * k + k));
        assert(out.subrange(b * k, b * k + k)[j] == out[i]);
    }
    assert(out =~= padded);
}

/// Every block of a BCH-encoded stream can be decoded.
pub proof fn lemma_bch_stream_decodable(bits: Seq<bool>, t: u8)
    ensures
        (bch_stream(bits, t).len() as int) % bch_n(t) == 0,
        bch_stream_decodable(bch_stream(bits, t), t),
{
    lemma_bch_dims(t);
    let n = bch_n(t);
    let k = bch_k(t);
    let enc = bch_stream(bits, t);
    let nb = blocks_for(bits.len() as int, k);
    lemma_blocks_for(bits.len() as int, k);
    lemma_block_index(nb, 0, n);
    let padded = pad_to(bits, k);
    assert forall|b: int| 0 <= b < (enc.len() as int) / n implies #[trigger] decodable(
        enc.subrange(b * n, b * n + n),
        t,
    ) by {
        let blk = enc.subrange(b * n, b * n + n);
        let chunk = padded.subrange(b * k, b * k + k);
        lemma_block_bound(b, 0, n, nb);
        lemma_mul_is_distributive_add(n, b, 1);
        lemma_mul_is_commutative(n, b);
        lemma_mul_is_commutative(n, b + 1);
        lemma_mul_inequality(b + 1, nb, n);
        lemma_block_bound(b, 0, k, nb);
        lemma_mul_is_distributive_add(k, b, 1);
        lemma_mul_is_commutative(k, b);
        lemma_mul_is_commutative(k, b + 1);
        lemma_mul_inequality(b + 1, nb, k);
        assert(blk =~= bch_codeword(chunk, t)) by {
            assert forall|q: int| 0 <= q < n implies blk[q] == bch_codeword(chunk, t)[q] by {
                lemma_block_index(b, q, n);
            }
        }
        lemma_bch_codeword_decodable(chunk, t);
    }
}


// ── Reed-Solomon blocks ─────────────────────────────────────────────────────

/// Data chunk `b` of length `k`, zero-padded past the end of `data`.
pub open spec fn rs_chunk(data: Seq<u8>, k: int, b: int) -> Seq<u8> {
    Seq::new(k as nat, |i: int| if b * k + i < data.len() { data[b * k + i] } else { 0u8 })
}

/// Block encoding: every padded `k`-byte chunk followed by its `n-k` parity bytes.
pub open spec fn rs_blocks(data: Seq<u8>, n: int, k: int) -> Seq<u8> {
    Seq::new(
        (blocks_for(data.len() as int, k) * n) as nat,
        |i: int|
            if i % n < k {
                rs_chunk(data, k, i / n)[i % n]
            } else {
                rs_parity(rs_chunk(data, k, i / n), (n - k) as nat)[i % n - k]
            },
    )
}

/// Block `b` of `coded` carries the parity of its data part.
pub open spec fn rs_block_ok(coded: Seq<u8>, n: int, k: int, b: int) -> bool {
    coded.subrange(b * n + k, b * n + n) == rs_parity(coded.subrange(b * n, b * n + k), (n - k) as nat)
}

/// The data parts of all blocks, concatenated.
pub open spec fn rs_data(coded: Seq<u8>, n: int, k: int) -> Seq<u8> {
    Seq::new((((coded.len() as int) / n) * k) as nat, |i: int| coded[(i / k) * n + i % k])
}

/// `data` zero-padded to a whole number of `k`-byte chunks.
pub open spec fn rs_padded(data: Seq<u8>, k: int) -> Seq<u8> {
    Seq::new(
        (blocks_for(data.len() as int, k) * k) as nat,
        |i: int| if i < data.len() { data[i] } else { 0u8 },
    )
}

proof fn lemma_rs_parity_len(data: Seq<u8>, nsym: nat)
    ensures
        rs_parity(data, nsym).len() == nsym,
{
    rs::lemma_rs_parity_len(data, nsym);
}

fn block_encode_rs(data: &[u8], n: usize, k: usize) -> (out: Vec<u8>)
    requires
        0 < k < n <= 255,
    ensures
        out@ == rs_blocks(data@, n as int, k as int),
{
    let nsym = n - k;
    let len = data.len();
    proof {
        lemma_blocks_for(len as int, k as int);
    }
    let mut out: Vec<u8> = Vec::new();
    let mut pos: usize = 0;
    let ghost mut b: int = 0;
    while pos < len
        invariant
            0 < k < n <= 255,
            nsym == n - k,
            len == data@.len(),
            blocks_for(len as int, k as int) >= 0,
            blocks_for(len as int, k as int) * k >= len,
            blocks_for(len as int, k as int) * k < len + k,
            len == 0 ==> blocks_for(len as int, k as int) == 0,
            b >= 0,
            pos <= len,
            pos < len ==> pos == b * k,
            pos < len ==> b < blocks_for(len as int, k as int),
            pos >= len ==> b == blocks_for(len as int, k as int),
            out@.len() == b * n,
            forall|i: int| 0 <= i < out@.len() ==> #[trigger] out@[i] == rs_blocks(data@, n as int, k as int)[i],
        decreases len - pos,
    {
        let mut padded: Vec<u8> = Vec::new();
        let mut j: usize = 0;
        while j < k
            invariant
                0 <= j <= k,
                0 < k,
                len == data@.len(),
                pos < len,
                pos == b * k,
                b >= 0,
                padded@.len() == j,
                forall|m: int| 0 <= m < j ==> #[trigger] padded@[m] == rs_chunk(data@, k as int, b)[m],
            decreases k - j,
        {
            let v = if j < len - pos { data[pos + j] } else { 0u8 };
            padded.push(v);
            j += 1;
        }
        proof {
            assert(padded@ =~= rs_chunk(data@, k as int, b));
        }
        let encoded = encode_systematic(&padded, nsym);
        proof {
            lemma_rs_parity_len(padded@, nsym as nat);
            lemma_block_bound(b, 0, n as int, blocks_for(len as int, k as int));
        }
        let mut q: usize = 0;
        while q < n
            invariant
                0 <= q <= n,
                0 < k < n <= 255,
                nsym == n - k,
                b >= 0,
                b < blocks_for(len as int, k as int),
                len == data@.len(),
                encoded@ == rs_chunk(data@, k as int, b) + rs_parity(rs_chunk(data@, k as int, b), nsym as nat),
                encoded@.len() == n,
                out@.len() == b * n + q,
                forall|i: int| 0 <= i < out@.len() ==> #[trigger] out@[i] == rs_blocks(data@, n as int, k as int)[i],
            decreases n - q,
        {
            proof {
                lemma_block_index(b, q as int, n as int);
                lemma_block_bound(b, q as int, n as int, blocks_for(len as int, k as int));
            }
            out.push(encoded[q]);
            q += 1;
        }
        proof {
            lemma_mul_is_distributive_add(n as int, b, 1);
            lemma_mul_is_commutative(n as int, b);
            lemma_mul_is_commutative(n as int, b + 1);
            lemma_mul_is_distributive_add(k as int, b, 1);
            lemma_mul_is_commutative(k as int, b);
            lemma_mul_is_commutative(k as int, b + 1);
            if pos + k < len {
                assert(b + 1 < blocks_for(len as int, k as int)) by {
                    if b + 1 >= blocks_for(len as int, k as int) {
                        lemma_mul_inequality(blocks_for(len as int, k as int), b + 1, k as int);
                    }
                }
            } else {
                assert(b + 1 == blocks_for(len as int, k as int)) by {
                    if b + 1 < blocks_for(len as int, k as int) {
                        lemma_mul_inequality(b + 2, blocks_for(len as int, k as int), k as int);
                        lemma_mul_is_distributive_add(k as int, b + 1, 1);
                        lemma_mul_is_commutative(k as int, b + 2);
                    }
                }
            }
            b = b + 1;
        }
        if len - pos > k {
            pos = pos + k;
        } else {
            pos = len;
        }
    }
    proof {
        if len == 0 {
            assert(blocks_for(0, k as int) == 0);
        }
        assert(out@ =~= rs_blocks(data@, n as int, k as int));
    }
    out
}

fn block_decode_rs(coded: &[u8], n: usize, k: usize) -> (r: Result<Vec<u8>, EccError>)
    requires
        0 < k < n <= 255,
    ensures
        (coded@.len() as int) % (n as int) != 0 <==> r == Err::<Vec<u8>, EccError>(EccError::RsLength),
        (coded@.len() as int) % (n as int) == 0 && !(forall|b: int|
            0 <= b < (coded@.len() as int) / (n as int) ==> #[trigger] rs_block_ok(
                coded@,
                n as int,
                k as int,
                b,
            )) <==> r == Err::<Vec<u8>, EccError>(EccError::RsParityMismatch),
        r matches Ok(out) ==> out@ == rs_data(coded@, n as int, k as int),
        r is Err ==> r == Err::<Vec<u8>, EccError>(EccError::RsLength) || r == Err::<Vec<u8>, EccError>(
            EccError::RsParityMismatch,
        ),
{
    let nsym = n - k;
    let len = coded.len();
    if len % n != 0 {
        return Err(EccError::RsLength);
    }
    let ghost nb: int = (len / n) as int;
    proof {
        lemma_split_index(len as int, n as int);
    }
    let mut out: Vec<u8> = Vec::new();
    let mut pos: usize = 0;
    let ghost mut b: int = 0;
    while pos < len
        invariant
            0 < k < n <= 255,
            nsym == n - k,
            len == coded@.len(),
            len % n == 0,
            nb == len / n,
            len == nb * n,
            0 <= b <= nb,
            pos == b * n,
            out@.len() == b * k,
            forall|i: int| 0 <= i < out@.len() ==> #[trigger] out@[i] == coded@[(i / (k as int)) * (n as int) + i % (k as int)],
            forall|bb: int| 0 <= bb < b ==> #[trigger] rs_block_ok(coded@, n as int, k as int, bb),
        decreases len - pos,
    {
        proof {
            assert(b < nb) by {
                if b >= nb {
                    lemma_mul_inequality(nb, b, n as int);
                }
            }
            lemma_mul_is_distributive_add(n as int, b, 1);
            lemma_mul_is_commutative(n as int, b);
            lemma_mul_is_commutative(n as int, b + 1);
            lemma_mul_inequality(b + 1, nb, n as int);
        }
        let mut data_part: Vec<u8> = Vec::new();
        let mut parity_part: Vec<u8> = Vec::new();
        let mut j: usize = 0;
        while j < n
            invariant
                0 <= j <= n,
                0 < k < n,
                pos + n <= len,
                len == coded@.len(),
                j <= k ==> data_part@.len() == j,
                j <= k ==> parity_part@.len() == 0,
                j > k ==> data_part@.len() == k,
                j > k ==> parity_part@.len() == j - k,
                forall|m: int| 0 <= m < data_part@.len() ==> #[trigger] data_part@[m] == coded@[pos + m],
                forall|m: int| 0 <= m < parity_part@.len() ==> #[trigger] parity_part@[m] == coded@[pos + k + m],
            decreases n - j,
        {
            if j < k {
                data_part.push(coded[pos + j]);
            } else {
                parity_part.push(coded[pos + j]);
            }
            j += 1;
        }
        proof {
            assert(data_part@ =~= coded@.subrange(b * n, b * n + k));
            assert(parity_part@ =~= coded@.subrange(b * n + k, b * n + n));
        }
        let recomputed = encode_systematic(&data_part, nsym);
        proof {
            lemma_rs_parity_len(data_part@, nsym as nat);
        }
        let mut same = true;
        let mut q: usize = 0;
        while q < nsym
            invariant
                0 <= q <= nsym,
                nsym == n - k,
                recomputed@ == data_part@ + rs_parity(data_part@, nsym as nat),
                recomputed@.len() == k + nsym,
                data_part@.len() == k,
                parity_part@.len() == nsym,
                same == (forall|m: int| 0 <= m < q ==> recomputed@[k + m] == #[trigger] parity_part@[m]),
            decreases nsym - q,
        {
            if recomputed[k + q] != parity_part[q] {
                same = false;
            }
            q += 1;
        }
        if !same {
            proof {
                assert(!rs_block_ok(coded@, n as int, k as int, b)) by {
                    let m = choose|m: int| 0 <= m < nsym && !(recomputed@[k + m] == #[trigger] parity_part@[m]);
                    assert(rs_parity(data_part@, nsym as nat)[m] == recomputed@[k + m]);
                }
            }
            return Err(EccError::RsParityMismatch);
        }
        proof {
            assert(rs_parity(data_part@, nsym as nat) =~= parity_part@) by {
                assert forall|m: int| 0 <= m < nsym implies rs_parity(data_part@, nsym as nat)[m] == parity_part@[m] by {
                    assert(recomputed@[k + m] == parity_part@[m]);
                }
            }
            assert(rs_block_ok(coded@, n as int, k as int, b));
        }
        let ghost before = out@;
        let mut m: usize = 0;
        while m < k
            invariant
                0 <= m <= k,
                0 < k < n,
                b >= 0,
                pos == b * n,
                data_part@.len() == k,
                forall|q: int| 0 <= q < k ==> #[trigger] data_part@[q] == coded@[pos + q],
                before.len() == b * k,
                out@.len() == b * k + m,
                forall|i: int| 0 <= i < before.len() ==> #[trigger] out@[i] == before[i],
                forall|i: int| 0 <= i < before.len() ==> #[trigger] before[i] == coded@[(i / (k as int)) * (n as int) + i % (k as int)],
                forall|i: int| 0 <= i < out@.len() ==> #[trigger] out@[i] == coded@[(i / (k as int)) * (n as int) + i % (k as int)],
            decreases k - m,
        {
            proof {
                lemma_block_index(b, m as int, k as int);
            }
            out.push(data_part[m]);
            m += 1;
        }
        proof {
            lemma_mul_is_distributive_add(k as int, b, 1);
            lemma_mul_is_commutative(k as int, b);
            lemma_mul_is_commutative(k as int, b + 1);
        }
        pos += n;
        proof {
            b = b + 1;
        }
    }
    proof {
        assert(b == nb) by {
            if b < nb {
                lemma_mul_strict_inequality(b, nb, n as int);
            }
        }
        assert(out@ =~= rs_data(coded@, n as int, k as int));
    }
    Ok(out)
}

/// Block decoding of a block encoding succeeds and returns the zero-padded data.
pub proof fn lemma_rs_blocks_roundtrip(data: Seq<u8>, n: int, k: int)
    requires
        0 < k < n,
    ensures
        (rs_blocks(data, n, k).len() as int) % n == 0,
        forall|b: int|
            0 <= b < (rs_blocks(data, n, k).len() as int) / n ==> #[trigger] rs_block_ok(
                rs_blocks(data, n, k),
                n,
                k,
                b,
            ),
        rs_data(rs_blocks(data, n, k), n, k) == rs_padded(data, k),
{
    let enc = rs_blocks(data, n, k);
    let nb = blocks_for(data.len() as int, k);
    lemma_blocks_for(data.len() as int, k);
    lemma_block_index(nb, 0, n);
    assert forall|b: int| 0 <= b < (enc.len() as int) / n implies #[trigger] rs_block_ok(enc, n, k, b) by {
        let chunk = rs_chunk(data, k, b);
        lemma_block_bound(b, 0, n, nb);
        lemma_mul_is_distributive_add(n, b, 1);
        lemma_mul_is_commutative(n, b);
        lemma_mul_is_commutative(n, b + 1);
        lemma_mul_inequality(b + 1, nb, n);
        lemma_rs_parity_len(chunk, (n - k) as nat);
        assert(enc.subrange(b * n, b * n + k) =~= chunk) by {
            assert forall|q: int| 0 <= q < k implies enc.subrange(b * n, b * n + k)[q] == chunk[q] by {
                lemma_block_index(b, q, n);
            }
        }
        assert(enc.subrange(b * n + k, b * n + n) =~= rs_parity(chunk, (n - k) as nat)) by {
            assert forall|q: int| 0 <= q < n - k implies #[trigger] enc.subrange(b * n + k, b * n + n)[q] == rs_parity(
                chunk,
                (n - k) as nat,
            )[q] by {
                lemma_block_index(b, k + q, n);
            }
        }
    }
    let dec = rs_data(enc, n, k);
    let pad = rs_padded(data, k);
    assert(dec.len() == pad.len()) by {
        lemma_mul_is_commutative(nb, k);
    }
    assert forall|i: int| 0 <= i < dec.len() implies #[trigger] dec[i] == pad[i] by {
        lemma_split_index(i, k);
        let b = i / k;
        let j = i % k;
        assert(b < nb) by {
            if b >= nb {
                lemma_mul_inequality(nb, b, k);
                lemma_mul_is_commutative(nb, k);
            }
        }
        lemma_block_index(b, j, n);
        lemma_block_bound(b, j, n, nb);
    }
    assert(dec =~= pad);
}

// ── Profile-level API ───────────────────────────────────────────────────────

/// What `encode` produces for `bytes` under `profile`.
pub open spec fn ecc_encoded(bytes: Seq<u8>, profile: Profile) -> Seq<u8> {
    match profile {
        Profile::Repetition8 => bitbytes_of(rep_encode(bits_of(bytes))),
        Profile::Bch { t } => bitbytes_of(bch_stream(bits_of(bytes), t)),
        Profile::RsInterleaved { n, k, interleave_depth } => {
            if k == 0 || n <= k {
                bytes
            } else if interleave_depth > 1 {
                interleaved(rs_blocks(bytes, n as int, k as int), interleave_depth as int)
            } else {
                rs_blocks(bytes, n as int, k as int)
            }
        },
    }
}

pub fn bits_to_bitbytes(bits: &[bool]) -> (out: Vec<u8>)
    ensures
        out@ == bitbytes_of(bits@),
{
    let mut out: Vec<u8> = Vec::new();
    let mut i: usize = 0;
    while i < bits.len()
        invariant
            0 <= i <= bits@.len(),
            out@ == bitbytes_of(bits@.take(i as int)),
        decreases bits@.len() - i,
    {
        out.push(if bits[i] { 1u8 } else { 0u8 });
        i += 1;
        proof {
            assert(out@ =~= bitbytes_of(bits@.take(i as int)));
        }
    }
    proof {
        assert(bits@.take(bits@.len() as int) =~= bits@);
    }
    out
}

pub fn bitbytes_to_bits(bitbytes: &[u8]) -> (out: Vec<bool>)
    ensures
        out@ == bits_of_bitbytes(bitbytes@),
{
    let mut out: Vec<bool> = Vec::new();
    let mut i: usize = 0;
    while i < bitbytes.len()
        invariant
            0 <= i <= bitbytes@.len(),
            out@ == bits_of_bitbytes(bitbytes@.take(i as int)),
        decreases bitbytes@.len() - i,
    {
        out.push(bitbytes[i] != 0);
        i += 1;
        proof {
            assert(out@ =~= bits_of_bitbytes(bitbytes@.take(i as int)));
        }
    }
    proof {
        assert(bitbytes@.take(bitbytes@.len() as int) =~= bitbytes@);
    }
    out
}

/// Encode `bytes` under `profile`. Bit-level codes give one 0/1 byte per coded bit;
/// Reed-Solomon gives the coded bytes (interleaved when the depth is above 1).
pub fn encode(bytes: &[u8], profile: Profile) -> (out: Vec<u8>)
    ensures
        out@ == ecc_encoded(bytes@, profile),
{
    match profile {
        Profile::Repetition8 => {
            let bits = bytes_to_bits(bytes);
            let rep = encode_repetition(&bits);
            bits_to_bitbytes(&rep)
        },
        Profile::Bch { t } => {
            let bits = bytes_to_bits(bytes);
            let enc = encode_bch(&bits, t);
            bits_to_bitbytes(&enc)
        },
        Profile::RsInterleaved { n, k, interleave_depth } => {
            let n_us = n as usize;
            let k_us = k as usize;
            if k_us == 0 || n_us <= k_us {
                vstd::slice::slice_to_vec(bytes)
            } else {
                let enc = block_encode_rs(bytes, n_us, k_us);
                if interleave_depth > 1 {
                    let out = interleave(&enc, interleave_depth);
                    proof {
                        lemma_interleave_is_interleaved(enc@, out@, interleave_depth as int);
                    }
                    out
                } else {
                    enc
                }
            }
        },
    }
}

/// Hard-bit decode for the bit-level profiles.
pub fn decode_hard(bits: &[bool], profile: Profile) -> (r: Result<Vec<u8>, EccError>)
    ensures
        match profile {
            Profile::Repetition8 => {
                &&& (bits@.len() % 8 != 0 <==> r == Err::<Vec<u8>, EccError>(EccError::RepetitionLength))
                &&& (bits@.len() % 8 == 0 <==> r is Ok)
                &&& (r matches Ok(out) ==> out@ == pack_bits(rep_decode(bits@)))
            },
            Profile::Bch { t } => {
                &&& ((bits@.len() as int) % bch_n(t) != 0 <==> r == Err::<Vec<u8>, EccError>(
                    EccError::BchLength,
                ))
                &&& ((bits@.len() as int) % bch_n(t) == 0 && !bch_stream_decodable(bits@, t) <==> r
                    == Err::<Vec<u8>, EccError>(EccError::BchUncorrectable))
                &&& ((bits@.len() as int) % bch_n(t) == 0 && bch_stream_decodable(bits@, t) <==> r is Ok)
                &&& (r matches Ok(out) ==> exists|dec: Seq<bool>|
                    #[trigger] bch_stream_decodes_to(bits@, t, dec) && out@ == pack_bits(dec))
            },
            Profile::RsInterleaved { .. } => r == Err::<Vec<u8>, EccError>(
                EccError::RsNeedsByteDecode,
            ),
        },
{
    match profile {
        Profile::Repetition8 => match decode_repetition_hard(bits) {
            Ok(decoded_bits) => Ok(bits_to_bytes(&decoded_bits)),
            Err(e) => Err(e),
        },
        Profile::Bch { t } => match decode_bch_hard(bits, t) {
            Ok(decoded_bits) => Ok(bits_to_bytes(&decoded_bits)),
            Err(e) => Err(e),
        },
        Profile::RsInterleaved { .. } => Err(EccError::RsNeedsByteDecode),
    }
}

/// Coded bytes recovered from hard bits: packed 8 per byte, then de-interleaved.
pub open spec fn rs_received(bits: Seq<bool>, interleave_depth: u8) -> Seq<u8> {
    if interleave_depth > 1 {
        deinterleaved(pack_bits(bits), interleave_depth as int)
    } else {
        pack_bits(bits)
    }
}

/// Hard decision on the Reed-Solomon path: pack 8 bits per byte, de-interleave,
/// then check every block's parity and keep its data bytes.
pub fn decode_rs_hard(bits: &[bool], n: u8, k: u8, interleave_depth: u8) -> (r: Result<Vec<u8>, EccError>)
    ensures
        bits@.len() % 8 != 0 <==> r == Err::<Vec<u8>, EccError>(EccError::RsSoftLength),
        bits@.len() % 8 == 0 && (k == 0 || n <= k) <==> r == Err::<Vec<u8>, EccError>(
            EccError::RsInvalidParams,
        ),
        bits@.len() % 8 == 0 && k > 0 && n > k ==> ({
            let coded = rs_received(bits@, interleave_depth);
            &&& ((coded.len() as int) % (n as int) != 0 <==> r == Err::<Vec<u8>, EccError>(
                EccError::RsLength,
            ))
            &&& ((coded.len() as int) % (n as int) == 0 && !(forall|b: int|
                0 <= b < (coded.len() as int) / (n as int) ==> #[trigger] rs_block_ok(
                    coded,
                    n as int,
                    k as int,
                    b,
                )) <==> r == Err::<Vec<u8>, EccError>(EccError::RsParityMismatch))
            &&& (r matches Ok(out) ==> out@ == rs_data(coded, n as int, k as int))
        }),
{
    if bits.len() % 8 != 0 {
        return Err(EccError::RsSoftLength);
    }
    let hard_bytes = bits_to_bytes(bits);
    let deint = if interleave_depth > 1 {
        let d = deinterleave(&hard_bytes, interleave_depth);
        proof {
            lemma_deinterleave_is_deinterleaved(hard_bytes@, d@, interleave_depth as int);
        }
        d
    } else {
        hard_bytes
    };
    proof {
        assert(deint@ == rs_received(bits@, interleave_depth));
    }
    let n_us = n as usize;
    let k_us = k as usize;
    if k_us == 0 || n_us <= k_us {
        return Err(EccError::RsInvalidParams);
    }
    block_decode_rs(&deint, n_us, k_us)
}

/// Bytes → hard bits (MSB first), for interop with existing carriers.
pub fn bytes_to_hard_bits(bytes: &[u8]) -> (out: Vec<bool>)
    ensures
        out@ == bits_of(bytes@),
{
    bytes_to_bits(bytes)
}

/// Coded length in bits for `sealed_len` input bytes under `profile`.
pub open spec fn coded_bits_len_spec(sealed_len: int, profile: Profile) -> int {
    match profile {
        Profile::Repetition8 => sealed_len * 64,
        Profile::Bch { t } => blocks_for(sealed_len * 8, bch_k(t)) * bch_n(t),
        Profile::RsInterleaved { n, k, .. } => {
            if k == 0 || n <= k {
                sealed_len * 8
            } else {
                blocks_for(sealed_len, k as int) * (n as int) * 8
            }
        },
    }
}

/// Expected coded length in bits for `sealed_len` bytes: the number of coded bits
/// (bit-level codes) or eight times the number of coded bytes (Reed-Solomon).
pub fn coded_bits_len(sealed_len: usize, profile: Profile) -> (r: usize)
    requires
        sealed_len <= usize::MAX / 4096,
    ensures
        r == coded_bits_len_spec(sealed_len as int, profile),
        match profile {
            Profile::RsInterleaved { .. } => r == ecc_encoded(Seq::new(sealed_len as nat, |i: int| 0u8), profile).len() * 8,
            _ => r == ecc_encoded(Seq::new(sealed_len as nat, |i: int| 0u8), profile).len(),
        },
{
    let ghost zeros = Seq::new(sealed_len as nat, |i: int| 0u8);
    match profile {
        Profile::Repetition8 => sealed_len * 64,
        Profile::Bch { t } => {
            proof {
                lemma_bch_dims(t);
                lemma_blocks_for(sealed_len * 8, bch_k(t));
            }
            let (n, k) = crate::bch::bch_params(t);
            let bits = sealed_len * 8;
            let blocks = if bits % k == 0 { bits / k } else { bits / k + 1 };
            proof {
                assert(blocks * k <= bits + k);
                lemma_mul_inequality(blocks as int, bits as int + 1, n as int);
                assert((bits as int + 1) * (n as int) <= usize::MAX) by (nonlinear_arith)
                    requires
                        bits <= usize::MAX / 512,
                        n <= 63,
                ;
                assert(blocks <= bits + 1) by {
                    if blocks > bits + 1 {
                        lemma_mul_inequality(bits as int + 2, blocks as int, k as int);
                        assert((bits as int + 2) * (k as int) > bits + k) by (nonlinear_arith)
                            requires
                                k >= 4,
                        ;
                    }
                }
                lemma_mul_inequality(blocks as int, bits as int + 1, n as int);
            }
            blocks * n
        },
        Profile::RsInterleaved { n, k, interleave_depth } => {
            if k == 0 || n <= k {
                sealed_len * 8
            } else {
                let n_us = n as usize;
                let k_us = k as usize;
                let blocks = if sealed_len % k_us == 0 { sealed_len / k_us } else { sealed_len / k_us + 1 };
                proof {
                    lemma_blocks_for(sealed_len as int, k as int);
                    assert(blocks <= sealed_len + 1) by {
                        if blocks > sealed_len + 1 {
                            lemma_mul_inequality(sealed_len as int + 2, blocks as int, k as int);
                            assert((sealed_len as int + 2) * (k as int) > sealed_len + k) by (nonlinear_arith)
                                requires
                                    k >= 1,
                            ;
                        }
                    }
                    assert((sealed_len as int + 1) * 255 * 8 <= usize::MAX) by (nonlinear_arith)
                        requires
                            sealed_len <= usize::MAX / 4096,
                    ;
                    lemma_mul_inequality(blocks as int, sealed_len as int + 1, n as int);
                    lemma_mul_inequality(n as int, 255, sealed_len as int + 1);
                    lemma_mul_is_commutative(n as int, sealed_len as int + 1);
                    lemma_mul_inequality(blocks as int * n as int, (sealed_len as int + 1) * 255, 8);
                    if interleave_depth > 1 {
                        crate::interleave::lemma_interleave_order_permutation(
                            rs_blocks(zeros, n as int, k as int).len() as int,
                            interleave_depth as int,
                        );
                    }
                }
                blocks * n_us * 8
            }
        },
    }
}

/// Any profile's encoding decodes back to the zero-padded input: repetition and
/// BCH through `decode_hard` on the coded bits, Reed-Solomon through `decode_rs_hard`
/// on the bits of the coded bytes.
pub proof fn lemma_rs_profile_roundtrip(bytes: Seq<u8>, n: u8, k: u8, d: u8)
    requires
        0 < k < n,
    ensures
        ({
            let enc = ecc_encoded(bytes, Profile::RsInterleaved { n, k, interleave_depth: d });
            let coded = rs_received(bits_of(enc), d);
            &&& (bits_of(enc).len() % 8 == 0)
            &&& (coded.len() as int) % (n as int) == 0
            &&& forall|b: int| 0 <= b < (coded.len() as int) / (n as int) ==> #[trigger] rs_block_ok(coded, n as int, k as int, b)
            &&& rs_data(coded, n as int, k as int) == rs_padded(bytes, k as int)
        }),
{
    let enc = ecc_encoded(bytes, Profile::RsInterleaved { n, k, interleave_depth: d });
    lemma_pack_bits_of(enc);
    let blocks = rs_blocks(bytes, n as int, k as int);
    if d > 1 {
        lemma_deinterleaved_interleaved(blocks, d as int);
    }
    lemma_rs_blocks_roundtrip(bytes, n as int, k as int);
}

/// Repetition roundtrip at the byte level.
pub proof fn lemma_repetition_profile_roundtrip(bytes: Seq<u8>)
    ensures
        bits_of_bitbytes(ecc_encoded(bytes, Profile::Repetition8)).len() % 8 == 0,
        pack_bits(rep_decode(bits_of_bitbytes(ecc_encoded(bytes, Profile::Repetition8)))) == bytes,
{
    let enc = rep_encode(bits_of(bytes));
    assert(bits_of_bitbytes(bitbytes_of(enc)) =~= enc);
    lemma_rep_roundtrip(bits_of(bytes));
    lemma_pack_bits_of(bytes);
}

/// BCH roundtrip at the byte level: the decoded bits are the input bits, zero-padded.
pub proof fn lemma_bch_profile_roundtrip(bytes: Seq<u8>, t: u8, dec: Seq<bool>)
    requires
        bch_stream_decodes_to(bits_of_bitbytes(ecc_encoded(bytes, Profile::Bch { t })), t, dec),
    ensures
        dec == pad_to(bits_of(bytes), bch_k(t)),
        pack_bits(dec).len() >= bytes.len(),
        pack_bits(dec).subrange(0, bytes.len() as int) == bytes,
{
    let enc = bch_stream(bits_of(bytes), t);
    assert(bits_of_bitbytes(bitbytes_of(enc)) =~= enc);
    lemma_bch_stream_roundtrip(bits_of(bytes), t, dec);
    lemma_bch_dims(t);
    lemma_blocks_for(bits_of(bytes).len() as int, bch_k(t));
    assert(dec.subrange(0, bits_of(bytes).len() as int) =~= bits_of(bytes));
    lemma_pack_prefix(bytes, dec);
}

/// Every block of a BCH-coded byte string is decodable.
pub proof fn lemma_bch_profile_decodable(bytes: Seq<u8>, t: u8)
    ensures
        (bits_of_bitbytes(ecc_encoded(bytes, Profile::Bch { t })).len() as int) % bch_n(t) == 0,
        bch_stream_decodable(bits_of_bitbytes(ecc_encoded(bytes, Profile::Bch { t })), t),
{
    let enc = bch_stream(bits_of(bytes), t);
    assert(bits_of_bitbytes(bitbytes_of(enc)) =~= enc);
    lemma_bch_stream_decodable(bits_of(bytes), t);
}

proof fn lemma_pack_prefix(bytes: Seq<u8>, dec: Seq<bool>)
    requires
        dec.len() >= bits_of(bytes).len(),
        dec.subrange(0, bits_of(bytes).len() as int) == bits_of(bytes),
    ensures
        pack_bits(dec).subrange(0, bytes.len() as int) == bytes,
{
    let bits = bits_of(bytes);
    lemma_pack_bits_of(bytes);
    assert forall|j: int| 0 <= j < bytes.len() implies #[trigger] pack_bits(dec)[j] == bytes[j] by {
        assert(crate::bits::chunk8(dec, j) =~= crate::bits::chunk8(bits, j));
        assert(pack_bits(bits)[j] == bytes[j]);
    }
    assert(pack_bits(dec).subrange(0, bytes.len() as int) =~= bytes);
}

} // verus!
