//! Facts about single bits of `u64` words, used by the BCH polynomial arithmetic.
use vstd::prelude::*;

verus! {

/// Bit `j` of `w` is set.
pub open spec fn bit_set(w: u64, j: int) -> bool {
    ((w >> (j as u64)) & 1u64) == 1u64
}

/// The low `n` bits of `w` as a coefficient sequence (index = degree).
pub open spec fn u64_poly(w: u64, n: int) -> Seq<bool> {
    Seq::new(n as nat, |j: int| bit_set(w, j))
}

/// Pointwise exclusive or of two coefficient sequences.
pub open spec fn xor_seq(a: Seq<bool>, b: Seq<bool>) -> Seq<bool> {
    Seq::new(a.len(), |j: int| a[j] != b[j])
}

pub proof fn lemma_bit_xor(w: u64, x: u64, j: int)
    requires
        0 <= j < 64,
    ensures
        bit_set(w ^ x, j) == (bit_set(w, j) != bit_set(x, j)),
{
    let jj = j as u64;
    assert((((w ^ x) >> jj) & 1u64 == 1u64) == ((((w >> jj) & 1u64) == 1u64) != (((x >> jj) & 1u64)
        == 1u64))) by (bit_vector);
}

pub proof fn lemma_bit_or_one(w: u64, p: int, j: int)
    requires
        0 <= j < 64,
        0 <= p < 64,
    ensures
        bit_set(w | (1u64 << (p as u64)), j) == (j == p || bit_set(w, j)),
{
    let jj = j as u64;
    let pp = p as u64;
    assert(((((w | (1u64 << pp)) >> jj) & 1u64) == 1u64) == (jj == pp || ((w >> jj) & 1u64) == 1u64))
        by (bit_vector)
        requires
            jj < 64,
            pp < 64,
    ;
}

pub proof fn lemma_bit_one(p: int, j: int)
    requires
        0 <= j < 64,
        0 <= p < 64,
    ensures
        bit_set(1u64 << (p as u64), j) == (j == p),
{
    let jj = j as u64;
    let pp = p as u64;
    assert(((((1u64 << pp) >> jj) & 1u64) == 1u64) == (jj == pp)) by (bit_vector)
        requires
            jj < 64,
            pp < 64,
    ;
}

pub proof fn lemma_bit_zero(j: int)
    requires
        0 <= j < 64,
    ensures
        !bit_set(0u64, j),
{
    let jj = j as u64;
    assert(((0u64 >> jj) & 1u64) != 1u64) by (bit_vector);
}

pub proof fn lemma_bit_mask(w: u64, d: int, j: int)
    requires
        0 <= j < 64,
        0 <= d < 64,
    ensures
        bit_set(w & (((1u64 << (d as u64)) - 1) as u64), j) == (j < d && bit_set(w, j)),
{
    let jj = j as u64;
    let dd = d as u64;
    assert(((((w & (((1u64 << dd) - 1) as u64)) >> jj) & 1u64) == 1u64) == (jj < dd && ((w >> jj)
        & 1u64) == 1u64)) by (bit_vector)
        requires
            jj < 64,
            dd < 64,
    ;
}

/// A word whose bits at and above `k` are clear is zero exactly when its low `k` bits are clear.
pub proof fn lemma_zero_iff_low_bits(x: u64, k: int)
    requires
        0 <= k < 64,
        (x >> (k as u64)) == 0,
    ensures
        (x == 0) == (forall|j: int| 0 <= j < k ==> !#[trigger] bit_set(x, j)),
    decreases k,
{
    if x == 0 {
        assert forall|j: int| 0 <= j < k implies !#[trigger] bit_set(x, j) by {
            lemma_bit_zero(j);
        }
    } else if k == 0 {
        assert(x >> 0u64 == x) by (bit_vector);
    } else {
        if forall|j: int| 0 <= j < k ==> !#[trigger] bit_set(x, j) {
            let km = (k - 1) as u64;
            let kk = k as u64;
            assert(!bit_set(x, k - 1));
            assert((x >> km) == 0) by (bit_vector)
                requires
                    (x >> kk) == 0,
                    ((x >> km) & 1u64) != 1u64,
                    kk == km + 1,
                    kk < 64,
            ;
            lemma_zero_iff_low_bits(x, k - 1);
        }
    }
}

/// The masked low bits of any word vanish above the mask width.
pub proof fn lemma_mask_high_clear(w: u64, d: int)
    requires
        0 <= d < 64,
    ensures
        ((w & (((1u64 << (d as u64)) - 1) as u64)) >> (d as u64)) == 0,
{
    let dd = d as u64;
    assert(((w & (((1u64 << dd) - 1) as u64)) >> dd) == 0) by (bit_vector)
        requires
            dd < 64,
    ;
}

} // verus!
