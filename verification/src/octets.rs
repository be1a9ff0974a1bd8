//! Byte-string helpers: concatenation, fixed-size copies, little-endian integers.
use vstd::prelude::*;
use vstd::arithmetic::div_mod::lemma_div_denominator;
use crate::framing::cbor::pow256;

verus! {

/// Little-endian value of a byte string.
pub open spec fn le_value(s: Seq<u8>) -> nat
    decreases s.len(),
{
    if s.len() == 0 {
        0
    } else {
        (s[0] + 256 * le_value(s.skip(1))) as nat
    }
}

/// The `n` low bytes of `v`, little-endian.
pub open spec fn le_bytes(v: nat, n: nat) -> Seq<u8> {
    Seq::new(n, |i: int| ((v / pow256(i as nat)) % 256) as u8)
}

/// The bytes an optional byte vector holds.
pub open spec fn opt_bytes(o: Option<Vec<u8>>) -> Option<Seq<u8>> {
    match o {
        Some(v) => Some(v@),
        None => None,
    }
}

/// `a` followed by `b`.
pub fn concat(a: &[u8], b: &[u8]) -> (out: Vec<u8>)
    ensures
        out@ == a@ + b@,
{
    let mut out: Vec<u8> = Vec::new();
    let mut i: usize = 0;
    while i < a.len()
        invariant
            0 <= i <= a@.len(),
            out@ == a@.subrange(0, i as int),
        decreases a@.len() - i,
    {
        out.push(a[i]);
        i += 1;
        proof {
            assert(out@ =~= a@.subrange(0, i as int));
        }
    }
    let mut j: usize = 0;
    while j < b.len()
        invariant
            0 <= j <= b@.len(),
            out@ == a@ + b@.subrange(0, j as int),
        decreases b@.len() - j,
    {
        out.push(b[j]);
        j += 1;
        proof {
            assert(out@ =~= a@ + b@.subrange(0, j as int));
        }
    }
    proof {
        assert(out@ =~= a@ + b@);
    }
    out
}

/// The first 32 bytes of `s` as an array.
pub fn first_32(s: &[u8]) -> (out: [u8; 32])
    requires
        s@.len() >= 32,
    ensures
        out@ == s@.subrange(0, 32),
{
    let mut out = [0u8; 32];
    let mut i: usize = 0;
    while i < 32
        invariant
            0 <= i <= 32,
            s@.len() >= 32,
            forall|j: int| 0 <= j < i ==> out@[j] == s@[j],
        decreases 32 - i,
    {
        out[i] = s[i];
        i += 1;
    }
    proof {
        assert(out@ =~= s@.subrange(0, 32));
    }
    out
}

/// The first 16 bytes of `s` as an array.
pub fn first_16(s: &[u8]) -> (out: [u8; 16])
    requires
        s@.len() >= 16,
    ensures
        out@ == s@.subrange(0, 16),
{
    let mut out = [0u8; 16];
    let mut i: usize = 0;
    while i < 16
        invariant
            0 <= i <= 16,
            s@.len() >= 16,
            forall|j: int| 0 <= j < i ==> out@[j] == s@[j],
        decreases 16 - i,
    {
        out[i] = s[i];
        i += 1;
    }
    proof {
        assert(out@ =~= s@.subrange(0, 16));
    }
    out
}

/// Little-endian bytes of a `u64`.
pub fn u64_le_bytes(v: u64) -> (out: [u8; 8])
    ensures
        out@ == le_bytes(v as nat, 8),
{
    let mut out = [0u8; 8];
    let mut x: u64 = v;
    let mut i: usize = 0;
    proof {
        assert(pow256(0) == 1);
        assert(v as nat / 1 == v as nat);
    }
    while i < 8
        invariant
            0 <= i <= 8,
            x as nat == (v as nat) / pow256(i as nat),
            forall|j: int| 0 <= j < i ==> out@[j] == ((v as nat / pow256(j as nat)) % 256) as u8,
        decreases 8 - i,
    {
        out[i] = (x % 256) as u8;
        proof {
            lemma_pow256_pos(i as nat);
            lemma_div_denominator(v as int, pow256(i as nat) as int, 256);
        }
        x = x / 256;
        i += 1;
    }
    proof {
        assert(out@ =~= le_bytes(v as nat, 8));
    }
    out
}

/// The `u64` whose little-endian bytes are the first 8 bytes of `s`.
pub fn u64_from_le(s: &[u8]) -> (v: u64)
    requires
        s@.len() >= 8,
    ensures
        v as nat == le_value(s@.subrange(0, 8)),
{
    let mut v: u64 = 0;
    let mut i: usize = 8;
    proof {
        assert(s@.subrange(8, 8) =~= Seq::<u8>::empty());
        lemma_pow256_eight();
    }
    while i > 0
        invariant
            0 <= i <= 8,
            s@.len() >= 8,
            v as nat == le_value(s@.subrange(i as int, 8)),
            (v as nat) < pow256((8 - i) as nat),
            pow256(7) == 0x100_0000_0000_0000,
        decreases i,
    {
        proof {
            lemma_pow256_mono((8 - i) as nat, 7);
            let t = s@.subrange(i - 1, 8);
            assert(t.skip(1) =~= s@.subrange(i as int, 8));
            assert(t[0] == s@[i - 1]);
        }
        v = s[i - 1] as u64 + 256 * v;
        i -= 1;
    }
    v
}

proof fn lemma_pow256_pos(n: nat)
    ensures
        pow256(n) > 0,
    decreases n,
{
    if n > 0 {
        lemma_pow256_pos((n - 1) as nat);
    }
}

proof fn lemma_pow256_eight()
    ensures
        pow256(7) == 0x100_0000_0000_0000,
        pow256(8) == 0x1_0000_0000_0000_0000,
{
    reveal_with_fuel(pow256, 9);
}

proof fn lemma_pow256_mono(i: nat, j: nat)
    requires
        i <= j,
    ensures
        pow256(i) <= pow256(j),
    decreases j,
{
    if i < j {
        lemma_pow256_mono(i, (j - 1) as nat);
    }
}

} // verus!
