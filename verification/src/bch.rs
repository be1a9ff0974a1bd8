//! Binary BCH block codes (Hamming(7,4), BCH(15,7), BCH(31,16), BCH(63,36)).
//!
//! A codeword is `n` bits, MSB first: the `k` data bits followed by the `n-k`
//! parity bits. Bit `i` of the codeword is the coefficient of `x^(n-1-i)`.
//! Parity is the remainder of the data polynomial (shifted by `n-k`) under the
//! shift-and-xor reduction by the generator word. Decoding checks the same
//! reduction (the syndrome) and, when it is not zero, searches the error
//! patterns of up to `min(t, 3)` flipped bits, fewest flips first and in
//! lexicographic order of flipped positions, for the first one that clears it.
use vstd::prelude::*;
use crate::word_bits::{
    bit_set, lemma_bit_mask, lemma_bit_one, lemma_bit_or_one, lemma_bit_xor, lemma_bit_zero,
    lemma_mask_high_clear, lemma_zero_iff_low_bits, u64_poly, xor_seq,
};

verus! {

// ── Parameters ──────────────────────────────────────────────────────────────

/// Block length `n` for the requested correction strength `t`.
pub open spec fn bch_n(t: u8) -> int {
    if t == 1 { 7 } else if t == 2 { 15 } else if t == 3 || t == 4 { 31 } else { 63 }
}

/// Data bits `k` per block.
pub open spec fn bch_k(t: u8) -> int {
    if t == 1 { 4 } else if t == 2 { 7 } else if t == 3 || t == 4 { 16 } else { 36 }
}

/// Number of parity bits `n - k` (the shift used by the reduction).
pub open spec fn bch_deg(t: u8) -> int {
    bch_n(t) - bch_k(t)
}

/// Generator word: `x^3 + x + 1` (Hamming(7,4)), `x^8 + x^7 + x^6 + x^4 + 1`
/// (BCH(15,7)), `x^15 + x^11 + x^10 + x^9 + x^8 + x^7 + x^5 + x^3 + x^2 + x + 1`
/// (BCH(31,16)), and a degree-27 word for the 63-bit blocks.
pub open spec fn bch_g(t: u8) -> u64 {
    if t == 1 {
        0b1011u64
    } else if t == 2 {
        0b1_1101_0001u64
    } else if t == 3 || t == 4 {
        0b1000_1111_1010_1111u64
    } else {
        0b1_0001_1000_1101_1110_1100_0111u64
    }
}

/// Largest number of flipped bits the decoder searches for.
pub open spec fn bch_max_flips(t: u8) -> int {
    if t > 3 { 3 } else { t as int }
}

pub fn bch_params(t: u8) -> (r: (usize, usize))
    ensures
        r.0 == bch_n(t),
        r.1 == bch_k(t),
{
    match t {
        1 => (7, 4),
        2 => (15, 7),
        3 | 4 => (31, 16),
        _ => (63, 36),
    }
}

pub fn bch_generator_poly(t: u8) -> (r: (u64, usize))
    ensures
        r.0 == bch_g(t),
        r.1 == bch_deg(t),
{
    match t {
        1 => (0b1011, 3),
        2 => (0b1_1101_0001, 8),
        3 | 4 => (0b1000_1111_1010_1111u64, 15),
        _ => (0b1_0001_1000_1101_1110_1100_0111u64, 27),
    }
}

// ── The reduction ───────────────────────────────────────────────────────────

/// Coefficients of the generator word shifted up by `s` (low `n` bits).
pub open spec fn g_term(t: u8, s: int, n: int) -> Seq<bool> {
    u64_poly(bch_g(t) << (s as u64), n)
}

/// One reduction step at degree `i`: if that coefficient is set, xor in `g·x^(i-deg)`.
pub open spec fn reduce_step(p: Seq<bool>, t: u8, i: int) -> Seq<bool> {
    if p[i] {
        xor_seq(p, g_term(t, i - bch_deg(t), p.len() as int))
    } else {
        p
    }
}

/// Reduction steps at degrees `i, i-1, ..., deg`.
pub open spec fn reduce_from(p: Seq<bool>, t: u8, i: int) -> Seq<bool>
    decreases i,
{
    if i < bch_deg(t) {
        p
    } else {
        reduce_from(reduce_step(p, t, i), t, i - 1)
    }
}

/// The fully reduced coefficient sequence of a block.
pub open spec fn reduced(p: Seq<bool>, t: u8) -> Seq<bool> {
    reduce_from(p, t, bch_n(t) - 1)
}

/// The syndrome (the `deg` low coefficients after reduction) is zero.
pub open spec fn syndrome_zero(p: Seq<bool>, t: u8) -> bool {
    forall|j: int| 0 <= j < bch_deg(t) ==> !#[trigger] reduced(p, t)[j]
}

/// Coefficients of a block given MSB-first: `code[i]` is the coefficient of `x^(len-1-i)`.
pub open spec fn code_poly(code: Seq<bool>) -> Seq<bool> {
    Seq::new(code.len(), |j: int| code[code.len() - 1 - j])
}

/// Coefficients of `k` data bits placed above the parity region.
pub open spec fn data_poly(data: Seq<bool>, t: u8) -> Seq<bool> {
    Seq::new(bch_n(t) as nat, |j: int| j >= bch_deg(t) && data[bch_n(t) - 1 - j])
}

/// The systematic codeword of `k` data bits: the data, then the reduced remainder bits.
pub open spec fn bch_codeword(data: Seq<bool>, t: u8) -> Seq<bool> {
    Seq::new(
        bch_n(t) as nat,
        |i: int|
            if i < bch_k(t) {
                data[i]
            } else {
                reduced(data_poly(data, t), t)[bch_n(t) - 1 - i]
            },
    )
}

// ── Error patterns ──────────────────────────────────────────────────────────

/// Strictly increasing positions inside a block of length `n`.
pub open spec fn is_combo(c: Seq<int>, n: int) -> bool {
    &&& forall|i: int| 0 <= i < c.len() ==> 0 <= #[trigger] c[i] < n
    &&& forall|i: int, j: int| 0 <= i < j < c.len() ==> #[trigger] c[i] < #[trigger] c[j]
}

/// `code` with the positions in `c` flipped.
pub open spec fn flip(code: Seq<bool>, c: Seq<int>) -> Seq<bool> {
    Seq::new(code.len(), |i: int| code[i] != c.contains(i))
}

/// Flipping the positions in `c` clears the syndrome.
pub open spec fn corrects(code: Seq<bool>, t: u8, c: Seq<int>) -> bool {
    syndrome_zero(code_poly(flip(code, c)), t)
}

/// Lexicographic order on position lists of equal length.
pub open spec fn lex_lt(a: Seq<int>, b: Seq<int>) -> bool {
    &&& a.len() == b.len()
    &&& exists|p: int| 0 <= p < a.len() && a.take(p) == b.take(p) && a[p] < b[p]
}

/// `c` is the error pattern the decoder settles on: it clears the syndrome, no pattern
/// with fewer flips does, and no lexicographically smaller pattern with as many flips does.
pub open spec fn is_first_correction(code: Seq<bool>, t: u8, c: Seq<int>) -> bool {
    &&& is_combo(c, bch_n(t))
    &&& c.len() <= bch_max_flips(t)
    &&& corrects(code, t, c)
    &&& forall|c2: Seq<int>|
        is_combo(c2, bch_n(t)) && c2.len() < c.len() ==> !#[trigger] corrects(code, t, c2)
    &&& forall|c2: Seq<int>|
        is_combo(c2, bch_n(t)) && #[trigger] lex_lt(c2, c) ==> !corrects(code, t, c2)
}

// ── Lemmas ──────────────────────────────────────────────────────────────────

proof fn lemma_params(t: u8)
    ensures
        0 < bch_deg(t) < bch_n(t) <= 63,
        bch_k(t) == bch_n(t) - bch_deg(t),
        bch_k(t) >= 4,
        bch_deg(t) < 64,
{
}

proof fn lemma_poly_xor_word(w: u64, x: u64, n: int)
    requires
        0 <= n <= 64,
    ensures
        u64_poly(w ^ x, n) =~= xor_seq(u64_poly(w, n), u64_poly(x, n)),
{
    assert forall|j: int| 0 <= j < n implies u64_poly(w ^ x, n)[j] == xor_seq(
        u64_poly(w, n),
        u64_poly(x, n),
    )[j] by {
        lemma_bit_xor(w, x, j);
    }
}

/// Reduction distributes over exclusive or.
proof fn lemma_reduce_xor(a: Seq<bool>, b: Seq<bool>, t: u8, i: int)
    requires
        a.len() == b.len(),
        i < a.len(),
    ensures
        reduce_from(xor_seq(a, b), t, i) =~= xor_seq(reduce_from(a, t, i), reduce_from(b, t, i)),
    decreases i,
{
    if i >= bch_deg(t) {
        let n = a.len() as int;
        let g = g_term(t, i - bch_deg(t), n);
        let sa = reduce_step(a, t, i);
        let sb = reduce_step(b, t, i);
        let sab = reduce_step(xor_seq(a, b), t, i);
        assert(sab =~= xor_seq(sa, sb));
        lemma_reduce_xor(sa, sb, t, i - 1);
    } else {
        assert(xor_seq(a, b) =~= xor_seq(a, b));
    }
}

/// A sequence with no coefficient at or above `deg` is left unchanged by the reduction.
proof fn lemma_reduce_low(p: Seq<bool>, t: u8, i: int)
    requires
        i < p.len(),
        forall|j: int| bch_deg(t) <= j < p.len() ==> !#[trigger] p[j],
    ensures
        reduce_from(p, t, i) == p,
    decreases i,
{
    if i >= bch_deg(t) {
        lemma_reduce_low(p, t, i - 1);
    }
}

proof fn lemma_reduce_len(p: Seq<bool>, t: u8, i: int)
    ensures
        reduce_from(p, t, i).len() == p.len(),
    decreases i,
{
    if i >= bch_deg(t) {
        lemma_reduce_len(reduce_step(p, t, i), t, i - 1);
    }
}

/// A systematic codeword has a zero syndrome.
pub proof fn lemma_codeword_syndrome_zero(data: Seq<bool>, t: u8)
    requires
        data.len() == bch_k(t),
    ensures
        syndrome_zero(code_poly(bch_codeword(data, t)), t),
{
    lemma_params(t);
    let n = bch_n(t);
    let deg = bch_deg(t);
    let dp = data_poly(data, t);
    let r = reduced(dp, t);
    lemma_reduce_len(dp, t, n - 1);
    let par = Seq::new(n as nat, |j: int| j < deg && r[j]);
    let cp = code_poly(bch_codeword(data, t));
    assert(cp =~= xor_seq(dp, par));
    lemma_reduce_xor(dp, par, t, n - 1);
    lemma_reduce_low(par, t, n - 1);
    lemma_reduce_len(par, t, n - 1);
    assert forall|j: int| 0 <= j < deg implies !#[trigger] reduced(cp, t)[j] by {
        assert(reduced(cp, t)[j] == (r[j] != par[j]));
    }
}

// ── Executable reduction ────────────────────────────────────────────────────

/// Fully reduce a block word: the result's low `n` bits are `reduced` of the input's.
fn bch_reduce_word(word: u64, t: u8) -> (r: u64)
    ensures
        u64_poly(r, bch_n(t)) == reduced(u64_poly(word, bch_n(t)), t),
{
    proof {
        lemma_params(t);
    }
    let (n, _k) = bch_params(t);
    let (g, deg) = bch_generator_poly(t);
    let ghost target = reduced(u64_poly(word, n as int), t);
    let mut w = word;
    let mut i = n;
    while i > deg
        invariant
            deg <= i <= n,
            n == bch_n(t),
            deg == bch_deg(t),
            g == bch_g(t),
            0 < deg < n <= 63,
            reduce_from(u64_poly(w, n as int), t, i - 1) == target,
        decreases i,
    {
        i -= 1;
        let ghost p = u64_poly(w, n as int);
        if (w >> i) & 1 == 1 {
            proof {
                lemma_poly_xor_word(w, g << ((i - deg) as u64), n as int);
            }
            w = w ^ (g << (i - deg));
            proof {
                assert(u64_poly(w, n as int) =~= reduce_step(p, t, i as int));
            }
        } else {
            proof {
                assert(u64_poly(w, n as int) =~= reduce_step(p, t, i as int));
            }
        }
    }
    w
}

/// The low `deg` bits of the reduced word.
fn bch_syndrome(word: u64, t: u8) -> (s: u64)
    ensures
        (s == 0) == syndrome_zero(u64_poly(word, bch_n(t)), t),
{
    proof {
        lemma_params(t);
    }
    let (g, deg) = bch_generator_poly(t);
    let r = bch_reduce_word(word, t);
    proof {
        let dd = deg as u64;
        assert((1u64 << dd) >= 1) by (bit_vector)
            requires
                dd < 64,
        ;
    }
    let s = r & ((1u64 << deg) - 1);
    proof {
        lemma_mask_high_clear(r, deg as int);
        lemma_zero_iff_low_bits(s, deg as int);
        assert forall|j: int| 0 <= j < deg implies bit_set(s, j) == bit_set(r, j) by {
            lemma_bit_mask(r, deg as int, j);
        }
        let ghost p = u64_poly(word, bch_n(t));
        if s == 0 {
            assert forall|j: int| 0 <= j < bch_deg(t) implies !#[trigger] reduced(p, t)[j] by {
                assert(u64_poly(r, bch_n(t))[j] == bit_set(r, j));
            }
        } else {
            let j = choose|j: int| 0 <= j < deg && #[trigger] bit_set(s, j);
            assert(u64_poly(r, bch_n(t))[j] == bit_set(r, j));
            assert(reduced(p, t)[j]);
        }
    }
    s
}

/// Word whose low `n` bits hold the MSB-first block `bits` (bit `i` at degree `n-1-i`).
fn bch_word_of(bits: &[bool], n: usize) -> (w: u64)
    requires
        bits@.len() <= n <= 63,
    ensures
        u64_poly(w, n as int) == Seq::new(
            n as nat,
            |j: int| n - 1 - j < bits@.len() && bits@[n - 1 - j],
        ),
{
    let mut word: u64 = 0;
    let mut i: usize = 0;
    proof {
        assert forall|j: int| 0 <= j < n implies !#[trigger] bit_set(word, j) by {
            lemma_bit_zero(j);
        }
    }
    while i < bits.len()
        invariant
            0 <= i <= bits@.len() <= n <= 63,
            forall|j: int| 0 <= j < n ==> #[trigger] bit_set(word, j) == (n - 1 - j < i && bits@[n - 1 - j]),
        decreases bits.len() - i,
    {
        if bits[i] {
            let pos = n - 1 - i;
            proof {
                assert forall|j: int| 0 <= j < n implies #[trigger] bit_set(word | (1u64 << (pos as u64)), j)
                    == (n - 1 - j < i + 1 && bits@[n - 1 - j]) by {
                    lemma_bit_or_one(word, pos as int, j);
                }
            }
            word = word | (1u64 << (pos as u64));
            proof {
                assert forall|j: int| 0 <= j < n implies #[trigger] bit_set(word, j) == (n - 1 - j < i
                    + 1 && bits@[n - 1 - j]) by {}
            }
        } else {
            proof {
                assert forall|j: int| 0 <= j < n implies #[trigger] bit_set(word, j) == (n - 1 - j < i
                    + 1 && bits@[n - 1 - j]) by {
                    if n - 1 - j == i {
                        assert(!bits@[i as int]);
                    }
                }
            }
        }
        i += 1;
    }
    proof {
        assert(u64_poly(word, n as int) =~= Seq::new(
            n as nat,
            |j: int| n - 1 - j < bits@.len() && bits@[n - 1 - j],
        ));
    }
    word
}

/// Systematic encode of one block: `k` data bits → `n` code bits.
pub fn bch_encode_word(data_bits: &[bool], t: u8) -> (code: Vec<bool>)
    requires
        data_bits@.len() == bch_k(t),
    ensures
        code@ == bch_codeword(data_bits@, t),
{
    proof {
        lemma_params(t);
    }
    let (n, k) = bch_params(t);
    let (_g, deg) = bch_generator_poly(t);
    let word = bch_word_of(data_bits, n);
    proof {
        assert(u64_poly(word, n as int) =~= data_poly(data_bits@, t));
    }
    let rem = bch_reduce_word(word, t);
    let ghost r = reduced(data_poly(data_bits@, t), t);
    let mut code: Vec<bool> = Vec::new();
    let mut i: usize = 0;
    while i < n
        invariant
            0 <= i <= n,
            n == bch_n(t),
            k == bch_k(t),
            deg == bch_deg(t),
            0 < deg < n <= 63,
            data_bits@.len() == k,
            u64_poly(rem, n as int) == r,
            r == reduced(data_poly(data_bits@, t), t),
            code@.len() == i,
            forall|m: int| 0 <= m < i ==> #[trigger] code@[m] == bch_codeword(data_bits@, t)[m],
        decreases n - i,
    {
        let pos = n - 1 - i;
        let bit = if pos >= deg {
            data_bits[i]
        } else {
            proof {
                assert(u64_poly(rem, n as int)[pos as int] == bit_set(rem, pos as int));
            }
            (rem >> pos) & 1 == 1
        };
        code.push(bit);
        i += 1;
    }
    proof {
        assert(code@ =~= bch_codeword(data_bits@, t));
    }
    code
}


// ── Decoding ────────────────────────────────────────────────────────────────

/// `c` is the lexicographically first `f`-flip pattern that clears the syndrome.
pub open spec fn first_of_size(code: Seq<bool>, t: u8, c: Seq<int>, f: int) -> bool {
    &&& is_combo(c, bch_n(t))
    &&& c.len() == f
    &&& corrects(code, t, c)
    &&& forall|c2: Seq<int>|
        is_combo(c2, bch_n(t)) && #[trigger] lex_lt(c2, c) ==> !corrects(code, t, c2)
}

/// No `f`-flip pattern clears the syndrome.
pub open spec fn none_of_size(code: Seq<bool>, t: u8, f: int) -> bool {
    forall|c2: Seq<int>|
        is_combo(c2, bch_n(t)) && c2.len() == f ==> !#[trigger] corrects(code, t, c2)
}

proof fn lemma_flip_one(word: u64, code: Seq<bool>, c: Seq<int>, a: int)
    requires
        code.len() <= 63,
        u64_poly(word, code.len() as int) == code_poly(flip(code, c)),
        0 <= a < code.len(),
        !c.contains(a),
    ensures
        u64_poly(word ^ (1u64 << ((code.len() - 1 - a) as u64)), code.len() as int) == code_poly(
            flip(code, c.push(a)),
        ),
{
    let n = code.len() as int;
    let pos = n - 1 - a;
    let lhs = u64_poly(word ^ (1u64 << (pos as u64)), n);
    let rhs = code_poly(flip(code, c.push(a)));
    assert forall|j: int| 0 <= j < n implies lhs[j] == rhs[j] by {
        lemma_bit_xor(word, 1u64 << (pos as u64), j);
        lemma_bit_one(pos, j);
        let i = n - 1 - j;
        assert(c.push(a).contains(i) == (c.contains(i) || i == a)) by {
            if c.push(a).contains(i) {
                let k = choose|k: int| 0 <= k < c.push(a).len() && c.push(a)[k] == i;
                if k < c.len() {
                    assert(c[k] == i);
                }
            }
            if c.contains(i) {
                let k = choose|k: int| 0 <= k < c.len() && c[k] == i;
                assert(c.push(a)[k] == i);
            }
            if i == a {
                assert(c.push(a)[c.len() as int] == i);
            }
        }
        assert(u64_poly(word, n)[j] == code_poly(flip(code, c))[j]);
    }
    assert(lhs =~= rhs);
}

proof fn lemma_flip_empty(code: Seq<bool>)
    ensures
        flip(code, Seq::<int>::empty()) == code,
{
    assert(flip(code, Seq::<int>::empty()) =~= code);
}

proof fn lemma_lex_lt_1(c2: Seq<int>, a: int)
    requires
        lex_lt(c2, seq![a]),
    ensures
        c2[0] < a,
{
    let p = choose|p: int| 0 <= p < c2.len() && c2.take(p) == seq![a].take(p) && c2[p] < seq![a][p];
}

proof fn lemma_lex_lt_2(c2: Seq<int>, a: int, b: int)
    requires
        lex_lt(c2, seq![a, b]),
    ensures
        c2[0] < a || (c2[0] == a && c2[1] < b),
{
    let s = seq![a, b];
    let p = choose|p: int| 0 <= p < c2.len() && c2.take(p) == s.take(p) && c2[p] < s[p];
    if p == 1 {
        assert(c2.take(1)[0] == s.take(1)[0]);
    }
}

proof fn lemma_lex_lt_3(c2: Seq<int>, a: int, b: int, c: int)
    requires
        lex_lt(c2, seq![a, b, c]),
    ensures
        c2[0] < a || (c2[0] == a && c2[1] < b) || (c2[0] == a && c2[1] == b && c2[2] < c),
{
    let s = seq![a, b, c];
    let p = choose|p: int| 0 <= p < c2.len() && c2.take(p) == s.take(p) && c2[p] < s[p];
    if p == 1 {
        assert(c2.take(1)[0] == s.take(1)[0]);
    }
    if p == 2 {
        assert(c2.take(2)[0] == s.take(2)[0]);
        assert(c2.take(2)[1] == s.take(2)[1]);
    }
}

fn bch_search_1(word: u64, code: &[bool], t: u8) -> (r: Option<u64>)
    requires
        code@.len() == bch_n(t),
        u64_poly(word, bch_n(t)) == code_poly(code@),
    ensures
        r matches Some(trial) ==> exists|c: Seq<int>|
            first_of_size(code@, t, c, 1) && u64_poly(trial, bch_n(t)) == code_poly(
                #[trigger] flip(code@, c),
            ),
        r is None ==> none_of_size(code@, t, 1),
{
    proof {
        lemma_params(t);
        lemma_flip_empty(code@);
    }
    let (n, _k) = bch_params(t);
    let mut a: usize = 0;
    while a < n
        invariant
            0 <= a <= n,
            n == bch_n(t),
            n <= 63,
            code@.len() == n,
            u64_poly(word, n as int) == code_poly(flip(code@, Seq::<int>::empty())),
            forall|c2: Seq<int>|
                is_combo(c2, n as int) && c2.len() == 1 && c2[0] < a ==> !#[trigger] corrects(
                    code@,
                    t,
                    c2,
                ),
        decreases n - a,
    {
        let ghost c = Seq::<int>::empty().push(a as int);
        proof {
            lemma_flip_one(word, code@, Seq::<int>::empty(), a as int);
        }
        let trial = word ^ (1u64 << ((n - 1 - a) as u64));
        if bch_syndrome(trial, t) == 0 {
            proof {
                assert(c =~= seq![a as int]);
                assert forall|c2: Seq<int>| is_combo(c2, n as int) && #[trigger] lex_lt(c2, c) implies !corrects(
                    code@,
                    t,
                    c2,
                ) by {
                    lemma_lex_lt_1(c2, a as int);
                }
            }
            return Some(trial);
        }
        proof {
            assert forall|c2: Seq<int>|
                is_combo(c2, n as int) && c2.len() == 1 && c2[0] < a + 1 implies !#[trigger] corrects(
                code@,
                t,
                c2,
            ) by {
                if c2[0] == a {
                    assert(c2 =~= c);
                }
            }
        }
        a += 1;
    }
    None
}

fn bch_search_2(word: u64, code: &[bool], t: u8) -> (r: Option<u64>)
    requires
        code@.len() == bch_n(t),
        u64_poly(word, bch_n(t)) == code_poly(code@),
    ensures
        r matches Some(trial) ==> exists|c: Seq<int>|
            first_of_size(code@, t, c, 2) && u64_poly(trial, bch_n(t)) == code_poly(
                #[trigger] flip(code@, c),
            ),
        r is None ==> none_of_size(code@, t, 2),
{
    proof {
        lemma_params(t);
        lemma_flip_empty(code@);
    }
    let (n, _k) = bch_params(t);
    let mut a: usize = 0;
    while a < n
        invariant
            0 <= a <= n,
            n == bch_n(t),
            n <= 63,
            code@.len() == n,
            u64_poly(word, n as int) == code_poly(flip(code@, Seq::<int>::empty())),
            forall|c2: Seq<int>|
                is_combo(c2, n as int) && c2.len() == 2 && c2[0] < a ==> !#[trigger] corrects(
                    code@,
                    t,
                    c2,
                ),
        decreases n - a,
    {
        let ghost ca = Seq::<int>::empty().push(a as int);
        proof {
            lemma_flip_one(word, code@, Seq::<int>::empty(), a as int);
        }
        let wa = word ^ (1u64 << ((n - 1 - a) as u64));
        let mut b: usize = a + 1;
        while b < n
            invariant
                a < b <= n,
                n == bch_n(t),
                n <= 63,
                code@.len() == n,
                ca == seq![a as int],
                u64_poly(wa, n as int) == code_poly(flip(code@, ca)),
                forall|c2: Seq<int>|
                    is_combo(c2, n as int) && c2.len() == 2 && c2[0] < a ==> !#[trigger] corrects(
                        code@,
                        t,
                        c2,
                    ),
                forall|c2: Seq<int>|
                    is_combo(c2, n as int) && c2.len() == 2 && c2[0] == a && c2[1] < b
                        ==> !#[trigger] corrects(code@, t, c2),
            decreases n - b,
        {
            let ghost c = ca.push(b as int);
            proof {
                assert(!ca.contains(b as int)) by {
                    if ca.contains(b as int) {
                        let k = choose|k: int| 0 <= k < ca.len() && ca[k] == b;
                    }
                }
                lemma_flip_one(wa, code@, ca, b as int);
            }
            let trial = wa ^ (1u64 << ((n - 1 - b) as u64));
            if bch_syndrome(trial, t) == 0 {
                proof {
                    assert(c =~= seq![a as int, b as int]);
                    assert forall|c2: Seq<int>| is_combo(c2, n as int) && #[trigger] lex_lt(c2, c) implies !corrects(
                        code@,
                        t,
                        c2,
                    ) by {
                        lemma_lex_lt_2(c2, a as int, b as int);
                    }
                }
                return Some(trial);
            }
            proof {
                assert forall|c2: Seq<int>|
                    is_combo(c2, n as int) && c2.len() == 2 && c2[0] == a && c2[1] < b + 1 implies !#[trigger] corrects(
                    code@,
                    t,
                    c2,
                ) by {
                    if c2[1] == b {
                        assert(c2 =~= c);
                    }
                }
            }
            b += 1;
        }
        proof {
            assert forall|c2: Seq<int>|
                is_combo(c2, n as int) && c2.len() == 2 && c2[0] < a + 1 implies !#[trigger] corrects(
                code@,
                t,
                c2,
            ) by {
                if c2[0] == a {
                    assert(c2[0] < c2[1]);
                }
            }
        }
        a += 1;
    }
    None
}

fn bch_search_3(word: u64, code: &[bool], t: u8) -> (r: Option<u64>)
    requires
        code@.len() == bch_n(t),
        u64_poly(word, bch_n(t)) == code_poly(code@),
    ensures
        r matches Some(trial) ==> exists|c: Seq<int>|
            first_of_size(code@, t, c, 3) && u64_poly(trial, bch_n(t)) == code_poly(
                #[trigger] flip(code@, c),
            ),
        r is None ==> none_of_size(code@, t, 3),
{
    proof {
        lemma_params(t);
        lemma_flip_empty(code@);
    }
    let (n, _k) = bch_params(t);
    let mut a: usize = 0;
    while a < n
        invariant
            0 <= a <= n,
            n == bch_n(t),
            n <= 63,
            code@.len() == n,
            u64_poly(word, n as int) == code_poly(flip(code@, Seq::<int>::empty())),
            forall|c2: Seq<int>|
                is_combo(c2, n as int) && c2.len() == 3 && c2[0] < a ==> !#[trigger] corrects(
                    code@,
                    t,
                    c2,
                ),
        decreases n - a,
    {
        let ghost ca = Seq::<int>::empty().push(a as int);
        proof {
            lemma_flip_one(word, code@, Seq::<int>::empty(), a as int);
        }
        let wa = word ^ (1u64 << ((n - 1 - a) as u64));
        let mut b: usize = a + 1;
        while b < n
            invariant
                a < b <= n,
                n == bch_n(t),
                n <= 63,
                code@.len() == n,
                ca == seq![a as int],
                u64_poly(wa, n as int) == code_poly(flip(code@, ca)),
                forall|c2: Seq<int>|
                    is_combo(c2, n as int) && c2.len() == 3 && c2[0] < a ==> !#[trigger] corrects(
                        code@,
                        t,
                        c2,
                    ),
                forall|c2: Seq<int>|
                    is_combo(c2, n as int) && c2.len() == 3 && c2[0] == a && c2[1] < b
                        ==> !#[trigger] corrects(code@, t, c2),
            decreases n - b,
        {
            let ghost cb = ca.push(b as int);
            proof {
                assert(!ca.contains(b as int)) by {
                    if ca.contains(b as int) {
                        let k = choose|k: int| 0 <= k < ca.len() && ca[k] == b;
                    }
                }
                lemma_flip_one(wa, code@, ca, b as int);
            }
            let wb = wa ^ (1u64 << ((n - 1 - b) as u64));
            let mut c: usize = b + 1;
            while c < n
                invariant
                    a < b < c <= n,
                    n == bch_n(t),
                    n <= 63,
                    code@.len() == n,
                    cb == seq![a as int, b as int],
                    u64_poly(wb, n as int) == code_poly(flip(code@, cb)),
                    forall|c2: Seq<int>|
                        is_combo(c2, n as int) && c2.len() == 3 && c2[0] < a ==> !#[trigger] corrects(
                            code@,
                            t,
                            c2,
                        ),
                    forall|c2: Seq<int>|
                        is_combo(c2, n as int) && c2.len() == 3 && c2[0] == a && c2[1] < b
                            ==> !#[trigger] corrects(code@, t, c2),
                    forall|c2: Seq<int>|
                        is_combo(c2, n as int) && c2.len() == 3 && c2[0] == a && c2[1] == b && c2[2]
                            < c ==> !#[trigger] corrects(code@, t, c2),
                decreases n - c,
            {
                let ghost cc = cb.push(c as int);
                proof {
                    assert(!cb.contains(c as int)) by {
                        if cb.contains(c as int) {
                            let k = choose|k: int| 0 <= k < cb.len() && cb[k] == c;
                        }
                    }
                    lemma_flip_one(wb, code@, cb, c as int);
                }
                let trial = wb ^ (1u64 << ((n - 1 - c) as u64));
                if bch_syndrome(trial, t) == 0 {
                    proof {
                        assert(cc =~= seq![a as int, b as int, c as int]);
                        assert forall|c2: Seq<int>| is_combo(c2, n as int) && #[trigger] lex_lt(c2, cc) implies !corrects(
                            code@,
                            t,
                            c2,
                        ) by {
                            lemma_lex_lt_3(c2, a as int, b as int, c as int);
                        }
                    }
                    return Some(trial);
                }
                proof {
                    assert forall|c2: Seq<int>|
                        is_combo(c2, n as int) && c2.len() == 3 && c2[0] == a && c2[1] == b && c2[2] < c
                            + 1 implies !#[trigger] corrects(code@, t, c2) by {
                        if c2[2] == c {
                            assert(c2 =~= cc);
                        }
                    }
                }
                c += 1;
            }
            proof {
                assert forall|c2: Seq<int>|
                    is_combo(c2, n as int) && c2.len() == 3 && c2[0] == a && c2[1] < b + 1 implies !#[trigger] corrects(
                    code@,
                    t,
                    c2,
                ) by {
                    if c2[1] == b {
                        assert(c2[1] < c2[2]);
                    }
                }
            }
            b += 1;
        }
        proof {
            assert forall|c2: Seq<int>|
                is_combo(c2, n as int) && c2.len() == 3 && c2[0] < a + 1 implies !#[trigger] corrects(
                code@,
                t,
                c2,
            ) by {
                if c2[0] == a {
                    assert(c2[0] < c2[1]);
                }
            }
        }
        a += 1;
    }
    None
}


/// Some pattern of at most `min(t, 3)` flips clears the syndrome.
pub open spec fn decodable(code: Seq<bool>, t: u8) -> bool {
    exists|c: Seq<int>|
        is_combo(c, bch_n(t)) && c.len() <= bch_max_flips(t) && #[trigger] corrects(code, t, c)
}

/// `out` is what the decoder returns for `code`: the data bits of the first correction.
pub open spec fn block_decodes_to(code: Seq<bool>, t: u8, out: Seq<bool>) -> bool {
    exists|c: Seq<int>|
        #[trigger] is_first_correction(code, t, c) && out == flip(code, c).take(bch_k(t))
}

proof fn lemma_no_empty(code: Seq<bool>, t: u8)
    requires
        !corrects(code, t, Seq::<int>::empty()),
    ensures
        none_of_size(code, t, 0),
{
    assert forall|c2: Seq<int>| is_combo(c2, bch_n(t)) && c2.len() == 0 implies !#[trigger] corrects(
        code,
        t,
        c2,
    ) by {
        assert(c2 =~= Seq::<int>::empty());
    }
}

/// Decode one block of `n` bits to its `k` data bits, correcting the first error
/// pattern of up to `min(t, 3)` flips that clears the syndrome; `None` when none does.
pub fn bch_decode_word(code_bits: &[bool], t: u8) -> (r: Option<Vec<bool>>)
    requires
        code_bits@.len() == bch_n(t),
    ensures
        r matches Some(out) ==> block_decodes_to(code_bits@, t, out@),
        r is None <==> !decodable(code_bits@, t),
{
    proof {
        lemma_params(t);
        lemma_flip_empty(code_bits@);
    }
    let (n, k) = bch_params(t);
    let word = bch_word_of(code_bits, n);
    proof {
        assert(u64_poly(word, n as int) =~= code_poly(code_bits@));
    }
    let ghost code = code_bits@;
    let mut found: Option<u64> = None;
    let ghost mut fc: Seq<int> = Seq::empty();
    if bch_syndrome(word, t) == 0 {
        found = Some(word);
        proof {
            assert forall|c2: Seq<int>| is_combo(c2, bch_n(t)) && #[trigger] lex_lt(c2, fc) implies !corrects(
                code,
                t,
                c2,
            ) by {
                let p = choose|p: int| 0 <= p < c2.len() && c2.take(p) == fc.take(p) && c2[p] < fc[p];
            }
            assert(is_first_correction(code, t, fc));
        }
    } else {
        proof {
            lemma_no_empty(code, t);
        }
        let max_t: u8 = if t > 3 { 3 } else { t };
        if max_t >= 1 {
            match bch_search_1(word, code_bits, t) {
                Some(trial) => {
                    found = Some(trial);
                    proof {
                        fc = choose|c: Seq<int>|
                            first_of_size(code, t, c, 1) && u64_poly(trial, bch_n(t)) == code_poly(
                                #[trigger] flip(code, c),
                            );
                        assert forall|c2: Seq<int>| is_combo(c2, bch_n(t)) && c2.len() < fc.len() implies !#[trigger] corrects(
                            code,
                            t,
                            c2,
                        ) by {}
                    }
                },
                None => {},
            }
        }
        if found.is_none() && max_t >= 2 {
            match bch_search_2(word, code_bits, t) {
                Some(trial) => {
                    found = Some(trial);
                    proof {
                        fc = choose|c: Seq<int>|
                            first_of_size(code, t, c, 2) && u64_poly(trial, bch_n(t)) == code_poly(
                                #[trigger] flip(code, c),
                            );
                        assert forall|c2: Seq<int>| is_combo(c2, bch_n(t)) && c2.len() < fc.len() implies !#[trigger] corrects(
                            code,
                            t,
                            c2,
                        ) by {
                            if c2.len() == 1 {
                                assert(none_of_size(code, t, 1));
                            }
                        }
                    }
                },
                None => {},
            }
        }
        if found.is_none() && max_t >= 3 {
            match bch_search_3(word, code_bits, t) {
                Some(trial) => {
                    found = Some(trial);
                    proof {
                        fc = choose|c: Seq<int>|
                            first_of_size(code, t, c, 3) && u64_poly(trial, bch_n(t)) == code_poly(
                                #[trigger] flip(code, c),
                            );
                        assert forall|c2: Seq<int>| is_combo(c2, bch_n(t)) && c2.len() < fc.len() implies !#[trigger] corrects(
                            code,
                            t,
                            c2,
                        ) by {
                            if c2.len() == 1 {
                                assert(none_of_size(code, t, 1));
                            }
                            if c2.len() == 2 {
                                assert(none_of_size(code, t, 2));
                            }
                        }
                    }
                },
                None => {},
            }
        }
        proof {
            if found.is_none() {
                assert forall|c2: Seq<int>|
                    is_combo(c2, bch_n(t)) && c2.len() <= bch_max_flips(t) implies !#[trigger] corrects(
                    code,
                    t,
                    c2,
                ) by {
                    if c2.len() == 1 {
                        assert(none_of_size(code, t, 1));
                    }
                    if c2.len() == 2 {
                        assert(none_of_size(code, t, 2));
                    }
                    if c2.len() == 3 {
                        assert(none_of_size(code, t, 3));
                    }
                }
            }
        }
    }
    match found {
        Some(corrected) => {
            proof {
                assert(is_first_correction(code, t, fc));
                assert(u64_poly(corrected, n as int) == code_poly(flip(code, fc)));
            }
            let mut out: Vec<bool> = Vec::new();
            let mut i: usize = 0;
            while i < k
                invariant
                    0 <= i <= k,
                    n == bch_n(t),
                    k == bch_k(t),
                    k < n <= 63,
                    code.len() == n,
                    u64_poly(corrected, n as int) == code_poly(flip(code, fc)),
                    out@.len() == i,
                    forall|m: int| 0 <= m < i ==> #[trigger] out@[m] == flip(code, fc)[m],
                decreases k - i,
            {
                let pos = n - 1 - i;
                proof {
                    assert(u64_poly(corrected, n as int)[pos as int] == bit_set(corrected, pos as int));
                }
                out.push((corrected >> pos) & 1 == 1);
                i += 1;
            }
            proof {
                assert(out@ =~= flip(code, fc).take(bch_k(t)));
                assert(decodable(code, t));
            }
            Some(out)
        },
        None => None,
    }
}

/// Decoding a systematic codeword returns its data bits.
pub proof fn lemma_bch_word_roundtrip(data: Seq<bool>, t: u8, out: Seq<bool>)
    requires
        data.len() == bch_k(t),
        block_decodes_to(bch_codeword(data, t), t, out),
    ensures
        out == data,
{
    lemma_params(t);
    let code = bch_codeword(data, t);
    lemma_codeword_syndrome_zero(data, t);
    lemma_flip_empty(code);
    let c = choose|c: Seq<int>| #[trigger] is_first_correction(code, t, c) && out == flip(code, c).take(bch_k(t));
    assert(corrects(code, t, Seq::<int>::empty()));
    if c.len() > 0 {
        assert(is_combo(Seq::<int>::empty(), bch_n(t)));
        assert(!corrects(code, t, Seq::<int>::empty()));
    }
    assert(c =~= Seq::<int>::empty());
    assert(out =~= data);
}

/// Every codeword can be decoded.
pub proof fn lemma_bch_codeword_decodable(data: Seq<bool>, t: u8)
    requires
        data.len() == bch_k(t),
    ensures
        decodable(bch_codeword(data, t), t),
{
    lemma_codeword_syndrome_zero(data, t);
    lemma_flip_empty(bch_codeword(data, t));
    assert(is_combo(Seq::<int>::empty(), bch_n(t)));
    assert(corrects(bch_codeword(data, t), t, Seq::<int>::empty()));
}


// ── Single-error correction of the Hamming(7,4) code (t = 1) ────────────────

/// The coefficient sequence of `x^j` in a block of 7.
pub open spec fn unit7(j: int) -> Seq<bool> {
    Seq::new(7, |i: int| i == j)
}

/// The 3-bit syndrome of `x^j` modulo `x^3 + x + 1`, as the low 3 coefficients.
pub open spec fn hamming_syndrome(j: int) -> Seq<bool> {
    if j == 0 {
        seq![true, false, false]
    } else if j == 1 {
        seq![false, true, false]
    } else if j == 2 {
        seq![false, false, true]
    } else if j == 3 {
        seq![true, true, false]
    } else if j == 4 {
        seq![false, true, true]
    } else if j == 5 {
        seq![true, true, true]
    } else {
        seq![true, false, true]
    }
}

proof fn lemma_g_bits_t1(j: u64)
    by (bit_vector)
    requires
        j < 7,
    ensures
        (((11u64 << 0u64) >> j) & 1u64 == 1u64) == (j == 0 || j == 1 || j == 3),
        (((11u64 << 1u64) >> j) & 1u64 == 1u64) == (j == 1 || j == 2 || j == 4),
        (((11u64 << 2u64) >> j) & 1u64 == 1u64) == (j == 2 || j == 3 || j == 5),
        (((11u64 << 3u64) >> j) & 1u64 == 1u64) == (j == 3 || j == 4 || j == 6),
{
}

proof fn lemma_g_terms_t1()
    ensures
        g_term(1, 0, 7) == seq![true, true, false, true, false, false, false],
        g_term(1, 1, 7) == seq![false, true, true, false, true, false, false],
        g_term(1, 2, 7) == seq![false, false, true, true, false, true, false],
        g_term(1, 3, 7) == seq![false, false, false, true, true, false, true],
{
    assert forall|j: int| 0 <= j < 7 implies {
        &&& g_term(1, 0, 7)[j] == (j == 0 || j == 1 || j == 3)
        &&& g_term(1, 1, 7)[j] == (j == 1 || j == 2 || j == 4)
        &&& g_term(1, 2, 7)[j] == (j == 2 || j == 3 || j == 5)
        &&& g_term(1, 3, 7)[j] == (j == 3 || j == 4 || j == 6)
    } by {
        lemma_g_bits_t1(j as u64);
    }
    assert(g_term(1, 0, 7) =~= seq![true, true, false, true, false, false, false]);
    assert(g_term(1, 1, 7) =~= seq![false, true, true, false, true, false, false]);
    assert(g_term(1, 2, 7) =~= seq![false, false, true, true, false, true, false]);
    assert(g_term(1, 3, 7) =~= seq![false, false, false, true, true, false, true]);
}

/// `x^j` reduces to its syndrome (the low 3 coefficients; the rest are cleared).
proof fn lemma_unit_syndrome(j: int)
    requires
        0 <= j < 7,
    ensures
        reduced(unit7(j), 1).len() == 7,
        reduced(unit7(j), 1).take(3) == hamming_syndrome(j),
{
    lemma_g_terms_t1();
    lemma_reduce_len(unit7(j), 1, 6);
    let u = unit7(j);
    let s6 = reduce_step(u, 1, 6);
    let s5 = reduce_step(s6, 1, 5);
    let s4 = reduce_step(s5, 1, 4);
    let s3 = reduce_step(s4, 1, 3);
    assert(bch_deg(1) == 3);
    assert(reduce_from(u, 1, 6) == reduce_from(s6, 1, 5));
    assert(reduce_from(s6, 1, 5) == reduce_from(s5, 1, 4));
    assert(reduce_from(s5, 1, 4) == reduce_from(s4, 1, 3));
    assert(reduce_from(s4, 1, 3) == reduce_from(s3, 1, 2));
    assert(reduce_from(s3, 1, 2) == s3);
    assert(reduced(u, 1) == s3);
    if j == 0 {
        assert(s3 =~= seq![true, false, false, false, false, false, false]);
    } else if j == 1 {
        assert(s3 =~= seq![false, true, false, false, false, false, false]);
    } else if j == 2 {
        assert(s3 =~= seq![false, false, true, false, false, false, false]);
    } else if j == 3 {
        assert(s6 =~= u);
        assert(s5 =~= u);
        assert(s4 =~= u);
        assert(s3 =~= seq![true, true, false, false, false, false, false]);
    } else if j == 4 {
        assert(s6 =~= u);
        assert(s5 =~= u);
        assert(s4 =~= seq![false, true, true, false, false, false, false]);
        assert(s3 =~= s4);
    } else if j == 5 {
        assert(s6 =~= u);
        assert(s5 =~= seq![false, false, true, true, false, false, false]);
        assert(s4 =~= s5);
        assert(s3 =~= seq![true, true, true, false, false, false, false]);
    } else {
        assert(s6 =~= seq![false, false, false, true, true, false, false]);
        assert(s5 =~= s6);
        assert(s4 =~= seq![false, true, true, true, false, false, false]);
        assert(s3 =~= seq![true, false, true, false, false, false, false]);
    }
    assert(reduced(u, 1).take(3) =~= hamming_syndrome(j));
}

proof fn lemma_syndromes_distinct(a: int, b: int)
    requires
        0 <= a < 7,
        0 <= b < 7,
        hamming_syndrome(a) == hamming_syndrome(b),
    ensures
        a == b,
{
    let sa = hamming_syndrome(a);
    let sb = hamming_syndrome(b);
    assert(sa[0] == sb[0] && sa[1] == sb[1] && sa[2] == sb[2]);
}

proof fn lemma_syndrome_nonzero(j: int)
    requires
        0 <= j < 7,
    ensures
        hamming_syndrome(j)[0] || hamming_syndrome(j)[1] || hamming_syndrome(j)[2],
{
}

proof fn lemma_flip_one_poly(code: Seq<bool>, e: int)
    requires
        code.len() == 7,
        0 <= e < 7,
    ensures
        code_poly(flip(code, seq![e])) == xor_seq(code_poly(code), unit7(6 - e)),
        flip(flip(code, seq![e]), seq![e]) == code,
{
    assert forall|j: int| #[trigger] seq![e].contains(j) == (j == e) by {
        if j == e {
            assert(seq![e][0] == e);
        }
    }
    assert(code_poly(flip(code, seq![e])) =~= xor_seq(code_poly(code), unit7(6 - e)));
    assert(flip(flip(code, seq![e]), seq![e]) =~= code);
}

/// Syndrome (low 3 coefficients of the reduction) of a 7-coefficient sequence.
spec fn syn7(p: Seq<bool>) -> Seq<bool> {
    reduced(p, 1).take(3)
}

proof fn lemma_syn_xor(a: Seq<bool>, b: Seq<bool>)
    requires
        a.len() == 7,
        b.len() == 7,
    ensures
        syn7(xor_seq(a, b)) == xor_seq(syn7(a), syn7(b)),
{
    lemma_reduce_xor(a, b, 1, 6);
    lemma_reduce_len(a, 1, 6);
    lemma_reduce_len(b, 1, 6);
    assert(syn7(xor_seq(a, b)) =~= xor_seq(syn7(a), syn7(b)));
}

/// The Hamming(7,4) code (t = 1) corrects any single flipped bit: a codeword
/// with one bit flipped is decodable, and decodes to the codeword's data.
pub proof fn lemma_hamming_corrects_one(data: Seq<bool>, e: int, out: Seq<bool>)
    requires
        data.len() == 4,
        0 <= e < 7,
    ensures
        decodable(flip(bch_codeword(data, 1), seq![e]), 1),
        block_decodes_to(flip(bch_codeword(data, 1), seq![e]), 1, out) ==> out == data,
{
    lemma_params(1);
    let cw = bch_codeword(data, 1);
    let r = flip(cw, seq![e]);
    lemma_codeword_syndrome_zero(data, 1);
    lemma_flip_one_poly(cw, e);
    lemma_flip_one_poly(r, e);
    let zero3 = seq![false, false, false];
    assert(syn7(code_poly(cw)) =~= zero3) by {
        lemma_reduce_len(code_poly(cw), 1, 6);
    }
    // the received word is fixed by flipping bit e back
    assert(is_combo(seq![e], 7));
    assert(corrects(r, 1, seq![e]));
    // decodable
    assert(decodable(r, 1));
    lemma_unit_syndrome(6 - e);
    lemma_syn_xor(code_poly(cw), unit7(6 - e));
    assert(syn7(code_poly(r)) =~= hamming_syndrome(6 - e));
    if block_decodes_to(r, 1, out) {
        let c = choose|c: Seq<int>| #[trigger] is_first_correction(r, 1, c) && out == flip(r, c).take(bch_k(1));
        if c.len() == 0 {
            assert(c =~= Seq::<int>::empty());
            lemma_flip_empty(r);
            lemma_syndrome_nonzero(6 - e);
            assert(corrects(r, 1, c));
            assert(syndrome_zero(code_poly(r), 1));
            lemma_reduce_len(code_poly(r), 1, 6);
            let red = reduced(code_poly(r), 1);
            assert(red[0] == hamming_syndrome(6 - e)[0]);
            assert(red[1] == hamming_syndrome(6 - e)[1]);
            assert(red[2] == hamming_syndrome(6 - e)[2]);
            assert(!red[0] && !red[1] && !red[2]);
            assert(false);
        } else {
            assert(c.len() == 1);
            let p = c[0];
            assert(c =~= seq![p]);
            assert(0 <= p < 7);
            lemma_flip_one_poly(r, p);
            lemma_unit_syndrome(6 - p);
            lemma_syn_xor(code_poly(r), unit7(6 - p));
            assert(corrects(r, 1, c));
            let f = code_poly(flip(r, seq![p]));
            assert(syn7(f) =~= zero3) by {
                lemma_reduce_len(f, 1, 6);
            }
            assert(hamming_syndrome(6 - e) =~= hamming_syndrome(6 - p)) by {
                assert(xor_seq(hamming_syndrome(6 - e), hamming_syndrome(6 - p)) =~= zero3);
            }
            lemma_syndromes_distinct(6 - e, 6 - p);
            assert(flip(r, c) == cw);
            assert(out =~= data);
        }
    }
}

// ── Double-error correction of the BCH(15,7) code (t = 2) ───────────────────

/// The reduction of `reduce_from` carried out on the bits of a word.
pub open spec fn reduce_word_from(w: u64, t: u8, i: int) -> u64
    decreases i,
{
    if i < bch_deg(t) || i >= 64 {
        w
    } else {
        let w2 = if bit_set(w, i) { w ^ (bch_g(t) << ((i - bch_deg(t)) as u64)) } else { w };
        reduce_word_from(w2, t, i - 1)
    }
}

proof fn lemma_reduce_word(w: u64, t: u8, i: int, n: int)
    requires
        i < n <= 63,
    ensures
        u64_poly(reduce_word_from(w, t, i), n) == reduce_from(u64_poly(w, n), t, i),
    decreases i,
{
    lemma_params(t);
    if i >= bch_deg(t) {
        let g = bch_g(t) << ((i - bch_deg(t)) as u64);
        let p = u64_poly(w, n);
        let w2 = if bit_set(w, i) { w ^ g } else { w };
        if bit_set(w, i) {
            lemma_poly_xor_word(w, g, n);
        }
        assert(u64_poly(w2, n) =~= reduce_step(p, t, i));
        lemma_reduce_word(w2, t, i - 1, n);
    }
}

/// One reduction step of BCH(15,7) at degree `i`.
pub open spec fn step15(w: u64, i: u64) -> u64 {
    if ((w >> i) & 1u64) == 1u64 {
        w ^ (0x1d1u64 << ((i - 8) as u64))
    } else {
        w
    }
}

/// The full BCH(15,7) reduction of a word, degrees 14 down to 8.
pub open spec fn red15(w: u64) -> u64 {
    step15(step15(step15(step15(step15(step15(step15(w, 14), 13), 12), 11), 10), 9), 8)
}

proof fn lemma_red15(w: u64)
    ensures
        reduce_word_from(w, 2, 14) == red15(w),
{
    let w1 = step15(w, 14);
    let w2 = step15(w1, 13);
    let w3 = step15(w2, 12);
    let w4 = step15(w3, 11);
    let w5 = step15(w4, 10);
    let w6 = step15(w5, 9);
    let w7 = step15(w6, 8);
    assert(bch_deg(2) == 8 && bch_g(2) == 0x1d1u64);
    assert(reduce_word_from(w, 2, 14) == reduce_word_from(w1, 2, 13));
    assert(reduce_word_from(w1, 2, 13) == reduce_word_from(w2, 2, 12));
    assert(reduce_word_from(w2, 2, 12) == reduce_word_from(w3, 2, 11));
    assert(reduce_word_from(w3, 2, 11) == reduce_word_from(w4, 2, 10));
    assert(reduce_word_from(w4, 2, 10) == reduce_word_from(w5, 2, 9));
    assert(reduce_word_from(w5, 2, 9) == reduce_word_from(w6, 2, 8));
    assert(reduce_word_from(w6, 2, 8) == reduce_word_from(w7, 2, 7));
}

/// The 8-bit syndrome of flipping block position `p` of BCH(15,7), that is of
/// `x^(14-p)` modulo `x^8 + x^7 + x^6 + x^4 + 1`.
pub open spec fn bch15_syndrome(p: u64) -> u64 {
    if p == 0 {
        0xe8
    } else if p == 1 {
        0x74
    } else if p == 2 {
        0x3a
    } else if p == 3 {
        0x1d
    } else if p == 4 {
        0xe6
    } else if p == 5 {
        0x73
    } else if p == 6 {
        0xd1
    } else if p == 7 {
        0x80
    } else if p == 8 {
        0x40
    } else if p == 9 {
        0x20
    } else if p == 10 {
        0x10
    } else if p == 11 {
        0x08
    } else if p == 12 {
        0x04
    } else if p == 13 {
        0x02
    } else {
        0x01
    }
}

proof fn lemma_red15_unit(p: u64)
    by (bit_vector)
    requires
        p < 15,
    ensures
        red15(1u64 << ((14 - p) as u64)) & 0xffu64 == bch15_syndrome(p),
{
}

/// The syndromes of all patterns of at most two flips differ: the code's minimum
/// distance is at least 5.
proof fn lemma_bch15_distinct(a: u64, b: u64, c: u64, d: u64)
    by (bit_vector)
    requires
        a < 15,
        b < 15,
        c < 15,
        d < 15,
    ensures
        bch15_syndrome(a) != 0,
        bch15_syndrome(a) < 256,
        a < b ==> (bch15_syndrome(a) ^ bch15_syndrome(b)) != 0,
        bch15_syndrome(a) == bch15_syndrome(b) ==> a == b,
        b < c ==> bch15_syndrome(a) != (bch15_syndrome(b) ^ bch15_syndrome(c)),
        a < b && c < d && (bch15_syndrome(a) ^ bch15_syndrome(b)) == (bch15_syndrome(c) ^ bch15_syndrome(
            d,
        )) ==> a == c && b == d,
{
}

proof fn lemma_low_byte(x: u64, y: u64, j: int)
    requires
        x & 0xffu64 == y,
        0 <= j < 8,
    ensures
        bit_set(x, j) == bit_set(y, j),
{
    let jj = j as u64;
    assert(((x >> jj) & 1u64 == 1u64) == ((y >> jj) & 1u64 == 1u64)) by (bit_vector)
        requires
            x & 0xffu64 == y,
            jj < 8,
    ;
}

/// The coefficient sequence of `x^d` in a block of 15.
pub open spec fn unit15(d: int) -> Seq<bool> {
    Seq::new(15, |i: int| i == d)
}

/// Syndrome (low 8 coefficients of the reduction) of a 15-coefficient sequence.
spec fn syn15(p: Seq<bool>) -> Seq<bool> {
    reduced(p, 2).take(8)
}

proof fn lemma_syn15_xor(a: Seq<bool>, b: Seq<bool>)
    requires
        a.len() == 15,
        b.len() == 15,
    ensures
        syn15(xor_seq(a, b)) == xor_seq(syn15(a), syn15(b)),
{
    lemma_reduce_xor(a, b, 2, 14);
    lemma_reduce_len(a, 2, 14);
    lemma_reduce_len(b, 2, 14);
    assert(syn15(xor_seq(a, b)) =~= xor_seq(syn15(a), syn15(b)));
}

proof fn lemma_unit15_syndrome(p: int)
    requires
        0 <= p < 15,
    ensures
        syn15(unit15(14 - p)) == u64_poly(bch15_syndrome(p as u64), 8),
{
    let d = 14 - p;
    let w = 1u64 << (d as u64);
    assert(unit15(d) =~= u64_poly(w, 15)) by {
        assert forall|j: int| 0 <= j < 15 implies unit15(d)[j] == u64_poly(w, 15)[j] by {
            lemma_bit_one(d, j);
        }
    }
    lemma_reduce_word(w, 2, 14, 15);
    lemma_red15(w);
    let pp = p as u64;
    assert((d as u64) == ((14 - pp) as u64));
    lemma_red15_unit(pp);
    let r = red15(w);
    assert(syn15(unit15(d)) =~= u64_poly(bch15_syndrome(pp), 8)) by {
        assert forall|j: int| 0 <= j < 8 implies syn15(unit15(d))[j] == u64_poly(bch15_syndrome(pp), 8)[j] by {
            lemma_low_byte(r, bch15_syndrome(pp), j);
        }
    }
}

/// The 8-bit syndrome word of flipping the positions of `c` (at most two).
pub open spec fn pattern_syndrome(c: Seq<int>) -> u64 {
    if c.len() == 0 {
        0
    } else if c.len() == 1 {
        bch15_syndrome(c[0] as u64)
    } else {
        bch15_syndrome(c[0] as u64) ^ bch15_syndrome(c[1] as u64)
    }
}

/// The coefficients that flipping the positions of `c` changes in a block of 15.
spec fn flips15(c: Seq<int>) -> Seq<bool> {
    Seq::new(15, |j: int| c.contains(14 - j))
}

proof fn lemma_flip15_poly(code: Seq<bool>, c: Seq<int>)
    requires
        code.len() == 15,
    ensures
        code_poly(flip(code, c)) == xor_seq(code_poly(code), flips15(c)),
{
    assert(code_poly(flip(code, c)) =~= xor_seq(code_poly(code), flips15(c)));
}

proof fn lemma_pattern_syndrome(c: Seq<int>)
    requires
        is_combo(c, 15),
        c.len() <= 2,
    ensures
        syn15(flips15(c)) == u64_poly(pattern_syndrome(c), 8),
        pattern_syndrome(c) < 256,
{
    if c.len() == 0 {
        assert forall|j: int| 0 <= j < 15 implies !flips15(c)[j] by {}
        lemma_reduce_low(flips15(c), 2, 14);
        assert(syn15(flips15(c)) =~= u64_poly(0u64, 8)) by {
            assert forall|j: int| 0 <= j < 8 implies !u64_poly(0u64, 8)[j] by {
                lemma_bit_zero(j);
            }
        }
    } else if c.len() == 1 {
        let a = c[0];
        assert(flips15(c) =~= unit15(14 - a)) by {
            assert forall|j: int| 0 <= j < 15 implies flips15(c)[j] == unit15(14 - a)[j] by {
                if c.contains(14 - j) {
                    let k = choose|k: int| 0 <= k < c.len() && c[k] == 14 - j;
                }
                if j == 14 - a {
                    assert(c[0] == 14 - j);
                }
            }
        }
        lemma_unit15_syndrome(a);
        lemma_bch15_distinct(a as u64, a as u64, a as u64, a as u64);
    } else {
        let a = c[0];
        let b = c[1];
        assert(a < b);
        assert(flips15(c) =~= xor_seq(unit15(14 - a), unit15(14 - b))) by {
            assert forall|j: int| 0 <= j < 15 implies flips15(c)[j] == xor_seq(unit15(14 - a), unit15(14 - b))[j] by {
                if c.contains(14 - j) {
                    let k = choose|k: int| 0 <= k < c.len() && c[k] == 14 - j;
                }
                if j == 14 - a {
                    assert(c[0] == 14 - j);
                }
                if j == 14 - b {
                    assert(c[1] == 14 - j);
                }
            }
        }
        lemma_unit15_syndrome(a);
        lemma_unit15_syndrome(b);
        lemma_syn15_xor(unit15(14 - a), unit15(14 - b));
        lemma_poly_xor_word(bch15_syndrome(a as u64), bch15_syndrome(b as u64), 8);
        lemma_bch15_distinct(a as u64, b as u64, a as u64, b as u64);
        let x = bch15_syndrome(a as u64);
        let y = bch15_syndrome(b as u64);
        assert(x ^ y < 256) by (bit_vector)
            requires
                x < 256,
                y < 256,
        ;
    }
}

/// Patterns of at most two flips with equal syndromes are equal.
proof fn lemma_pattern_unique(c: Seq<int>, e: Seq<int>)
    requires
        is_combo(c, 15),
        is_combo(e, 15),
        c.len() <= 2,
        e.len() <= 2,
        pattern_syndrome(c) == pattern_syndrome(e),
    ensures
        c == e,
{
    if c.len() == 0 && e.len() == 0 {
        assert(c =~= e);
    } else if c.len() == 0 || e.len() == 0 {
        let f = if c.len() == 0 { e } else { c };
        if f.len() == 1 {
            lemma_bch15_distinct(f[0] as u64, 0, 0, 0);
        } else {
            lemma_bch15_distinct(f[0] as u64, f[1] as u64, 0, 0);
        }
    } else if c.len() == 1 && e.len() == 1 {
        lemma_bch15_distinct(c[0] as u64, e[0] as u64, 0, 0);
        assert(c =~= e);
    } else if c.len() == 1 {
        lemma_bch15_distinct(c[0] as u64, e[0] as u64, e[1] as u64, 0);
    } else if e.len() == 1 {
        lemma_bch15_distinct(e[0] as u64, c[0] as u64, c[1] as u64, 0);
    } else {
        lemma_bch15_distinct(c[0] as u64, c[1] as u64, e[0] as u64, e[1] as u64);
        assert(c =~= e);
    }
}

/// The BCH(15,7) code (t = 2) corrects any two flipped bits: a codeword with
/// at most two bits flipped is decodable, and decodes to the codeword's data.
pub proof fn lemma_bch15_corrects_two(data: Seq<bool>, e: Seq<int>, out: Seq<bool>)
    requires
        data.len() == 7,
        is_combo(e, 15),
        e.len() <= 2,
    ensures
        decodable(flip(bch_codeword(data, 2), e), 2),
        block_decodes_to(flip(bch_codeword(data, 2), e), 2, out) ==> out == data,
{
    lemma_params(2);
    let cw = bch_codeword(data, 2);
    let r = flip(cw, e);
    lemma_codeword_syndrome_zero(data, 2);
    lemma_reduce_len(code_poly(cw), 2, 14);
    lemma_flip15_poly(cw, e);
    lemma_pattern_syndrome(e);
    let pe = pattern_syndrome(e);
    let zero8 = u64_poly(0u64, 8);
    assert(syn15(code_poly(cw)) =~= zero8) by {
        assert forall|j: int| 0 <= j < 8 implies !zero8[j] by {
            lemma_bit_zero(j);
        }
    }
    // flipping a pattern c of at most two positions leaves the syndrome word pe ^ pc
    assert forall|c: Seq<int>| is_combo(c, 15) && c.len() <= 2 implies (#[trigger] corrects(r, 2, c)
        <==> pattern_syndrome(c) == pe) by {
        lemma_flip15_poly(r, c);
        lemma_pattern_syndrome(c);
        let pc = pattern_syndrome(c);
        lemma_syn15_xor(code_poly(cw), flips15(e));
        lemma_syn15_xor(code_poly(r), flips15(c));
        lemma_poly_xor_word(0u64, pe, 8);
        lemma_poly_xor_word(pe, pc, 8);
        assert(0u64 ^ pe == pe) by (bit_vector);
        let x = pe ^ pc;
        let f = code_poly(flip(r, c));
        assert(syn15(f) == u64_poly(x, 8));
        lemma_reduce_len(f, 2, 14);
        assert((x >> 8u64) == 0) by (bit_vector)
            requires
                pe < 256,
                pc < 256,
                x == pe ^ pc,
        ;
        lemma_zero_iff_low_bits(x, 8);
        assert((x == 0) == (pc == pe)) by (bit_vector)
            requires
                x == pe ^ pc,
        ;
        if corrects(r, 2, c) {
            assert forall|j: int| 0 <= j < 8 implies !#[trigger] bit_set(x, j) by {
                assert(!reduced(f, 2)[j]);
                assert(syn15(f)[j] == bit_set(x, j));
            }
        }
        if pc == pe {
            assert forall|j: int| 0 <= j < bch_deg(2) implies !#[trigger] reduced(f, 2)[j] by {
                assert(syn15(f)[j] == bit_set(x, j));
            }
        }
    }
    assert(corrects(r, 2, e));
    assert(decodable(r, 2));
    if block_decodes_to(r, 2, out) {
        let c = choose|c: Seq<int>| #[trigger] is_first_correction(r, 2, c) && out == flip(r, c).take(bch_k(2));
        assert(corrects(r, 2, c));
        lemma_pattern_unique(c, e);
        assert(flip(r, c) =~= cw);
        assert(out =~= data);
    }
}
} // verus!
