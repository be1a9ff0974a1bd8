//! Reed-Solomon over GF(256) with primitive polynomial 0x11D.
//!
//! The field is represented by an exponent table (`α^i`, `α = x`) and a
//! logarithm table; products go through the tables. The systematic encoder is
//! the usual linear-feedback shift register over the generator polynomial
//! `∏_{i<nsym} (x - α^i)`. Multiplication by a non-zero element is proved to be
//! repeated multiplication by `x`, hence to distribute over XOR and to be
//! associative; the encoder is proved linear, and every codeword is proved to
//! vanish at the generator's roots `α^0`, ..., `α^(nsym-1)`.
use vstd::prelude::*;

verus! {

/// The reduction polynomial `x^8 + x^4 + x^3 + x^2 + 1`.
pub const PRIMITIVE: u16 = 0x11d;

/// Multiply by `x` modulo the reduction polynomial.
pub open spec fn xtime(x: u16) -> u16 {
    let y = (x << 1u16) as u16;
    if y & 0x100u16 != 0 { y ^ PRIMITIVE } else { y }
}

/// `α^i` as computed by repeated multiplication by `x`.
pub open spec fn alpha_pow(i: nat) -> u16
    decreases i,
{
    if i == 0 { 1u16 } else { xtime(alpha_pow((i - 1) as nat)) }
}

/// Entry `i` of the exponent table: `α^(i mod 255)`.
pub open spec fn gf_exp(i: int) -> u8 {
    alpha_pow((i % 255) as nat) as u8
}

/// Entry `a` of the logarithm table: the last `i < m` with `α^i == a`, or 0 if there is none.
pub open spec fn gf_log_upto(a: u8, m: int) -> u8
    decreases m,
{
    if m <= 0 {
        0u8
    } else if gf_exp(m - 1) == a {
        (m - 1) as u8
    } else {
        gf_log_upto(a, m - 1)
    }
}

/// Entry `a` of the logarithm table.
pub open spec fn gf_log(a: u8) -> u8 {
    gf_log_upto(a, 255)
}

/// Table-based product in GF(256).
pub open spec fn gf_mul_spec(a: u8, b: u8) -> u8 {
    if a == 0 || b == 0 {
        0u8
    } else {
        gf_exp((gf_log(a) as int + gf_log(b) as int) % 255)
    }
}

/// `g(x) · (x + r)`, coefficients constant term first.
pub open spec fn mul_linear(g: Seq<u8>, r: u8) -> Seq<u8> {
    Seq::new(
        g.len() + 1,
        |j: int|
            (if j < g.len() { gf_mul_spec(g[j], r) } else { 0u8 }) ^ (if j > 0 { g[j - 1] } else { 0u8 }),
    )
}

/// Generator polynomial `∏_{i<nsym} (x + α^i)`, constant term first.
pub open spec fn gen_poly(nsym: nat) -> Seq<u8>
    decreases nsym,
{
    if nsym == 0 {
        seq![1u8]
    } else {
        mul_linear(gen_poly((nsym - 1) as nat), gf_exp(nsym - 1))
    }
}

/// One shift-register step: feed `byte` into the parity register.
pub open spec fn lfsr_step(parity: Seq<u8>, byte: u8, gen: Seq<u8>) -> Seq<u8> {
    let nsym = parity.len() as int;
    let fb = byte ^ parity[0];
    Seq::new(
        parity.len(),
        |j: int|
            (if j < nsym - 1 { parity[j + 1] } else { 0u8 }) ^ gf_mul_spec(fb, gen[nsym - 1 - j]),
    )
}

/// Parity register after feeding the first `m` data bytes.
pub open spec fn lfsr_upto(data: Seq<u8>, nsym: nat, m: int) -> Seq<u8>
    decreases m,
{
    if m <= 0 {
        Seq::new(nsym, |j: int| 0u8)
    } else {
        lfsr_step(lfsr_upto(data, nsym, m - 1), data[m - 1], gen_poly(nsym))
    }
}

/// The `nsym` parity bytes of `data`.
pub open spec fn rs_parity(data: Seq<u8>, nsym: nat) -> Seq<u8> {
    lfsr_upto(data, nsym, data.len() as int)
}

proof fn lemma_xtime_bound(x: u16)
    requires
        x < 256,
    ensures
        xtime(x) < 256,
{
    assert(x < 256 ==> (if ((x << 1u16) as u16) & 0x100u16 != 0 {
        ((x << 1u16) as u16) ^ 0x11du16
    } else {
        (x << 1u16) as u16
    }) < 256) by (bit_vector);
}

proof fn lemma_alpha_pow_bound(i: nat)
    ensures
        alpha_pow(i) < 256,
    decreases i,
{
    if i > 0 {
        lemma_alpha_pow_bound((i - 1) as nat);
        lemma_xtime_bound(alpha_pow((i - 1) as nat));
    }
}

pub proof fn lemma_lfsr_len(data: Seq<u8>, nsym: nat, m: int)
    ensures
        lfsr_upto(data, nsym, m).len() == nsym,
    decreases m,
{
    if m > 0 {
        lemma_lfsr_len(data, nsym, m - 1);
    }
}

proof fn lemma_gen_len(nsym: nat)
    ensures
        gen_poly(nsym).len() == nsym + 1,
    decreases nsym,
{
    if nsym > 0 {
        lemma_gen_len((nsym - 1) as nat);
    }
}

/// The exponent table (512 entries) and logarithm table (256 entries).
pub struct GfTables {
    pub exp: Vec<u8>,
    pub log: Vec<u8>,
}

impl GfTables {
    pub open spec fn wf(&self) -> bool {
        &&& self.exp@.len() == 512
        &&& self.log@.len() == 256
        &&& forall|i: int| 0 <= i < 512 ==> #[trigger] self.exp@[i] == gf_exp(i)
        &&& forall|a: int| 0 <= a < 256 ==> #[trigger] self.log@[a] == gf_log(a as u8)
    }
}

/// Build the GF(256) exponent and logarithm tables.
pub fn gf_tables() -> (t: GfTables)
    ensures
        t.wf(),
{
    let mut exp: Vec<u8> = vec![0u8; 512];
    let mut log: Vec<u8> = vec![0u8; 256];
    let mut x: u16 = 1;
    let mut i: usize = 0;
    while i < 255
        invariant
            0 <= i <= 255,
            exp@.len() == 512,
            log@.len() == 256,
            x == alpha_pow(i as nat),
            x < 256,
            forall|m: int| 0 <= m < i ==> #[trigger] exp@[m] == gf_exp(m),
            forall|a: int| 0 <= a < 256 ==> #[trigger] log@[a] == gf_log_upto(a as u8, i as int),
        decreases 255 - i,
    {
        proof {
            assert(gf_exp(i as int) == x as u8) by {
                assert((i as int) % 255 == i);
            }
        }
        exp.set(i, x as u8);
        log.set(x as usize, i as u8);
        proof {
            assert forall|a: int| 0 <= a < 256 implies #[trigger] log@[a] == gf_log_upto(
                a as u8,
                i + 1,
            ) by {
                if a == x as int {
                    assert(gf_exp(i as int) == a as u8);
                } else {
                    assert(gf_exp(i as int) != a as u8);
                }
            }
            lemma_xtime_bound(x);
        }
        x = x << 1;
        if x & 0x100 != 0 {
            x ^= PRIMITIVE;
        }
        i += 1;
    }
    let mut j: usize = 255;
    while j < 512
        invariant
            255 <= j <= 512,
            exp@.len() == 512,
            forall|m: int| 0 <= m < j ==> #[trigger] exp@[m] == gf_exp(m),
        decreases 512 - j,
    {
        proof {
            assert(gf_exp(j as int) == gf_exp(j - 255)) by {
                assert((j as int) % 255 == (j - 255) % 255);
            }
        }
        let v = exp[j - 255];
        exp.set(j, v);
        j += 1;
    }
    GfTables { exp, log }
}

/// Product in GF(256) via the tables.
pub fn gf_mul(a: u8, b: u8, t: &GfTables) -> (r: u8)
    requires
        t.wf(),
    ensures
        r == gf_mul_spec(a, b),
{
    if a == 0 || b == 0 {
        0
    } else {
        let la = t.log[a as usize] as usize;
        let lb = t.log[b as usize] as usize;
        t.exp[(la + lb) % 255]
    }
}

/// Quotient in GF(256) via the tables.
pub fn gf_div(a: u8, b: u8, t: &GfTables) -> (r: u8)
    requires
        t.wf(),
        b != 0,
    ensures
        r == (if a == 0 {
            0u8
        } else {
            gf_exp((gf_log(a) as int + 255 - gf_log(b) as int) % 255)
        }),
{
    if a == 0 {
        0
    } else {
        let la = t.log[a as usize] as usize;
        let lb = t.log[b as usize] as usize;
        t.exp[(la + 255 - lb) % 255]
    }
}

/// Power in GF(256) via the tables.
pub fn gf_pow(a: u8, n: usize, t: &GfTables) -> (r: u8)
    requires
        t.wf(),
    ensures
        r == (if n == 0 {
            1u8
        } else if a == 0 {
            0u8
        } else {
            gf_exp((gf_log(a) as int * n) % 255)
        }),
{
    if n == 0 {
        1
    } else if a == 0 {
        0
    } else {
        let la = t.log[a as usize] as u128;
        proof {
            assert(la * (n as u128) <= 255 * (usize::MAX as u128)) by (nonlinear_arith)
                requires
                    la <= 255,
                    n <= usize::MAX,
            ;
            assert(255 * (usize::MAX as u128) <= u128::MAX);
        }
        let e = ((la * (n as u128)) % 255) as usize;
        t.exp[e]
    }
}

/// Generator polynomial coefficients (constant term first) for `nsym` parity bytes.
pub fn generator_poly(nsym: usize, t: &GfTables) -> (g: Vec<u8>)
    requires
        t.wf(),
        nsym <= 512,
    ensures
        g@ == gen_poly(nsym as nat),
{
    let mut g: Vec<u8> = vec![1u8];
    let mut i: usize = 0;
    while i < nsym
        invariant
            0 <= i <= nsym <= 512,
            t.wf(),
            g@ == gen_poly(i as nat),
        decreases nsym - i,
    {
        proof {
            lemma_gen_len(i as nat);
        }
        let root = t.exp[i];
        let mut next: Vec<u8> = vec![0u8; g.len() + 1];
        let mut j: usize = 0;
        while j < g.len()
            invariant
                0 <= j <= g@.len(),
                t.wf(),
                g@ == gen_poly(i as nat),
                root == gf_exp(i as int),
                next@.len() == g@.len() + 1,
                forall|m: int| 0 <= m < j ==> #[trigger] next@[m] == mul_linear(g@, root)[m],
                next@[j as int] == (if j > 0 { g@[j - 1] } else { 0u8 }),
                forall|m: int| j < m < next@.len() ==> #[trigger] next@[m] == 0u8,
            decreases g@.len() - j,
        {
            let coeff = g[j];
            let prod = gf_mul(coeff, root, t);
            let cur = next[j];
            next.set(j, cur ^ prod);
            let nx = next[j + 1];
            next.set(j + 1, nx ^ coeff);
            proof {
                assert(next@[j as int] == mul_linear(g@, root)[j as int]) by {
                    assert(cur ^ prod == prod ^ cur) by (bit_vector);
                }
                assert(next@[j + 1] == coeff) by {
                    assert(0u8 ^ coeff == coeff) by (bit_vector);
                }
            }
            j += 1;
        }
        proof {
            let last = g@.len() as int;
            assert(next@[last] == mul_linear(g@, root)[last]) by {
                let x = g@[last - 1];
                assert(0u8 ^ x == x) by (bit_vector);
            }
            assert(next@ =~= mul_linear(g@, root));
        }
        g = next;
        i += 1;
    }
    g
}

/// Placeholder systematic encoder kept for API compatibility: returns the data
/// followed by `nsym` zero bytes (no parity is computed).
pub fn encode(data: &[u8], nsym: usize) -> (out: Vec<u8>)
    ensures
        out@ == data@ + Seq::new(nsym as nat, |i: int| 0u8),
{
    let mut out = vstd::slice::slice_to_vec(data);
    let mut i: usize = 0;
    while i < nsym
        invariant
            0 <= i <= nsym,
            out@ == data@ + Seq::new(i as nat, |m: int| 0u8),
        decreases nsym - i,
    {
        out.push(0u8);
        i += 1;
        proof {
            assert(out@ =~= data@ + Seq::new(i as nat, |m: int| 0u8));
        }
    }
    out
}

/// Systematic RS encode: `data` followed by its `nsym` parity bytes.
pub fn encode_systematic(data: &[u8], nsym: usize) -> (out: Vec<u8>)
    requires
        nsym <= 512,
    ensures
        out@ == data@ + rs_parity(data@, nsym as nat),
{
    if nsym == 0 {
        proof {
            lemma_lfsr_len(data@, 0, data@.len() as int);
            assert(data@ + rs_parity(data@, 0) =~= data@);
        }
        return vstd::slice::slice_to_vec(data);
    }
    let t = gf_tables();
    let gen = generator_poly(nsym, &t);
    proof {
        lemma_gen_len(nsym as nat);
    }
    let mut parity: Vec<u8> = vec![0u8; nsym];
    proof {
        assert(parity@ =~= lfsr_upto(data@, nsym as nat, 0));
    }
    let mut m: usize = 0;
    while m < data.len()
        invariant
            0 <= m <= data@.len(),
            0 < nsym <= 512,
            t.wf(),
            gen@ == gen_poly(nsym as nat),
            gen@.len() == nsym + 1,
            parity@ == lfsr_upto(data@, nsym as nat, m as int),
            parity@.len() == nsym,
        decreases data@.len() - m,
    {
        let ghost old_par = parity@;
        let byte = data[m];
        let feedback = byte ^ parity[0];
        let mut next: Vec<u8> = Vec::new();
        let mut j: usize = 0;
        while j < nsym
            invariant
                0 <= j <= nsym,
                0 < nsym <= 512,
                t.wf(),
                gen@ == gen_poly(nsym as nat),
                gen@.len() == nsym + 1,
                parity@ == old_par,
                parity@.len() == nsym,
                feedback == byte ^ old_par[0],
                next@.len() == j,
                forall|q: int| 0 <= q < j ==> #[trigger] next@[q] == lfsr_step(old_par, byte, gen@)[q],
            decreases nsym - j,
        {
            let shifted = if j + 1 < nsym { parity[j + 1] } else { 0u8 };
            let g_coeff = gen[nsym - 1 - j];
            let v = shifted ^ gf_mul(feedback, g_coeff, &t);
            next.push(v);
            j += 1;
        }
        proof {
            assert(next@ =~= lfsr_step(old_par, byte, gen@));
        }
        parity = next;
        m += 1;
    }
    let mut out = vstd::slice::slice_to_vec(data);
    let mut q: usize = 0;
    while q < nsym
        invariant
            0 <= q <= nsym,
            parity@.len() == nsym,
            parity@ == rs_parity(data@, nsym as nat),
            out@ == data@ + parity@.take(q as int),
        decreases nsym - q,
    {
        out.push(parity[q]);
        q += 1;
        proof {
            assert(out@ =~= data@ + parity@.take(q as int));
        }
    }
    proof {
        assert(parity@.take(nsym as int) =~= parity@);
    }
    out
}

/// Generic algebraic decoding is not provided: always fails.
pub fn decode(_data: &[u8], _nsym: usize) -> (r: Result<Vec<u8>, ()>)
    ensures
        r is Err,
{
    Err(())
}


/// The parity has `nsym` bytes.
pub proof fn lemma_rs_parity_len(data: Seq<u8>, nsym: nat)
    ensures
        rs_parity(data, nsym).len() == nsym,
{
    lemma_lfsr_len(data, nsym, data.len() as int);
}


// ── Linearity ───────────────────────────────────────────────────────────────

/// Bytewise XOR of two byte strings (of the length of the first).
pub open spec fn xor_bytes(a: Seq<u8>, b: Seq<u8>) -> Seq<u8> {
    Seq::new(a.len(), |i: int| a[i] ^ b[i])
}

/// `a` multiplied `k` times by `x`, that is `a · α^k`.
pub open spec fn xpow(a: u16, k: nat) -> u16
    decreases k,
{
    if k == 0 { a } else { xtime(xpow(a, (k - 1) as nat)) }
}

/// `α^(m-1)`, ..., `α^0` include the byte `a`.
pub open spec fn in_orbit(a: u8, m: nat) -> bool
    decreases m,
{
    m > 0 && ((alpha_pow((m - 1) as nat) as u8) == a || in_orbit(a, (m - 1) as nat))
}

proof fn lemma_xtime_linear(x: u16, y: u16)
    by (bit_vector)
    requires
        x < 256,
        y < 256,
    ensures
        xtime(x ^ y) == xtime(x) ^ xtime(y),
        x ^ y < 256,
        xtime(0) == 0,
{
}

proof fn lemma_byte_xor(p: u8, q: u8, r: u8, s: u8)
    by (bit_vector)
    ensures
        (p as u16) ^ (q as u16) == (p ^ q) as u16,
        (p ^ q) ^ (r ^ s) == (p ^ r) ^ (q ^ s),
        0u8 ^ 0u8 == 0u8,
{
}

/// `α^255 = 1`, and every non-zero byte is among `α^0`, ..., `α^254`.
proof fn lemma_orbit()
    by (bit_vector)
    ensures
        alpha_pow(255) == 1u16,
        forall|a: u8| a != 0 ==> #[trigger] in_orbit(a, 255),
{
}

proof fn lemma_xpow_linear(x: u16, y: u16, k: nat)
    requires
        x < 256,
        y < 256,
    ensures
        xpow(x ^ y, k) == xpow(x, k) ^ xpow(y, k),
        xpow(x, k) < 256,
        xpow(0, k) == 0,
    decreases k,
{
    lemma_xtime_linear(x, y);
    if k > 0 {
        lemma_xpow_linear(x, y, (k - 1) as nat);
        lemma_xpow_linear(y, y, (k - 1) as nat);
        lemma_xtime_linear(xpow(x, (k - 1) as nat), xpow(y, (k - 1) as nat));
        lemma_xtime_bound(xpow(x, (k - 1) as nat));
    }
}

proof fn lemma_alpha_shift(i: nat, k: nat)
    ensures
        alpha_pow(i + k) == xpow(alpha_pow(i), k),
    decreases k,
{
    if k > 0 {
        lemma_alpha_shift(i, (k - 1) as nat);
        assert(alpha_pow(i + k) == xtime(alpha_pow((i + k - 1) as nat)));
    }
}

proof fn lemma_alpha_mod(i: nat)
    ensures
        alpha_pow(i) == alpha_pow(i % 255),
    decreases i,
{
    if i >= 255 {
        let r = (i - 255) as nat;
        lemma_orbit();
        lemma_alpha_shift(255, r);
        lemma_alpha_shift(0, r);
        assert(alpha_pow(i) == alpha_pow(r));
        lemma_alpha_mod(r);
        assert(i % 255 == r % 255) by {
            vstd::arithmetic::div_mod::lemma_mod_sub_multiples_vanish(i as int, 255);
        }
    }
}

proof fn lemma_orbit_log(a: u8, m: nat)
    requires
        in_orbit(a, m),
        m <= 255,
    ensures
        gf_log_upto(a, m as int) < m,
        alpha_pow(gf_log_upto(a, m as int) as nat) == a as u16,
    decreases m,
{
    lemma_alpha_pow_bound((m - 1) as nat);
    assert(gf_exp(m - 1) == alpha_pow((m - 1) as nat) as u8) by {
        vstd::arithmetic::div_mod::lemma_small_mod((m - 1) as nat, 255);
    }
    if gf_exp(m - 1) != a {
        lemma_orbit_log(a, (m - 1) as nat);
    }
}

/// A non-zero byte is `α` to the power of its logarithm.
proof fn lemma_exp_log(a: u8)
    requires
        a != 0,
    ensures
        gf_log(a) < 255,
        alpha_pow(gf_log(a) as nat) == a as u16,
{
    lemma_orbit();
    assert(in_orbit(a, 255));
    lemma_orbit_log(a, 255);
}

/// Multiplying by a non-zero `g` is multiplying `log g` times by `x`.
proof fn lemma_mul_xpow(a: u8, g: u8)
    requires
        g != 0,
    ensures
        gf_mul_spec(a, g) as u16 == xpow(a as u16, gf_log(g) as nat),
{
    let lg = gf_log(g) as nat;
    lemma_xpow_linear(0, 0, lg);
    if a != 0 {
        let la = gf_log(a) as nat;
        lemma_exp_log(a);
        lemma_exp_log(g);
        let s = ((la + lg) % 255) as nat;
        assert(s % 255 == s) by {
            vstd::arithmetic::div_mod::lemma_small_mod(s, 255);
        }
        lemma_alpha_mod(la + lg);
        lemma_alpha_shift(la, lg);
        lemma_alpha_pow_bound(s);
        assert(gf_mul_spec(a, g) == alpha_pow(s) as u8);
    }
}

/// GF(256) multiplication distributes over XOR.
pub proof fn lemma_gf_mul_distributes(x: u8, y: u8, g: u8)
    ensures
        gf_mul_spec(x ^ y, g) == gf_mul_spec(x, g) ^ gf_mul_spec(y, g),
{
    lemma_byte_xor(x, y, 0, 0);
    if g == 0 {
        lemma_byte_xor(0, 0, 0, 0);
    } else {
        let lg = gf_log(g) as nat;
        lemma_mul_xpow(x ^ y, g);
        lemma_mul_xpow(x, g);
        lemma_mul_xpow(y, g);
        lemma_xpow_linear(x as u16, y as u16, lg);
        lemma_byte_xor(gf_mul_spec(x, g), gf_mul_spec(y, g), 0, 0);
    }
}

proof fn lemma_lfsr_linear(a: Seq<u8>, b: Seq<u8>, nsym: nat, m: int)
    requires
        a.len() == b.len(),
        m <= a.len(),
    ensures
        lfsr_upto(xor_bytes(a, b), nsym, m) == xor_bytes(lfsr_upto(a, nsym, m), lfsr_upto(b, nsym, m)),
    decreases m,
{
    let ab = xor_bytes(a, b);
    lemma_lfsr_len(ab, nsym, m);
    lemma_lfsr_len(a, nsym, m);
    lemma_lfsr_len(b, nsym, m);
    if m <= 0 {
        lemma_byte_xor(0, 0, 0, 0);
        assert(lfsr_upto(ab, nsym, m) =~= xor_bytes(lfsr_upto(a, nsym, m), lfsr_upto(b, nsym, m)));
    } else {
        lemma_lfsr_linear(a, b, nsym, m - 1);
        lemma_lfsr_len(a, nsym, m - 1);
        lemma_lfsr_len(b, nsym, m - 1);
        lemma_gen_len(nsym);
        let p = lfsr_upto(a, nsym, m - 1);
        let q = lfsr_upto(b, nsym, m - 1);
        let gen = gen_poly(nsym);
        let n = nsym as int;
        let fa = a[m - 1] ^ p[0];
        let fb = b[m - 1] ^ q[0];
        lemma_byte_xor(a[m - 1], b[m - 1], p[0], q[0]);
        assert forall|j: int| 0 <= j < n implies #[trigger] lfsr_upto(ab, nsym, m)[j] == lfsr_upto(
            a,
            nsym,
            m,
        )[j] ^ lfsr_upto(b, nsym, m)[j] by {
            let g = gen[n - 1 - j];
            let sp = if j < n - 1 { p[j + 1] } else { 0u8 };
            let sq = if j < n - 1 { q[j + 1] } else { 0u8 };
            lemma_byte_xor(0, 0, 0, 0);
            lemma_gf_mul_distributes(fa, fb, g);
            lemma_byte_xor(sp, sq, gf_mul_spec(fa, g), gf_mul_spec(fb, g));
        }
        assert(lfsr_upto(ab, nsym, m) =~= xor_bytes(lfsr_upto(a, nsym, m), lfsr_upto(b, nsym, m)));
    }
}

/// Reed-Solomon encoding is linear: for two messages of equal length, the
/// parity of their bytewise XOR is the XOR of their parities, so the codeword
/// of the XOR (`encode_systematic`'s output) is the XOR of the codewords.
pub proof fn lemma_rs_linear(a: Seq<u8>, b: Seq<u8>, nsym: nat)
    requires
        a.len() == b.len(),
    ensures
        rs_parity(xor_bytes(a, b), nsym) == xor_bytes(rs_parity(a, nsym), rs_parity(b, nsym)),
        xor_bytes(a, b) + rs_parity(xor_bytes(a, b), nsym) == xor_bytes(
            a + rs_parity(a, nsym),
            b + rs_parity(b, nsym),
        ),
{
    lemma_lfsr_linear(a, b, nsym, a.len() as int);
    lemma_rs_parity_len(a, nsym);
    lemma_rs_parity_len(b, nsym);
    assert(xor_bytes(a, b) + rs_parity(xor_bytes(a, b), nsym) =~= xor_bytes(
        a + rs_parity(a, nsym),
        b + rs_parity(b, nsym),
    ));
}


// ── Roots of the codeword ───────────────────────────────────────────────────

/// `r^k` in GF(256).
pub open spec fn gf_pow_spec(r: u8, k: nat) -> u8
    decreases k,
{
    if k == 0 { 1u8 } else { gf_mul_spec(gf_pow_spec(r, (k - 1) as nat), r) }
}

/// Value at `r` of the polynomial whose coefficients are `c`, highest degree
/// first (Horner's rule).
pub open spec fn poly_eval(c: Seq<u8>, r: u8) -> u8
    decreases c.len(),
{
    if c.len() == 0 { 0u8 } else { gf_mul_spec(poly_eval(c.drop_last(), r), r) ^ c.last() }
}

/// The generator polynomial with its coefficients highest degree first.
pub open spec fn gen_high_first(nsym: nat) -> Seq<u8> {
    Seq::new(nsym + 1, |i: int| gen_poly(nsym)[nsym - i])
}

/// Every coefficient of `x` multiplied by `c`.
pub open spec fn scale(c: u8, x: Seq<u8>) -> Seq<u8> {
    Seq::new(x.len(), |i: int| gf_mul_spec(c, x[i]))
}

proof fn lemma_xor_laws(p: u8, q: u8, r: u8)
    by (bit_vector)
    ensures
        p ^ 0 == p,
        0 ^ p == p,
        p ^ p == 0,
        p ^ q == q ^ p,
        (p ^ q) ^ r == p ^ (q ^ r),
        (p ^ q == 0) ==> p == q,
{
}

proof fn lemma_xtime_nonzero(x: u16)
    by (bit_vector)
    requires
        0 < x < 256,
    ensures
        xtime(x) != 0,
{
}

proof fn lemma_alpha_nonzero(i: nat)
    ensures
        alpha_pow(i) != 0,
        alpha_pow(i) < 256,
    decreases i,
{
    lemma_alpha_pow_bound(i);
    if i > 0 {
        lemma_alpha_nonzero((i - 1) as nat);
        lemma_xtime_nonzero(alpha_pow((i - 1) as nat));
    }
}

/// The product of non-zero bytes is `α` to the sum of their logarithms.
proof fn lemma_mul_nonzero(x: u8, y: u8)
    requires
        x != 0,
        y != 0,
    ensures
        gf_mul_spec(x, y) as u16 == alpha_pow(gf_log(x) as nat + gf_log(y) as nat),
        gf_mul_spec(x, y) != 0,
{
    let s = gf_log(x) as nat + gf_log(y) as nat;
    lemma_exp_log(x);
    lemma_exp_log(y);
    assert((s % 255) % 255 == s % 255) by {
        vstd::arithmetic::div_mod::lemma_small_mod(s % 255, 255);
    }
    lemma_alpha_mod(s);
    lemma_alpha_nonzero(s);
}

proof fn lemma_mul_comm(x: u8, y: u8)
    ensures
        gf_mul_spec(x, y) == gf_mul_spec(y, x),
{
}

proof fn lemma_mul_one(x: u8)
    ensures
        gf_mul_spec(x, 1) == x,
        gf_mul_spec(1, x) == x,
        gf_mul_spec(x, 0) == 0,
        gf_mul_spec(0, x) == 0,
{
    if x != 0 {
        lemma_mul_nonzero(x, 1);
        lemma_exp_log(x);
        lemma_exp_log(1);
        let lx = gf_log(x) as nat;
        let l1 = gf_log(1) as nat;
        lemma_alpha_shift(l1, lx);
        lemma_alpha_shift(0, lx);
        assert(lx + l1 == l1 + lx);
    }
}

proof fn lemma_mul_assoc(a: u8, b: u8, c: u8)
    ensures
        gf_mul_spec(gf_mul_spec(a, b), c) == gf_mul_spec(a, gf_mul_spec(b, c)),
{
    if a != 0 && b != 0 && c != 0 {
        let la = gf_log(a) as nat;
        let lb = gf_log(b) as nat;
        let lc = gf_log(c) as nat;
        let ab = gf_mul_spec(a, b);
        let bc = gf_mul_spec(b, c);
        lemma_mul_nonzero(a, b);
        lemma_mul_nonzero(b, c);
        lemma_mul_nonzero(ab, c);
        lemma_mul_nonzero(a, bc);
        lemma_exp_log(ab);
        lemma_exp_log(bc);
        let lab = gf_log(ab) as nat;
        let lbc = gf_log(bc) as nat;
        lemma_alpha_shift(lab, lc);
        lemma_alpha_shift(la + lb, lc);
        lemma_alpha_shift(lbc, la);
        lemma_alpha_shift(lb + lc, la);
        assert(la + lb + lc == lb + lc + la);
        assert(la + lbc == lbc + la);
    } else {
        lemma_mul_one(a);
        lemma_mul_one(b);
        lemma_mul_one(c);
        lemma_mul_one(gf_mul_spec(a, b));
        lemma_mul_one(gf_mul_spec(b, c));
    }
}

proof fn lemma_mul_distributes_right(g: u8, x: u8, y: u8)
    ensures
        gf_mul_spec(g, x ^ y) == gf_mul_spec(g, x) ^ gf_mul_spec(g, y),
{
    lemma_gf_mul_distributes(x, y, g);
    lemma_mul_comm(g, x ^ y);
    lemma_mul_comm(g, x);
    lemma_mul_comm(g, y);
}

proof fn lemma_eval_xor(x: Seq<u8>, y: Seq<u8>, r: u8)
    requires
        x.len() == y.len(),
    ensures
        poly_eval(xor_bytes(x, y), r) == poly_eval(x, r) ^ poly_eval(y, r),
    decreases x.len(),
{
    if x.len() > 0 {
        let xy = xor_bytes(x, y);
        assert(xy.drop_last() =~= xor_bytes(x.drop_last(), y.drop_last()));
        lemma_eval_xor(x.drop_last(), y.drop_last(), r);
        let ex = poly_eval(x.drop_last(), r);
        let ey = poly_eval(y.drop_last(), r);
        lemma_gf_mul_distributes(ex, ey, r);
        lemma_byte_xor(gf_mul_spec(ex, r), gf_mul_spec(ey, r), x.last(), y.last());
    } else {
        lemma_xor_laws(0, 0, 0);
    }
}

proof fn lemma_eval_scale(c: u8, x: Seq<u8>, r: u8)
    ensures
        poly_eval(scale(c, x), r) == gf_mul_spec(c, poly_eval(x, r)),
    decreases x.len(),
{
    if x.len() > 0 {
        assert(scale(c, x).drop_last() =~= scale(c, x.drop_last()));
        lemma_eval_scale(c, x.drop_last(), r);
        let ex = poly_eval(x.drop_last(), r);
        lemma_mul_assoc(c, ex, r);
        lemma_mul_distributes_right(c, gf_mul_spec(ex, r), x.last());
    } else {
        lemma_mul_one(c);
    }
}

/// Value of a concatenation: the first part is shifted up by the length of the second.
proof fn lemma_eval_concat(x: Seq<u8>, y: Seq<u8>, r: u8)
    ensures
        poly_eval(x + y, r) == gf_mul_spec(poly_eval(x, r), gf_pow_spec(r, y.len())) ^ poly_eval(y, r),
    decreases y.len(),
{
    let ex = poly_eval(x, r);
    if y.len() == 0 {
        assert(x + y =~= x);
        lemma_mul_one(ex);
        lemma_xor_laws(ex, 0, 0);
    } else {
        let y1 = y.drop_last();
        assert((x + y).drop_last() =~= x + y1);
        assert((x + y).last() == y.last());
        lemma_eval_concat(x, y1, r);
        let k = gf_pow_spec(r, y1.len());
        let a = gf_mul_spec(ex, k);
        let e1 = poly_eval(y1, r);
        lemma_gf_mul_distributes(a, e1, r);
        lemma_mul_assoc(ex, k, r);
        lemma_xor_laws(gf_mul_spec(a, r), gf_mul_spec(e1, r), y.last());
    }
}

proof fn lemma_eval_zeros(n: nat, r: u8)
    ensures
        poly_eval(Seq::new(n, |i: int| 0u8), r) == 0,
    decreases n,
{
    if n > 0 {
        assert(Seq::new(n, |i: int| 0u8).drop_last() =~= Seq::new((n - 1) as nat, |i: int| 0u8));
        lemma_eval_zeros((n - 1) as nat, r);
        lemma_mul_one(r);
        lemma_xor_laws(0, 0, 0);
    }
}

proof fn lemma_gen_monic(nsym: nat)
    ensures
        gen_poly(nsym)[nsym as int] == 1u8,
    decreases nsym,
{
    lemma_gen_len(nsym);
    if nsym > 0 {
        lemma_gen_monic((nsym - 1) as nat);
        lemma_gen_len((nsym - 1) as nat);
        lemma_xor_laws(1, 0, 0);
    }
}

proof fn lemma_eval_push_zero(x: Seq<u8>, r: u8)
    ensures
        poly_eval(x.push(0u8), r) == gf_mul_spec(poly_eval(x, r), r),
{
    assert(x.push(0u8).drop_last() =~= x);
    lemma_xor_laws(gf_mul_spec(poly_eval(x, r), r), 0, 0);
}

proof fn lemma_eval_single(c: u8, r: u8)
    ensures
        poly_eval(seq![c], r) == c,
{
    assert(seq![c].drop_last() =~= Seq::<u8>::empty());
    assert(poly_eval(Seq::<u8>::empty(), r) == 0);
    lemma_mul_one(r);
    lemma_xor_laws(c, 0, 0);
}

/// Value of a polynomial from its leading coefficient and the rest.
proof fn lemma_eval_head(c: u8, x: Seq<u8>, r: u8)
    ensures
        poly_eval(seq![c] + x, r) == gf_mul_spec(c, gf_pow_spec(r, x.len())) ^ poly_eval(x, r),
{
    lemma_eval_concat(seq![c], x, r);
    lemma_eval_single(c, r);
}

/// Coefficient `i` of the generator (highest first) from the previous one.
proof fn lemma_gen_split_at(nsym: nat, i: int)
    requires
        nsym >= 1,
        0 <= i <= nsym,
    ensures
        gen_high_first(nsym)[i] == xor_bytes(
            gen_high_first((nsym - 1) as nat).push(0u8),
            seq![0u8] + scale(gf_exp(nsym - 1), gen_high_first((nsym - 1) as nat)),
        )[i],
{
    let n = nsym as int;
    let r0 = gf_exp(n - 1);
    let g = gen_poly((nsym - 1) as nat);
    lemma_gen_len(nsym);
    lemma_gen_len((nsym - 1) as nat);
    lemma_xor_laws(g[n - 1], 0, 0);
    lemma_xor_laws(0, g[n - 1], 0);
    lemma_xor_laws(gf_mul_spec(g[0], r0), 0, 0);
    lemma_xor_laws(gf_mul_spec(g[n - i], r0), g[n - 1 - i], 0);
    lemma_mul_comm(g[n - i], r0);
}

proof fn lemma_gen_split(nsym: nat)
    requires
        nsym >= 1,
    ensures
        gen_high_first(nsym) == xor_bytes(
            gen_high_first((nsym - 1) as nat).push(0u8),
            seq![0u8] + scale(gf_exp(nsym - 1), gen_high_first((nsym - 1) as nat)),
        ),
{
    let h = gen_high_first(nsym);
    let x = xor_bytes(
        gen_high_first((nsym - 1) as nat).push(0u8),
        seq![0u8] + scale(gf_exp(nsym - 1), gen_high_first((nsym - 1) as nat)),
    );
    assert forall|i: int| 0 <= i < h.len() implies #[trigger] h[i] == x[i] by {
        lemma_gen_split_at(nsym, i);
    }
    assert(h =~= x);
}

proof fn lemma_eval_lead_zero_scale(r0: u8, x: Seq<u8>, r: u8)
    ensures
        poly_eval(seq![0u8] + scale(r0, x), r) == gf_mul_spec(poly_eval(x, r), r0),
{
    lemma_eval_head(0u8, scale(r0, x), r);
    lemma_mul_one(gf_pow_spec(r, x.len()));
    lemma_xor_laws(poly_eval(scale(r0, x), r), 0, 0);
    lemma_eval_scale(r0, x, r);
    lemma_mul_comm(r0, poly_eval(x, r));
}

/// The generator's value at `r` is its predecessor's times `r + α^(nsym-1)`.
proof fn lemma_gen_eval_step(nsym: nat, r: u8)
    requires
        nsym >= 1,
    ensures
        poly_eval(gen_high_first(nsym), r) == gf_mul_spec(
            poly_eval(gen_high_first((nsym - 1) as nat), r),
            r ^ gf_exp(nsym - 1),
        ),
{
    let r0 = gf_exp(nsym - 1);
    let gh = gen_high_first((nsym - 1) as nat);
    let eg = poly_eval(gh, r);
    lemma_gen_split(nsym);
    lemma_eval_xor(gh.push(0u8), seq![0u8] + scale(r0, gh), r);
    lemma_eval_push_zero(gh, r);
    lemma_eval_lead_zero_scale(r0, gh, r);
    lemma_mul_distributes_right(eg, r, r0);
}

/// `α^0`, ..., `α^(nsym-1)` are roots of the generator polynomial.
proof fn lemma_gen_roots(nsym: nat, j: nat)
    requires
        j < nsym,
    ensures
        poly_eval(gen_high_first(nsym), gf_exp(j as int)) == 0,
    decreases nsym,
{
    let r = gf_exp(j as int);
    let r0 = gf_exp(nsym - 1);
    lemma_gen_eval_step(nsym, r);
    let eg = poly_eval(gen_high_first((nsym - 1) as nat), r);
    if j == nsym - 1 {
        lemma_xor_laws(r, 0, 0);
        lemma_mul_one(eg);
    } else {
        lemma_gen_roots((nsym - 1) as nat, j);
        lemma_mul_one(r ^ r0);
    }
}

/// One step of the shift register, as polynomials: the tail of the register
/// moves up one place and the feedback times the generator's tail is added.
proof fn lemma_step_shape(p: Seq<u8>, byte: u8, nsym: nat)
    requires
        nsym >= 1,
        p.len() == nsym,
    ensures
        lfsr_step(p, byte, gen_poly(nsym)) == xor_bytes(
            p.skip(1).push(0u8),
            scale(byte ^ p[0], gen_high_first(nsym).skip(1)),
        ),
{
    lemma_gen_len(nsym);
    assert(lfsr_step(p, byte, gen_poly(nsym)) =~= xor_bytes(
        p.skip(1).push(0u8),
        scale(byte ^ p[0], gen_high_first(nsym).skip(1)),
    ));
}

/// If `r` is a root of the generator, its tail evaluates to `r^nsym`.
proof fn lemma_gen_tail(nsym: nat, r: u8)
    requires
        poly_eval(gen_high_first(nsym), r) == 0,
    ensures
        poly_eval(gen_high_first(nsym).skip(1), r) == gf_pow_spec(r, nsym),
{
    let gh = gen_high_first(nsym);
    lemma_gen_len(nsym);
    lemma_gen_monic(nsym);
    assert(gh =~= seq![1u8] + gh.skip(1));
    lemma_eval_head(1u8, gh.skip(1), r);
    lemma_mul_one(gf_pow_spec(r, nsym));
    lemma_xor_laws(gf_pow_spec(r, nsym), poly_eval(gh.skip(1), r), 0);
}

/// The algebra of one register step.
proof fn lemma_step_algebra(e: u8, r: u8, byte: u8, p0: u8, et: u8, rn1: u8)
    requires
        gf_mul_spec(e, gf_mul_spec(rn1, r)) ^ (gf_mul_spec(p0, rn1) ^ et) == 0,
    ensures
        gf_mul_spec(gf_mul_spec(e, r) ^ byte, gf_mul_spec(rn1, r)) ^ (gf_mul_spec(et, r) ^ gf_mul_spec(
            byte ^ p0,
            gf_mul_spec(rn1, r),
        )) == 0,
{
    let rn = gf_mul_spec(rn1, r);
    lemma_gf_mul_distributes(gf_mul_spec(e, r), byte, rn);
    lemma_gf_mul_distributes(byte, p0, rn);
    lemma_mul_assoc(e, r, rn);
    lemma_mul_comm(r, rn);
    lemma_mul_assoc(e, rn, r);
    lemma_mul_assoc(p0, rn1, r);
    let a = gf_mul_spec(e, rn);
    let b = gf_mul_spec(p0, rn1);
    lemma_xor_laws(a, b, et);
    lemma_gf_mul_distributes(a, b, r);
    lemma_gf_mul_distributes(a ^ b, et, r);
    lemma_mul_one(r);
    lemma_xor_reassoc(gf_mul_spec(a, r), gf_mul_spec(byte, rn), gf_mul_spec(et, r), gf_mul_spec(b, r));
}

/// The shift register keeps `data · x^nsym + parity` vanishing at every root
/// of the generator polynomial.
proof fn lemma_lfsr_root(data: Seq<u8>, nsym: nat, m: int, r: u8)
    requires
        nsym >= 1,
        0 <= m <= data.len(),
        poly_eval(gen_high_first(nsym), r) == 0,
    ensures
        gf_mul_spec(poly_eval(data.take(m), r), gf_pow_spec(r, nsym)) ^ poly_eval(lfsr_upto(data, nsym, m), r)
            == 0,
    decreases m,
{
    let rn = gf_pow_spec(r, nsym);
    lemma_lfsr_len(data, nsym, m);
    if m == 0 {
        assert(data.take(0) =~= Seq::<u8>::empty());
        assert(lfsr_upto(data, nsym, 0) =~= Seq::new(nsym, |i: int| 0u8));
        lemma_eval_zeros(nsym, r);
        lemma_mul_one(rn);
        lemma_xor_laws(0, 0, 0);
    } else {
        lemma_lfsr_root(data, nsym, m - 1, r);
        lemma_lfsr_len(data, nsym, m - 1);
        let p = lfsr_upto(data, nsym, m - 1);
        let byte = data[m - 1];
        let gl = gen_high_first(nsym).skip(1);
        let tail = p.skip(1);
        lemma_step_shape(p, byte, nsym);
        lemma_eval_xor(tail.push(0u8), scale(byte ^ p[0], gl), r);
        lemma_eval_scale(byte ^ p[0], gl, r);
        lemma_eval_push_zero(tail, r);
        lemma_gen_tail(nsym, r);
        assert(p =~= seq![p[0]] + tail);
        lemma_eval_head(p[0], tail, r);
        assert(data.take(m).drop_last() =~= data.take(m - 1));
        lemma_step_algebra(
            poly_eval(data.take(m - 1), r),
            r,
            byte,
            p[0],
            poly_eval(tail, r),
            gf_pow_spec(r, (nsym - 1) as nat),
        );
    }
}

proof fn lemma_xor_reassoc(ar: u8, byr: u8, tr: u8, br: u8)
    by (bit_vector)
    ensures
        (ar ^ byr) ^ (tr ^ (byr ^ br)) == (ar ^ br) ^ tr,
{
}

/// Every codeword vanishes at `α^0`, ..., `α^(nsym-1)`: read with its first
/// byte as the highest coefficient, `data` followed by its parity is a
/// multiple of the generator polynomial.
pub proof fn lemma_codeword_roots(data: Seq<u8>, nsym: nat, j: nat)
    requires
        j < nsym,
    ensures
        poly_eval(data + rs_parity(data, nsym), gf_exp(j as int)) == 0,
{
    let r = gf_exp(j as int);
    lemma_gen_roots(nsym, j);
    lemma_lfsr_root(data, nsym, data.len() as int, r);
    assert(data.take(data.len() as int) =~= data);
    lemma_rs_parity_len(data, nsym);
    lemma_eval_concat(data, rs_parity(data, nsym), r);
}

} // verus!
