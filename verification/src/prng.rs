//! Reproducible pseudorandom placement: FNV-1a seeds, a Knuth LCG and the map
//! from LCG states to block or band positions.
use vstd::prelude::*;
use vstd::set_lib::{set_int_range, lemma_int_range, lemma_map_size, lemma_subset_equality, lemma_len_subset};
use vstd::relations::injective_on;
use vstd::arithmetic::div_mod::{
    lemma_add_mod_noop, lemma_fundamental_div_mod, lemma_fundamental_div_mod_converse, lemma_mod_multiples_basic,
    lemma_mul_mod_noop_left, lemma_small_mod,
};

verus! {

/// 2^64.
pub open spec fn two64() -> nat {
    0x1_0000_0000_0000_0000
}

/// FNV-1a 64-bit offset basis.
pub const FNV_OFFSET: u64 = 0xcbf29ce484222325;

/// FNV-1a 64-bit prime.
pub const FNV_PRIME: u64 = 0x00000100000001b3;

/// LCG multiplier (Knuth, MMIX).
pub const LCG_MUL: u64 = 6364136223846793005;

/// LCG increment (Knuth, MMIX).
pub const LCG_INC: u64 = 1442695040888963407;

/// FNV-1a over `data`: xor each byte in, then multiply by the prime modulo 2^64.
pub open spec fn fnv1a(data: Seq<u8>) -> u64
    decreases data.len(),
{
    if data.len() == 0 {
        FNV_OFFSET
    } else {
        (((fnv1a(data.drop_last()) ^ (data.last() as u64)) as nat * FNV_PRIME as nat) % two64()) as u64
    }
}

/// One LCG step: `state * LCG_MUL + LCG_INC` modulo 2^64.
pub open spec fn lcg_step(state: u64) -> u64 {
    ((state as nat * LCG_MUL as nat + LCG_INC as nat) % two64()) as u64
}

/// FNV-1a 64-bit hash: fast, dependency-free.
pub fn fnv1a_hash(data: &[u8]) -> (h: u64)
    ensures
        h == fnv1a(data@),
{
    let mut h: u64 = FNV_OFFSET;
    let mut i: usize = 0;
    proof {
        assert(data@.take(0) =~= Seq::<u8>::empty());
    }
    while i < data.len()
        invariant
            0 <= i <= data@.len(),
            h == fnv1a(data@.take(i as int)),
        decreases data@.len() - i,
    {
        proof {
            assert(data@.take(i + 1).drop_last() =~= data@.take(i as int));
        }
        h = h ^ (data[i] as u64);
        h = h.wrapping_mul(FNV_PRIME);
        i += 1;
    }
    proof {
        assert(data@.take(data@.len() as int) =~= data@);
    }
    h
}

/// One step of the LCG with Knuth's constants (reproducible across platforms).
pub fn lcg_next(state: u64) -> (next: u64)
    ensures
        next == lcg_step(state),
{
    let m = state.wrapping_mul(LCG_MUL);
    proof {
        lemma_add_mod_noop((state as nat * LCG_MUL as nat) as int, LCG_INC as int, two64() as int);
        assert(LCG_INC as nat % two64() == LCG_INC as nat);
    }
    m.wrapping_add(LCG_INC)
}

/// Seed for verification without geometry: FNV-1a of the first 4096 bytes of
/// the raw pixel buffer.
pub fn seed_from_pixels(raw: &[u8]) -> (s: u64)
    ensures
        s == fnv1a(raw@.take(if raw@.len() < 4096 { raw@.len() as int } else { 4096 })),
{
    let n = if raw.len() < 4096 {
        raw.len()
    } else {
        4096
    };
    fnv1a_hash(vstd::slice::slice_subrange(raw, 0, n))
}

/// Position (column, row) that an LCG state selects in a `w × h` grid: the high
/// 32 bits modulo `w`, the low 32 bits modulo `h`.
pub open spec fn position_of(state: u64, w: u32, h: u32) -> (u32, u32) {
    (((state as nat / 0x1_0000_0000) % (w as nat)) as u32, ((state as nat % 0x1_0000_0000) % (h as nat)) as u32)
}

/// The grid position an LCG state selects.
pub fn position_from_state(state: u64, w: u32, h: u32) -> (p: (u32, u32))
    requires
        w > 0,
        h > 0,
    ensures
        p == position_of(state, w, h),
{
    let hi = (state >> 32u64) as u32;
    let lo = state as u32;
    proof {
        assert((state >> 32u64) == state / 0x1_0000_0000) by (bit_vector);
        assert((state >> 32u64) < 0x1_0000_0000) by (bit_vector);
        assert(state as u32 == state % 0x1_0000_0000) by (bit_vector);
    }
    (hi % w, lo % h)
}

/// The `n`-th LCG state after `seed`.
pub open spec fn lcg_state(seed: u64, n: nat) -> u64
    decreases n,
{
    if n == 0 {
        seed
    } else {
        lcg_step(lcg_state(seed, (n - 1) as nat))
    }
}


// ── Ordered position sets ───────────────────────────────────────────────────

/// Lexicographic order on (column, row) positions.
pub open spec fn pos_lt(a: (u32, u32), b: (u32, u32)) -> bool {
    a.0 < b.0 || (a.0 == b.0 && a.1 < b.1)
}

/// Strictly increasing (so also free of repeats).
pub open spec fn strictly_sorted(s: Seq<(u32, u32)>) -> bool {
    forall|i: int, j: int| 0 <= i < j < s.len() ==> pos_lt(#[trigger] s[i], #[trigger] s[j])
}

/// Positions that LCG steps 1 to `n` after `seed` select in a `w × h` grid.
pub open spec fn visited(seed: u64, w: u32, h: u32, n: nat) -> Set<(u32, u32)> {
    Set::new(|p: (u32, u32)| exists|k: nat| 1 <= k <= n && p == #[trigger] position_of(lcg_state(seed, k), w, h))
}

fn pos_less(a: (u32, u32), b: (u32, u32)) -> (r: bool)
    ensures
        r == pos_lt(a, b),
{
    a.0 < b.0 || (a.0 == b.0 && a.1 < b.1)
}

/// Add `p` to a strictly sorted list, keeping it strictly sorted.
fn insert_sorted(v: &mut Vec<(u32, u32)>, p: (u32, u32))
    requires
        strictly_sorted(old(v)@),
    ensures
        strictly_sorted(final(v)@),
        final(v)@.to_set() == old(v)@.to_set().insert(p),
        final(v)@.len() <= old(v)@.len() + 1,
{
    let n = v.len();
    let mut i: usize = 0;
    while i < n && pos_less(v[i], p)
        invariant
            n == v@.len(),
            0 <= i <= n,
            v@ == old(v)@,
            strictly_sorted(v@),
            forall|j: int| 0 <= j < i ==> pos_lt(#[trigger] v@[j], p),
        decreases n - i,
    {
        i += 1;
    }
    if i < n && v[i].0 == p.0 && v[i].1 == p.1 {
        proof {
            assert(v@.to_set() =~= old(v)@.to_set().insert(p)) by {
                assert(v@.contains(p)) by {
                    assert(v@[i as int] == p);
                }
            }
        }
        return;
    }
    let ghost before = v@;
    v.insert(i, p);
    proof {
        assert forall|a: int, b: int| 0 <= a < b < v@.len() implies pos_lt(#[trigger] v@[a], #[trigger] v@[b]) by {
            if a < i && b == i {
            } else if a == i && b > i {
                assert(v@[b] == before[b - 1]);
                assert(!pos_lt(before[i as int], p));
                if b - 1 > i {
                    assert(pos_lt(before[i as int], before[b - 1]));
                }
            } else if a < i && b > i {
                assert(v@[b] == before[b - 1]);
                assert(pos_lt(before[a], before[b - 1]));
            } else if a > i {
                assert(v@[a] == before[a - 1]);
                assert(v@[b] == before[b - 1]);
            }
        }
        assert(v@.to_set() =~= before.to_set().insert(p)) by {
            assert forall|q: (u32, u32)| v@.to_set().contains(q) <==> before.to_set().insert(p).contains(q) by {
                if v@.contains(q) {
                    let k = choose|k: int| 0 <= k < v@.len() && v@[k] == q;
                    if k < i {
                        assert(before[k] == q);
                    } else if k > i {
                        assert(before[k - 1] == q);
                    }
                }
                if before.contains(q) {
                    let k = choose|k: int| 0 <= k < before.len() && before[k] == q;
                    if k < i {
                        assert(v@[k] == q);
                    } else {
                        assert(v@[k + 1] == q);
                    }
                }
                if q == p {
                    assert(v@[i as int] == p);
                }
            }
        }
    }
}

/// Deterministic ordered positions in a `w × h` band: LCG states after `seed`
/// select positions until `count` distinct ones are found; the list is sorted
/// (column, then row). An empty band gives an empty list.
///
/// The LCG has full period, so every position is selected within 2^64 steps;
/// `count` positions are therefore always found in a non-empty band that holds
/// that many (a larger `count` would never be reached).
pub fn prng_band_positions(seed: u64, band_w: u32, band_h: u32, count: usize) -> (list: Vec<(u32, u32)>)
    requires
        band_w == 0 || band_h == 0 || count <= band_w as int * band_h as int,
    ensures
        band_w == 0 || band_h == 0 ==> list@.len() == 0,
        band_w > 0 && band_h > 0 ==> exists|n: nat|
            #![trigger visited(seed, band_w, band_h, n)]
            n <= two64() && list@.to_set() == visited(seed, band_w, band_h, n),
        band_w > 0 && band_h > 0 ==> list@.len() == count,
        strictly_sorted(list@),
        forall|i: int| 0 <= i < list@.len() ==> (#[trigger] list@[i]).0 < band_w && list@[i].1 < band_h,
{
    if band_w == 0 || band_h == 0 {
        proof {
            assert(band_w as int * band_h as int == 0);
        }
        return Vec::new();
    }
    let mut list: Vec<(u32, u32)> = Vec::new();
    let mut state = seed;
    let mut steps: u128 = 0;
    proof {
        assert(list@.to_set() =~= visited(seed, band_w, band_h, 0));
    }
    while list.len() < count && steps < 0x1_0000_0000_0000_0000u128
        invariant
            steps <= two64(),
            band_w > 0,
            band_h > 0,
            strictly_sorted(list@),
            list@.to_set() == visited(seed, band_w, band_h, steps as nat),
            state == lcg_state(seed, steps as nat),
            list@.len() <= count,
            forall|i: int| 0 <= i < list@.len() ==> (#[trigger] list@[i]).0 < band_w && list@[i].1 < band_h,
        decreases 0x1_0000_0000_0000_0000u128 - steps,
    {
        state = lcg_next(state);
        steps += 1;
        let p = position_from_state(state, band_w, band_h);
        let ghost before = list@;
        insert_sorted(&mut list, p);
        proof {
            assert(visited(seed, band_w, band_h, steps as nat) =~= visited(
                seed,
                band_w,
                band_h,
                (steps - 1) as nat,
            ).insert(p)) by {
                assert(p == position_of(lcg_state(seed, steps as nat), band_w, band_h));
            }
            assert forall|i: int| 0 <= i < list@.len() implies (#[trigger] list@[i]).0 < band_w
                && list@[i].1 < band_h by {
                assert(list@.to_set().contains(list@[i]));
                if list@[i] != p {
                    assert(before.to_set().contains(list@[i]));
                    let k = choose|k: int| 0 <= k < before.len() && before[k] == list@[i];
                    assert(before[k].0 < band_w);
                }
            }
            assert(list@.len() <= count) by {
                if before.len() == count {
                }
            }
        }
    }
    proof {
        if count <= band_w as int * band_h as int && list@.len() < count {
            lemma_visited_all(seed, band_w, band_h);
            lemma_grid_len(band_w, band_h);
            assert(list@.no_duplicates()) by {
                assert forall|i: int, j: int| 0 <= i < list@.len() && 0 <= j < list@.len() && i != j implies list@[i]
                    != list@[j] by {
                    if i < j {
                        assert(pos_lt(list@[i], list@[j]));
                    } else {
                        assert(pos_lt(list@[j], list@[i]));
                    }
                }
            }
            list@.unique_seq_to_set();
            vstd::seq_lib::seq_to_set_is_finite(list@);
            lemma_len_subset(grid(band_w, band_h), list@.to_set());
        }
    }
    list
}

/// Block count for pseudorandom placement: 5% of `total_blocks` rounded half
/// up, at least 32, at most all of them.
pub open spec fn block_target(total_blocks: nat) -> nat {
    let t = (total_blocks + 10) / 20;
    let t = if t < 32 { 32 } else { t };
    if t > total_blocks {
        total_blocks
    } else {
        t
    }
}

/// How many blocks pseudorandom placement marks among `total_blocks`.
pub fn target_block_count(total_blocks: u32) -> (t: u32)
    ensures
        t == block_target(total_blocks as nat),
{
    let t = ((total_blocks as u64 + 10) / 20) as u32;
    let t = if t < 32 { 32 } else { t };
    if t > total_blocks {
        total_blocks
    } else {
        t
    }
}

/// Pseudorandom 8×8 block set of an `iw × ih` image for `seed`, as a sorted
/// list: the LCG walk of [`prng_band_positions`] over the block grid, until
/// [`block_target`] distinct blocks are found (which always happens: the target
/// never exceeds the number of blocks).
pub fn prng_blocks_from_seed(seed: u64, iw: u32, ih: u32) -> (blocks: Vec<(u32, u32)>)
    requires
        (iw / 8) * (ih / 8) <= u32::MAX,
    ensures
        ({
            let (w, h) = (iw / 8, ih / 8);
            &&& w == 0 || h == 0 ==> blocks@.len() == 0
            &&& w > 0 && h > 0 ==> exists|n: nat|
                #![trigger visited(seed, w, h, n)]
                n <= two64() && blocks@.to_set() == visited(seed, w, h, n)
            &&& blocks@.len() == block_target((w * h) as nat)
            &&& forall|i: int| 0 <= i < blocks@.len() ==> (#[trigger] blocks@[i]).0 < w && blocks@[i].1 < h
        }),
        strictly_sorted(blocks@),
{
    let total_bx = iw / 8;
    let total_by = ih / 8;
    let target = target_block_count(total_bx * total_by);
    prng_band_positions(seed, total_bx, total_by, target as usize)
}


// ── Full period of the LCG ──────────────────────────────────────────────────

/// `LCG_MUL^n`.
pub open spec fn mul_pow(n: nat) -> int
    decreases n,
{
    if n == 0 {
        1
    } else {
        LCG_MUL as int * mul_pow((n - 1) as nat)
    }
}

/// `1 + LCG_MUL + ... + LCG_MUL^(n-1)`.
pub open spec fn mul_geo(n: nat) -> int
    decreases n,
{
    if n == 0 {
        0
    } else {
        LCG_MUL as int * mul_geo((n - 1) as nat) + 1
    }
}

/// `2^k`.
pub open spec fn p2(k: nat) -> int
    decreases k,
{
    if k == 0 {
        1
    } else {
        2 * p2((k - 1) as nat)
    }
}

proof fn lemma_p2_pos(k: nat)
    ensures
        p2(k) >= 1,
    decreases k,
{
    if k > 0 {
        lemma_p2_pos((k - 1) as nat);
    }
}

proof fn lemma_p2_64()
    ensures
        p2(64) == two64(),
{
    reveal_with_fuel(p2, 65);
}

proof fn lemma_geo_parity(n: nat)
    ensures
        mul_geo(n) % 2 == n % 2,
    decreases n,
{
    if n > 0 {
        lemma_geo_parity((n - 1) as nat);
        let g = mul_geo((n - 1) as nat);
        lemma_fundamental_div_mod(g, 2);
        let t = 3182068111923396502 * g + g / 2;
        let v = LCG_MUL as int * g + 1;
        assert(v == mul_geo(n));
        if g % 2 == 0 {
            assert(v == t * 2 + 1);
            lemma_fundamental_div_mod_converse(v, 2, t, 1);
        } else {
            assert(v == (t + 1) * 2 + 0);
            lemma_fundamental_div_mod_converse(v, 2, t + 1, 0);
        }
    }
}

proof fn lemma_pow_mod4(n: nat)
    ensures
        mul_pow(n) % 4 == 1,
    decreases n,
{
    if n > 0 {
        lemma_pow_mod4((n - 1) as nat);
        let p = mul_pow((n - 1) as nat);
        assert(LCG_MUL as int == 4 * 1591034055961698251 + 1);
        assert(LCG_MUL as int * p == 4 * (1591034055961698251 * p) + p);
    }
}

proof fn lemma_geo_step(n: nat)
    ensures
        mul_geo(n + 1) == mul_geo(n) + mul_pow(n),
    decreases n,
{
    if n > 0 {
        lemma_geo_step((n - 1) as nat);
    }
}

proof fn lemma_pow_geo(n: nat)
    ensures
        mul_pow(n) - 1 == (LCG_MUL as int - 1) * mul_geo(n),
    decreases n,
{
    if n > 0 {
        lemma_pow_geo((n - 1) as nat);
    }
}

proof fn lemma_geo_add(m: nat, n: nat)
    ensures
        mul_geo(m + n) == mul_geo(m) + mul_pow(m) * mul_geo(n),
    decreases n,
{
    if n > 0 {
        lemma_geo_add(m, (n - 1) as nat);
        lemma_geo_step(m);
        let pm = mul_pow(m);
        let gn = mul_geo((n - 1) as nat);
        assert(mul_geo((m + n) as nat) == LCG_MUL as int * mul_geo((m + n - 1) as nat) + 1);
        assert(pm * (LCG_MUL as int * gn + 1) == LCG_MUL as int * (pm * gn) + pm) by (nonlinear_arith);
    }
}

/// `2^k` divides `g * o` for odd `o` only if it divides `g`.
proof fn lemma_p2_odd_factor(k: nat, g: int, o: int)
    requires
        o % 2 == 1,
        (g * o) % p2(k) == 0,
    ensures
        g % p2(k) == 0,
    decreases k,
{
    lemma_p2_pos(k);
    if k == 0 {
        assert(g % 1 == 0);
    } else {
        let pk = p2((k - 1) as nat);
        lemma_p2_pos((k - 1) as nat);
        lemma_fundamental_div_mod(g * o, 2 * pk);
        let q = (g * o) / (2 * pk);
        assert(g * o == 2 * (pk * q)) by (nonlinear_arith)
            requires
                g * o == (2 * pk) * q + 0,
        ;
        lemma_fundamental_div_mod(g, 2);
        lemma_fundamental_div_mod(o, 2);
        let h = g / 2;
        let oh = o / 2;
        if g % 2 == 1 {
            assert(g * o == 2 * (2 * h * oh + h + oh) + 1) by (nonlinear_arith)
                requires
                    g == 2 * h + 1,
                    o == 2 * oh + 1,
            ;
            assert(false);
        }
        assert(h * o == pk * q) by (nonlinear_arith)
            requires
                g == 2 * h,
                g * o == 2 * (pk * q),
        ;
        lemma_mod_multiples_basic(q, pk);
        assert((h * o) % pk == 0) by {
            assert(q * pk == h * o) by (nonlinear_arith)
                requires
                    h * o == pk * q,
            ;
        }
        lemma_p2_odd_factor((k - 1) as nat, h, o);
        lemma_fundamental_div_mod(h, pk);
        let r = h / pk;
        assert(g == (r) * (2 * pk)) by (nonlinear_arith)
            requires
                g == 2 * h,
                h == pk * r + 0,
        ;
        lemma_mod_multiples_basic(r, 2 * pk);
    }
}

/// `2^k` divides the geometric sum of `d` terms only if it divides `d`.
proof fn lemma_geo_divides(k: nat, d: nat)
    requires
        mul_geo(d) % p2(k) == 0,
    ensures
        (d as int) % p2(k) == 0,
    decreases k,
{
    lemma_p2_pos(k);
    if k == 0 {
        assert((d as int) % 1 == 0);
    } else {
        let pk = p2((k - 1) as nat);
        lemma_p2_pos((k - 1) as nat);
        let g = mul_geo(d);
        lemma_fundamental_div_mod(g, 2 * pk);
        let q = g / (2 * pk);
        assert(g == 2 * (pk * q)) by (nonlinear_arith)
            requires
                g == (2 * pk) * q + 0,
        ;
        lemma_geo_parity(d);
        assert(d % 2 == 0);
        let m = d / 2;
        assert(d == m + m);
        lemma_geo_add(m, m);
        lemma_pow_mod4(m);
        let pm = mul_pow(m);
        let gm = mul_geo(m);
        lemma_fundamental_div_mod(pm, 4);
        let t = pm / 4;
        let o = 2 * t + 1;
        assert(o % 2 == 1);
        assert(g == 2 * (gm * o)) by (nonlinear_arith)
            requires
                g == gm + pm * gm,
                pm == 4 * t + 1,
                o == 2 * t + 1,
        ;
        assert(gm * o == pk * q);
        assert(q * pk == gm * o) by (nonlinear_arith)
            requires
                gm * o == pk * q,
        ;
        lemma_mod_multiples_basic(q, pk);
        lemma_p2_odd_factor((k - 1) as nat, gm, o);
        lemma_geo_divides((k - 1) as nat, m);
        lemma_fundamental_div_mod(m as int, pk);
        let r = (m as int) / pk;
        assert(d as int == r * (2 * pk)) by (nonlinear_arith)
            requires
                d == 2 * m,
                m == pk * r + 0,
        ;
        lemma_mod_multiples_basic(r, 2 * pk);
    }
}

/// Closed form of the LCG after `n` steps.
proof fn lemma_lcg_closed(s: u64, n: nat)
    ensures
        lcg_state(s, n) as int == (mul_pow(n) * (s as int) + LCG_INC as int * mul_geo(n)) % (two64() as int),
    decreases n,
{
    if n == 0 {
        lemma_small_mod(s as nat, two64());
    } else {
        lemma_lcg_closed(s, (n - 1) as nat);
        let m = two64() as int;
        let x = mul_pow((n - 1) as nat) * (s as int) + LCG_INC as int * mul_geo((n - 1) as nat);
        let st = lcg_state(s, (n - 1) as nat) as int;
        assert(st == x % m);
        lemma_mul_mod_noop_left(x, LCG_MUL as int, m);
        lemma_add_mod_noop(st * LCG_MUL as int, LCG_INC as int, m);
        lemma_add_mod_noop(x * LCG_MUL as int, LCG_INC as int, m);
        assert(x * LCG_MUL as int + LCG_INC as int == mul_pow(n) * (s as int) + LCG_INC as int * mul_geo(n)) by (nonlinear_arith)
            requires
                x == mul_pow((n - 1) as nat) * (s as int) + LCG_INC as int * mul_geo((n - 1) as nat),
                mul_pow(n) == LCG_MUL as int * mul_pow((n - 1) as nat),
                mul_geo(n) == LCG_MUL as int * mul_geo((n - 1) as nat) + 1,
        ;
        assert(lcg_state(s, n) == lcg_step(lcg_state(s, (n - 1) as nat)));
    }
}

proof fn lemma_lcg_shift(s: u64, k: nat, d: nat)
    ensures
        lcg_state(s, k + d) == lcg_state(lcg_state(s, k), d),
    decreases d,
{
    if d > 0 {
        lemma_lcg_shift(s, k, (d - 1) as nat);
        assert(lcg_state(s, (k + d) as nat) == lcg_step(lcg_state(s, (k + d - 1) as nat)));
    }
}

/// The LCG does not return to a state in fewer than 2^64 steps.
proof fn lemma_no_early_return(x: u64, d: nat)
    requires
        0 < d < two64(),
    ensures
        lcg_state(x, d) != x,
{
    if lcg_state(x, d) == x {
        let m = two64() as int;
        let pw = mul_pow(d);
        let g = mul_geo(d);
        let y = pw * (x as int) + LCG_INC as int * g;
        lemma_lcg_closed(x, d);
        lemma_fundamental_div_mod(y, m);
        let q = y / m;
        lemma_pow_geo(d);
        let o = (LCG_MUL as int - 1) * (x as int) + LCG_INC as int;
        assert(LCG_MUL as int - 1 == 2 * 3182068111923396502);
        assert(LCG_INC as int == 2 * 721347520444481703 + 1);
        assert(o == 2 * (3182068111923396502 * (x as int) + 721347520444481703) + 1);
        assert(o % 2 == 1);
        assert(g * o == q * m) by (nonlinear_arith)
            requires
                y == m * q + (x as int),
                y == pw * (x as int) + LCG_INC as int * g,
                pw - 1 == (LCG_MUL as int - 1) * g,
                o == (LCG_MUL as int - 1) * (x as int) + LCG_INC as int,
        ;
        lemma_mod_multiples_basic(q, m);
        lemma_p2_64();
        lemma_p2_odd_factor(64, g, o);
        lemma_geo_divides(64, d);
        lemma_small_mod(d, two64());
    }
}

/// LCG steps 1 to 2^64 after a seed reach pairwise distinct states.
pub proof fn lemma_lcg_distinct(s: u64, k1: nat, k2: nat)
    requires
        1 <= k1 < k2 <= two64(),
    ensures
        lcg_state(s, k1) != lcg_state(s, k2),
{
    let d = (k2 - k1) as nat;
    lemma_lcg_shift(s, k1, d);
    lemma_no_early_return(lcg_state(s, k1), d);
}

/// Every state is reached by one of LCG steps 1 to 2^64 after any seed.
pub proof fn lemma_lcg_onto(s: u64, z: u64)
    ensures
        exists|k: nat| 1 <= k <= two64() && #[trigger] lcg_state(s, k) == z,
{
    let m = two64() as int;
    let dom = set_int_range(1, m + 1);
    let f = |k: int| lcg_state(s, k as nat) as int;
    lemma_int_range(1, m + 1);
    assert(injective_on(f, dom)) by {
        assert forall|a: int, b: int| dom.contains(a) && dom.contains(b) && #[trigger] f(a) == #[trigger] f(b) implies a
            == b by {
            if a < b {
                lemma_lcg_distinct(s, a as nat, b as nat);
            } else if b < a {
                lemma_lcg_distinct(s, b as nat, a as nat);
            }
        }
    }
    let img = dom.map(f);
    lemma_map_size(dom, img, f);
    let all = set_int_range(0, m);
    lemma_int_range(0, m);
    assert(img.subset_of(all)) by {
        assert forall|v: int| img.contains(v) implies all.contains(v) by {
            let k = choose|k: int| dom.contains(k) && v == f(k);
        }
    }
    lemma_subset_equality(img, all);
    assert(all.contains(z as int));
    assert(img.contains(z as int));
    let k = choose|k: int| dom.contains(k) && z as int == f(k);
    assert(lcg_state(s, k as nat) == z);
}

/// All positions of a `w × h` grid.
pub open spec fn grid(w: u32, h: u32) -> Set<(u32, u32)> {
    Set::new(|p: (u32, u32)| p.0 < w && p.1 < h)
}

/// A `w × h` grid has `w * h` positions.
pub proof fn lemma_grid_len(w: u32, h: u32)
    ensures
        grid(w, h).finite(),
        grid(w, h).len() == w as int * h as int,
{
    let n = w as int * h as int;
    assert(n >= 0) by (nonlinear_arith)
        requires
            n == w as int * h as int,
            w as int >= 0,
            h as int >= 0,
    ;
    lemma_int_range(0, n);
    let dom = set_int_range(0, n);
    if h == 0 {
        assert(grid(w, h) =~= Set::<(u32, u32)>::empty());
        assert(n == 0);
    } else {
        let f = |i: int| ((i / (h as int)) as u32, (i % (h as int)) as u32);
        assert forall|i: int| 0 <= i < n implies 0 <= #[trigger] (i / (h as int)) < w && 0 <= i % (h as int) < h by {
            lemma_fundamental_div_mod(i, h as int);
            assert(0 <= i / (h as int) < w) by (nonlinear_arith)
                requires
                    0 <= i < w as int * h as int,
                    h > 0,
                    i == h * (i / (h as int)) + i % (h as int),
                    0 <= i % (h as int) < h,
            ;
        }
        assert(injective_on(f, dom)) by {
            assert forall|a: int, b: int| dom.contains(a) && dom.contains(b) && #[trigger] f(a) == #[trigger] f(b) implies a
                == b by {
                lemma_fundamental_div_mod(a, h as int);
                lemma_fundamental_div_mod(b, h as int);
                assert(a / (h as int) < w && b / (h as int) < w);
            }
        }
        let img = dom.map(f);
        lemma_map_size(dom, img, f);
        assert(img =~= grid(w, h)) by {
            assert forall|p: (u32, u32)| grid(w, h).contains(p) implies img.contains(p) by {
                let i = p.0 as int * h as int + p.1 as int;
                assert(0 <= i < n) by (nonlinear_arith)
                    requires
                        i == p.0 as int * h as int + p.1 as int,
                        0 <= p.0 < w,
                        0 <= p.1 < h,
                        n == w as int * h as int,
                ;
                lemma_fundamental_div_mod_converse(i, h as int, p.0 as int, p.1 as int);
                assert(dom.contains(i));
                assert(f(i) == p);
                assert(dom.contains(i) && p == f(i));
            }
            assert forall|p: (u32, u32)| img.contains(p) implies grid(w, h).contains(p) by {
                let i = choose|i: int| dom.contains(i) && p == f(i);
            }
        }
    }
}

/// After 2^64 steps the LCG has selected every position of the grid.
pub proof fn lemma_visited_all(seed: u64, w: u32, h: u32)
    requires
        w > 0,
        h > 0,
    ensures
        visited(seed, w, h, two64()) == grid(w, h),
{
    assert forall|p: (u32, u32)| grid(w, h).contains(p) implies visited(seed, w, h, two64()).contains(p) by {
        let zi = p.0 as int * 0x1_0000_0000 + p.1 as int;
        assert(0 <= zi < 0x1_0000_0000_0000_0000) by (nonlinear_arith)
            requires
                zi == p.0 as int * 0x1_0000_0000 + p.1 as int,
                p.0 < 0x1_0000_0000,
                p.1 < 0x1_0000_0000,
        ;
        let z = zi as u64;
        lemma_lcg_onto(seed, z);
        let k = choose|k: nat| 1 <= k <= two64() && #[trigger] lcg_state(seed, k) == z;
        lemma_fundamental_div_mod_converse(zi, 0x1_0000_0000, p.0 as int, p.1 as int);
        lemma_small_mod(p.0 as nat, w as nat);
        lemma_small_mod(p.1 as nat, h as nat);
        assert(position_of(lcg_state(seed, k), w, h) == p);
    }
    assert forall|p: (u32, u32)| visited(seed, w, h, two64()).contains(p) implies grid(w, h).contains(p) by {
        let k = choose|k: nat| 1 <= k <= two64() && p == #[trigger] position_of(lcg_state(seed, k), w, h);
    }
    assert(visited(seed, w, h, two64()) =~= grid(w, h));
}

} // verus!
