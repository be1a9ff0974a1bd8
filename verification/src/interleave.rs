//! Byte interleave / de-interleave (QR-style block interleave).
//!
//! Interleaving spreads burst errors (crop, scratch) across several codewords
//! so that the block code can correct them. The input is split column-wise into
//! `depth` columns of `rows = ceil(n / depth)` bytes and read back row by row.
//! Depth 0 or 1 is the identity.
use vstd::prelude::*;
use vstd::arithmetic::div_mod::*;
use vstd::arithmetic::mul::*;
use vstd::seq_lib::*;
use vstd::set_lib::*;

verus! {

/// Number of rows of the interleave matrix: `ceil(n / d)`.
pub open spec fn rows_of(n: int, d: int) -> int {
    if n % d == 0 { n / d } else { n / d + 1 }
}

/// Source indices of row `r` for the first `c` columns (those that fall inside the input).
pub open spec fn row_prefix(n: int, rows: int, r: int, c: int) -> Seq<int>
    decreases c,
{
    if c <= 0 {
        Seq::empty()
    } else {
        let idx = (c - 1) * rows + r;
        row_prefix(n, rows, r, c - 1) + if idx < n { seq![idx] } else { Seq::empty() }
    }
}

/// Source indices of the first `r` rows, in output order.
pub open spec fn rows_prefix(n: int, d: int, rows: int, r: int) -> Seq<int>
    decreases r,
{
    if r <= 0 {
        Seq::empty()
    } else {
        rows_prefix(n, d, rows, r - 1) + row_prefix(n, rows, r - 1, d)
    }
}

/// The order in which `interleave` reads the input: output position `k` holds
/// input byte `interleave_order(n, d)[k]`.
pub open spec fn interleave_order(n: int, d: int) -> Seq<int> {
    if d <= 1 || n <= 0 {
        Seq::new(n as nat, |i: int| i)
    } else {
        rows_prefix(n, d, rows_of(n, d), rows_of(n, d))
    }
}

/// `s` lists every index of `0..n` exactly once.
pub open spec fn is_index_permutation(s: Seq<int>, n: int) -> bool {
    &&& s.len() == n
    &&& s.no_duplicates()
    &&& forall|k: int| 0 <= k < s.len() ==> 0 <= #[trigger] s[k] < n
}

proof fn lemma_row_prefix_props(n: int, rows: int, r: int, c: int)
    requires
        rows > 0,
        0 <= r < rows,
        c >= 0,
    ensures
        forall|k: int|
            0 <= k < row_prefix(n, rows, r, c).len() ==> {
                let e = #[trigger] row_prefix(n, rows, r, c)[k];
                &&& 0 <= e < n
                &&& e % rows == r
                &&& e / rows < c
            },
        forall|k1: int, k2: int|
            0 <= k1 < k2 < row_prefix(n, rows, r, c).len() ==> #[trigger] row_prefix(
                n,
                rows,
                r,
                c,
            )[k1] < #[trigger] row_prefix(n, rows, r, c)[k2],
    decreases c,
{
    if c > 0 {
        lemma_row_prefix_props(n, rows, r, c - 1);
        let idx = (c - 1) * rows + r;
        assert(idx % rows == r && idx / rows == c - 1) by {
            lemma_fundamental_div_mod_converse(idx, rows, c - 1, r);
        }
        let p = row_prefix(n, rows, r, c - 1);
        assert forall|k: int| 0 <= k < p.len() implies #[trigger] p[k] < idx by {
            let e = p[k];
            lemma_fundamental_div_mod(e, rows);
            assert(e / rows <= c - 2);
            lemma_mul_inequality(e / rows, c - 2, rows);
            lemma_mul_is_commutative(e / rows, rows);
            lemma_mul_is_distributive_sub(rows, c - 1, 1);
            lemma_mul_is_commutative(c - 1, rows);
        }
        if idx >= 0 {
        }
        assert(idx >= 0) by {
            lemma_mul_nonnegative(c - 1, rows);
        }
    }
}

proof fn lemma_rows_prefix_props(n: int, d: int, rows: int, r: int)
    requires
        rows > 0,
        d >= 0,
        0 <= r <= rows,
    ensures
        forall|k: int|
            0 <= k < rows_prefix(n, d, rows, r).len() ==> {
                let e = #[trigger] rows_prefix(n, d, rows, r)[k];
                &&& 0 <= e < n
                &&& e % rows < r
            },
        rows_prefix(n, d, rows, r).no_duplicates(),
    decreases r,
{
    if r > 0 {
        lemma_rows_prefix_props(n, d, rows, r - 1);
        lemma_row_prefix_props(n, rows, r - 1, d);
        let a = rows_prefix(n, d, rows, r - 1);
        let b = row_prefix(n, rows, r - 1, d);
        let s = a + b;
        assert forall|k1: int, k2: int| 0 <= k1 < s.len() && 0 <= k2 < s.len() && k1 != k2 implies s[k1]
            != s[k2] by {
            if k1 < a.len() && k2 < a.len() {
            } else if k1 >= a.len() && k2 >= a.len() {
                let j1 = k1 - a.len();
                let j2 = k2 - a.len();
                if j1 < j2 {
                    assert(b[j1] < b[j2]);
                } else {
                    assert(b[j2] < b[j1]);
                }
            } else if k1 < a.len() {
                assert(s[k1] % rows < r - 1);
                assert(b[k2 - a.len()] % rows == r - 1);
            } else {
                assert(s[k2] % rows < r - 1);
                assert(b[k1 - a.len()] % rows == r - 1);
            }
        }
    }
}

proof fn lemma_row_prefix_contains(n: int, rows: int, r: int, c: int, j: int)
    requires
        rows > 0,
        0 <= r < rows,
        0 <= j < c,
        j * rows + r < n,
    ensures
        row_prefix(n, rows, r, c).contains(j * rows + r),
    decreases c,
{
    if j == c - 1 {
        let p = row_prefix(n, rows, r, c);
        assert(p[p.len() - 1] == j * rows + r);
    } else {
        lemma_row_prefix_contains(n, rows, r, c - 1, j);
        let q = row_prefix(n, rows, r, c - 1);
        let i = choose|i: int| 0 <= i < q.len() && q[i] == j * rows + r;
        assert(row_prefix(n, rows, r, c)[i] == j * rows + r);
    }
}

proof fn lemma_rows_prefix_contains(n: int, d: int, rows: int, r: int, e: int)
    requires
        rows > 0,
        d > 0,
        0 <= e < n,
        e / rows < d,
        e % rows < r,
        r <= rows,
    ensures
        rows_prefix(n, d, rows, r).contains(e),
    decreases r,
{
    let a = rows_prefix(n, d, rows, r - 1);
    let b = row_prefix(n, rows, r - 1, d);
    if e % rows == r - 1 {
        lemma_fundamental_div_mod(e, rows);
        lemma_mul_is_commutative(rows, e / rows);
        lemma_row_prefix_contains(n, rows, r - 1, d, e / rows);
        let i = choose|i: int| 0 <= i < b.len() && b[i] == e;
        assert((a + b)[a.len() + i] == e);
    } else {
        lemma_rows_prefix_contains(n, d, rows, r - 1, e);
        let i = choose|i: int| 0 <= i < a.len() && a[i] == e;
        assert((a + b)[i] == e);
    }
}

/// A duplicate-free sequence of indices below `n` that contains every index below `n`
/// has length exactly `n`.
proof fn lemma_full_cover_len(s: Seq<int>, n: int)
    requires
        n >= 0,
        s.no_duplicates(),
        forall|k: int| 0 <= k < s.len() ==> 0 <= #[trigger] s[k] < n,
        forall|e: int| 0 <= e < n ==> s.contains(e),
    ensures
        s.len() == n,
{
    s.unique_seq_to_set();
    let st = s.to_set();
    let range = Set::new(|e: int| 0 <= e < n);
    assert(st =~= range) by {
        assert forall|e: int| range.contains(e) implies st.contains(e) by {
            assert(s.contains(e));
        }
    }
    lemma_int_range(0, n);
    assert(range =~= set_int_range(0, n));
}

/// The interleave order visits every input index exactly once.
pub proof fn lemma_interleave_order_permutation(n: int, d: int)
    requires
        n >= 0,
    ensures
        is_index_permutation(interleave_order(n, d), n),
{
    if d <= 1 || n <= 0 {
        let s = interleave_order(n, d);
        assert forall|k1: int, k2: int| 0 <= k1 < s.len() && 0 <= k2 < s.len() && k1 != k2 implies s[k1]
            != s[k2] by {}
    } else {
        let rows = rows_of(n, d);
        lemma_fundamental_div_mod(n, d);
        assert(rows > 0) by {
            if n % d == 0 {
                assert(n / d > 0) by {
                    if n / d == 0 {
                        lemma_mul_by_zero_is_zero(d);
                    }
                }
            } else {
                lemma_div_pos_is_pos(n, d);
            }
        }
        assert(n <= d * rows) by {
            lemma_mul_is_distributive_add(d, n / d, 1);
        }
        lemma_rows_prefix_props(n, d, rows, rows);
        let s = rows_prefix(n, d, rows, rows);
        assert forall|e: int| 0 <= e < n implies s.contains(e) by {
            lemma_fundamental_div_mod(e, rows);
            lemma_mod_pos_bound(e, rows);
            assert(e / rows < d) by {
                if e / rows >= d {
                    lemma_mul_inequality(d, e / rows, rows);
                    lemma_mul_is_commutative(d, rows);
                    lemma_mul_is_commutative(e / rows, rows);
                }
            }
            lemma_rows_prefix_contains(n, d, rows, rows, e);
        }
        lemma_full_cover_len(s, n);
    }
}

fn row_count(n: usize, d: usize) -> (rows: usize)
    requires
        d > 0,
    ensures
        rows == rows_of(n as int, d as int),
        rows <= n,
        rows > 0 <==> n > 0,
{
    let q = n / d;
    if n % d == 0 {
        proof {
            lemma_fundamental_div_mod(n as int, d as int);
            if q > 0 {
                lemma_mul_inequality(1, d as int, q as int);
            } else {
                lemma_mul_by_zero_is_zero(d as int);
            }
        }
        q
    } else {
        proof {
            lemma_fundamental_div_mod(n as int, d as int);
            if d == 1 {
                lemma_mod_pos_bound(n as int, 1);
            }
            assert(q < n) by {
                if q >= n {
                    lemma_mul_inequality(1, d as int, q as int);
                }
            }
        }
        q + 1
    }
}

/// Source index of the cell in column `c`, row `r`, when it lies inside the input.
fn cell_index(c: usize, r: usize, rows: usize, n: usize) -> (res: Option<usize>)
    ensures
        res is Some <==> c * rows + r < n,
        res is Some ==> res->0 == c * rows + r,
{
    match c.checked_mul(rows) {
        Some(m) => match m.checked_add(r) {
            Some(idx) => {
                if idx < n {
                    Some(idx)
                } else {
                    None
                }
            },
            None => None,
        },
        None => {
            proof {
                lemma_mul_nonnegative(c as int, rows as int);
            }
            None
        },
    }
}

/// Interleave `bytes` with `depth` (0 and 1 are the identity).
///
/// Example: 12 bytes, depth 4 → `[0,3,6,9,1,4,7,10,2,5,8,11]`.
pub fn interleave(bytes: &[u8], depth: u8) -> (out: Vec<u8>)
    ensures
        out@.len() == interleave_order(bytes@.len() as int, depth as int).len(),
        forall|k: int|
            0 <= k < out@.len() ==> #[trigger] out@[k] == bytes@[interleave_order(
                bytes@.len() as int,
                depth as int,
            )[k]],
{
    let d = depth as usize;
    let n = bytes.len();
    if d <= 1 || n == 0 {
        return vstd::slice::slice_to_vec(bytes);
    }
    let rows = row_count(n, d);
    let ghost order_n = n as int;
    proof {
        lemma_rows_prefix_props(order_n, d as int, rows as int, rows as int);
    }
    let mut out: Vec<u8> = Vec::new();
    let mut r: usize = 0;
    while r < rows
        invariant
            0 <= r <= rows,
            rows == rows_of(n as int, d as int),
            rows > 0,
            n == bytes@.len(),
            d > 1,
            out@.len() == rows_prefix(n as int, d as int, rows as int, r as int).len(),
            forall|k: int|
                0 <= k < out@.len() ==> #[trigger] out@[k] == bytes@[rows_prefix(
                    n as int,
                    d as int,
                    rows as int,
                    r as int,
                )[k]],
        decreases rows - r,
    {
        proof {
            lemma_rows_prefix_props(n as int, d as int, rows as int, r as int);
        }
        let ghost base = out@;
        let mut c: usize = 0;
        while c < d
            invariant
                0 <= c <= d,
                0 <= r < rows,
                rows > 0,
                n == bytes@.len(),
                base.len() == rows_prefix(n as int, d as int, rows as int, r as int).len(),
                out@.len() == base.len() + row_prefix(n as int, rows as int, r as int, c as int).len(),
                forall|k: int| 0 <= k < base.len() ==> #[trigger] out@[k] == base[k],
                forall|k: int|
                    0 <= k < row_prefix(n as int, rows as int, r as int, c as int).len()
                        ==> #[trigger] out@[base.len() + k] == bytes@[row_prefix(
                        n as int,
                        rows as int,
                        r as int,
                        c as int,
                    )[k]],
            decreases d - c,
        {
            proof {
                lemma_row_prefix_props(n as int, rows as int, r as int, c as int);
            }
            match cell_index(c, r, rows, n) {
                Some(idx) => {
                    out.push(bytes[idx]);
                },
                None => {},
            }
            c += 1;
        }
        proof {
            let a = rows_prefix(n as int, d as int, rows as int, r as int);
            let b = row_prefix(n as int, rows as int, r as int, d as int);
            assert(rows_prefix(n as int, d as int, rows as int, r + 1) == a + b);
            assert forall|k: int| 0 <= k < out@.len() implies #[trigger] out@[k] == bytes@[(a + b)[k]] by {
                if k < a.len() {
                } else {
                    assert(out@[base.len() + (k - a.len())] == bytes@[b[k - a.len()]]);
                }
            }
        }
        r += 1;
    }
    out
}

/// Inverse of `interleave`: output position `interleave_order(n, d)[k]` receives input byte `k`.
pub fn deinterleave(bytes: &[u8], depth: u8) -> (out: Vec<u8>)
    ensures
        out@.len() == bytes@.len(),
        forall|k: int|
            0 <= k < bytes@.len() ==> out@[#[trigger] interleave_order(
                bytes@.len() as int,
                depth as int,
            )[k]] == bytes@[k],
{
    let d = depth as usize;
    let n = bytes.len();
    if d <= 1 || n == 0 {
        return vstd::slice::slice_to_vec(bytes);
    }
    let rows = row_count(n, d);
    proof {
        lemma_interleave_order_permutation(n as int, d as int);
        lemma_rows_prefix_props(n as int, d as int, rows as int, rows as int);
    }
    let ghost full = rows_prefix(n as int, d as int, rows as int, rows as int);
    let mut out: Vec<u8> = vec![0u8; n];
    let mut pos: usize = 0;
    let mut r: usize = 0;
    while r < rows
        invariant
            0 <= r <= rows,
            rows == rows_of(n as int, d as int),
            rows > 0,
            n == bytes@.len(),
            d > 1,
            out@.len() == n,
            full == rows_prefix(n as int, d as int, rows as int, rows as int),
            full.len() == n,
            pos == rows_prefix(n as int, d as int, rows as int, r as int).len(),
            forall|k: int|
                0 <= k < pos ==> out@[#[trigger] rows_prefix(
                    n as int,
                    d as int,
                    rows as int,
                    r as int,
                )[k]] == bytes@[k],
        decreases rows - r,
    {
        proof {
            lemma_rows_prefix_props(n as int, d as int, rows as int, (r + 1) as int);
            lemma_rows_prefix_props(n as int, d as int, rows as int, r as int);
            lemma_rows_prefix_is_prefix(n as int, d as int, rows as int, (r + 1) as int, rows as int);
        }
        let ghost a = rows_prefix(n as int, d as int, rows as int, r as int);
        let ghost pos0 = pos;
        let mut c: usize = 0;
        while c < d
            invariant
                0 <= c <= d,
                0 <= r < rows,
                rows > 0,
                n == bytes@.len(),
                out@.len() == n,
                a == rows_prefix(n as int, d as int, rows as int, r as int),
                (a + row_prefix(n as int, rows as int, r as int, d as int)).no_duplicates(),
                a.len() + row_prefix(n as int, rows as int, r as int, d as int).len() <= n,
                pos0 == a.len(),
                forall|k: int| 0 <= k < a.len() ==> 0 <= #[trigger] a[k] < n,
                pos == pos0 + row_prefix(n as int, rows as int, r as int, c as int).len(),
                forall|k: int| 0 <= k < pos0 ==> out@[#[trigger] a[k]] == bytes@[k],
                forall|k: int|
                    0 <= k < row_prefix(n as int, rows as int, r as int, c as int).len()
                        ==> out@[#[trigger] row_prefix(
                        n as int,
                        rows as int,
                        r as int,
                        c as int,
                    )[k]] == bytes@[pos0 + k],
                row_prefix(n as int, rows as int, r as int, c as int).is_prefix_of(
                    row_prefix(n as int, rows as int, r as int, d as int),
                ),
            decreases d - c,
        {
            proof {
                lemma_row_prefix_props(n as int, rows as int, r as int, (c + 1) as int);
                lemma_row_prefix_is_prefix(n as int, rows as int, r as int, (c + 1) as int, d as int);
            }
            let ghost cur = row_prefix(n as int, rows as int, r as int, c as int);
            let ghost b = row_prefix(n as int, rows as int, r as int, d as int);
            match cell_index(c, r, rows, n) {
                Some(idx) => {
                    proof {
                        let nxt = row_prefix(n as int, rows as int, r as int, (c + 1) as int);
                        assert(nxt =~= cur.push(idx as int));
                        assert(nxt.is_prefix_of(b));
                        assert(nxt[cur.len() as int] == idx);
                        assert(b.subrange(0, nxt.len() as int)[cur.len() as int] == idx);
                        assert(b[cur.len() as int] == idx);
                        // idx differs from every earlier destination
                        assert forall|k: int| 0 <= k < pos0 implies a[k] != idx by {
                            assert((a + b)[k] == a[k]);
                            assert((a + b)[(a.len() + cur.len()) as int] == idx);
                        }
                        assert forall|k: int| 0 <= k < cur.len() implies cur[k] != idx by {
                            assert(cur[k] == b[k]);
                            assert((a + b)[a.len() + k] == cur[k]);
                            assert((a + b)[(a.len() + cur.len()) as int] == idx);
                        }
                    }
                    let ghost before = out@;
                    out.set(idx, bytes[pos]);
                    proof {
                        assert forall|k: int| 0 <= k < pos0 implies out@[#[trigger] a[k]] == bytes@[k] by {
                            assert(a[k] != idx);
                            assert((a + row_prefix(n as int, rows as int, r as int, d as int))[k] == a[k]);
                            assert(0 <= a[k] < n);
                            assert(before[a[k]] == bytes@[k]);
                        }
                    }
                    pos += 1;
                },
                None => {},
            }
            c += 1;
        }
        proof {
            let b = row_prefix(n as int, rows as int, r as int, d as int);
            assert(rows_prefix(n as int, d as int, rows as int, r + 1) == a + b);
            assert forall|k: int| 0 <= k < pos implies out@[#[trigger] (a + b)[k]] == bytes@[k] by {
                if k < pos0 {
                } else {
                    assert((a + b)[k] == b[k - pos0]);
                }
            }
        }
        r += 1;
    }
    out
}

proof fn lemma_row_prefix_is_prefix(n: int, rows: int, r: int, c1: int, c2: int)
    requires
        0 <= c1 <= c2,
    ensures
        row_prefix(n, rows, r, c1).is_prefix_of(row_prefix(n, rows, r, c2)),
    decreases c2,
{
    if c1 < c2 {
        lemma_row_prefix_is_prefix(n, rows, r, c1, c2 - 1);
    }
}

proof fn lemma_rows_prefix_is_prefix(n: int, d: int, rows: int, r1: int, r2: int)
    requires
        0 <= r1 <= r2,
    ensures
        rows_prefix(n, d, rows, r1).is_prefix_of(rows_prefix(n, d, rows, r2)),
    decreases r2,
{
    if r1 < r2 {
        lemma_rows_prefix_is_prefix(n, d, rows, r1, r2 - 1);
    }
}

/// De-interleaving undoes interleaving, for every depth.
pub proof fn lemma_deinterleave_interleave(input: Seq<u8>, coded: Seq<u8>, out: Seq<u8>, d: int)
    requires
        coded.len() == interleave_order(input.len() as int, d).len(),
        forall|k: int|
            0 <= k < coded.len() ==> #[trigger] coded[k] == input[interleave_order(
                input.len() as int,
                d,
            )[k]],
        out.len() == coded.len(),
        forall|k: int|
            0 <= k < coded.len() ==> out[#[trigger] interleave_order(coded.len() as int, d)[k]]
                == coded[k],
    ensures
        out == input,
{
    let n = input.len() as int;
    lemma_interleave_order_permutation(n, d);
    let ord = interleave_order(n, d);
    assert forall|e: int| 0 <= e < n implies out[e] == input[e] by {
        lemma_full_cover_contains(ord, n, e);
        let k = choose|k: int| 0 <= k < ord.len() && ord[k] == e;
        assert(out[ord[k]] == coded[k]);
    }
    assert(out =~= input);
}

proof fn lemma_full_cover_contains(s: Seq<int>, n: int, e: int)
    requires
        is_index_permutation(s, n),
        0 <= e < n,
    ensures
        s.contains(e),
{
    s.unique_seq_to_set();
    let st = s.to_set();
    lemma_int_range(0, n);
    assert(st.subset_of(set_int_range(0, n))) by {
        assert forall|x: int| st.contains(x) implies set_int_range(0, n).contains(x) by {
            let k = choose|k: int| 0 <= k < s.len() && s[k] == x;
        }
    }
    if !s.contains(e) {
        assert(st.subset_of(set_int_range(0, n).remove(e)));
        lemma_len_subset(st, set_int_range(0, n).remove(e));
    }
}


/// The interleaved sequence: position `k` holds `s[interleave_order(len, d)[k]]`.
pub open spec fn interleaved(s: Seq<u8>, d: int) -> Seq<u8> {
    let ord = interleave_order(s.len() as int, d);
    Seq::new(ord.len(), |k: int| s[ord[k]])
}

/// The de-interleaved sequence: position `interleave_order(len, d)[k]` holds `s[k]`.
pub open spec fn deinterleaved(s: Seq<u8>, d: int) -> Seq<u8> {
    let ord = interleave_order(s.len() as int, d);
    Seq::new(s.len(), |e: int| s[choose|k: int| 0 <= k < ord.len() && ord[k] == e])
}

/// `interleave` computes `interleaved`.
pub proof fn lemma_interleave_is_interleaved(input: Seq<u8>, out: Seq<u8>, d: int)
    requires
        out.len() == interleave_order(input.len() as int, d).len(),
        forall|k: int|
            0 <= k < out.len() ==> #[trigger] out[k] == input[interleave_order(input.len() as int, d)[k]],
    ensures
        out == interleaved(input, d),
{
    assert(out =~= interleaved(input, d));
}

/// `deinterleave` computes `deinterleaved`.
pub proof fn lemma_deinterleave_is_deinterleaved(input: Seq<u8>, out: Seq<u8>, d: int)
    requires
        out.len() == input.len(),
        forall|k: int|
            0 <= k < input.len() ==> out[#[trigger] interleave_order(input.len() as int, d)[k]]
                == input[k],
    ensures
        out == deinterleaved(input, d),
{
    let n = input.len() as int;
    lemma_interleave_order_permutation(n, d);
    let ord = interleave_order(n, d);
    assert forall|e: int| 0 <= e < n implies out[e] == deinterleaved(input, d)[e] by {
        lemma_full_cover_contains(ord, n, e);
        let k = choose|k: int| 0 <= k < ord.len() && ord[k] == e;
        assert(out[ord[k]] == input[k]);
        let k2 = choose|k: int| 0 <= k < ord.len() && ord[k] == e;
        assert(ord[k2] == e);
        if k2 != k {
            assert(ord.no_duplicates());
        }
    }
    assert(out =~= deinterleaved(input, d));
}

/// De-interleaving the interleaved sequence gives the input back.
pub proof fn lemma_deinterleaved_interleaved(s: Seq<u8>, d: int)
    ensures
        deinterleaved(interleaved(s, d), d) == s,
{
    let n = s.len() as int;
    lemma_interleave_order_permutation(n, d);
    let i = interleaved(s, d);
    let out = deinterleaved(i, d);
    lemma_interleave_order_permutation(i.len() as int, d);
    lemma_deinterleave_is_deinterleaved_rev(i, d);
    lemma_deinterleave_interleave(s, i, out, d);
}

proof fn lemma_deinterleave_is_deinterleaved_rev(input: Seq<u8>, d: int)
    ensures
        deinterleaved(input, d).len() == input.len(),
        forall|k: int|
            0 <= k < input.len() ==> deinterleaved(input, d)[#[trigger] interleave_order(
                input.len() as int,
                d,
            )[k]] == input[k],
{
    let n = input.len() as int;
    lemma_interleave_order_permutation(n, d);
    let ord = interleave_order(n, d);
    assert forall|k: int| 0 <= k < n implies deinterleaved(input, d)[#[trigger] ord[k]] == input[k] by {
        let e = ord[k];
        let k2 = choose|j: int| 0 <= j < ord.len() && ord[j] == e;
        assert(ord[k2] == ord[k]);
    }
}

} // verus!
