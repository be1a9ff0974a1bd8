//! The CBOR frame, as encoded: a definite-length array of five items
//! `[version, payload_type, flags, payload_len, payload_bytes]`, the first four
//! unsigned integers (the first three below 256, the fourth below 65536) and the
//! last a definite-length byte string.
//!
//! Encoding is canonical (shortest heads). Decoding reads one array item and
//! ignores bytes after it. It accepts heads of any width, tags in front of any
//! item, an array of indefinite length or of more than five elements (those after
//! the fifth are not read), integers written as positive bignums, a payload
//! byte string in indefinite-length segments, and a payload written as an array
//! of byte-valued integers.
use vstd::prelude::*;
use crate::framing::{FrameError, FrameHeader, Params, PayloadType, type_code, type_of_code};

verus! {

// ── Heads ───────────────────────────────────────────────────────────────────

/// `256^n`.
pub open spec fn pow256(n: nat) -> nat
    decreases n,
{
    if n == 0 {
        1
    } else {
        256 * pow256((n - 1) as nat)
    }
}

/// Big-endian value of a byte string.
pub open spec fn be_value(s: Seq<u8>) -> nat
    decreases s.len(),
{
    if s.len() == 0 {
        0
    } else {
        (be_value(s.drop_last()) * 256 + s.last()) as nat
    }
}

/// The `n` low bytes of `v`, big-endian.
pub open spec fn be_bytes(v: nat, n: nat) -> Seq<u8>
    decreases n,
{
    if n == 0 {
        Seq::empty()
    } else {
        be_bytes(v / 256, (n - 1) as nat).push((v % 256) as u8)
    }
}

/// Number of argument bytes after an initial byte whose low five bits are
/// `info` (24 to 27).
pub open spec fn arg_len(info: u8) -> nat {
    if info == 24 {
        1
    } else if info == 25 {
        2
    } else if info == 26 {
        4
    } else {
        8
    }
}

/// The head at the start of `s`: (major type, argument, head length in bytes).
pub open spec fn cbor_head(s: Seq<u8>) -> Option<(u8, nat, nat)> {
    if s.len() == 0 {
        None
    } else if s[0] % 32 < 24 {
        Some((s[0] / 32, (s[0] % 32) as nat, 1nat))
    } else if s[0] % 32 <= 27 && 1 + arg_len(s[0] % 32) <= s.len() {
        Some(
            (
                s[0] / 32,
                be_value(s.subrange(1, 1 + arg_len(s[0] % 32) as int)),
                1 + arg_len(s[0] % 32),
            ),
        )
    } else {
        None
    }
}

/// Length of the shortest head for argument `v`.
pub open spec fn head_len(v: nat) -> nat {
    if v < 24 {
        1
    } else if v < 0x100 {
        2
    } else if v < 0x1_0000 {
        3
    } else if v < 0x1_0000_0000 {
        5
    } else {
        9
    }
}

/// The shortest head for major type `major` and argument `v`.
#[verifier::opaque]
pub open spec fn head_bytes(major: u8, v: nat) -> Seq<u8> {
    if v < 24 {
        seq![(major * 32 + v) as u8]
    } else if v < 0x100 {
        seq![(major * 32 + 24) as u8] + be_bytes(v, 1)
    } else if v < 0x1_0000 {
        seq![(major * 32 + 25) as u8] + be_bytes(v, 2)
    } else if v < 0x1_0000_0000 {
        seq![(major * 32 + 26) as u8] + be_bytes(v, 4)
    } else {
        seq![(major * 32 + 27) as u8] + be_bytes(v, 8)
    }
}

// ── Items and frames ────────────────────────────────────────────────────────

/// The header at `pos`, as the decoder reads it: (major type, argument or
/// `None` for the indefinite marker, position after the header). Minor values
/// 28 to 30 are invalid, and so is the indefinite marker on unsigned, negative
/// and tag items (on major type 7 it is the break).
pub open spec fn hdr(b: Seq<u8>, pos: nat) -> Option<(u8, Option<nat>, nat)> {
    if pos >= b.len() {
        None
    } else {
        let ib = b[pos as int];
        let major = ib / 32;
        let info = ib % 32;
        if info < 24 {
            Some((major, Some(info as nat), pos + 1))
        } else if info <= 27 {
            if pos + 1 + arg_len(info) <= b.len() {
                Some(
                    (
                        major,
                        Some(be_value(b.subrange((pos + 1) as int, (pos + 1 + arg_len(info)) as int))),
                        pos + 1 + arg_len(info),
                    ),
                )
            } else {
                None
            }
        } else if info == 31 && major != 0 && major != 1 && major != 6 {
            Some((major, None, pos + 1))
        } else {
            None
        }
    }
}

/// A break marker stands at `pos`.
pub open spec fn is_break(b: Seq<u8>, pos: nat) -> bool {
    hdr(b, pos) matches Some((m, a, _)) && m == 7 && a is None
}

/// The segments of an indefinite-length byte string from `pos`, nested
/// `depth` deep: definite segments are concatenated, an indefinite segment
/// opens a level, a break closes one; (contents, position after the last break).
pub open spec fn seg_bytes(b: Seq<u8>, pos: nat, depth: nat) -> Option<(Seq<u8>, nat)>
    decreases b.len() - pos,
{
    if pos >= b.len() {
        None
    } else {
        match hdr(b, pos) {
            Some((m, a, p1)) => if p1 <= pos || p1 > b.len() {
                None
            } else if m == 7 && a is None {
                if depth <= 1 {
                    Some((Seq::empty(), p1))
                } else {
                    seg_bytes(b, p1, (depth - 1) as nat)
                }
            } else if m == 2 {
                match a {
                    Some(n) => if p1 + n <= b.len() {
                        match seg_bytes(b, p1 + n, depth) {
                            Some((r, q)) => Some((b.subrange(p1 as int, (p1 + n) as int) + r, q)),
                            None => None,
                        }
                    } else {
                        None
                    },
                    None => seg_bytes(b, p1, depth + 1),
                }
            } else {
                None
            },
            None => None,
        }
    }
}

/// The contents of a byte string whose header (length `a`, `None` for
/// indefinite) ends at `pos`: (contents, position after them).
pub open spec fn bytes_body(b: Seq<u8>, pos: nat, a: Option<nat>) -> Option<(Seq<u8>, nat)> {
    match a {
        Some(n) => if pos + n <= b.len() {
            Some((b.subrange(pos as int, (pos + n) as int), pos + n))
        } else {
            None
        },
        None => seg_bytes(b, pos, 1),
    }
}

/// An unsigned integer below `limit` at `pos`: a plain unsigned item, or a
/// positive bignum (tag 2 and a byte string, big-endian); other tags in front
/// are skipped, a negative bignum (tag 3) is refused. (value, position after it)
pub open spec fn uint_item(b: Seq<u8>, pos: nat, limit: nat) -> Option<(nat, nat)>
    decreases b.len() - pos,
{
    if pos >= b.len() {
        None
    } else {
        match hdr(b, pos) {
            Some((m, a, p1)) => if p1 <= pos || p1 > b.len() {
                None
            } else if m == 0 && a is Some {
                if a->0 < limit {
                    Some((a->0, p1))
                } else {
                    None
                }
            } else if m == 6 && a is Some {
                if a->0 == 2 {
                    match hdr(b, p1) {
                        Some((m2, a2, p2)) => if m2 == 2 {
                            match bytes_body(b, p2, a2) {
                                Some((bs, p3)) => if be_value(bs) < limit {
                                    Some((be_value(bs), p3))
                                } else {
                                    None
                                },
                                None => None,
                            }
                        } else {
                            None
                        },
                        None => None,
                    }
                } else if a->0 == 3 {
                    None
                } else {
                    uint_item(b, p1, limit)
                }
            } else {
                None
            },
            None => None,
        }
    }
}

/// `n` byte-valued integers from `pos`: (bytes, position after them).
pub open spec fn byte_elems(b: Seq<u8>, pos: nat, n: nat) -> Option<(Seq<u8>, nat)>
    decreases n,
{
    if n == 0 {
        Some((Seq::empty(), pos))
    } else {
        match uint_item(b, pos, 0x100) {
            Some((v, p)) => match byte_elems(b, p, (n - 1) as nat) {
                Some((r, q)) => Some((seq![v as u8] + r, q)),
                None => None,
            },
            None => None,
        }
    }
}

/// Byte-valued integers from `pos` up to a break: (bytes, position after the break).
pub open spec fn byte_elems_indef(b: Seq<u8>, pos: nat) -> Option<(Seq<u8>, nat)>
    decreases b.len() - pos,
{
    if pos >= b.len() {
        None
    } else if is_break(b, pos) {
        Some((Seq::empty(), pos + 1))
    } else {
        match uint_item(b, pos, 0x100) {
            Some((v, p)) => if p <= pos || p > b.len() {
                None
            } else {
                match byte_elems_indef(b, p) {
                    Some((r, q)) => Some((seq![v as u8] + r, q)),
                    None => None,
                }
            },
            None => None,
        }
    }
}

/// The payload at `pos`: a byte string (definite or in segments) or an array
/// of byte-valued integers, after any tags. (bytes, position after it)
pub open spec fn payload_item(b: Seq<u8>, pos: nat) -> Option<(Seq<u8>, nat)>
    decreases b.len() - pos,
{
    if pos >= b.len() {
        None
    } else {
        match hdr(b, pos) {
            Some((m, a, p1)) => if p1 <= pos || p1 > b.len() {
                None
            } else if m == 6 && a is Some {
                payload_item(b, p1)
            } else if m == 2 {
                bytes_body(b, p1, a)
            } else if m == 4 {
                match a {
                    Some(n) => byte_elems(b, p1, n),
                    None => byte_elems_indef(b, p1),
                }
            } else {
                None
            },
            None => None,
        }
    }
}

/// An integer element of the frame array at `pos` (`indef`: the array has no
/// length, so a break here ends it too early).
pub open spec fn uint_elem(b: Seq<u8>, pos: nat, limit: nat, indef: bool) -> Option<(nat, nat)> {
    if indef && is_break(b, pos) {
        None
    } else {
        uint_item(b, pos, limit)
    }
}

/// The payload element of the frame array at `pos`.
pub open spec fn payload_elem(b: Seq<u8>, pos: nat, indef: bool) -> Option<(Seq<u8>, nat)> {
    if indef && is_break(b, pos) {
        None
    } else {
        payload_item(b, pos)
    }
}

/// The five elements of the frame array from `pos`.
pub open spec fn five_elems(b: Seq<u8>, pos: nat, indef: bool) -> Option<(u8, u8, u8, u16, Seq<u8>)> {
    match uint_elem(b, pos, 0x100, indef) {
        Some((v, p1)) => match uint_elem(b, p1, 0x100, indef) {
            Some((t, p2)) => match uint_elem(b, p2, 0x100, indef) {
                Some((f, p3)) => match uint_elem(b, p3, 0x1_0000, indef) {
                    Some((len, p4)) => match payload_elem(b, p4, indef) {
                        Some((p, _)) => Some((v as u8, t as u8, f as u8, len as u16, p)),
                        None => None,
                    },
                    None => None,
                },
                None => None,
            },
            None => None,
        },
        None => None,
    }
}

/// The frame array at `pos`, after any tags: an array of at least five
/// elements, or of indefinite length; elements after the fifth are not read.
pub open spec fn frame_items(b: Seq<u8>, pos: nat) -> Option<(u8, u8, u8, u16, Seq<u8>)>
    decreases b.len() - pos,
{
    if pos >= b.len() {
        None
    } else {
        match hdr(b, pos) {
            Some((m, a, p1)) => if p1 <= pos || p1 > b.len() {
                None
            } else if m == 6 && a is Some {
                frame_items(b, p1)
            } else if m == 4 {
                match a {
                    Some(n) => if n >= 5 {
                        five_elems(b, p1, false)
                    } else {
                        None
                    },
                    None => five_elems(b, p1, true),
                }
            } else {
                None
            },
            None => None,
        }
    }
}

/// The five items of a frame: version, type code, flags, length field, payload.
#[verifier::opaque]
pub open spec fn frame_fields(b: Seq<u8>) -> Option<(u8, u8, u8, u16, Seq<u8>)> {
    frame_items(b, 0)
}

/// What `decode` returns for the bytes `b`.
pub open spec fn frame_decoded(b: Seq<u8>) -> Result<(FrameHeader, Seq<u8>), FrameError> {
    match frame_fields(b) {
        None => Err(FrameError::Malformed),
        Some((v, t, f, len, p)) => if !(1 <= t <= 4) {
            Err(FrameError::UnknownPayloadType(t))
        } else if p.len() != len {
            Err(FrameError::LengthMismatch)
        } else {
            Ok(
                (
                    FrameHeader {
                        version: v,
                        payload_type: type_of_code(t),
                        flags: f,
                        payload_len: len,
                    },
                    p,
                ),
            )
        },
    }
}

/// What `validate` returns: the decoded header, if its version is 1.
pub open spec fn validated(b: Seq<u8>) -> Result<FrameHeader, FrameError> {
    match frame_decoded(b) {
        Ok((h, _)) => if h.version == 1 {
            Ok(h)
        } else {
            Err(FrameError::UnsupportedVersion(h.version))
        },
        Err(e) => Err(e),
    }
}

/// What `encode` produces: array head, the four integers (the length field is
/// the payload length modulo 65536), then the payload as a byte string.
pub open spec fn cbor_frame(payload: Seq<u8>, params: Params) -> Seq<u8> {
    seq![0x85u8] + head_bytes(0, params.version as nat) + head_bytes(
        0,
        type_code(params.payload_type) as nat,
    ) + head_bytes(0, params.flags as nat) + head_bytes(0, payload.len() % 0x1_0000)
        + head_bytes(2, payload.len()) + payload
}

/// Length of `cbor_frame` for a payload of `len` bytes.
pub open spec fn frame_len_spec(len: nat, params: Params) -> nat {
    1 + head_len(params.version as nat) + head_len(type_code(params.payload_type) as nat)
        + head_len(params.flags as nat) + head_len(len % 0x1_0000) + head_len(len) + len
}

// ── Lemmas ──────────────────────────────────────────────────────────────────

proof fn lemma_pow256_values()
    ensures
        pow256(1) == 0x100,
        pow256(2) == 0x1_0000,
        pow256(4) == 0x1_0000_0000,
        pow256(7) == 0x100_0000_0000_0000,
        pow256(8) == 0x1_0000_0000_0000_0000,
{
    reveal_with_fuel(pow256, 9);
}

proof fn lemma_pow256_mono(i: nat, j: nat)
    requires
        i <= j,
    ensures
        pow256(i) <= pow256(j),
    decreases j,
{
    if i < j {
        lemma_pow256_mono(i, (j - 1) as nat);
    }
}

proof fn lemma_be_bytes_len(v: nat, n: nat)
    ensures
        be_bytes(v, n).len() == n,
    decreases n,
{
    if n > 0 {
        lemma_be_bytes_len(v / 256, (n - 1) as nat);
    }
}

proof fn lemma_be_roundtrip(v: nat, n: nat)
    requires
        v < pow256(n),
    ensures
        be_value(be_bytes(v, n)) == v,
        be_bytes(v, n).len() == n,
    decreases n,
{
    if n == 0 {
    } else {
        let m = (n - 1) as nat;
        assert(v / 256 < pow256(m)) by (nonlinear_arith)
            requires
                v < 256 * pow256(m),
        ;
        lemma_be_roundtrip(v / 256, m);
        let s = be_bytes(v, n);
        assert(s.drop_last() =~= be_bytes(v / 256, m));
        assert(v == (v / 256) * 256 + v % 256) by (nonlinear_arith);
    }
}

proof fn lemma_be_value_bound(s: Seq<u8>)
    ensures
        be_value(s) < pow256(s.len()),
    decreases s.len(),
{
    if s.len() > 0 {
        lemma_be_value_bound(s.drop_last());
        let m = (s.len() - 1) as nat;
        assert(be_value(s.drop_last()) * 256 + s.last() < 256 * pow256(m)) by (nonlinear_arith)
            requires
                be_value(s.drop_last()) < pow256(m),
                s.last() < 256,
        ;
    }
}

/// The shortest head reads back as the same major type and argument.
pub proof fn lemma_head_roundtrip(major: u8, v: nat, rest: Seq<u8>)
    requires
        major < 8,
        v < 0x1_0000_0000_0000_0000,
    ensures
        head_bytes(major, v).len() == head_len(v),
        cbor_head(head_bytes(major, v) + rest) == Some((major, v, head_len(v))),
{
    lemma_pow256_values();
    reveal(head_bytes);
    let h = head_bytes(major, v);
    let s = h + rest;
    if v < 24 {
        assert((major * 32 + v) / 32 == major) by (nonlinear_arith)
            requires
                major < 8,
                v < 24,
        ;
        assert((major * 32 + v) % 32 == v) by (nonlinear_arith)
            requires
                major < 8,
                v < 24,
        ;
    } else {
        let (info, n): (nat, nat) = if v < 0x100 {
            (24, 1)
        } else if v < 0x1_0000 {
            (25, 2)
        } else if v < 0x1_0000_0000 {
            (26, 4)
        } else {
            (27, 8)
        };
        assert(v < pow256(n));
        lemma_be_roundtrip(v, n);
        assert((major * 32 + info) / 32 == major) by (nonlinear_arith)
            requires
                major < 8,
                24 <= info <= 27,
        ;
        assert((major * 32 + info) % 32 == info) by (nonlinear_arith)
            requires
                major < 8,
                24 <= info <= 27,
        ;
        assert(s.subrange(1, 1 + n as int) =~= be_bytes(v, n));
    }
}

proof fn lemma_skip_concat(a: Seq<u8>, b: Seq<u8>)
    ensures
        (a + b).skip(a.len() as int) == b,
{
    assert((a + b).skip(a.len() as int) =~= b);
}

proof fn lemma_skip_skip(s: Seq<u8>, a: int, c: int)
    requires
        0 <= a,
        0 <= c,
        a + c <= s.len(),
    ensures
        s.skip(a).skip(c) == s.skip(a + c),
{
    assert(s.skip(a).skip(c) =~= s.skip(a + c));
}

/// A shortest head at `pos` reads back as its major type and argument.
proof fn lemma_hdr_canon(b: Seq<u8>, pos: nat, major: u8, v: nat, rest: Seq<u8>)
    requires
        pos <= b.len(),
        b.skip(pos as int) == head_bytes(major, v) + rest,
        major < 8,
        v < 0x1_0000_0000_0000_0000,
    ensures
        hdr(b, pos) == Some((major, Some(v), pos + head_len(v))),
        pos + head_len(v) <= b.len(),
        b.skip((pos + head_len(v)) as int) == rest,
{
    lemma_head_roundtrip(major, v, rest);
    lemma_skip_concat(head_bytes(major, v), rest);
    lemma_skip_skip(b, pos as int, head_len(v) as int);
    let sk = b.skip(pos as int);
    assert(sk[0] == b[pos as int]);
    if sk[0] % 32 >= 24 {
        let n = arg_len(sk[0] % 32);
        assert(sk.subrange(1, 1 + n as int) =~= b.subrange((pos + 1) as int, (pos + 1 + n) as int));
    }
}

proof fn lemma_uint_step(b: Seq<u8>, pos: nat, v: nat, rest: Seq<u8>, limit: nat)
    requires
        pos <= b.len(),
        b.skip(pos as int) == head_bytes(0, v) + rest,
        v < limit,
        v < 0x1_0000_0000_0000_0000,
    ensures
        uint_item(b, pos, limit) == Some((v, pos + head_len(v))),
        b.skip((pos + head_len(v)) as int) == rest,
        pos + head_len(v) <= b.len(),
{
    lemma_hdr_canon(b, pos, 0, v, rest);
}

/// A byte string with a shortest head at `pos` reads back as the payload it holds.
proof fn lemma_payload_step(b: Seq<u8>, pos: nat, payload: Seq<u8>)
    requires
        pos <= b.len(),
        b.skip(pos as int) == head_bytes(2, payload.len()) + payload,
        payload.len() < 0x1_0000_0000_0000_0000,
    ensures
        payload_item(b, pos) == Some((payload, pos + head_len(payload.len()) + payload.len())),
{
    lemma_hdr_canon(b, pos, 2, payload.len(), payload);
    let p5 = pos + head_len(payload.len());
    assert(b.skip(p5 as int) == payload);
    assert(b.len() == p5 + payload.len());
    assert(b.subrange(p5 as int, (p5 + payload.len()) as int) =~= payload) by {
        assert forall|i: int| 0 <= i < payload.len() implies b.subrange(
            p5 as int,
            (p5 + payload.len()) as int,
        )[i] == payload[i] by {
            assert(b.skip(p5 as int)[i] == b[p5 + i]);
        }
    }
}

/// The items of an encoded frame, read one after the other: the array head,
/// the four integers and the payload, with the positions between them.
proof fn lemma_frame_steps(payload: Seq<u8>, params: Params) -> (ps: (nat, nat, nat, nat))
    requires
        payload.len() < 0x1_0000_0000_0000_0000,
    ensures
        hdr(cbor_frame(payload, params), 0) == Some((4u8, Some(5nat), 1nat)),
        uint_item(cbor_frame(payload, params), 1, 0x100) == Some((params.version as nat, ps.0)),
        uint_item(cbor_frame(payload, params), ps.0, 0x100) == Some(
            (type_code(params.payload_type) as nat, ps.1),
        ),
        uint_item(cbor_frame(payload, params), ps.1, 0x100) == Some((params.flags as nat, ps.2)),
        uint_item(cbor_frame(payload, params), ps.2, 0x1_0000) == Some(
            (payload.len() % 0x1_0000, ps.3),
        ),
        payload_item(cbor_frame(payload, params), ps.3) matches Some((p, _)) && p == payload,
{
    let ver = params.version as nat;
    let code = type_code(params.payload_type) as nat;
    let fl = params.flags as nat;
    let lf = payload.len() % 0x1_0000;
    let r4 = head_bytes(2, payload.len()) + payload;
    let r3 = head_bytes(0, lf) + r4;
    let r2 = head_bytes(0, fl) + r3;
    let r1 = head_bytes(0, code) + r2;
    let r0 = head_bytes(0, ver) + r1;
    let b = cbor_frame(payload, params);
    assert(b =~= seq![0x85u8] + r0);
    assert(hdr(b, 0) == Some((4u8, Some(5nat), 1nat)));
    lemma_skip_concat(seq![0x85u8], r0);
    lemma_uint_step(b, 1, ver, r1, 0x100);
    let p1 = 1 + head_len(ver);
    lemma_uint_step(b, p1, code, r2, 0x100);
    let p2 = p1 + head_len(code);
    lemma_uint_step(b, p2, fl, r3, 0x100);
    let p3 = p2 + head_len(fl);
    lemma_uint_step(b, p3, lf, r4, 0x1_0000);
    let p4 = p3 + head_len(lf);
    lemma_payload_step(b, p4, payload);
    (p1, p2, p3, p4)
}

/// The frame of a payload reads back as its five items; the length field is the
/// payload length modulo 65536.
pub proof fn lemma_frame_fields(payload: Seq<u8>, params: Params)
    requires
        payload.len() < 0x1_0000_0000_0000_0000,
    ensures
        frame_fields(cbor_frame(payload, params)) == Some(
            (
                params.version,
                type_code(params.payload_type),
                params.flags,
                (payload.len() % 0x1_0000) as u16,
                payload,
            ),
        ),
{
    let b = cbor_frame(payload, params);
    let ps = lemma_frame_steps(payload, params);
    assert(frame_items(b, 0) == five_elems(b, 1, false));
    reveal(frame_fields);
}

/// A header read from a prefix: the same header if the prefix holds all of
/// it, none otherwise.
proof fn lemma_hdr_take(b: Seq<u8>, k: int, pos: nat)
    requires
        0 <= k <= b.len(),
        hdr(b, pos) is Some,
    ensures
        hdr(b, pos).unwrap().2 <= k ==> hdr(b.take(k), pos) == hdr(b, pos),
        hdr(b, pos).unwrap().2 > k ==> hdr(b.take(k), pos) is None,
{
    let t = b.take(k);
    if pos < k {
        assert(t[pos as int] == b[pos as int]);
        let info = b[pos as int] % 32;
        if 24 <= info <= 27 && pos + 1 + arg_len(info) <= k {
            assert(t.subrange((pos + 1) as int, (pos + 1 + arg_len(info)) as int) =~= b.subrange(
                (pos + 1) as int,
                (pos + 1 + arg_len(info)) as int,
            ));
        }
    }
}

proof fn lemma_uint_take(b: Seq<u8>, k: int, pos: nat, v: nat, rest: Seq<u8>, limit: nat)
    requires
        pos <= b.len(),
        0 <= k <= b.len(),
        b.skip(pos as int) == head_bytes(0, v) + rest,
        v < limit,
        v < 0x1_0000_0000_0000_0000,
    ensures
        k < pos + head_len(v) ==> uint_item(b.take(k), pos, limit) is None,
        k >= pos + head_len(v) ==> uint_item(b.take(k), pos, limit) == Some((v, pos + head_len(v))),
{
    lemma_hdr_canon(b, pos, 0, v, rest);
    lemma_hdr_take(b, k, pos);
}

/// No strict prefix of an encoded frame reads as a frame.
pub proof fn lemma_frame_prefix_refused(payload: Seq<u8>, params: Params, k: int)
    requires
        payload.len() < 0x1_0000_0000_0000_0000,
        0 <= k < cbor_frame(payload, params).len(),
    ensures
        frame_fields(cbor_frame(payload, params).take(k)) is None,
        validated(cbor_frame(payload, params).take(k)) == Err::<FrameHeader, FrameError>(
            FrameError::Malformed,
        ),
{
    let ver = params.version as nat;
    let code = type_code(params.payload_type) as nat;
    let fl = params.flags as nat;
    let lf = payload.len() % 0x1_0000;
    let h4 = head_bytes(2, payload.len());
    let r4 = h4 + payload;
    let r3 = head_bytes(0, lf) + r4;
    let r2 = head_bytes(0, fl) + r3;
    let r1 = head_bytes(0, code) + r2;
    let r0 = head_bytes(0, ver) + r1;
    let b = cbor_frame(payload, params);
    let t = b.take(k);
    assert(b =~= seq![0x85u8] + r0);
    lemma_skip_concat(seq![0x85u8], r0);
    lemma_uint_step(b, 1, ver, r1, 0x100);
    let p1 = 1 + head_len(ver);
    lemma_uint_step(b, p1, code, r2, 0x100);
    let p2 = p1 + head_len(code);
    lemma_uint_step(b, p2, fl, r3, 0x100);
    let p3 = p2 + head_len(fl);
    lemma_uint_step(b, p3, lf, r4, 0x1_0000);
    let p4 = p3 + head_len(lf);
    lemma_hdr_canon(b, p4, 2, payload.len(), payload);
    let p5 = p4 + head_len(payload.len());
    assert(b.len() == p5 + payload.len()) by {
        assert(b.skip(p5 as int) == payload);
    }
    reveal(frame_fields);
    if k == 0 {
        assert(hdr(t, 0) is None);
    } else {
        assert(t[0] == 0x85u8);
        assert(hdr(t, 0) == Some((4u8, Some(5nat), 1nat)));
        lemma_uint_take(b, k, 1, ver, r1, 0x100);
        lemma_uint_take(b, k, p1, code, r2, 0x100);
        lemma_uint_take(b, k, p2, fl, r3, 0x100);
        lemma_uint_take(b, k, p3, lf, r4, 0x1_0000);
        lemma_hdr_take(b, k, p4);
        if k >= p4 && k < b.len() {
            assert(payload_item(t, p4) is None);
        }
        assert(five_elems(t, 1, false) is None);
    }
}

/// Decoding an encoded frame gives back its header and payload, for payloads of
/// at most 65535 bytes; longer payloads are refused for the length mismatch.
pub proof fn lemma_frame_roundtrip(payload: Seq<u8>, params: Params)
    requires
        payload.len() < 0x1_0000_0000_0000_0000,
    ensures
        payload.len() <= 0xffff ==> frame_decoded(cbor_frame(payload, params)) == Ok::<
            (FrameHeader, Seq<u8>),
            FrameError,
        >(
            (
                FrameHeader {
                    version: params.version,
                    payload_type: params.payload_type,
                    flags: params.flags,
                    payload_len: payload.len() as u16,
                },
                payload,
            ),
        ),
        payload.len() > 0xffff ==> frame_decoded(cbor_frame(payload, params)) == Err::<
            (FrameHeader, Seq<u8>),
            FrameError,
        >(FrameError::LengthMismatch),
        payload.len() <= 0xffff && params.version == 1 ==> validated(cbor_frame(payload, params))
            == Ok::<FrameHeader, FrameError>(
            FrameHeader {
                version: params.version,
                payload_type: params.payload_type,
                flags: params.flags,
                payload_len: payload.len() as u16,
            },
        ),
{
    lemma_frame_fields(payload, params);
}

/// The encoded frame has the length `frame_len_spec` gives.
pub proof fn lemma_frame_len(payload: Seq<u8>, params: Params)
    ensures
        cbor_frame(payload, params).len() == frame_len_spec(payload.len(), params),
{
    reveal(head_bytes);
    lemma_be_bytes_len(params.version as nat, 1);
    lemma_be_bytes_len(type_code(params.payload_type) as nat, 1);
    lemma_be_bytes_len(params.flags as nat, 1);
    lemma_be_bytes_len(payload.len() % 0x1_0000, 1);
    lemma_be_bytes_len(payload.len() % 0x1_0000, 2);
    lemma_be_bytes_len(payload.len(), 1);
    lemma_be_bytes_len(payload.len(), 2);
    lemma_be_bytes_len(payload.len(), 4);
    lemma_be_bytes_len(payload.len(), 8);
}

/// A decoded payload always has the length its header states.
pub proof fn lemma_decoded_len(b: Seq<u8>)
    ensures
        frame_decoded(b) matches Ok((h, p)) ==> p.len() == h.payload_len,
{
}

// ── Encoding ────────────────────────────────────────────────────────────────

fn push_be(out: &mut Vec<u8>, v: u64, n: usize)
    requires
        n <= 8,
    ensures
        final(out)@ == old(out)@ + be_bytes(v as nat, n as nat),
    decreases n,
{
    if n > 0 {
        push_be(out, v / 256, n - 1);
        out.push((v % 256) as u8);
        proof {
            assert(final(out)@ =~= old(out)@ + be_bytes(v as nat, n as nat)) by {
                assert(be_bytes(v as nat, n as nat) =~= be_bytes((v / 256) as nat, (n - 1) as nat).push(
                    (v % 256) as u8,
                ));
            }
        }
    } else {
        proof {
            assert(old(out)@ + be_bytes(v as nat, 0) =~= old(out)@);
        }
    }
}

fn push_head(out: &mut Vec<u8>, major: u8, v: u64)
    requires
        major < 8,
    ensures
        final(out)@ == old(out)@ + head_bytes(major, v as nat),
{
    let ghost start = old(out)@;
    proof {
        reveal(head_bytes);
    }
    if v < 24 {
        out.push(major * 32 + v as u8);
        proof {
            assert(out@ =~= start + head_bytes(major, v as nat));
        }
    } else {
        let (info, n): (u8, usize) = if v < 0x100 {
            (24, 1)
        } else if v < 0x1_0000 {
            (25, 2)
        } else if v < 0x1_0000_0000 {
            (26, 4)
        } else {
            (27, 8)
        };
        out.push(major * 32 + info);
        let ghost mid = out@;
        push_be(out, v, n);
        proof {
            assert(out@ =~= start + head_bytes(major, v as nat));
        }
    }
}

/// Length of the shortest head for `v`.
pub fn head_size(v: u64) -> (n: usize)
    ensures
        n == head_len(v as nat),
{
    if v < 24 {
        1
    } else if v < 0x100 {
        2
    } else if v < 0x1_0000 {
        3
    } else if v < 0x1_0000_0000 {
        5
    } else {
        9
    }
}

/// Encode payload → CBOR frame bytes (header + payload); no crypto yet.
/// The length field carries the payload length modulo 65536.
pub fn encode(payload: &[u8], params: &Params) -> (out: Vec<u8>)
    ensures
        out@ == cbor_frame(payload@, *params),
{
    let mut out: Vec<u8> = Vec::new();
    out.push(0x85);
    push_head(&mut out, 0, params.version as u64);
    push_head(&mut out, 0, params.payload_type.to_u8() as u64);
    push_head(&mut out, 0, params.flags as u64);
    push_head(&mut out, 0, (payload.len() % 0x1_0000) as u64);
    push_head(&mut out, 2, payload.len() as u64);
    let ghost before = out@;
    let mut i: usize = 0;
    while i < payload.len()
        invariant
            0 <= i <= payload@.len(),
            out@ == before + payload@.subrange(0, i as int),
        decreases payload@.len() - i,
    {
        out.push(payload[i]);
        i += 1;
        proof {
            assert(out@ =~= before + payload@.subrange(0, i as int));
        }
    }
    proof {
        assert(payload@.subrange(0, payload@.len() as int) =~= payload@);
        assert(out@ =~= cbor_frame(payload@, *params));
    }
    out
}

/// Length of the frame that `encode` produces for a payload of `payload_len` bytes.
pub fn frame_len(payload_len: usize, params: &Params) -> (n: usize)
    requires
        payload_len <= isize::MAX,
    ensures
        n == frame_len_spec(payload_len as nat, *params),
{
    1 + head_size(params.version as u64) + head_size(params.payload_type.to_u8() as u64)
        + head_size(params.flags as u64) + head_size((payload_len % 0x1_0000) as u64) + head_size(
        payload_len as u64,
    ) + payload_len
}

// ── Decoding ────────────────────────────────────────────────────────────────

/// An optional `u64` argument as a natural number.
pub open spec fn opt_nat(a: Option<u64>) -> Option<nat> {
    match a {
        Some(v) => Some(v as nat),
        None => None,
    }
}

proof fn lemma_be_prefix_le(s: Seq<u8>, i: int)
    requires
        0 <= i <= s.len(),
    ensures
        be_value(s.take(i)) <= be_value(s),
    decreases s.len(),
{
    if i < s.len() {
        lemma_be_prefix_le(s.drop_last(), i);
        assert(s.drop_last().take(i) =~= s.take(i));
    } else {
        assert(s.take(i) =~= s);
    }
}

fn read_hdr(b: &[u8], pos: usize) -> (r: Option<(u8, Option<u64>, usize)>)
    requires
        pos <= b@.len(),
    ensures
        match r {
            Some((m, a, next)) => pos < next <= b@.len() && hdr(b@, pos as nat) == Some(
                (m, opt_nat(a), next as nat),
            ),
            None => hdr(b@, pos as nat) is None,
        },
{
    if pos >= b.len() {
        return None;
    }
    let ib = b[pos];
    let major = ib / 32;
    let info = ib % 32;
    if info < 24 {
        return Some((major, Some(info as u64), pos + 1));
    }
    if info == 31 {
        if major == 0 || major == 1 || major == 6 {
            return None;
        }
        return Some((major, None, pos + 1));
    }
    if info > 27 {
        return None;
    }
    let n: usize = if info == 24 {
        1
    } else if info == 25 {
        2
    } else if info == 26 {
        4
    } else {
        8
    };
    if b.len() - pos - 1 < n {
        return None;
    }
    let start = pos + 1;
    let mut v: u64 = 0;
    let mut i: usize = 0;
    proof {
        lemma_pow256_values();
        assert(b@.subrange(start as int, start as int) =~= Seq::<u8>::empty());
    }
    while i < n
        invariant
            0 <= i <= n,
            n <= 8,
            start + n <= b@.len(),
            b@.len() <= usize::MAX,
            v as nat == be_value(b@.subrange(start as int, (start + i) as int)),
            (v as nat) < pow256(i as nat),
            pow256(7) == 0x100_0000_0000_0000,
        decreases n - i,
    {
        proof {
            lemma_pow256_mono(i as nat, 7);
            let t = b@.subrange(start as int, (start + i + 1) as int);
            assert(t.drop_last() =~= b@.subrange(start as int, (start + i) as int));
            assert(t.last() == b@[(start + i) as int]);
            assert(v < 0x100_0000_0000_0000);
        }
        assert(start + i < b@.len());
        let byte = b[start + i];
        assert(v * 256 + byte < 0x1_0000_0000_0000_0000) by (nonlinear_arith)
            requires
                v < 0x100_0000_0000_0000,
                byte < 256,
        ;
        v = v * 256 + byte as u64;
        i += 1;
    }
    Some((major, Some(v), start + n))
}

fn push_range(out: &mut Vec<u8>, b: &[u8], from: usize, to: usize)
    requires
        from <= to <= b@.len(),
    ensures
        final(out)@ == old(out)@ + b@.subrange(from as int, to as int),
{
    let ghost start = out@;
    let mut i = from;
    while i < to
        invariant
            from <= i <= to,
            to <= b@.len(),
            out@ == start + b@.subrange(from as int, i as int),
        decreases to - i,
    {
        out.push(b[i]);
        i += 1;
        proof {
            assert(out@ =~= start + b@.subrange(from as int, i as int));
        }
    }
}

/// Segments of an indefinite-length byte string whose header ended at `pos`.
fn read_segments(b: &[u8], pos: usize) -> (r: Option<(Vec<u8>, usize)>)
    requires
        pos <= b@.len(),
    ensures
        match r {
            Some((v, next)) => pos < next <= b@.len() && seg_bytes(b@, pos as nat, 1) == Some((v@, next as nat)),
            None => seg_bytes(b@, pos as nat, 1) is None,
        },
{
    let mut out: Vec<u8> = Vec::new();
    let mut cur = pos;
    let mut depth: u128 = 1;
    loop
        invariant
            pos <= cur <= b@.len(),
            1 <= depth <= cur + 1,
            seg_bytes(b@, pos as nat, 1) == (match seg_bytes(b@, cur as nat, depth as nat) {
                Some((r, q)) => Some((out@ + r, q)),
                None => None,
            }),
        decreases b@.len() - cur,
    {
        if cur >= b.len() {
            return None;
        }
        match read_hdr(b, cur) {
            None => return None,
            Some((m, a, p1)) => {
                if m == 7 && a.is_none() {
                    if depth <= 1 {
                        proof {
                            assert(out@ + Seq::<u8>::empty() =~= out@);
                        }
                        return Some((out, p1));
                    }
                    depth = depth - 1;
                    cur = p1;
                } else if m == 2 {
                    match a {
                        Some(n) => {
                            if n as u128 > (b.len() - p1) as u128 {
                                return None;
                            }
                            let e = p1 + n as usize;
                            let ghost before = out@;
                            let ghost chunk = b@.subrange(p1 as int, e as int);
                            push_range(&mut out, b, p1, e);
                            proof {
                                if let Some((r, q)) = seg_bytes(b@, e as nat, depth as nat) {
                                    assert(before + (chunk + r) =~= (before + chunk) + r);
                                }
                            }
                            cur = e;
                        },
                        None => {
                            depth = depth + 1;
                            cur = p1;
                        },
                    }
                } else {
                    return None;
                }
            },
        }
    }
}

fn read_bytes_body(b: &[u8], pos: usize, a: Option<u64>) -> (r: Option<(Vec<u8>, usize)>)
    requires
        pos <= b@.len(),
    ensures
        match r {
            Some((v, next)) => pos <= next <= b@.len() && bytes_body(b@, pos as nat, opt_nat(a)) == Some(
                (v@, next as nat),
            ),
            None => bytes_body(b@, pos as nat, opt_nat(a)) is None,
        },
{
    match a {
        Some(n) => {
            if n as u128 > (b.len() - pos) as u128 {
                return None;
            }
            let e = pos + n as usize;
            let mut out: Vec<u8> = Vec::new();
            push_range(&mut out, b, pos, e);
            proof {
                assert(Seq::<u8>::empty() + b@.subrange(pos as int, e as int) =~= b@.subrange(
                    pos as int,
                    e as int,
                ));
            }
            Some((out, e))
        },
        None => read_segments(b, pos),
    }
}

/// The big-endian value of `bs`, if it is below `limit`.
fn be_below(bs: &Vec<u8>, limit: u64) -> (r: Option<u64>)
    requires
        0 < limit <= 0x1_0000,
    ensures
        match r {
            Some(v) => v as nat == be_value(bs@) && v < limit,
            None => be_value(bs@) >= limit,
        },
{
    let mut v: u64 = 0;
    let mut i: usize = 0;
    proof {
        assert(bs@.take(0) =~= Seq::<u8>::empty());
    }
    while i < bs.len()
        invariant
            0 <= i <= bs@.len(),
            0 < limit <= 0x1_0000,
            v as nat == be_value(bs@.take(i as int)),
            v < limit,
        decreases bs@.len() - i,
    {
        proof {
            assert(bs@.take(i + 1).drop_last() =~= bs@.take(i as int));
            assert(bs@.take(i + 1).last() == bs@[i as int]);
        }
        v = v * 256 + bs[i] as u64;
        i += 1;
        if v >= limit {
            proof {
                lemma_be_prefix_le(bs@, i as int);
            }
            return None;
        }
    }
    proof {
        assert(bs@.take(i as int) =~= bs@);
    }
    Some(v)
}

/// An unsigned integer below `limit` (a plain item or a positive bignum, after any tags).
fn read_uint_item(b: &[u8], pos: usize, limit: u64) -> (r: Option<(u64, usize)>)
    requires
        pos <= b@.len(),
        0 < limit <= 0x1_0000,
    ensures
        match r {
            Some((v, next)) => pos < next <= b@.len() && uint_item(b@, pos as nat, limit as nat) == Some(
                (v as nat, next as nat),
            ),
            None => uint_item(b@, pos as nat, limit as nat) is None,
        },
{
    let mut cur = pos;
    loop
        invariant
            pos <= cur <= b@.len(),
            0 < limit <= 0x1_0000,
            uint_item(b@, pos as nat, limit as nat) == uint_item(b@, cur as nat, limit as nat),
        decreases b@.len() - cur,
    {
        if cur >= b.len() {
            return None;
        }
        match read_hdr(b, cur) {
            None => return None,
            Some((m, a, p1)) => {
                if m == 0 {
                    match a {
                        Some(v) => {
                            if v < limit {
                                return Some((v, p1));
                            }
                            return None;
                        },
                        None => return None,
                    }
                } else if m == 6 {
                    match a {
                        Some(t) => {
                            if t == 2 {
                                let (m2, a2, p2) = match read_hdr(b, p1) {
                                    Some(x) => x,
                                    None => return None,
                                };
                                if m2 != 2 {
                                    return None;
                                }
                                let (bs, p3) = match read_bytes_body(b, p2, a2) {
                                    Some(x) => x,
                                    None => return None,
                                };
                                let v = match be_below(&bs, limit) {
                                    Some(v) => v,
                                    None => return None,
                                };
                                return Some((v, p3));
                            } else if t == 3 {
                                return None;
                            }
                            cur = p1;
                        },
                        None => return None,
                    }
                } else {
                    return None;
                }
            },
        }
    }
}

/// `n` byte-valued integers from `pos`.
fn read_byte_elems(b: &[u8], pos: usize, n: u64) -> (r: Option<(Vec<u8>, usize)>)
    requires
        pos <= b@.len(),
    ensures
        match r {
            Some((v, next)) => pos <= next <= b@.len() && byte_elems(b@, pos as nat, n as nat) == Some(
                (v@, next as nat),
            ),
            None => byte_elems(b@, pos as nat, n as nat) is None,
        },
{
    let mut out: Vec<u8> = Vec::new();
    let mut cur = pos;
    let mut i: u64 = 0;
    while i < n
        invariant
            pos <= cur <= b@.len(),
            i <= n,
            byte_elems(b@, pos as nat, n as nat) == (match byte_elems(b@, cur as nat, (n - i) as nat) {
                Some((r, q)) => Some((out@ + r, q)),
                None => None,
            }),
        decreases n - i,
    {
        match read_uint_item(b, cur, 0x100) {
            None => return None,
            Some((v, p)) => {
                let ghost before = out@;
                out.push(v as u8);
                proof {
                    if let Some((r, q)) = byte_elems(b@, p as nat, (n - i - 1) as nat) {
                        assert(before + (seq![v as u8] + r) =~= out@ + r);
                    }
                }
                cur = p;
                i += 1;
            },
        }
    }
    proof {
        assert(out@ + Seq::<u8>::empty() =~= out@);
    }
    Some((out, cur))
}

/// Byte-valued integers from `pos` up to a break.
fn read_byte_elems_indef(b: &[u8], pos: usize) -> (r: Option<(Vec<u8>, usize)>)
    requires
        pos <= b@.len(),
    ensures
        match r {
            Some((v, next)) => pos <= next <= b@.len() && byte_elems_indef(b@, pos as nat) == Some(
                (v@, next as nat),
            ),
            None => byte_elems_indef(b@, pos as nat) is None,
        },
{
    let mut out: Vec<u8> = Vec::new();
    let mut cur = pos;
    loop
        invariant
            pos <= cur <= b@.len(),
            byte_elems_indef(b@, pos as nat) == (match byte_elems_indef(b@, cur as nat) {
                Some((r, q)) => Some((out@ + r, q)),
                None => None,
            }),
        decreases b@.len() - cur,
    {
        if cur >= b.len() {
            return None;
        }
        match read_hdr(b, cur) {
            None => return None,
            Some((m, a, p1)) => {
                if m == 7 && a.is_none() {
                    proof {
                        assert(out@ + Seq::<u8>::empty() =~= out@);
                    }
                    return Some((out, p1));
                }
            },
        }
        match read_uint_item(b, cur, 0x100) {
            None => return None,
            Some((v, p)) => {
                let ghost before = out@;
                out.push(v as u8);
                proof {
                    if let Some((r, q)) = byte_elems_indef(b@, p as nat) {
                        assert(before + (seq![v as u8] + r) =~= out@ + r);
                    }
                }
                cur = p;
            },
        }
    }
}

/// The payload (byte string or array of byte-valued integers, after any tags).
fn read_payload_item(b: &[u8], pos: usize) -> (r: Option<(Vec<u8>, usize)>)
    requires
        pos <= b@.len(),
    ensures
        match r {
            Some((v, next)) => next <= b@.len() && payload_item(b@, pos as nat) == Some((v@, next as nat)),
            None => payload_item(b@, pos as nat) is None,
        },
{
    let mut cur = pos;
    loop
        invariant
            pos <= cur <= b@.len(),
            payload_item(b@, pos as nat) == payload_item(b@, cur as nat),
        decreases b@.len() - cur,
    {
        if cur >= b.len() {
            return None;
        }
        match read_hdr(b, cur) {
            None => return None,
            Some((m, a, p1)) => {
                if m == 6 && a.is_some() {
                    cur = p1;
                } else if m == 2 {
                    return read_bytes_body(b, p1, a);
                } else if m == 4 {
                    match a {
                        Some(n) => return read_byte_elems(b, p1, n),
                        None => return read_byte_elems_indef(b, p1),
                    }
                } else {
                    return None;
                }
            },
        }
    }
}

fn at_break(b: &[u8], pos: usize) -> (r: bool)
    requires
        pos <= b@.len(),
    ensures
        r == is_break(b@, pos as nat),
{
    match read_hdr(b, pos) {
        Some((m, a, _)) => m == 7 && a.is_none(),
        None => false,
    }
}

fn read_uint_elem(b: &[u8], pos: usize, limit: u64, indef: bool) -> (r: Option<(u64, usize)>)
    requires
        pos <= b@.len(),
        0 < limit <= 0x1_0000,
    ensures
        match r {
            Some((v, next)) => next <= b@.len() && v < limit && uint_elem(b@, pos as nat, limit as nat, indef)
                == Some((v as nat, next as nat)),
            None => uint_elem(b@, pos as nat, limit as nat, indef) is None,
        },
{
    if indef && at_break(b, pos) {
        return None;
    }
    let r = read_uint_item(b, pos, limit);
    proof {
        lemma_uint_item_below(b@, pos as nat, limit as nat);
    }
    r
}

proof fn lemma_uint_item_below(b: Seq<u8>, pos: nat, limit: nat)
    ensures
        uint_item(b, pos, limit) matches Some((v, _)) ==> v < limit,
    decreases b.len() - pos,
{
    if pos < b.len() {
        if let Some((m, a, p1)) = hdr(b, pos) {
            if p1 > pos && p1 <= b.len() && m == 6 && a is Some && a->0 != 2 && a->0 != 3 {
                lemma_uint_item_below(b, p1, limit);
            }
        }
    }
}

fn read_payload_elem(b: &[u8], pos: usize, indef: bool) -> (r: Option<(Vec<u8>, usize)>)
    requires
        pos <= b@.len(),
    ensures
        match r {
            Some((v, next)) => next <= b@.len() && payload_elem(b@, pos as nat, indef) == Some((v@, next as nat)),
            None => payload_elem(b@, pos as nat, indef) is None,
        },
{
    if indef && at_break(b, pos) {
        return None;
    }
    read_payload_item(b, pos)
}

fn read_five(b: &[u8], pos: usize, indef: bool) -> (r: Option<(u8, u8, u8, u16, Vec<u8>)>)
    requires
        pos <= b@.len(),
    ensures
        match r {
            Some((v, t, f, len, p)) => five_elems(b@, pos as nat, indef) == Some((v, t, f, len, p@)),
            None => five_elems(b@, pos as nat, indef) is None,
        },
{
    let (v, p1) = match read_uint_elem(b, pos, 0x100, indef) {
        Some(x) => x,
        None => return None,
    };
    let (t, p2) = match read_uint_elem(b, p1, 0x100, indef) {
        Some(x) => x,
        None => return None,
    };
    let (f, p3) = match read_uint_elem(b, p2, 0x100, indef) {
        Some(x) => x,
        None => return None,
    };
    let (len, p4) = match read_uint_elem(b, p3, 0x1_0000, indef) {
        Some(x) => x,
        None => return None,
    };
    let (payload, _p5) = match read_payload_elem(b, p4, indef) {
        Some(x) => x,
        None => return None,
    };
    Some((v as u8, t as u8, f as u8, len as u16, payload))
}

fn read_frame_items(b: &[u8]) -> (r: Option<(u8, u8, u8, u16, Vec<u8>)>)
    ensures
        match r {
            Some((v, t, f, len, p)) => frame_items(b@, 0) == Some((v, t, f, len, p@)),
            None => frame_items(b@, 0) is None,
        },
{
    let mut cur: usize = 0;
    loop
        invariant
            cur <= b@.len(),
            frame_items(b@, 0) == frame_items(b@, cur as nat),
        decreases b@.len() - cur,
    {
        if cur >= b.len() {
            return None;
        }
        match read_hdr(b, cur) {
            None => return None,
            Some((m, a, p1)) => {
                if m == 6 && a.is_some() {
                    cur = p1;
                } else if m == 4 {
                    match a {
                        Some(n) => {
                            if n >= 5 {
                                return read_five(b, p1, false);
                            }
                            return None;
                        },
                        None => return read_five(b, p1, true),
                    }
                } else {
                    return None;
                }
            },
        }
    }
}

/// Decode and check a frame; returns (header, payload bytes).
pub fn decode(frame: &[u8]) -> (r: Result<(FrameHeader, Vec<u8>), FrameError>)
    ensures
        match r {
            Ok((h, p)) => frame_decoded(frame@) == Ok::<(FrameHeader, Seq<u8>), FrameError>(
                (h, p@),
            ),
            Err(e) => frame_decoded(frame@) == Err::<(FrameHeader, Seq<u8>), FrameError>(e),
        },
{
    proof {
        reveal(frame_fields);
    }
    let (v, t, f, len, payload) = match read_frame_items(frame) {
        Some(x) => x,
        None => return Err(FrameError::Malformed),
    };
    let payload_type = PayloadType::from_u8(t)?;
    if payload.len() != len as usize {
        return Err(FrameError::LengthMismatch);
    }
    let header = FrameHeader { version: v, payload_type, flags: f, payload_len: len };
    Ok((header, payload))
}

/// Validate a frame without returning the payload (preflight, no key): it must
/// decode and carry version 1.
pub fn validate(frame: &[u8]) -> (r: Result<FrameHeader, FrameError>)
    ensures
        match r {
            Ok(h) => validated(frame@) == Ok::<FrameHeader, FrameError>(h),
            Err(e) => validated(frame@) == Err::<FrameHeader, FrameError>(e),
        },
{
    let (header, _) = decode(frame)?;
    if header.version != 1 {
        return Err(FrameError::UnsupportedVersion(header.version));
    }
    Ok(header)
}

} // verus!
