//! Conformance vectors for the framing layer: each vector gives sealed bytes,
//! a key, and the expected outcome; checking one runs `open` and compares.
//!
//! Error precedence in the codes: version, malformed frame (CBOR, length,
//! truncated tag), authentication, then policy (expired / revoked from a mock
//! policy).
use vstd::prelude::*;
use vstd::utf8::encode_utf8;
use crate::crypto::{hex_decoded, hex_digit_value, trim, trimmed};
use crate::framing::{self, FrameError, FrameHeader, opened};
use crate::octets::first_32;
use crate::text::str_eq;
use vstd::string::StringExecFns;

verus! {

/// Error codes of the conformance vectors.
#[derive(Debug, Clone, Copy, PartialEq, Eq, Structural)]
pub enum ErrorCode {
    MalformedFrame,
    VersionUnsupported,
    AuthFailed,
    Expired,
    Revoked,
}

/// Text of an error code.
pub open spec fn code_text(c: ErrorCode) -> Seq<char> {
    match c {
        ErrorCode::MalformedFrame => "E_MALFORMED_FRAME"@,
        ErrorCode::VersionUnsupported => "E_VERSION_UNSUPPORTED"@,
        ErrorCode::AuthFailed => "E_AUTH_FAILED"@,
        ErrorCode::Expired => "E_EXPIRED"@,
        ErrorCode::Revoked => "E_REVOKED"@,
    }
}

impl ErrorCode {
    /// The code's text, e.g. `E_AUTH_FAILED`.
    pub fn as_str(&self) -> (s: &'static str)
        ensures
            s@ == code_text(*self),
    {
        match self {
            ErrorCode::MalformedFrame => "E_MALFORMED_FRAME",
            ErrorCode::VersionUnsupported => "E_VERSION_UNSUPPORTED",
            ErrorCode::AuthFailed => "E_AUTH_FAILED",
            ErrorCode::Expired => "E_EXPIRED",
            ErrorCode::Revoked => "E_REVOKED",
        }
    }
}

/// The code of a framing error.
pub open spec fn code_of(e: FrameError) -> ErrorCode {
    match e {
        FrameError::AuthFailed => ErrorCode::AuthFailed,
        FrameError::UnsupportedVersion(_) => ErrorCode::VersionUnsupported,
        _ => ErrorCode::MalformedFrame,
    }
}

/// Classify a framing error: tag mismatch → authentication, bad version →
/// version, everything structural (CBOR, type, length, short input) → malformed.
pub fn classify(e: FrameError) -> (c: ErrorCode)
    ensures
        c == code_of(e),
        e == FrameError::AuthFailed ==> c == ErrorCode::AuthFailed,
        e is UnsupportedVersion ==> c == ErrorCode::VersionUnsupported,
        e == FrameError::Malformed || e == FrameError::LengthMismatch || e == FrameError::TooShort
            || e is UnknownPayloadType ==> c == ErrorCode::MalformedFrame,
{
    match e {
        FrameError::AuthFailed => ErrorCode::AuthFailed,
        FrameError::UnsupportedVersion(_) => ErrorCode::VersionUnsupported,
        _ => ErrorCode::MalformedFrame,
    }
}

// ── Hex ─────────────────────────────────────────────────────────────────────

/// What `hex_decode` returns: empty for empty text, else the trimmed text
/// decoded two hex digits per byte.
pub open spec fn hex_text_decoded(s: Seq<char>) -> Option<Seq<u8>> {
    if s.len() == 0 {
        Some(Seq::empty())
    } else {
        hex_decoded(encode_utf8(trimmed(s)))
    }
}

/// Decode hex text (surrounding white space ignored, either case).
pub fn hex_decode(s: &str) -> (r: Option<Vec<u8>>)
    ensures
        match r {
            Some(v) => hex_text_decoded(s@) == Some(v@),
            None => hex_text_decoded(s@) is None,
        },
{
    if s.is_empty() {
        return Some(Vec::new());
    }
    let t = trim(s);
    let bytes = t.as_bytes();
    let n = bytes.len();
    if n % 2 != 0 {
        return None;
    }
    let mut out: Vec<u8> = Vec::new();
    let mut i: usize = 0;
    while i < n
        invariant
            n == bytes@.len(),
            bytes@ == encode_utf8(t@),
            t@ == trimmed(s@),
            s@.len() > 0,
            n % 2 == 0,
            i % 2 == 0,
            0 <= i <= n,
            out@.len() == i / 2,
            forall|j: int| 0 <= j < i ==> (#[trigger] hex_digit_value(bytes@[j])) is Some,
            forall|q: int| 0 <= q < i / 2 ==> #[trigger] out@[q] == (hex_digit_value(bytes@[2 * q])->0
                * 16 + hex_digit_value(bytes@[2 * q + 1])->0) as u8,
        decreases n - i,
    {
        let hi = match digit_value(bytes[i]) {
            Some(d) => d,
            None => {
                proof {
                    assert(hex_digit_value(bytes@[i as int]) is None);
                }
                return None;
            },
        };
        let lo = match digit_value(bytes[i + 1]) {
            Some(d) => d,
            None => {
                proof {
                    assert(hex_digit_value(bytes@[i + 1]) is None);
                }
                return None;
            },
        };
        out.push(hi * 16 + lo);
        i += 2;
    }
    proof {
        assert(out@ =~= hex_decoded(bytes@)->0);
    }
    Some(out)
}

fn digit_value(b: u8) -> (r: Option<u8>)
    ensures
        r == hex_digit_value(b),
        r matches Some(d) ==> d < 16,
{
    if 0x30 <= b && b <= 0x39 {
        Some(b - 0x30)
    } else if 0x41 <= b && b <= 0x46 {
        Some(b - 0x41 + 10)
    } else if 0x61 <= b && b <= 0x66 {
        Some(b - 0x61 + 10)
    } else {
        None
    }
}

/// Lower-case hex digit of a nibble.
pub open spec fn hex_char(d: u8) -> char {
    if d < 10 {
        ((d + 0x30) as u8) as char
    } else {
        ((d - 10 + 0x61) as u8) as char
    }
}

/// Lower-case hex text of bytes, two digits per byte, high first.
pub open spec fn hex_text(bytes: Seq<u8>) -> Seq<char> {
    Seq::new(2 * bytes.len(), |i: int| if i % 2 == 0 { hex_char(bytes[i / 2] / 16) } else { hex_char(bytes[i / 2] % 16) })
}

/// Lower-case hex encoding of bytes.
pub fn hex_encode(bytes: &[u8]) -> (s: String)
    ensures
        s@ == hex_text(bytes@),
{
    let mut s = String::new();
    let mut i: usize = 0;
    while i < bytes.len()
        invariant
            0 <= i <= bytes@.len(),
            s@ == hex_text(bytes@.take(i as int)),
        decreases bytes@.len() - i,
    {
        let b = bytes[i];
        s.append(hex_digit_str(b / 16));
        s.append(hex_digit_str(b % 16));
        i += 1;
        proof {
            assert(s@ =~= hex_text(bytes@.take(i as int)));
        }
    }
    proof {
        assert(bytes@.take(bytes@.len() as int) =~= bytes@);
    }
    s
}

fn hex_digit_str(d: u8) -> (s: &'static str)
    requires
        d < 16,
    ensures
        s@ == seq![hex_char(d)],
{
    proof {
        reveal_strlit("0");
        reveal_strlit("1");
        reveal_strlit("2");
        reveal_strlit("3");
        reveal_strlit("4");
        reveal_strlit("5");
        reveal_strlit("6");
        reveal_strlit("7");
        reveal_strlit("8");
        reveal_strlit("9");
        reveal_strlit("a");
        reveal_strlit("b");
        reveal_strlit("c");
        reveal_strlit("d");
        reveal_strlit("e");
        reveal_strlit("f");
    }
    match d {
        0 => "0",
        1 => "1",
        2 => "2",
        3 => "3",
        4 => "4",
        5 => "5",
        6 => "6",
        7 => "7",
        8 => "8",
        9 => "9",
        10 => "a",
        11 => "b",
        12 => "c",
        13 => "d",
        14 => "e",
        _ => "f",
    }
}

/// ASCII lower case of a byte.
pub open spec fn ascii_lower(b: u8) -> u8 {
    if 0x41 <= b <= 0x5a {
        (b + 32) as u8
    } else {
        b
    }
}

/// `str::eq_ignore_ascii_case`: same byte length, bytes equal up to ASCII case.
pub open spec fn eq_ignore_case(a: Seq<u8>, b: Seq<u8>) -> bool {
    a.len() == b.len() && forall|i: int| 0 <= i < a.len() ==> #[trigger] ascii_lower(a[i]) == ascii_lower(b[i])
}

/// Compare two strings ignoring ASCII case.
pub fn eq_ignore_ascii_case(a: &str, b: &str) -> (r: bool)
    ensures
        r == eq_ignore_case(encode_utf8(a@), encode_utf8(b@)),
{
    let x = a.as_bytes();
    let y = b.as_bytes();
    if x.len() != y.len() {
        return false;
    }
    let n = x.len();
    let mut i: usize = 0;
    while i < n
        invariant
            n == x@.len(),
            n == y@.len(),
            x@ == encode_utf8(a@),
            y@ == encode_utf8(b@),
            0 <= i <= n,
            forall|j: int| 0 <= j < i ==> #[trigger] ascii_lower(x@[j]) == ascii_lower(y@[j]),
        decreases n - i,
    {
        let p = if 0x41 <= x[i] && x[i] <= 0x5a { x[i] + 32 } else { x[i] };
        let q = if 0x41 <= y[i] && y[i] <= 0x5a { y[i] + 32 } else { y[i] };
        assert(p == ascii_lower(x@[i as int]));
        assert(q == ascii_lower(y@[i as int]));
        if p != q {
            return false;
        }
        i += 1;
    }
    true
}

// ── Vectors ─────────────────────────────────────────────────────────────────

/// What checking reads of a vector's mock policy: whether it names an expiry or
/// a revocation.
#[derive(Debug, Clone, Copy, PartialEq, Eq, Structural)]
pub struct MockPolicy {
    pub has_expires_at: bool,
    pub has_revoked_at: bool,
}

/// One conformance vector.
pub struct Vector {
    pub id: String,
    pub category: String,
    pub payload_hex: String,
    pub k_mac_hex: String,
    pub sealed_hex: String,
    pub expected_success: bool,
    pub expected_code: Option<String>,
    pub mock_policy: Option<MockPolicy>,
}

/// What the implementation computed for a vector.
#[derive(Debug, Clone, Copy, PartialEq, Eq, Structural)]
pub enum Computed {
    /// The frame opened and the payload matched.
    Accepted,
    Refused(ErrorCode),
}

impl Computed {
    /// "OK" or the error code's text.
    pub fn name(&self) -> (s: &'static str)
        ensures
            *self == Computed::Accepted ==> s@ == "OK"@,
            *self matches Computed::Refused(c) ==> s@ == code_text(c),
    {
        match self {
            Computed::Accepted => "OK",
            Computed::Refused(c) => c.as_str(),
        }
    }
}

/// Why a vector did not conform.
#[derive(Debug, Clone, Copy, PartialEq, Eq, Structural)]
pub enum VectorFailure {
    /// A vector expected to succeed has no sealed bytes.
    EmptySealedOnValid,
    /// A vector expected to succeed has fewer than 32 sealed bytes.
    ShortSealedOnValid,
    /// The sealed bytes are not hex.
    BadSealedHex,
    /// The key is not hex.
    BadKeyHex,
    /// The computed code differs from the expected one.
    CodeMismatch(Computed),
    /// The frame opened though failure was expected.
    UnexpectedSuccess,
    /// The frame opened but carries another payload.
    PayloadMismatch,
    /// A vector expected to succeed was refused.
    ValidVectorRefused(ErrorCode),
}

/// `exp` is one of the two structural codes.
pub open spec fn is_structural_text(exp: Seq<char>) -> bool {
    exp == "E_MALFORMED_FRAME"@ || exp == "E_VERSION_UNSUPPORTED"@
}

/// What `validate_one` decides once the bytes are decoded: `sealed` and `k_mac`
/// are the decoded hex fields.
pub open spec fn verdict(v: &Vector, sealed: Seq<u8>, k_mac: Seq<u8>) -> Result<Computed, VectorFailure> {
    let malformed = Computed::Refused(ErrorCode::MalformedFrame);
    if sealed.len() < 32 {
        if v.expected_success {
            Err(VectorFailure::ShortSealedOnValid)
        } else if v.expected_code matches Some(exp) && !is_structural_text(exp@) {
            Err(VectorFailure::CodeMismatch(malformed))
        } else {
            Ok(malformed)
        }
    } else if k_mac.len() != 32 {
        if v.expected_code matches Some(exp) && exp@ != code_text(ErrorCode::MalformedFrame) {
            Err(VectorFailure::CodeMismatch(malformed))
        } else {
            Ok(malformed)
        }
    } else {
        match opened(sealed, k_mac) {
            Ok((_, payload)) => {
                if v.mock_policy matches Some(m) && (v.category@ == "expired"@ || m.has_expires_at) {
                    if v.expected_code matches Some(exp) && exp@ != code_text(ErrorCode::Expired) {
                        Err(VectorFailure::CodeMismatch(Computed::Refused(ErrorCode::Expired)))
                    } else {
                        Ok(Computed::Refused(ErrorCode::Expired))
                    }
                } else if v.mock_policy matches Some(m) && (v.category@ == "revoked"@ || m.has_revoked_at) {
                    if v.expected_code matches Some(exp) && exp@ != code_text(ErrorCode::Revoked) {
                        Err(VectorFailure::CodeMismatch(Computed::Refused(ErrorCode::Revoked)))
                    } else {
                        Ok(Computed::Refused(ErrorCode::Revoked))
                    }
                } else if !v.expected_success {
                    Err(VectorFailure::UnexpectedSuccess)
                } else if !eq_ignore_case(encode_utf8(hex_text(payload)), encode_utf8(v.payload_hex@)) {
                    Err(VectorFailure::PayloadMismatch)
                } else {
                    Ok(Computed::Accepted)
                }
            },
            Err(e) => {
                let c = code_of(e);
                if v.expected_success {
                    Err(VectorFailure::ValidVectorRefused(c))
                } else if v.expected_code matches Some(exp) && exp@ != code_text(c) && !(
                (c == ErrorCode::MalformedFrame || c == ErrorCode::VersionUnsupported)
                    && is_structural_text(exp@)) {
                    Err(VectorFailure::CodeMismatch(Computed::Refused(c)))
                } else {
                    Ok(Computed::Refused(c))
                }
            },
        }
    }
}

/// What `validate_one` returns for a vector.
pub open spec fn vector_checked(v: &Vector) -> Result<Computed, VectorFailure> {
    let malformed = Computed::Refused(ErrorCode::MalformedFrame);
    if v.sealed_hex@.len() == 0 {
        if v.expected_success {
            Err(VectorFailure::EmptySealedOnValid)
        } else if v.expected_code matches Some(exp) && exp@ != code_text(ErrorCode::MalformedFrame)
            && !(v.category@ == "malformed"@ || v.category@ == "invalid"@) {
            Err(VectorFailure::CodeMismatch(malformed))
        } else {
            Ok(malformed)
        }
    } else {
        match hex_text_decoded(v.sealed_hex@) {
            None => Err(VectorFailure::BadSealedHex),
            Some(sealed) => if sealed.len() < 32 {
                verdict(v, sealed, Seq::empty())
            } else {
                match hex_text_decoded(v.k_mac_hex@) {
                    None => Err(VectorFailure::BadKeyHex),
                    Some(k) => verdict(v, sealed, k),
                }
            },
        }
    }
}

/// Mock policies on a vector whose frame opens under its key: category
/// `expired` (or a mock expiry) is answered `E_EXPIRED`; otherwise category
/// `revoked` (or a mock revocation) is answered `E_REVOKED`, whether or not the
/// mock names a revocation time. The vector passes when it expects no code or
/// that code, and fails with that code otherwise.
pub proof fn lemma_mock_policy_refusals(v: &Vector, sealed: Seq<u8>, k_mac: Seq<u8>)
    requires
        v.sealed_hex@.len() != 0,
        hex_text_decoded(v.sealed_hex@) == Some(sealed),
        sealed.len() >= 32,
        hex_text_decoded(v.k_mac_hex@) == Some(k_mac),
        k_mac.len() == 32,
        opened(sealed, k_mac) is Ok,
        v.mock_policy is Some,
    ensures
        ({
            let m = v.mock_policy->Some_0;
            let expired = v.category@ == "expired"@ || m.has_expires_at;
            let revoked = v.category@ == "revoked"@ || m.has_revoked_at;
            &&& expired && (v.expected_code is None || v.expected_code->Some_0@ == "E_EXPIRED"@)
                ==> vector_checked(v) == Ok::<Computed, VectorFailure>(Computed::Refused(ErrorCode::Expired))
            &&& expired && v.expected_code is Some && v.expected_code->Some_0@ != "E_EXPIRED"@
                ==> vector_checked(v) == Err::<Computed, VectorFailure>(
                VectorFailure::CodeMismatch(Computed::Refused(ErrorCode::Expired)),
            )
            &&& !expired && revoked && (v.expected_code is None || v.expected_code->Some_0@ == "E_REVOKED"@)
                ==> vector_checked(v) == Ok::<Computed, VectorFailure>(Computed::Refused(ErrorCode::Revoked))
            &&& !expired && revoked && v.expected_code is Some && v.expected_code->Some_0@ != "E_REVOKED"@
                ==> vector_checked(v) == Err::<Computed, VectorFailure>(
                VectorFailure::CodeMismatch(Computed::Refused(ErrorCode::Revoked)),
            )
        }),
{
}

/// A vector with no sealed bytes: refused as malformed, which fails a vector
/// expected to succeed, and fails a vector expecting another code unless its
/// category is `malformed` or `invalid`.
pub proof fn lemma_empty_sealed(v: &Vector)
    requires
        v.sealed_hex@.len() == 0,
    ensures
        v.expected_success ==> vector_checked(v) == Err::<Computed, VectorFailure>(
            VectorFailure::EmptySealedOnValid,
        ),
        !v.expected_success && (v.expected_code is None || v.expected_code->Some_0@ == "E_MALFORMED_FRAME"@
            || v.category@ == "malformed"@ || v.category@ == "invalid"@) ==> vector_checked(v) == Ok::<
            Computed,
            VectorFailure,
        >(Computed::Refused(ErrorCode::MalformedFrame)),
        !v.expected_success && v.expected_code is Some && v.expected_code->Some_0@ != "E_MALFORMED_FRAME"@
            && v.category@ != "malformed"@ && v.category@ != "invalid"@ ==> vector_checked(v) == Err::<
            Computed,
            VectorFailure,
        >(VectorFailure::CodeMismatch(Computed::Refused(ErrorCode::MalformedFrame))),
{
}

/// A vector whose frame opens under its key and that carries no mock policy
/// passes only if it expects success and its payload hex matches (ignoring
/// case); a vector expecting failure is reported as an unexpected success.
pub proof fn lemma_opened_without_policy(v: &Vector, sealed: Seq<u8>, k_mac: Seq<u8>, h: FrameHeader, payload: Seq<u8>)
    requires
        v.sealed_hex@.len() != 0,
        hex_text_decoded(v.sealed_hex@) == Some(sealed),
        sealed.len() >= 32,
        hex_text_decoded(v.k_mac_hex@) == Some(k_mac),
        k_mac.len() == 32,
        opened(sealed, k_mac) == Ok::<(FrameHeader, Seq<u8>), FrameError>((h, payload)),
        v.mock_policy is None,
    ensures
        !v.expected_success ==> vector_checked(v) == Err::<Computed, VectorFailure>(VectorFailure::UnexpectedSuccess),
        v.expected_success && eq_ignore_case(encode_utf8(hex_text(payload)), encode_utf8(v.payload_hex@))
            ==> vector_checked(v) == Ok::<Computed, VectorFailure>(Computed::Accepted),
        v.expected_success && !eq_ignore_case(encode_utf8(hex_text(payload)), encode_utf8(v.payload_hex@))
            ==> vector_checked(v) == Err::<Computed, VectorFailure>(VectorFailure::PayloadMismatch),
{
}

/// A vector whose frame is refused: a vector expected to succeed fails with
/// the refusal's code; a wrong tag is `E_AUTH_FAILED`, a bad version
/// `E_VERSION_UNSUPPORTED`, anything structural `E_MALFORMED_FRAME`.
pub proof fn lemma_refused_frame(v: &Vector, sealed: Seq<u8>, k_mac: Seq<u8>, e: FrameError)
    requires
        v.sealed_hex@.len() != 0,
        hex_text_decoded(v.sealed_hex@) == Some(sealed),
        sealed.len() >= 32,
        hex_text_decoded(v.k_mac_hex@) == Some(k_mac),
        k_mac.len() == 32,
        opened(sealed, k_mac) == Err::<(FrameHeader, Seq<u8>), FrameError>(e),
    ensures
        v.expected_success && e == FrameError::AuthFailed ==> vector_checked(v) == Err::<Computed, VectorFailure>(
            VectorFailure::ValidVectorRefused(ErrorCode::AuthFailed),
        ),
        v.expected_success && e is UnsupportedVersion ==> vector_checked(v) == Err::<Computed, VectorFailure>(
            VectorFailure::ValidVectorRefused(ErrorCode::VersionUnsupported),
        ),
        !v.expected_success && e == FrameError::AuthFailed && (v.expected_code is None
            || v.expected_code->Some_0@ == "E_AUTH_FAILED"@) ==> vector_checked(v) == Ok::<Computed, VectorFailure>(
            Computed::Refused(ErrorCode::AuthFailed),
        ),
        !v.expected_success && e == FrameError::AuthFailed && v.expected_code is Some
            && v.expected_code->Some_0@ != "E_AUTH_FAILED"@ ==> vector_checked(v) == Err::<Computed, VectorFailure>(
            VectorFailure::CodeMismatch(Computed::Refused(ErrorCode::AuthFailed)),
        ),
{
}

fn expected_differs(expected: &Option<String>, code: &str) -> (r: bool)
    ensures
        r == (expected matches Some(exp) && exp@ != code@),
{
    match expected {
        Some(exp) => !str_eq(exp.as_str(), code),
        None => false,
    }
}

fn expected_structural(expected: &Option<String>) -> (r: bool)
    ensures
        r == (expected matches Some(exp) && is_structural_text(exp@)),
{
    match expected {
        Some(exp) => str_eq(exp.as_str(), "E_MALFORMED_FRAME") || str_eq(exp.as_str(), "E_VERSION_UNSUPPORTED"),
        None => false,
    }
}

fn check_opened(v: &Vector, sealed: &[u8], k_mac: &[u8; 32]) -> (r: Result<Computed, VectorFailure>)
    requires
        sealed@.len() >= 32,
    ensures
        r == verdict(v, sealed@, k_mac@),
{
    let malformed = Computed::Refused(ErrorCode::MalformedFrame);
    match framing::open(sealed, k_mac) {
        Ok((_hdr, payload)) => {
            if let Some(m) = v.mock_policy {
                if str_eq(v.category.as_str(), "expired") || m.has_expires_at {
                    if expected_differs(&v.expected_code, ErrorCode::Expired.as_str()) {
                        return Err(VectorFailure::CodeMismatch(Computed::Refused(ErrorCode::Expired)));
                    }
                    return Ok(Computed::Refused(ErrorCode::Expired));
                }
                if str_eq(v.category.as_str(), "revoked") || m.has_revoked_at {
                    if expected_differs(&v.expected_code, ErrorCode::Revoked.as_str()) {
                        return Err(VectorFailure::CodeMismatch(Computed::Refused(ErrorCode::Revoked)));
                    }
                    return Ok(Computed::Refused(ErrorCode::Revoked));
                }
            }
            if !v.expected_success {
                return Err(VectorFailure::UnexpectedSuccess);
            }
            let payload_hex = hex_encode(payload.as_slice());
            if !eq_ignore_ascii_case(payload_hex.as_str(), v.payload_hex.as_str()) {
                return Err(VectorFailure::PayloadMismatch);
            }
            Ok(Computed::Accepted)
        },
        Err(e) => {
            let c = classify(e);
            if v.expected_success {
                return Err(VectorFailure::ValidVectorRefused(c));
            }
            if expected_differs(&v.expected_code, c.as_str()) {
                let both_structural = (c == ErrorCode::MalformedFrame || c == ErrorCode::VersionUnsupported)
                    && expected_structural(&v.expected_code);
                if !both_structural {
                    return Err(VectorFailure::CodeMismatch(Computed::Refused(c)));
                }
            }
            Ok(Computed::Refused(c))
        },
    }
}

/// Check one vector against the framing implementation.
pub fn validate_one(v: &Vector) -> (r: Result<Computed, VectorFailure>)
    ensures
        r == vector_checked(v),
{
    let malformed = Computed::Refused(ErrorCode::MalformedFrame);
    if v.sealed_hex.as_str().is_empty() {
        if v.expected_success {
            return Err(VectorFailure::EmptySealedOnValid);
        }
        if expected_differs(&v.expected_code, ErrorCode::MalformedFrame.as_str()) && !(str_eq(
            v.category.as_str(),
            "malformed",
        ) || str_eq(v.category.as_str(), "invalid")) {
            return Err(VectorFailure::CodeMismatch(malformed));
        }
        return Ok(malformed);
    }
    let sealed = match hex_decode(v.sealed_hex.as_str()) {
        Some(b) => b,
        None => return Err(VectorFailure::BadSealedHex),
    };
    if sealed.len() < 32 {
        if v.expected_success {
            return Err(VectorFailure::ShortSealedOnValid);
        }
        if expected_differs(&v.expected_code, ErrorCode::MalformedFrame.as_str()) && !expected_structural(
            &v.expected_code,
        ) {
            return Err(VectorFailure::CodeMismatch(malformed));
        }
        return Ok(malformed);
    }
    let k_mac = match hex_decode(v.k_mac_hex.as_str()) {
        Some(k) => k,
        None => return Err(VectorFailure::BadKeyHex),
    };
    if k_mac.len() != 32 {
        if expected_differs(&v.expected_code, ErrorCode::MalformedFrame.as_str()) {
            return Err(VectorFailure::CodeMismatch(malformed));
        }
        return Ok(malformed);
    }
    let k = first_32(k_mac.as_slice());
    proof {
        assert(k@ =~= k_mac@);
    }
    check_opened(v, sealed.as_slice(), &k)
}

} // verus!
