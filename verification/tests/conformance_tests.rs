use capglyph::conformance::{
    classify, eq_ignore_ascii_case, hex_decode, hex_encode, validate_one, Computed, ErrorCode,
    MockPolicy, Vector, VectorFailure,
};
use capglyph::framing::{seal, FrameError, Params};

fn vector(sealed_hex: &str, k_mac_hex: &str, payload_hex: &str, ok: bool, code: Option<&str>, category: &str) -> Vector {
    Vector {
        id: "v".to_string(),
        category: category.to_string(),
        payload_hex: payload_hex.to_string(),
        k_mac_hex: k_mac_hex.to_string(),
        sealed_hex: sealed_hex.to_string(),
        expected_success: ok,
        expected_code: code.map(|s| s.to_string()),
        mock_policy: None,
    }
}

#[test]
fn hex_helpers() {
    assert_eq!(hex_decode(""), Some(vec![]));
    assert_eq!(hex_decode(" 0aFf "), Some(vec![0x0a, 0xff]));
    assert_eq!(hex_decode("abc"), None);
    assert_eq!(hex_decode("zz"), None);
    assert_eq!(hex_encode(&[0x0a, 0xff, 0x10]), "0aff10");
    assert!(eq_ignore_ascii_case("0AFF", "0aff"));
    assert!(!eq_ignore_ascii_case("0aff", "0afe"));
}

#[test]
fn classification() {
    assert_eq!(classify(FrameError::AuthFailed), ErrorCode::AuthFailed);
    assert_eq!(classify(FrameError::UnsupportedVersion(2)), ErrorCode::VersionUnsupported);
    assert_eq!(classify(FrameError::LengthMismatch), ErrorCode::MalformedFrame);
    assert_eq!(ErrorCode::AuthFailed.as_str(), "E_AUTH_FAILED");
}

#[test]
fn valid_and_tampered_vectors() {
    let key = [0x42u8; 32];
    let sealed = seal(b"abc", &Params::default(), &key);
    let key_hex = hex_encode(&key);
    let v = vector(&hex_encode(&sealed), &key_hex, "616263", true, None, "valid");
    assert_eq!(validate_one(&v), Ok(Computed::Accepted));
    let v = vector(&hex_encode(&sealed), &key_hex, "616264", true, None, "valid");
    assert_eq!(validate_one(&v), Err(VectorFailure::PayloadMismatch));
    let mut bad = sealed.clone();
    let n = bad.len();
    bad[n - 1] ^= 1;
    let v = vector(&hex_encode(&bad), &key_hex, "", false, Some("E_AUTH_FAILED"), "tampered");
    assert_eq!(validate_one(&v), Ok(Computed::Refused(ErrorCode::AuthFailed)));
    let v = vector(&hex_encode(&bad), &key_hex, "", false, Some("E_EXPIRED"), "tampered");
    assert_eq!(
        validate_one(&v),
        Err(VectorFailure::CodeMismatch(Computed::Refused(ErrorCode::AuthFailed)))
    );
}

#[test]
fn structural_vectors() {
    let v = vector("", "", "", false, Some("E_MALFORMED_FRAME"), "malformed");
    assert_eq!(validate_one(&v), Ok(Computed::Refused(ErrorCode::MalformedFrame)));
    let v = vector("", "", "", true, None, "valid");
    assert_eq!(validate_one(&v), Err(VectorFailure::EmptySealedOnValid));
    let v = vector("00ff", "", "", false, Some("E_VERSION_UNSUPPORTED"), "invalid");
    assert_eq!(validate_one(&v), Ok(Computed::Refused(ErrorCode::MalformedFrame)));
    let v = vector("0g", "", "", false, None, "invalid");
    assert_eq!(validate_one(&v), Err(VectorFailure::BadSealedHex));
    let long = "00".repeat(40);
    let v = vector(&long, "0011", "", false, Some("E_MALFORMED_FRAME"), "invalid");
    assert_eq!(validate_one(&v), Ok(Computed::Refused(ErrorCode::MalformedFrame)));
}

#[test]
fn mock_policy_vectors() {
    let key = [0x42u8; 32];
    let sealed = seal(b"abc", &Params::default(), &key);
    let mut v = vector(&hex_encode(&sealed), &hex_encode(&key), "616263", false, None, "expired");
    v.mock_policy = Some(MockPolicy { has_expires_at: false, has_revoked_at: false });
    assert_eq!(validate_one(&v), Ok(Computed::Refused(ErrorCode::Expired)));
    v.category = "other".to_string();
    v.mock_policy = Some(MockPolicy { has_expires_at: false, has_revoked_at: true });
    assert_eq!(validate_one(&v), Ok(Computed::Refused(ErrorCode::Revoked)));
    assert_eq!(Computed::Refused(ErrorCode::Revoked).name(), "E_REVOKED");
    assert_eq!(Computed::Accepted.name(), "OK");
}
