use capglyph::carrier_integration::{
    decode_credential_token, encode_credential_token, token_from_sealed, TokenError,
};
use capglyph::ecc::EccError;
use capglyph::framing::{seal, FrameError, Params, PayloadType};

fn test_k_mac() -> [u8; 32] {
    [0x42u8; 32]
}

#[test]
fn roundtrip_hard() {
    let token = [0x11u8; 16];
    let coded = encode_credential_token(&token, &test_k_mac());
    let decoded = decode_credential_token(&coded, &test_k_mac()).unwrap();
    assert_eq!(decoded, token);
}

#[test]
fn carrier_integration_wrong_key_fails() {
    let token = [0x22u8; 16];
    let coded = encode_credential_token(&token, &test_k_mac());
    let wrong = [0x00u8; 32];
    assert!(decode_credential_token(&coded, &wrong).is_err());
}

#[test]
fn tamper_detected() {
    let token = [0x33u8; 16];
    let mut coded = encode_credential_token(&token, &test_k_mac());
    for b in coded.iter_mut().take(20) {
        *b ^= 1;
    }
    if let Ok(decoded) = decode_credential_token(&coded, &test_k_mac()) {
        assert_eq!(decoded, token);
    }
}

#[test]
fn carrier_framing_integration_roundtrip() {
    let k_mac = [0x77u8; 32];
    let token = [0x11u8; 16];
    let coded = encode_credential_token(&token, &k_mac);
    let decoded = decode_credential_token(&coded, &k_mac).unwrap();
    assert_eq!(decoded, token);
}

#[test]
fn token_errors() {
    assert_eq!(
        decode_credential_token(&[1u8; 7], &test_k_mac()),
        Err(TokenError::Ecc(EccError::RepetitionLength))
    );
    let coded = encode_credential_token(&[5u8; 16], &test_k_mac());
    assert_eq!(
        decode_credential_token(&coded, &[1u8; 32]),
        Err(TokenError::Frame(FrameError::AuthFailed))
    );
    let params = Params { version: 1, payload_type: PayloadType::Credential, flags: 0 };
    let sealed = seal(&[1u8; 15], &params, &test_k_mac());
    assert_eq!(token_from_sealed(&sealed, &test_k_mac()), Err(TokenError::TokenLength));
}

#[test]
fn token_coding_is_bit_repetition() {
    let coded = encode_credential_token(&[0u8; 16], &test_k_mac());
    assert!(coded.iter().all(|&b| b <= 1));
    assert_eq!(coded.len() % 64, 0);
}
