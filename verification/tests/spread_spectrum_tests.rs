use capglyph::spread_spectrum::{bits_to_str, decode_bits, encode_bits, str_to_bits, BitsError};

#[test]
fn test_encode_decode_roundtrip() {
    let id = "user123";
    let bits = encode_bits(id);
    assert_eq!(bits.len(), id.len() * 8);
    let decoded = decode_bits(&bits).unwrap();
    assert_eq!(decoded, id);
}

#[test]
fn bool_bits_roundtrip() {
    let bits = str_to_bits("Hé");
    assert_eq!(bits.len(), 24);
    assert_eq!(&bits[..8], &[false, true, false, false, true, false, false, false]);
    assert_eq!(bits_to_str(&bits).unwrap(), "Hé");
}

#[test]
fn bit_errors() {
    assert_eq!(bits_to_str(&[true; 7]), Err(BitsError::BitCount));
    assert_eq!(bits_to_str(&[true; 8]), Err(BitsError::InvalidUtf8));
    assert_eq!(decode_bits(&[1u8; 9]), Err(BitsError::BitCount));
    assert_eq!(decode_bits(&[1u8; 8]), Err(BitsError::InvalidUtf8));
}

#[test]
fn decode_bits_folds_non_binary_values() {
    // (acc << 1) | bit with bit = 2 sets bit 1 of the accumulator
    let bits = [0u8, 0, 0, 0, 0, 0, 0, 2];
    assert_eq!(decode_bits(&bits).unwrap(), "\u{2}");
}
