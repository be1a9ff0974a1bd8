use capglyph::keying::keystream_bytes;
use capglyph::learned::{decrypt_bits, id_to_bitstring, payload_bits, xor_bitstring, BCH5_DATA_BITS};

#[test]
fn id_bitstring_pads_and_truncates() {
    let s = id_to_bitstring("A");
    assert_eq!(s.len(), BCH5_DATA_BITS);
    assert_eq!(&s[..8], "01000001");
    assert!(s[8..].chars().all(|c| c == '0'));
    let long = id_to_bitstring("abcdefghij");
    assert_eq!(long.len(), 61);
    assert_eq!(&long[..8], "01100001");
}

#[test]
fn keyed_payload_decrypts_to_id_bits() {
    let plain = id_to_bitstring("user42");
    let keyed = payload_bits("user42", Some("k"), 99);
    assert_ne!(keyed, plain);
    assert_eq!(decrypt_bits(&keyed, "k", 99), plain);
    assert_eq!(payload_bits("user42", None, 99), plain);
}

#[test]
fn xor_uses_msb_first_keystream_bits() {
    let ks = keystream_bytes("k", "recipient-id", 5);
    let zeros = "0".repeat(16);
    let x = xor_bitstring(&zeros, &ks);
    let expect: String = (0..16)
        .map(|i| if (ks[i / 8] >> (7 - i % 8)) & 1 == 1 { '1' } else { '0' })
        .collect();
    assert_eq!(x, expect);
}
