use capglyph::bch::{bch_decode_word, bch_encode_word, bch_params};
use capglyph::ecc::rs::{encode_systematic, gf_mul, gf_tables};
use capglyph::ecc::{
    bits_to_bytes, bytes_to_bits, bytes_to_hard_bits, coded_bits_len, decode_hard, decode_rs_hard,
    encode, EccError, Profile,
};
use capglyph::interleave::{deinterleave, interleave};

#[test]
fn repetition_roundtrip() {
    let data = b"hello credential 128b!!";
    let coded = encode(data, Profile::Repetition8);
    let bits: Vec<bool> = coded.iter().map(|&b| b != 0).collect();
    let decoded = decode_hard(&bits, Profile::Repetition8).unwrap();
    assert_eq!(&decoded[..data.len()], data);
}

#[test]
fn repetition_corrects_single_error_per_group() {
    let data = b"AB";
    let coded = encode(data, Profile::Repetition8);
    let mut bits: Vec<bool> = coded.iter().map(|&b| b != 0).collect();
    for i in (0..bits.len()).step_by(8) {
        bits[i] = !bits[i];
    }
    let decoded = decode_hard(&bits, Profile::Repetition8).unwrap();
    assert_eq!(&decoded[..data.len()], data);
}

#[test]
fn bch_roundtrip_no_error() {
    let data = b"hi";
    let coded = encode(data, Profile::Bch { t: 1 });
    let bits: Vec<bool> = coded.iter().map(|&b| b != 0).collect();
    let decoded = decode_hard(&bits, Profile::Bch { t: 1 }).unwrap();
    assert_eq!(&decoded[..data.len()], data);
}

#[test]
fn bch_corrects_one_error_hamming() {
    let data = b"\xaa";
    let coded = encode(data, Profile::Bch { t: 1 });
    let mut bits: Vec<bool> = coded.iter().map(|&b| b != 0).collect();
    bits[3] = !bits[3];
    let decoded = decode_hard(&bits, Profile::Bch { t: 1 }).unwrap();
    assert_eq!(&decoded[..data.len()], data);
}

#[test]
fn rs_encode_lengths() {
    let data = vec![1u8; 10];
    let coded = encode(
        &data,
        Profile::RsInterleaved {
            n: 15,
            k: 10,
            interleave_depth: 2,
        },
    );
    assert_eq!(coded.len(), 15);
    let long: Vec<u8> = (0..20).collect();
    let coded2 = encode(
        &long,
        Profile::RsInterleaved {
            n: 15,
            k: 10,
            interleave_depth: 0,
        },
    );
    assert_eq!(coded2.len(), 30);
}

#[test]
fn interleave_identity_with_ecc() {
    let data = b"interleaved burst test payload";
    let profile = Profile::RsInterleaved {
        n: 15,
        k: 10,
        interleave_depth: 4,
    };
    let coded = encode(data, profile);
    let deint = deinterleave(&interleave(&coded, 4), 4);
    assert_eq!(coded, deint);
}

#[test]
fn repetition_coding_repeats_each_bit_eight_times() {
    let coded = encode(&[0x80], Profile::Repetition8);
    assert_eq!(coded.len(), 64);
    assert_eq!(&coded[..8], &[1u8; 8]);
    assert!(coded[8..].iter().all(|&b| b == 0));
}

#[test]
fn repetition_length_error() {
    let bits = vec![true; 9];
    assert_eq!(decode_hard(&bits, Profile::Repetition8), Err(EccError::RepetitionLength));
}

#[test]
fn bch_length_error() {
    let bits = vec![false; 8];
    assert_eq!(decode_hard(&bits, Profile::Bch { t: 1 }), Err(EccError::BchLength));
}

#[test]
fn rs_needs_byte_decode() {
    let bits = vec![false; 8];
    let p = Profile::RsInterleaved { n: 15, k: 10, interleave_depth: 0 };
    assert_eq!(decode_hard(&bits, p), Err(EccError::RsNeedsByteDecode));
}

#[test]
fn rs_hard_roundtrip_interleaved() {
    let data: Vec<u8> = (0..25).collect();
    let p = Profile::RsInterleaved { n: 15, k: 10, interleave_depth: 4 };
    let coded = encode(&data, p);
    let bits = bytes_to_hard_bits(&coded);
    let decoded = decode_rs_hard(&bits, 15, 10, 4).unwrap();
    assert_eq!(&decoded[..data.len()], &data[..]);
    assert!(decoded[data.len()..].iter().all(|&b| b == 0));
}

#[test]
fn rs_hard_errors() {
    assert_eq!(decode_rs_hard(&[true; 7], 15, 10, 0), Err(EccError::RsSoftLength));
    assert_eq!(decode_rs_hard(&[true; 8], 10, 10, 0), Err(EccError::RsInvalidParams));
    assert_eq!(decode_rs_hard(&[true; 8], 15, 10, 0), Err(EccError::RsLength));
}

#[test]
fn bits_bytes_roundtrip() {
    let bits = bytes_to_bits(&[0xA5, 0x01]);
    assert_eq!(
        bits,
        vec![true, false, true, false, false, true, false, true, false, false, false, false, false, false, false, true]
    );
    assert_eq!(bits_to_bytes(&bits), vec![0xA5, 0x01]);
    assert_eq!(bits_to_bytes(&[true, true]), vec![0xC0]);
}

#[test]
fn coded_bits_len_values() {
    assert_eq!(coded_bits_len(10, Profile::Repetition8), 640);
    assert_eq!(coded_bits_len(2, Profile::Bch { t: 1 }), 28);
    assert_eq!(
        coded_bits_len(10, Profile::RsInterleaved { n: 15, k: 10, interleave_depth: 2 }),
        120
    );
}

#[test]
fn bch15_corrects_two_errors_per_block() {
    let data = b"two errors";
    let coded = encode(data, Profile::Bch { t: 2 });
    let clean: Vec<bool> = coded.iter().map(|&b| b != 0).collect();
    assert_eq!(clean.len() % 15, 0);
    for (p, q) in [(0usize, 1usize), (3, 14), (7, 8), (2, 2), (5, 11)] {
        let mut bits = clean.clone();
        for block in 0..bits.len() / 15 {
            bits[block * 15 + p] = !bits[block * 15 + p];
            if q != p {
                bits[block * 15 + q] = !bits[block * 15 + q];
            }
        }
        let decoded = decode_hard(&bits, Profile::Bch { t: 2 }).unwrap();
        assert_eq!(&decoded[..data.len()], data, "flips at {p} and {q}");
    }
}

#[test]
fn rs_encoding_is_linear() {
    let a: Vec<u8> = (0..40u32).map(|i| (i * 37 + 11) as u8).collect();
    let b: Vec<u8> = (0..40u32).map(|i| (i * 91 + 200) as u8).collect();
    let ab: Vec<u8> = a.iter().zip(&b).map(|(x, y)| x ^ y).collect();
    for nsym in [1usize, 8, 32] {
        let ca = encode_systematic(&a, nsym);
        let cb = encode_systematic(&b, nsym);
        let cab = encode_systematic(&ab, nsym);
        let xored: Vec<u8> = ca.iter().zip(&cb).map(|(x, y)| x ^ y).collect();
        assert_eq!(cab, xored);
    }
}

#[test]
fn gf_multiplication_distributes_over_xor() {
    let t = gf_tables();
    for x in [0u8, 1, 2, 87, 200, 255] {
        for y in [0u8, 3, 29, 128, 254] {
            for g in [0u8, 1, 2, 142, 255] {
                assert_eq!(gf_mul(x ^ y, g, &t), gf_mul(x, g, &t) ^ gf_mul(y, g, &t));
            }
        }
    }
    assert_eq!(gf_mul(0x80, 2, &t), 0x1d);
}

#[test]
fn rs_codeword_vanishes_at_generator_roots() {
    let t = gf_tables();
    let data: Vec<u8> = (0..50u32).map(|i| (i * 13 + 7) as u8).collect();
    for nsym in [1usize, 4, 16] {
        let code = encode_systematic(&data, nsym);
        assert_eq!(code.len(), data.len() + nsym);
        for j in 0..nsym {
            let root = t.exp[j];
            let mut acc = 0u8;
            for &c in &code {
                acc = gf_mul(acc, root, &t) ^ c;
            }
            assert_eq!(acc, 0, "nsym {} root {}", nsym, j);
        }
        let mut acc = 0u8;
        for &c in &code {
            acc = gf_mul(acc, t.exp[nsym], &t) ^ c;
        }
        assert_ne!(acc, 0);
    }
}

#[test]
fn bch31_codewords_have_distance_seven() {
    let (n, k) = bch_params(3);
    assert_eq!((n, k), (31, 16));
    for d in 1u32..(1 << 16) {
        let data: Vec<bool> = (0..16).map(|i| (d >> (15 - i)) & 1 == 1).collect();
        let code = bch_encode_word(&data, 3);
        assert!(code.iter().filter(|b| **b).count() >= 7, "data {:#x}", d);
    }
}

#[test]
fn bch31_corrects_three_errors() {
    let data: Vec<bool> = (0..16).map(|i| (0xb5a3u32 >> (15 - i)) & 1 == 1).collect();
    let code = bch_encode_word(&data, 3);
    for (a, b, c) in [(0usize, 1usize, 2usize), (0, 15, 30), (6, 23, 29), (3, 17, 28), (14, 15, 16), (27, 29, 30)] {
        let mut r = code.clone();
        r[a] = !r[a];
        r[b] = !r[b];
        r[c] = !r[c];
        assert_eq!(bch_decode_word(&r, 3), Some(data.clone()));
    }
    for a in 0..31 {
        for b in (a + 1)..31 {
            let mut r = code.clone();
            r[a] = !r[a];
            r[b] = !r[b];
            assert_eq!(bch_decode_word(&r, 3), Some(data.clone()));
        }
    }
}

#[test]
fn bch_t3_stream_corrects_three_flips_per_block() {
    let data = b"credential";
    let coded = encode(data, Profile::Bch { t: 3 });
    let mut bits: Vec<bool> = coded.iter().map(|&b| b != 0).collect();
    assert_eq!(bits.len() % 31, 0);
    for blk in 0..bits.len() / 31 {
        for off in [2usize, 13, 29] {
            let i = blk * 31 + (off + blk) % 31;
            bits[i] = !bits[i];
        }
    }
    let decoded = decode_hard(&bits, Profile::Bch { t: 3 }).unwrap();
    assert_eq!(&decoded[..data.len()], data);
}
