use capglyph::interleave::{deinterleave, interleave};

#[test]
fn interleave_roundtrip() {
    let data: Vec<u8> = (0..32).collect();
    for depth in [0u8, 1, 2, 4, 8, 16] {
        let enc = interleave(&data, depth);
        let dec = deinterleave(&enc, depth);
        assert_eq!(dec, data, "depth {}", depth);
    }
}

#[test]
fn interleave_spreads_burst() {
    let data: Vec<u8> = (0..12).collect();
    let enc = interleave(&data, 4);
    assert_eq!(enc, vec![0, 3, 6, 9, 1, 4, 7, 10, 2, 5, 8, 11]);
    let dec = deinterleave(&enc, 4);
    assert_eq!(dec, data);
}

#[test]
fn empty_identity() {
    assert_eq!(interleave(&[], 8), Vec::<u8>::new());
    assert_eq!(deinterleave(&[], 8), Vec::<u8>::new());
}

#[test]
fn interleave_uneven_length_roundtrip() {
    let data: Vec<u8> = (0..13).collect();
    let enc = interleave(&data, 4);
    assert_eq!(enc.len(), 13);
    assert_eq!(deinterleave(&enc, 4), data);
}
