use lz77_codec::lz77::lz77_encode;
use lz77_codec::pipeline::{compress, decompress, DISTANCE_BITS, LENGTH_BITS};

#[test]
fn fixed_widths() {
    assert_eq!(DISTANCE_BITS, 12);
    assert_eq!(LENGTH_BITS, 4);
    assert_eq!(compress(b"hello hello hello", false), lz77_encode(b"hello hello hello", 12, 4));
}

#[test]
fn plain_round_trip() {
    let inputs: [&[u8]; 5] = [b"", b"a", b"ab", b"aaaaaaaaaaaaaaaaaaaaaaaaaaaaaaaaaaaa", b"abcabcabcabcx"];
    for input in inputs.iter() {
        let packed = compress(input, false);
        assert_eq!(decompress(&packed, false), Some(input.to_vec()));
    }
}

#[test]
fn delta_round_trip_of_whole_integers() {
    let mut input = Vec::new();
    for i in 0..500u64 {
        input.extend_from_slice(&(1_000_000 + 3 * i).to_le_bytes());
    }
    let with_delta = compress(&input, true);
    let without = compress(&input, false);
    assert!(with_delta.len() < without.len());
    assert_eq!(decompress(&with_delta, true), Some(input.clone()));
    assert_eq!(decompress(&without, false), Some(input));
}

#[test]
fn delta_pads_a_partial_integer() {
    let input = [1u8, 2, 3, 4, 5, 6, 7, 8, 9, 10];
    let packed = compress(&input, true);
    assert_eq!(
        decompress(&packed, true),
        Some(vec![1, 2, 3, 4, 5, 6, 7, 8, 9, 10, 0, 0, 0, 0, 0, 0])
    );
}

#[test]
fn delta_filter_stores_differences() {
    let mut input = Vec::new();
    for value in [10u64, 13, 20].iter() {
        input.extend_from_slice(&value.to_le_bytes());
    }
    let mut differences = Vec::new();
    for value in [10u64, 3, 7].iter() {
        differences.extend_from_slice(&value.to_le_bytes());
    }
    assert_eq!(compress(&input, true), compress(&differences, false));
    assert_eq!(decompress(&compress(&differences, false), true), Some(input));
}

#[test]
fn corrupt_input_is_reported() {
    assert_eq!(decompress(&[0x05, 0x10, 0x41], false), None);
    assert_eq!(decompress(&[0x05, 0x10, 0x41], true), None);
    assert_eq!(decompress(&[], false), Some(Vec::new()));
    assert_eq!(decompress(&[], true), Some(Vec::new()));
}
