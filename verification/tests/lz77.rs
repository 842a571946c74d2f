use lz77_codec::lz77::{
    longest_common_prefix, longest_match, lz77_decode, lz77_decode_blocks, lz77_encode,
    lz77_encode_to_blocks, pack_blocks, unpack_blocks, Block,
};
use rand::Rng;

#[test]
fn to_blocks_and_back() {
    let mut rng = rand::thread_rng();

    for _ in 0..10 {
        let length: usize = rng.gen_range(1000, 10000);
        let mut bytes = Vec::with_capacity(length);

        for _ in 0..length {
            bytes.push(rng.gen());
        }

        let bytes = bytes;

        let encoded = lz77_encode_to_blocks(&bytes, 12, 4);
        let decoded = lz77_decode_blocks(&encoded).unwrap();

        assert_eq!(bytes, decoded);
    }
}

#[test]
fn encode_and_decode_blocks() {
    let mut blocks_builder = Vec::new();
    for i in 0..10 {
        blocks_builder.push(Block { distance: i, length: i, literal: i as u8 });
    }

    let blocks = blocks_builder;

    let packed = pack_blocks(&blocks, 12, 4).unwrap();
    assert_eq!(blocks.len() * 3, packed.len());

    let unpacked = unpack_blocks(&packed, 12, 4).unwrap();

    assert_eq!(blocks, unpacked);
}

#[test]
fn encode_and_decode() {
    let mut rng = rand::thread_rng();

    for _ in 0..10 {
        let length: usize = rng.gen_range(1000, 10000);
        let mut bytes = Vec::with_capacity(length);

        for _ in 0..length {
            bytes.push(rng.gen());
        }

        let bytes = bytes;

        let encoded = lz77_encode(&bytes, 12, 4);
        let decoded = lz77_decode(&encoded, 12, 4).unwrap();

        assert_eq!(bytes.len(), decoded.len());
        assert_eq!(bytes, decoded);
    }
}

fn block(distance: usize, length: usize, literal: u8) -> Block {
    Block { distance, length, literal }
}

#[test]
fn common_prefix_lengths() {
    assert_eq!(longest_common_prefix(b"", b""), 0);
    assert_eq!(longest_common_prefix(b"abc", b""), 0);
    assert_eq!(longest_common_prefix(b"", b"abc"), 0);
    assert_eq!(longest_common_prefix(b"abc", b"abd"), 2);
    assert_eq!(longest_common_prefix(b"abc", b"abcdef"), 3);
    assert_eq!(longest_common_prefix(b"abcdef", b"abc"), 3);
    assert_eq!(longest_common_prefix(b"xbc", b"abc"), 0);
}

#[test]
fn longest_match_is_zero_without_a_match() {
    assert_eq!(longest_match(b"", b"abc"), (0, 0));
    assert_eq!(longest_match(b"abc", b""), (0, 0));
    assert_eq!(longest_match(b"abc", b"xyz"), (0, 0));
}

#[test]
fn longest_match_takes_the_longest() {
    assert_eq!(longest_match(b"ab_abc_a", b"abcd"), (5, 3));
    assert_eq!(longest_match(b"abc", b"c"), (1, 1));
    // A match does not run past the end of the window.
    assert_eq!(longest_match(b"aaa", b"aaaaaa"), (3, 3));
}

#[test]
fn longest_match_prefers_the_first_of_equals() {
    assert_eq!(longest_match(b"ab_ab_ab", b"abX"), (8, 2));
    assert_eq!(longest_match(b"aaaa", b"a"), (4, 1));
}

#[test]
fn empty_input_has_no_blocks() {
    assert_eq!(lz77_encode_to_blocks(&[], 12, 4), Vec::<Block>::new());
    assert_eq!(lz77_encode(&[], 12, 4), Vec::<u8>::new());
    assert_eq!(lz77_decode_blocks(&[]), Some(Vec::new()));
    assert_eq!(lz77_decode(&[], 12, 4), Some(Vec::new()));
}

#[test]
fn single_byte_is_one_literal() {
    assert_eq!(lz77_encode_to_blocks(&[0x41], 12, 4), vec![block(0, 0, 0x41)]);
    assert_eq!(lz77_encode(&[0x41], 12, 4), vec![0, 0, 0x41]);
    assert_eq!(lz77_decode(&[0, 0, 0x41], 12, 4), Some(vec![0x41]));
}

#[test]
fn encoder_emits_the_greedy_blocks() {
    assert_eq!(
        lz77_encode_to_blocks(b"abcabcabcd", 12, 4),
        vec![
            block(0, 0, b'a'),
            block(0, 0, b'b'),
            block(0, 0, b'c'),
            block(3, 3, b'a'),
            block(6, 2, b'd'),
        ]
    );
}

#[test]
fn encoder_keeps_a_literal_at_the_end() {
    // The match at the end would take the last byte: it is cut by one, and
    // the distance stays as it was found.
    assert_eq!(
        lz77_encode_to_blocks(b"aaaa", 12, 4),
        vec![block(0, 0, b'a'), block(1, 1, b'a'), block(3, 0, b'a')]
    );
    assert_eq!(
        lz77_encode_to_blocks(b"abab", 12, 4),
        vec![block(0, 0, b'a'), block(0, 0, b'b'), block(2, 1, b'b')]
    );
}

#[test]
fn encoder_caps_the_match_length() {
    let input = [7u8; 40];
    let blocks = lz77_encode_to_blocks(&input, 12, 2);
    assert!(blocks.iter().all(|b| b.length <= 3));
    assert_eq!(blocks[0], block(0, 0, 7));
    assert_eq!(blocks[1], block(1, 1, 7));
    assert_eq!(blocks[2], block(3, 3, 7));
    assert_eq!(blocks[3], block(7, 3, 7));
    assert_eq!(lz77_decode_blocks(&blocks), Some(input.to_vec()));
}

#[test]
fn encoder_looks_back_no_further_than_the_window() {
    // With two distance bits the window holds three bytes.
    let blocks = lz77_encode_to_blocks(b"abcdefabcdef", 2, 4);
    assert!(blocks.iter().all(|b| b.distance <= 3));
    assert_eq!(blocks.len(), 12);
    assert_eq!(lz77_decode_blocks(&blocks), Some(b"abcdefabcdef".to_vec()));

    let blocks = lz77_encode_to_blocks(b"abcdefabcdef", 3, 4);
    assert_eq!(blocks.len(), 7);
    assert_eq!(blocks[6], block(6, 5, b'f'));
}

#[test]
fn degenerate_widths_round_trip() {
    let input = b"to be or not to be, that is the question: to be or not".to_vec();
    for (distance_bits, length_bits) in
        [(0usize, 0usize), (0, 4), (4, 0), (1, 1), (3, 2), (12, 4), (16, 8), (64, 64)]
    {
        let blocks = lz77_encode_to_blocks(&input, distance_bits, length_bits);
        assert_eq!(lz77_decode_blocks(&blocks), Some(input.clone()));
        let packed = lz77_encode(&input, distance_bits, length_bits);
        assert_eq!(lz77_decode(&packed, distance_bits, length_bits), Some(input.clone()));
    }
    // Without a window, or without a length, every byte is a literal.
    assert_eq!(lz77_encode_to_blocks(&input, 0, 4).len(), input.len());
    assert_eq!(lz77_encode_to_blocks(&input, 4, 0).len(), input.len());
}

#[test]
fn widths_that_no_machine_word_holds_are_a_whole_window() {
    let input = b"abcabcabcabcabcabcabc".to_vec();
    let blocks = lz77_encode_to_blocks(&input, 200, 300);
    assert_eq!(blocks, lz77_encode_to_blocks(&input, 64, 64));
    assert_eq!(lz77_decode_blocks(&blocks), Some(input.clone()));
    // Such a stream can be written, and not read.
    let packed = lz77_encode(&input, 200, 300);
    assert_eq!(packed.len(), (blocks.len() * 508 + 7) / 8);
    assert_eq!(lz77_decode(&packed, 200, 300), None);
}

#[test]
fn decoder_copies_overlapping_runs() {
    assert_eq!(
        lz77_decode_blocks(&[block(0, 0, b'a'), block(1, 3, b'b')]),
        Some(b"aaaab".to_vec())
    );
    assert_eq!(
        lz77_decode_blocks(&[block(0, 0, b'x'), block(0, 0, b'y'), block(2, 5, b'!')]),
        Some(b"xyxyxyx!".to_vec())
    );
}

#[test]
fn decoder_rejects_a_distance_before_the_start() {
    assert_eq!(lz77_decode_blocks(&[block(1, 1, b'a')]), None);
    assert_eq!(lz77_decode_blocks(&[block(0, 0, b'a'), block(2, 1, b'b')]), None);
    assert_eq!(
        lz77_decode_blocks(&[block(0, 0, b'a'), block(1, 1, b'b'), block(4, 2, b'c')]),
        None
    );
    // A distance is checked even where nothing is copied.
    assert_eq!(lz77_decode_blocks(&[block(1, 0, b'a')]), None);
    // The bound itself is allowed.
    assert_eq!(
        lz77_decode_blocks(&[block(0, 0, b'a'), block(1, 1, b'b'), block(3, 2, b'c')]),
        Some(b"aabaac".to_vec())
    );
}

#[test]
fn decoder_rejects_a_copy_from_distance_zero() {
    assert_eq!(lz77_decode_blocks(&[block(0, 1, b'a')]), None);
    assert_eq!(lz77_decode_blocks(&[block(0, 0, b'a'), block(0, 2, b'b')]), None);
}

#[test]
fn blocks_pack_into_three_fields() {
    assert_eq!(pack_blocks(&[block(0xABC, 0x5, 0x7E)], 12, 4), Some(vec![0xBC, 0x5A, 0x7E]));
    assert_eq!(unpack_blocks(&[0xBC, 0x5A, 0x7E], 12, 4), Some(vec![block(0xABC, 0x5, 0x7E)]));
    // Three bits of distance, two of length, eight of literal: 13 bits.
    assert_eq!(pack_blocks(&[block(5, 2, 0xFF)], 3, 2), Some(vec![0xF5, 0x1F]));
    assert_eq!(unpack_blocks(&[0xF5, 0x1F], 3, 2), Some(vec![block(5, 2, 0xFF)]));
    assert_eq!(pack_blocks(&[], 12, 4), Some(Vec::new()));
}

#[test]
fn pack_blocks_refuses_fields_that_do_not_fit() {
    assert_eq!(pack_blocks(&[block(4095, 15, 0)], 12, 4), Some(vec![0xFF, 0xFF, 0]));
    assert_eq!(pack_blocks(&[block(4096, 0, 0)], 12, 4), None);
    assert_eq!(pack_blocks(&[block(0, 16, 0)], 12, 4), None);
    assert_eq!(pack_blocks(&[block(1, 1, 1), block(1, 16, 1)], 12, 4), None);
    assert_eq!(pack_blocks(&[block(1, 0, 1)], 0, 4), None);
    assert_eq!(pack_blocks(&[block(0, 0, 1)], 0, 0), Some(vec![1]));
}

#[test]
fn unpack_blocks_ignores_what_is_left_over() {
    assert_eq!(unpack_blocks(&[], 12, 4), Some(Vec::new()));
    assert_eq!(unpack_blocks(&[1, 2], 12, 4), Some(Vec::new()));
    assert_eq!(unpack_blocks(&[0xBC, 0x5A, 0x7E, 0xFF, 0xFF], 12, 4), Some(vec![block(
        0xABC, 0x5, 0x7E
    )]));
    // Thirteen bits a block: two bytes hold one, four bytes hold two.
    assert_eq!(unpack_blocks(&[0xF5, 0x1F, 0, 0], 3, 2).map(|blocks| blocks.len()), Some(2));
}

#[test]
fn unpack_blocks_refuses_widths_above_64() {
    let bytes = [0u8; 64];
    assert_eq!(unpack_blocks(&bytes, 65, 4), None);
    assert_eq!(unpack_blocks(&bytes, 4, 65), None);
    assert_eq!(unpack_blocks(&bytes, 64, 64).map(|blocks| blocks.len()), Some(3));
    // Where no block is to be read there is nothing to refuse.
    assert_eq!(unpack_blocks(&[], 65, 4), Some(Vec::new()));
    assert_eq!(unpack_blocks(&bytes, 1000, 4), Some(Vec::new()));
    assert_eq!(unpack_blocks(&bytes, usize::MAX, usize::MAX), Some(Vec::new()));
}

#[test]
fn packed_blocks_round_trip_at_odd_widths() {
    let blocks = vec![block(0, 0, 0), block(31, 7, 255), block(17, 3, 42), block(1, 1, 1)];
    let packed = pack_blocks(&blocks, 5, 3).unwrap();
    assert_eq!(packed.len(), 8);
    assert_eq!(unpack_blocks(&packed, 5, 3).as_ref(), Some(&blocks));

    let packed = pack_blocks(&blocks, 7, 6).unwrap();
    assert_eq!(packed.len(), (4 * 21 + 7) / 8);
    assert_eq!(unpack_blocks(&packed, 7, 6), Some(blocks));
}

#[test]
fn compressed_text_is_shorter_and_comes_back() {
    let mut input = Vec::new();
    for _ in 0..50 {
        input.extend_from_slice(b"the quick brown fox jumps over the lazy dog. ");
    }
    let packed = lz77_encode(&input, 12, 4);
    assert!(packed.len() < input.len() / 2);
    assert_eq!(lz77_decode(&packed, 12, 4), Some(input));
}

#[test]
fn corrupt_stream_is_rejected() {
    // One block that copies from before the start.
    assert_eq!(lz77_decode(&[0x05, 0x10, 0x41], 12, 4), None);
    // A mismatch of the widths goes unnoticed where the references hold.
    let packed = lz77_encode(b"abcdefgh", 12, 4);
    assert!(lz77_decode(&packed, 4, 4).is_some());
}
