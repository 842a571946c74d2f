use lz77_codec::bit_packer::{BitPacker, BitUnpacker};

#[test]
fn pack_whole_bytes() {
    let mut packer = BitPacker::new();

    let numbers: [u8; 4] = [1, 2, 3, 4];

    for number in numbers.iter() {
        let success = packer.pack(*number as u64, 8);
        assert!(success.is_some());
    }

    let result = packer.get_bytes();
    assert_eq!(&numbers, &result[..]);
}

#[test]
fn pack_half_bytes() {
    let mut packer = BitPacker::new();

    let numbers: [u8; 4] = [1, 2, 3, 4];

    for number in numbers.iter() {
        let success = packer.pack(*number as u64, 4);
        assert!(success.is_some())
    }

    let expected = [33, 67];
    let result = packer.get_bytes();
    assert_eq!(expected, &result[..]);
}

#[test]
fn unpack_whole_bytes() {
    let numbers: [u8; 4] = [1, 2, 3, 4];
    let mut unpacker = BitUnpacker::new(&numbers);

    for number in numbers.iter() {
        let result = unpacker.unpack(8).unwrap() as u8;
        assert_eq!(*number, result);
    }
}

#[test]
fn unpack_half_bytes() {
    let packed = [33, 67];
    let mut unpacker = BitUnpacker::new(&packed);

    let expected: [u8; 4] = [1, 2, 3, 4];

    let mut result = Vec::new();
    for _ in expected.iter() {
        result.push(unpacker.unpack(4).unwrap() as u8);
    }

    assert_eq!(expected, &result[..]);
}

#[test]
fn pack_and_unpack() {
    let numbers: Vec<u64> = (500..1000).collect();
    for bit_width in 10..64 {
        let mut packer = BitPacker::new();

        for number in &numbers {
            let success = packer.pack(*number, bit_width);
            assert!(success.is_some());
        }

        let packed = packer.get_bytes();

        let mut unpacker = BitUnpacker::new(&packed);

        for number in &numbers {
            let result = unpacker.unpack(bit_width).unwrap();
            assert_eq!(*number, result);
        }
    }
}

#[test]
fn empty_packer_gives_no_bytes() {
    let packer = BitPacker::new();
    assert_eq!(packer.get_bytes(), Vec::<u8>::new());
}

#[test]
fn partial_byte_is_zero_padded() {
    let mut packer = BitPacker::new();
    assert!(packer.pack(0b101, 3).is_some());
    assert_eq!(packer.get_bytes(), vec![0b0000_0101]);
}

#[test]
fn fields_cross_byte_boundaries() {
    let mut packer = BitPacker::new();
    assert!(packer.pack(0xABC, 12).is_some());
    assert!(packer.pack(0x5, 4).is_some());
    assert!(packer.pack(0x7E, 8).is_some());
    assert_eq!(packer.get_bytes(), vec![0xBC, 0x5A, 0x7E]);
}

#[test]
fn pack_refuses_a_value_that_is_too_wide() {
    let mut packer = BitPacker::new();
    assert!(packer.pack(3, 2).is_some());
    assert!(packer.pack(4, 2).is_none());
    assert!(packer.pack(256, 8).is_none());
    assert!(packer.pack(1, 0).is_none());
    // The refused values left no trace.
    assert!(packer.pack(1, 2).is_some());
    assert_eq!(packer.get_bytes(), vec![0b0111]);
}

#[test]
fn pack_accepts_the_largest_value_of_each_width() {
    for bit_width in 1..=64usize {
        let largest = if bit_width == 64 { u64::MAX } else { (1u64 << bit_width) - 1 };
        let mut packer = BitPacker::new();
        assert!(packer.pack(largest, bit_width).is_some());
        if bit_width < 64 {
            assert!(packer.pack(largest + 1, bit_width).is_none());
        }
        let packed = packer.get_bytes();
        assert_eq!(packed.len(), (bit_width + 7) / 8);
        let mut unpacker = BitUnpacker::new(&packed);
        assert_eq!(unpacker.unpack(bit_width), Some(largest));
    }
}

#[test]
fn wide_values_survive_an_odd_bit_offset() {
    for offset in 1..8usize {
        let mut packer = BitPacker::new();
        assert!(packer.pack(1, offset).is_some());
        assert!(packer.pack(u64::MAX, 64).is_some());
        assert!(packer.pack(0x8000_0000_0000_0001, 64).is_some());
        let packed = packer.get_bytes();

        let mut unpacker = BitUnpacker::new(&packed);
        assert_eq!(unpacker.unpack(offset), Some(1));
        assert_eq!(unpacker.unpack(64), Some(u64::MAX));
        assert_eq!(unpacker.unpack(64), Some(0x8000_0000_0000_0001));
    }
}

#[test]
fn zero_width_writes_and_reads_nothing() {
    let mut packer = BitPacker::new();
    assert!(packer.pack(0, 0).is_some());
    assert!(packer.pack(0xFF, 8).is_some());
    assert!(packer.pack(0, 0).is_some());
    let packed = packer.get_bytes();
    assert_eq!(packed, vec![0xFF]);

    let mut unpacker = BitUnpacker::new(&packed);
    assert_eq!(unpacker.unpack(0), Some(0));
    assert_eq!(unpacker.unpack(8), Some(0xFF));
    assert_eq!(unpacker.unpack(0), Some(0));
}

#[test]
fn widths_above_64_pad_with_zero_bits() {
    let mut packer = BitPacker::new();
    assert!(packer.pack(5, 70).is_some());
    assert!(packer.pack(3, 2).is_some());
    assert_eq!(packer.get_bytes(), vec![5, 0, 0, 0, 0, 0, 0, 0, 0b1100_0000]);
}

#[test]
fn unpack_refuses_widths_above_64() {
    let data = [0xFFu8; 16];
    let mut unpacker = BitUnpacker::new(&data);
    assert_eq!(unpacker.unpack(65), None);
    // The cursor did not move.
    assert_eq!(unpacker.unpack(64), Some(u64::MAX));
    assert_eq!(unpacker.unpack(usize::MAX), None);
    assert_eq!(unpacker.unpack(64), Some(u64::MAX));
    assert_eq!(unpacker.unpack(1), None);
}

#[test]
fn unpack_fails_on_a_truncated_stream() {
    let data = [0x12u8, 0x34];
    let mut unpacker = BitUnpacker::new(&data);
    assert_eq!(unpacker.unpack(12), Some(0x412));
    assert_eq!(unpacker.unpack(5), None);
    // A failed read consumes what was left of the stream.
    assert_eq!(unpacker.unpack(1), None);
    assert_eq!(unpacker.unpack(0), Some(0));

    let mut empty = BitUnpacker::new(&[]);
    assert_eq!(empty.unpack(1), None);
}

#[test]
fn unpack_reads_least_significant_bit_first() {
    let data = [0b1010_0110u8];
    let mut unpacker = BitUnpacker::new(&data);
    assert_eq!(unpacker.unpack(1), Some(0));
    assert_eq!(unpacker.unpack(2), Some(0b11));
    assert_eq!(unpacker.unpack(3), Some(0b100));
    assert_eq!(unpacker.unpack(2), Some(0b10));
}

#[test]
fn mixed_widths_round_trip() {
    let fields: [(u64, usize); 7] =
        [(1, 1), (0x3FF, 10), (0, 3), (0xDEAD_BEEF, 32), (0x1F, 5), (u64::MAX, 64), (2, 2)];
    let mut packer = BitPacker::new();
    for (value, width) in fields.iter() {
        assert!(packer.pack(*value, *width).is_some());
    }
    let packed = packer.get_bytes();
    assert_eq!(packed.len(), (1 + 10 + 3 + 32 + 5 + 64 + 2 + 7) / 8);

    let mut unpacker = BitUnpacker::new(&packed);
    for (value, width) in fields.iter() {
        assert_eq!(unpacker.unpack(*width), Some(*value));
    }
}
