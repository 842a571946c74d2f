use lz77_codec::delta::{from_deltas, le_bytes_to_u64s, to_deltas, u64s_to_le_bytes};

#[test]
fn to_delta_and_back() {
    let input: Vec<u64> = (0..1000).collect();

    let deltas = to_deltas(&input);

    let back = from_deltas(&deltas);

    assert_eq!(input, back);
}

#[test]
fn to_bytes_and_back() {
    let input: Vec<u64> = (0..1000).collect();

    let bytes = u64s_to_le_bytes(&input);

    let back = le_bytes_to_u64s(&bytes);

    assert_eq!(input, back);
}

#[test]
fn deltas_of_nothing_are_nothing() {
    assert_eq!(to_deltas(&[]), Vec::<u64>::new());
    assert_eq!(from_deltas(&[]), Vec::<u64>::new());
    assert_eq!(le_bytes_to_u64s(&[]), Vec::<u64>::new());
    assert_eq!(u64s_to_le_bytes(&[]), Vec::<u8>::new());
}

#[test]
fn deltas_keep_the_first_value() {
    assert_eq!(to_deltas(&[42]), vec![42]);
    assert_eq!(from_deltas(&[42]), vec![42]);
    assert_eq!(to_deltas(&[10, 13, 20, 20]), vec![10, 3, 7, 0]);
    assert_eq!(from_deltas(&[10, 3, 7, 0]), vec![10, 13, 20, 20]);
}

#[test]
fn deltas_wrap_around() {
    assert_eq!(to_deltas(&[5, 3, 10]), vec![5, u64::MAX - 1, 7]);
    assert_eq!(from_deltas(&[5, u64::MAX - 1, 7]), vec![5, 3, 10]);
    assert_eq!(to_deltas(&[0, u64::MAX, 0]), vec![0, u64::MAX, 1]);
    assert_eq!(from_deltas(&[u64::MAX, 1, u64::MAX]), vec![u64::MAX, 0, u64::MAX]);
}

#[test]
fn delta_round_trip_on_unordered_values() {
    let input: Vec<u64> = vec![u64::MAX, 0, 1 << 63, 7, 7, u64::MAX - 1, 12345678901234567890];
    assert_eq!(from_deltas(&to_deltas(&input)), input);
    assert_eq!(to_deltas(&from_deltas(&input)), input);
}

#[test]
fn bytes_are_little_endian() {
    assert_eq!(le_bytes_to_u64s(&[1, 2, 3, 4, 5, 6, 7, 8]), vec![0x0807_0605_0403_0201]);
    assert_eq!(u64s_to_le_bytes(&[0x0807_0605_0403_0201]), vec![1, 2, 3, 4, 5, 6, 7, 8]);
    assert_eq!(u64s_to_le_bytes(&[1, u64::MAX]), vec![
        1, 0, 0, 0, 0, 0, 0, 0, 255, 255, 255, 255, 255, 255, 255, 255
    ]);
    assert_eq!(le_bytes_to_u64s(&[255; 8]), vec![u64::MAX]);
}

#[test]
fn a_partial_group_is_zero_padded() {
    assert_eq!(le_bytes_to_u64s(&[1]), vec![1]);
    assert_eq!(le_bytes_to_u64s(&[1, 2]), vec![0x0201]);
    assert_eq!(le_bytes_to_u64s(&[0, 0, 0, 0, 0, 0, 9]), vec![9 << 48]);
    assert_eq!(le_bytes_to_u64s(&[1, 0, 0, 0, 0, 0, 0, 0, 2]), vec![1, 2]);
    // The padding does not go away on the way back.
    assert_eq!(u64s_to_le_bytes(&le_bytes_to_u64s(&[7, 8, 9])), vec![7, 8, 9, 0, 0, 0, 0, 0]);
}

#[test]
fn whole_groups_of_bytes_round_trip() {
    let bytes: Vec<u8> = (0..=255u8).collect();
    assert_eq!(u64s_to_le_bytes(&le_bytes_to_u64s(&bytes)), bytes);
    assert_eq!(le_bytes_to_u64s(&bytes).len(), 32);
}
