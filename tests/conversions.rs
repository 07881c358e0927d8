use as_with_bytes::{AsBytes, TryWithBytes, WithBytes};

#[test]
fn information_preserved() {
    assert_eq!(<[i32; 2]>::with_bytes(&[10, -11].as_bytes()), [10, -11]);
}

#[test]
fn try_with_bytes_works() {
    assert_eq!(u64::try_with_bytes(&[0; 8]), Some(0));
    assert_eq!(u64::try_with_bytes(&[0; 7]), None);
}

#[test]
fn unsized_slices_work() {
    let arr = [0u8; 7];

    assert_eq!(<Vec<u16>>::with_bytes(&arr), vec![0; 3]);
}

#[test]
fn zero_size_type_slices_work() {
    let byte: u8 = 0;

    assert_eq!(<Vec<()>>::try_with_bytes(&byte.as_bytes()), None);
}

#[test]
fn round_trip_of_each_integer_type() {
    assert_eq!(u8::with_bytes(&200u8.as_bytes()), 200);
    assert_eq!(u16::with_bytes(&0xbeefu16.as_bytes()), 0xbeef);
    assert_eq!(u32::with_bytes(&0xdead_beefu32.as_bytes()), 0xdead_beef);
    assert_eq!(u64::with_bytes(&u64::MAX.as_bytes()), u64::MAX);
    assert_eq!(i8::with_bytes(&(-128i8).as_bytes()), -128);
    assert_eq!(i16::with_bytes(&(-2i16).as_bytes()), -2);
    assert_eq!(i32::with_bytes(&i32::MIN.as_bytes()), i32::MIN);
    assert_eq!(i64::with_bytes(&(-1i64).as_bytes()), -1);
    assert_eq!(i64::with_bytes(&i64::MIN.as_bytes()), i64::MIN);
}

#[test]
fn integers_match_native_bytes() {
    assert_eq!(0x0102_0304u32.as_bytes(), 0x0102_0304u32.to_ne_bytes().to_vec());
    assert_eq!((-11i32).as_bytes(), (-11i32).to_ne_bytes().to_vec());
    assert_eq!(i64::MIN.as_bytes(), i64::MIN.to_ne_bytes().to_vec());
    assert_eq!(0xa1b2u16.as_bytes(), vec![0xb2, 0xa1]);
}

#[test]
fn value_read_from_bytes() {
    assert_eq!(u32::with_bytes(&[0x78, 0x56, 0x34, 0x12]), 0x1234_5678);
    assert_eq!(i16::with_bytes(&[0xff, 0xff]), -1);
    assert_eq!(i8::with_bytes(&[0x80]), -128);
}

#[test]
fn extra_bytes_after_value_are_ignored() {
    assert_eq!(u16::with_bytes(&[1, 0, 9, 9]), 1);
    assert_eq!(u16::try_with_bytes(&[1, 0, 9]), Some(1));
}

#[test]
fn checked_read_agrees_with_unchecked() {
    let bytes = [1, 2, 3, 4, 5, 6, 7, 8];
    assert_eq!(u64::try_with_bytes(&bytes), Some(u64::with_bytes(&bytes)));
    assert_eq!(u64::try_with_bytes(&bytes), Some(0x0807_0605_0403_0201));
    assert_eq!(u64::try_with_bytes(&bytes[..7]), None);
}

#[test]
fn checked_read_of_zero_width_value_is_absent() {
    assert_eq!(<()>::try_with_bytes(&[]), None);
    assert_eq!(<()>::try_with_bytes(&[1, 2, 3]), None);
    assert_eq!(<[u32; 0]>::try_with_bytes(&[1, 2, 3, 4]), None);
}

#[test]
fn unchecked_read_of_zero_width_value() {
    assert_eq!(<()>::with_bytes(&[]), ());
    assert_eq!(().as_bytes(), Vec::<u8>::new());
}

#[test]
fn sequence_truncates_partial_element() {
    let bytes = [1, 0, 2, 0, 3, 0, 4];
    assert_eq!(<Vec<u16>>::with_bytes(&bytes), vec![1, 2, 3]);
    assert_eq!(<Vec<u16>>::try_with_bytes(&bytes), Some(vec![1, 2, 3]));
}

#[test]
fn sequence_of_short_buffer_is_empty() {
    assert_eq!(<Vec<u64>>::with_bytes(&[1, 2, 3]), Vec::<u64>::new());
    assert_eq!(<Vec<u64>>::try_with_bytes(&[]), Some(Vec::new()));
}

#[test]
fn zero_width_sequence_is_absent_for_every_length() {
    assert_eq!(<Vec<()>>::try_with_bytes(&[]), None);
    assert_eq!(<Vec<()>>::try_with_bytes(&[0; 5]), None);
    assert_eq!(<Vec<[u8; 0]>>::try_with_bytes(&[0; 2]), None);
}

#[test]
fn sequence_as_bytes_concatenates_items() {
    let items: Vec<u16> = vec![0x0102, 0x0304];
    assert_eq!(items.as_bytes(), vec![0x02, 0x01, 0x04, 0x03]);
    let empty: Vec<u32> = Vec::new();
    assert_eq!(empty.as_bytes(), Vec::<u8>::new());
}

#[test]
fn sequence_round_trip() {
    let items: Vec<i32> = vec![10, -11, i32::MAX, 0];
    assert_eq!(<Vec<i32>>::with_bytes(&items.as_bytes()), items);
}

#[test]
fn array_symmetry() {
    let arr: [i32; 2] = [10, -11];
    let bytes = arr.as_bytes();
    assert_eq!(bytes.len(), 8);
    assert_eq!(bytes, arr[..].as_bytes());
    assert_eq!(<[i32; 2]>::with_bytes(&bytes), [10, -11]);
    assert_eq!(<Vec<i32>>::with_bytes(&bytes), vec![10, -11]);
}

#[test]
fn nested_arrays() {
    let grid: [[u16; 2]; 3] = [[1, 2], [3, 4], [5, 0xffff]];
    let bytes = grid.as_bytes();
    assert_eq!(bytes, vec![1, 0, 2, 0, 3, 0, 4, 0, 5, 0, 0xff, 0xff]);
    assert_eq!(<[[u16; 2]; 3]>::with_bytes(&bytes), grid);
    assert_eq!(<[[u16; 2]; 3]>::try_with_bytes(&bytes[..11]), None);
}
