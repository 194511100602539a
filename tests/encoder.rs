use parquet_levels::hybrid_rle::{encode_bool, encode_u32};

fn bits_of(bytes: &[u8], length: usize) -> Vec<bool> {
    (0..length).map(|i| (bytes[i / 8] >> (i % 8)) & 1 == 1).collect()
}

#[test]
fn bool_basics_1() {
    let iter = bits_of(&[0b10011101u8, 0b10011101], 14);

    let mut vec = vec![];

    encode_bool(&mut vec, &iter);

    assert_eq!(vec, vec![(2 << 1 | 1), 0b10011101u8, 0b00011101]);
}

#[test]
fn bool_from_iter() {
    let mut vec = vec![];

    encode_bool(&mut vec, &[true, true, true, true, true, true, true, true]);

    assert_eq!(vec, vec![(1 << 1 | 1), 0b11111111]);
}

#[test]
fn test_encode_u32() {
    let mut vec = vec![];

    encode_u32(&mut vec, &[0, 1, 2, 1, 2, 1, 1, 0, 3], 2);

    assert_eq!(
        vec,
        vec![
            (2 << 1 | 1),
            0b01_10_01_00,
            0b00_01_01_10,
            0b_00_00_00_11,
            0b0
        ]
    );
}

#[test]
fn test_encode_u32_large() {
    let mut vec = vec![];

    let values: Vec<u32> = (0..128).map(|x| x % 4).collect();

    encode_u32(&mut vec, &values, 2);

    let length = 128;
    let expected = 0b11_10_01_00u8;

    let mut expected = vec![expected; length / 4];
    expected.insert(0, ((length / 8) as u8) << 1 | 1);

    assert_eq!(vec, expected);
}

#[test]
fn test_u32_other() {
    let values = vec![3, 3, 0, 3, 2, 3, 3, 3, 3, 1, 3, 3, 3, 0, 3];

    let mut vec = vec![];
    encode_u32(&mut vec, &values, 2);

    let expected = vec![5, 207, 254, 247, 51];
    assert_eq!(expected, vec);
}

#[test]
fn repeated_run_of_twenty() {
    let mut vec = vec![];
    encode_u32(&mut vec, &[5; 20], 3);
    // header 20 << 1, then the value in one byte
    assert_eq!(vec, vec![40, 5]);
}

#[test]
fn repeated_run_value_width_two_bytes() {
    let mut vec = vec![];
    encode_u32(&mut vec, &[0x1234; 10], 13);
    assert_eq!(vec, vec![20, 0x34, 0x12]);
}

#[test]
fn sixteen_trues_are_one_repeated_run() {
    let mut vec = vec![];
    encode_bool(&mut vec, &[true; 16]);
    assert_eq!(vec, vec![32, 1]);
}

#[test]
fn literal_padded_before_repeated_run() {
    // three literals, then twelve equal values: five of them are borrowed so
    // that the literal group holds eight values, the other seven are too few
    // for a repeated run and join the literal part.
    let mut values = vec![1u32, 2, 3];
    values.extend(std::iter::repeat(0u32).take(12));
    let mut vec = vec![];
    encode_u32(&mut vec, &values, 2);
    assert_eq!(vec, vec![(2 << 1) | 1, 0b00_11_10_01, 0, 0, 0]);
}

#[test]
fn literal_then_long_run() {
    // one literal, then twenty equal values: seven are borrowed to fill the
    // group of eight, thirteen remain as a repeated run.
    let mut values = vec![1u32];
    values.extend(std::iter::repeat(2u32).take(20));
    let mut vec = vec![];
    encode_u32(&mut vec, &values, 2);
    assert_eq!(vec, vec![(1 << 1) | 1, 0b10_10_10_01, 0b10_10_10_10, 13 << 1, 2]);
}

#[test]
fn empty_input_writes_nothing() {
    let mut vec = vec![7u8];
    encode_u32(&mut vec, &[], 4);
    assert_eq!(vec, vec![7u8]);
}

#[test]
fn zero_bit_width_values() {
    let mut vec = vec![];
    encode_u32(&mut vec, &[0; 5], 0);
    // five values fit no repeated run: one bit-packed group of width zero
    assert_eq!(vec, vec![(1 << 1) | 1]);
}
