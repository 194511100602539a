use parquet_levels::hybrid_rle::{encode_bool, encode_u32};

fn read_uleb(bytes: &[u8], pos: &mut usize) -> u64 {
    let mut value = 0u64;
    let mut shift = 0;
    loop {
        let b = bytes[*pos];
        *pos += 1;
        value |= ((b & 0x7f) as u64) << shift;
        if b & 0x80 == 0 {
            return value;
        }
        shift += 7;
    }
}

/// Reads a hybrid-encoded stream back, padding included.
fn decode(bytes: &[u8], num_bits: usize) -> Vec<u32> {
    let mut out = Vec::new();
    let mut pos = 0;
    while pos < bytes.len() {
        let header = read_uleb(bytes, &mut pos);
        if header & 1 == 0 {
            let count = (header >> 1) as usize;
            let width = (num_bits + 7) / 8;
            let mut value = 0u32;
            for i in 0..width {
                value |= (bytes[pos + i] as u32) << (8 * i);
            }
            pos += width;
            out.extend(std::iter::repeat(value).take(count));
        } else {
            let groups = (header >> 1) as usize;
            let start = pos * 8;
            for i in 0..groups * 8 {
                let mut value = 0u32;
                for bit in 0..num_bits {
                    let at = start + i * num_bits + bit;
                    if (bytes[at / 8] >> (at % 8)) & 1 == 1 {
                        value |= 1 << bit;
                    }
                }
                out.push(value);
            }
            pos += groups * num_bits;
        }
    }
    out
}

fn check(values: &[u32], num_bits: u32) {
    let mut bytes = vec![];
    encode_u32(&mut bytes, values, num_bits);
    let decoded = decode(&bytes, num_bits as usize);
    assert!(decoded.len() >= values.len() && decoded.len() < values.len() + 8);
    assert_eq!(&decoded[..values.len()], values);
    assert!(decoded[values.len()..].iter().all(|v| *v == 0));
}

#[test]
fn round_trip_all_equal() {
    for n in [1usize, 7, 8, 9, 15, 16, 17, 100, 9000] {
        check(&vec![3u32; n], 2);
    }
}

#[test]
fn round_trip_alternating_runs() {
    let mut values = vec![];
    for i in 0..200u32 {
        let len = (i % 13) as usize + 1;
        values.extend(std::iter::repeat(i % 5).take(len));
    }
    for bits in [3u32, 4, 9, 32] {
        check(&values, bits);
    }
}

#[test]
fn round_trip_lengths_not_multiple_of_eight() {
    for n in 0..40u32 {
        let values: Vec<u32> = (0..n).map(|x| (x * 7 + 1) % 6).collect();
        check(&values, 3);
    }
}

#[test]
fn round_trip_past_the_literal_buffer() {
    // more literal values than one bit-packed run may hold, then a long run
    // that straddles the buffer's end
    let mut values: Vec<u32> = (0..8190u32).map(|x| x % 3).collect();
    values.extend(std::iter::repeat(2u32).take(30));
    values.extend((0..20000u32).map(|x| (x * x) % 7));
    check(&values, 3);
}

#[test]
fn round_trip_every_bit_width() {
    for bits in 0..=32u32 {
        let mask: u64 = (1u64 << bits) - 1;
        let values: Vec<u32> = (0..300u64)
            .map(|x| ((x.wrapping_mul(0x9E37_79B9) >> 3) & mask) as u32)
            .collect();
        check(&values, bits);
    }
}

#[test]
fn round_trip_bools() {
    let values: Vec<bool> = (0..500).map(|x| (x / 11) % 3 == 0 || x % 7 == 0).collect();
    let mut bytes = vec![];
    encode_bool(&mut bytes, &values);
    let decoded = decode(&bytes, 1);
    let expected: Vec<u32> = values.iter().map(|b| *b as u32).collect();
    assert_eq!(&decoded[..values.len()], &expected[..]);
}
