use parquet_levels::bitpacked::{pack16, pack32, pack64, pack8, unpack16, unpack32, unpack64, unpack8};

#[test]
fn test_basic() {
    let input = [0u16, 1, 2, 3, 4, 5, 6, 7, 8, 9, 10, 11, 12, 13, 14, 15];
    for num_bits in 4..16 {
        let mut output = [0u8; 16 * 2];
        pack16(&input, &mut output, num_bits);
        let mut other = [0u16; 16];
        unpack16(&output, &mut other, num_bits);
        assert_eq!(other, input);
    }
}

#[test]
fn test_u32() {
    let input = [
        0u32, 1, 2, 3, 4, 5, 6, 7, 8, 9, 10, 11, 12, 13, 14, 15, 0u32, 1, 2, 3, 4, 5, 6, 7, 8,
        9, 10, 11, 12, 13, 14, 15,
    ];
    for num_bits in 4..32 {
        let mut output = [0u8; 32 * 4];
        pack32(&input, &mut output, num_bits);
        let mut other = [0u32; 32];
        unpack32(&output, &mut other, num_bits);
        assert_eq!(other, input);
    }
}

#[test]
fn pack8_three_bits_exact_bytes() {
    // lanes 0..8 at 3 bits: 0b000, 0b001, ..., 0b111 laid out from the
    // least significant bit.
    let input = [0u8, 1, 2, 3, 4, 5, 6, 7];
    let mut output = [0xAAu8; 4];
    pack8(&input, &mut output, 3);
    assert_eq!(output, [0b1000_1000, 0b1100_0110, 0b1111_1010, 0xAA]);
}

#[test]
fn pack_zero_bits_zeroes_output() {
    let input = [0u8; 8];
    let mut output = [0xFFu8; 5];
    pack8(&input, &mut output, 0);
    assert_eq!(output, [0u8; 5]);
    let mut other = [9u8; 8];
    unpack8(&output, &mut other, 0);
    assert_eq!(other, [0u8; 8]);
}

#[test]
fn round_trip_every_width_u8() {
    for num_bits in 0..=8usize {
        let mask: u16 = (1u16 << num_bits) - 1;
        let mut input = [0u8; 8];
        for (i, x) in input.iter_mut().enumerate() {
            *x = ((i as u16 * 37 + 11) & mask) as u8;
        }
        let mut packed = [0u8; 8];
        pack8(&input, &mut packed, num_bits);
        let mut other = [0u8; 8];
        unpack8(&packed, &mut other, num_bits);
        assert_eq!(other, input);
    }
}

#[test]
fn round_trip_every_width_u64() {
    for num_bits in 0..=64usize {
        let mask: u128 = (1u128 << num_bits) - 1;
        let mut input = [0u64; 64];
        for (i, x) in input.iter_mut().enumerate() {
            *x = ((i as u128).wrapping_mul(0x9E37_79B9_7F4A_7C15) & mask) as u64;
        }
        let mut packed = [0u8; 64 * 8];
        pack64(&input, &mut packed, num_bits);
        let mut other = [0u64; 64];
        unpack64(&packed, &mut other, num_bits);
        assert_eq!(other, input);
        // and the bytes come back from the unpacked lanes
        let mut again = [0u8; 64 * 8];
        pack64(&other, &mut again, num_bits);
        assert_eq!(&again[..num_bits * 8], &packed[..num_bits * 8]);
    }
}

#[test]
fn pack_unpack_bytes_round_trip_u32() {
    let bytes: Vec<u8> = (0..(4 * 7)).map(|i| (i * 53 + 7) as u8).collect();
    let mut lanes = [0u32; 32];
    unpack32(&bytes, &mut lanes, 7);
    let mut packed = [0u8; 4 * 7];
    pack32(&lanes, &mut packed, 7);
    assert_eq!(packed.to_vec(), bytes);
}
