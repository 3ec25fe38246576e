use pcazip::conversion::{pack, print_buffer, unpack, MASK, MASK_BITS};
use pcazip::CompressionError;

fn sample_bytes(n: usize) -> Vec<u8> {
    let mut v = Vec::with_capacity(n);
    for i in 0..n {
        v.push(((i * 37 + 11) % 256) as u8);
    }
    v
}

#[test]
fn concrete_end_to_end() {
    // 8 bytes of 0xff are 64 one-bits: one full 53-bit chunk of ones, then
    // the remaining 11 ones padded with 42 zero bits.
    let input = vec![0xffu8; 8];
    let samples = pack(&input, MASK_BITS);
    assert_eq!(samples.len(), 2);
    assert_eq!(samples[0], MASK);
    assert_eq!(samples[0], (1u64 << 53) - 1);
    assert_eq!(samples[1], 0x7ffu64 << 42);
    let as_float = (samples[0] as f64) / ((1u64 << 53) as f64);
    assert_eq!(as_float, 0.9999999999999999f64);
    let back = unpack(&samples, MASK_BITS, 64).unwrap();
    assert_eq!(back, input);
}

#[test]
fn small_width_chunks() {
    // 0b1010_1010 in 3-bit chunks: 101, 010, 10 padded to 100.
    let samples = pack(&[0b1010_1010u8], 3);
    assert_eq!(samples, vec![0b101u64, 0b010u64, 0b100u64]);
    let back = unpack(&samples, 3, 8).unwrap();
    assert_eq!(back, vec![0b1010_1010u8]);
}

#[test]
fn width_64_is_big_endian_u64() {
    let samples = pack(&[1, 2, 3, 4, 5, 6, 7, 8], 64);
    assert_eq!(samples, vec![0x0102030405060708u64]);
}

#[test]
fn round_trip_many_widths_and_lengths() {
    for &width in &[1usize, 2, 3, 5, 7, 8, 13, 31, 52, 53, 61, 64] {
        for &n in &[0usize, 1, 2, 3, 16, 17, 64] {
            let input = sample_bytes(n);
            let samples = pack(&input, width);
            assert_eq!(samples.len(), (8 * n + width - 1) / width);
            let back = unpack(&samples, width, 8 * n).unwrap();
            assert_eq!(back, input, "width {} length {}", width, n);
        }
    }
}

#[test]
fn unpack_rejects_out_of_mask_samples() {
    let r = unpack(&[1u64 << 53], MASK_BITS, 53);
    assert_eq!(r, Err(CompressionError::EncodingError));
    let r = unpack(&[MASK, 1u64 << 60], MASK_BITS, 100);
    assert_eq!(r, Err(CompressionError::EncodingError));
}

#[test]
fn unpack_pads_final_byte_with_zeros() {
    // One 5-bit chunk of ones written as 5 bits: 11111000 in the one byte.
    let out = unpack(&[0b11111u64], 5, 5).unwrap();
    assert_eq!(out, vec![0b1111_1000u8]);
}

#[test]
fn unpack_truncates_to_requested_bits() {
    let samples = pack(&[0xabu8, 0xcdu8], 8);
    let out = unpack(&samples, 8, 8).unwrap();
    assert_eq!(out, vec![0xabu8]);
}

#[test]
fn print_buffer_formats_like_a_hex_dump() {
    assert_eq!(print_buffer(&[]), "\n");
    assert_eq!(print_buffer(&[0xde, 0xad]), "00000000: de ad\n");
    let sixteen: Vec<u8> = (0u8..16).collect();
    assert_eq!(
        print_buffer(&sixteen),
        "00000000: 00 01 02 03 04 05 06 07 08 09 0a 0b 0c 0d 0e 0f\n\n"
    );
    let seventeen: Vec<u8> = (0u8..17).collect();
    assert_eq!(
        print_buffer(&seventeen),
        "00000000: 00 01 02 03 04 05 06 07 08 09 0a 0b 0c 0d 0e 0f\n00000010: 10\n"
    );
}
