use pcazip::compression::{compressed_byte_count, plan_compression, sample_count, CompressionPlan};
use pcazip::conversion::{pack, unpack, MASK_BITS};
use pcazip::CompressionError;

#[test]
fn sample_count_rounds_the_bit_stream_up() {
    assert_eq!(sample_count(0, MASK_BITS), 0);
    assert_eq!(sample_count(1, MASK_BITS), 1);
    assert_eq!(sample_count(8, MASK_BITS), 2);
    assert_eq!(sample_count(53, 8), 53);
    assert_eq!(sample_count(657, MASK_BITS), 100);
}

#[test]
fn compressed_byte_count_rounds_the_sample_stream_up() {
    assert_eq!(compressed_byte_count(0, MASK_BITS), 0);
    assert_eq!(compressed_byte_count(1, MASK_BITS), 7);
    assert_eq!(compressed_byte_count(2, MASK_BITS), 14);
    assert_eq!(compressed_byte_count(3, 8), 3);
}

#[test]
fn sample_count_matches_pack() {
    for &n in &[0usize, 1, 7, 8, 53, 100] {
        let bytes = vec![0x5au8; n];
        assert_eq!(pack(&bytes, MASK_BITS).len(), sample_count(n, MASK_BITS));
    }
}

#[test]
fn plan_shapes_the_sample_matrix() {
    // 657 bytes pack into 100 samples of 53 bits; 100 reshapes to 10 x 10.
    assert_eq!(
        plan_compression(657, MASK_BITS),
        Ok(CompressionPlan { n_samples: 100, rows: 10, cols: 10, n_components: 10 })
    );
}

#[test]
fn plan_rejects_a_prime_sample_count() {
    // 8 bytes pack into 2 samples, too few to shape.
    assert_eq!(
        plan_compression(8, MASK_BITS),
        Err(CompressionError::NonDivisibleLength)
    );
    // 90 bytes pack into ceil(720 / 53) = 14 = 2 * 7 samples: fine.
    assert_eq!(
        plan_compression(90, MASK_BITS),
        Ok(CompressionPlan { n_samples: 14, rows: 2, cols: 7, n_components: 2 })
    );
    // 86 bytes pack into ceil(688 / 53) = 13 samples, a prime.
    assert_eq!(
        plan_compression(86, MASK_BITS),
        Err(CompressionError::NonDivisibleLength)
    );
}

#[test]
fn truncated_projection_writes_the_planned_byte_count() {
    // A run that keeps 3 of 10 rows of the plan writes 30 samples back.
    let plan = plan_compression(657, MASK_BITS).unwrap();
    let kept = 3usize;
    let n_values = plan.rows * kept;
    let samples = vec![0u64; n_values];
    let n_bits = n_values * MASK_BITS;
    let out = unpack(&samples, MASK_BITS, n_bits).unwrap();
    assert_eq!(out.len(), compressed_byte_count(n_values, MASK_BITS));
}
