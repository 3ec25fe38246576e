use pcazip::partition::{divisors, linearize, reshape, split_into_chunks};
use pcazip::CompressionError;

#[test]
fn divisors_lists_divisors_up_to_root() {
    assert_eq!(divisors(100), vec![2, 4, 5, 10]);
    assert_eq!(divisors(97), Vec::<usize>::new());
    assert_eq!(divisors(12), vec![2, 3, 4]);
    assert_eq!(divisors(4), vec![2]);
    assert_eq!(divisors(2), vec![2]);
    assert_eq!(divisors(1), Vec::<usize>::new());
    assert_eq!(divisors(0), Vec::<usize>::new());
}

#[test]
fn reshape_rejects_prime_lengths() {
    assert_eq!(reshape(97), Err(CompressionError::NonDivisibleLength));
    assert_eq!(reshape(13), Err(CompressionError::NonDivisibleLength));
    assert_eq!(reshape(2), Err(CompressionError::NonDivisibleLength));
    assert_eq!(reshape(3), Err(CompressionError::NonDivisibleLength));
    assert_eq!(reshape(1), Err(CompressionError::NonDivisibleLength));
    assert_eq!(reshape(0), Err(CompressionError::NonDivisibleLength));
}

#[test]
fn reshape_picks_the_largest_near_square_divisor() {
    assert_eq!(reshape(100), Ok((10, 10)));
    assert_eq!(reshape(4), Ok((2, 2)));
    assert_eq!(reshape(6), Ok((3, 2)));
    assert_eq!(reshape(12), Ok((4, 3)));
    // 2 is a divisor of 2 but gives no proper reshaping: one column only.
    assert_eq!(reshape(2), Err(CompressionError::NonDivisibleLength));
}

#[test]
fn split_into_chunks_cuts_in_row_major_order() {
    let flat = [1.0f64, 2.0, 3.0, 4.0, 5.0, 6.0];
    let rows = split_into_chunks(&flat, 2);
    assert_eq!(rows, vec![vec![1.0, 2.0, 3.0], vec![4.0, 5.0, 6.0]]);

    let ints = [10u64, 20, 30, 40];
    let rows = split_into_chunks(&ints, 4);
    assert_eq!(rows, vec![vec![10], vec![20], vec![30], vec![40]]);
}

#[test]
fn linearize_restores_the_flat_sequence() {
    let flat = [1.0f64, 2.0, 3.0, 4.0, 5.0, 6.0];
    let rows = split_into_chunks(&flat, 3);
    assert_eq!(linearize(&rows), flat.to_vec());

    let ints = [7u64, 8, 9, 10, 11, 12];
    let rows = split_into_chunks(&ints, 2);
    assert_eq!(linearize(&rows), ints.to_vec());

    let ragged = vec![vec![1u64], vec![], vec![2, 3]];
    assert_eq!(linearize(&ragged), vec![1u64, 2, 3]);
}
