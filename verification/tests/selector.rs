use pcazip::selector::{choose_components, cumulative_spectrum};
use pcazip::CompressionError;

#[test]
fn cumulative_spectrum_is_monotone_and_ends_at_the_total() {
    let ev = cumulative_spectrum(&[10, 20, 30]);
    assert_eq!(ev, vec![10u128, 30, 60]);
    for w in ev.windows(2) {
        assert!(w[0] <= w[1]);
    }
    assert_eq!(*ev.last().unwrap(), 10 + 20 + 30);
}

#[test]
fn selector_boundary() {
    // The spectrum 10, 1, 0.1 scaled to integers. The first component
    // already explains 100/111 of the variance: ceil(111 / 11) = 11 >= 4,
    // so the smallest qualifying prefix is the single leading component,
    // which the selector rejects as no real compression choice.
    let r = choose_components(&[100, 10, 1], 4);
    assert_eq!(r, Err(CompressionError::InsufficientComponents));
}

#[test]
fn selector_keeps_the_smallest_qualifying_prefix() {
    // T = 100. Index 0: ceil(100 / 50) = 2 < 20. Index 1: ceil(100 / 20)
    // = 5 < 20. Index 2: ceil(100 / 5) = 20 >= 20. Smallest index is 2.
    assert_eq!(choose_components(&[50, 30, 15, 5], 20), Ok(2));
    // T = 4. Index 0: ceil(4 / 2) = 2 < 4. Index 1: ceil(4 / 1) = 4 >= 4.
    assert_eq!(choose_components(&[2, 1, 1], 4), Ok(1));
}

#[test]
fn selector_rejects_degenerate_spectra() {
    assert_eq!(
        choose_components(&[], 4),
        Err(CompressionError::InsufficientComponents)
    );
    // A flat zero spectrum meets the bound vacuously at the first index.
    assert_eq!(
        choose_components(&[0, 0, 0], 4),
        Err(CompressionError::InsufficientComponents)
    );
    // A bound of zero or one is met by any leading component.
    assert_eq!(
        choose_components(&[1, 1], 1),
        Err(CompressionError::InsufficientComponents)
    );
}
