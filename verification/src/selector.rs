//! Choosing how many principal components to keep.
//!
//! The eigenvalue spectrum enters as nonnegative integers on a common
//! (arbitrary) scale — explained variance is a ratio, so any scale that
//! preserves the proportions between eigenvalues preserves the choice.
//! With `S[i]` the sum of the first `i + 1` eigenvalues and `T` the sum of
//! all of them, the cumulative explained variance of the first `i + 1`
//! components is `S[i] / T`, and `P[i] = T / (T - S[i])` reads as "one
//! expected wrong bit in `P[i]`". [`choose_components`] keeps the smallest
//! prefix whose `ceil(P[i])` reaches the input bit count, and rejects the
//! degenerate outcomes where that prefix is empty or the whole spectrum.

use crate::math::{ceil_div, lemma_ceil_div_exact, lemma_ceil_div_partial};
use crate::CompressionError;
use vstd::arithmetic::div_mod::lemma_fundamental_div_mod;
use vstd::prelude::*;

verus! {

/// Sum of the first `i` eigenvalues.
pub open spec fn prefix_sum(s: Seq<u64>, i: int) -> int
    recommends
        0 <= i <= s.len(),
    decreases i,
{
    if i <= 0 {
        0
    } else {
        prefix_sum(s, i - 1) + s[i - 1]
    }
}

/// Sum of the whole spectrum: the denominator of every explained-variance
/// ratio.
pub open spec fn spectrum_total(s: Seq<u64>) -> int {
    prefix_sum(s, s.len() as int)
}

/// Numerator of the cumulative explained variance after keeping
/// components `0` through `i`: `EV[i] == explained_num(s, i) / spectrum_total(s)`.
pub open spec fn explained_num(s: Seq<u64>, i: int) -> int {
    prefix_sum(s, i + 1)
}

/// Keeping components `0` through `i` meets the error bound for `bits`
/// input bits: the error-probability denominator `P[i] = T / (T - S[i])`,
/// rounded up, reaches `bits` (an exhausted remainder `T - S[i] == 0`
/// reads as an infinite `P[i]`).
pub open spec fn bound_met(s: Seq<u64>, i: int, bits: int) -> bool
    recommends
        0 <= i < s.len(),
{
    let rem = spectrum_total(s) - explained_num(s, i);
    rem == 0 || ceil_div(spectrum_total(s), rem) >= bits
}

/// Prefix sums of a spectrum of `u64` values are nonnegative and at most
/// `i` times the largest `u64`.
proof fn lemma_prefix_sum_bounds(s: Seq<u64>, i: int)
    requires
        0 <= i <= s.len(),
    ensures
        0 <= prefix_sum(s, i),
        prefix_sum(s, i) <= i * 0xffff_ffff_ffff_ffff,
    decreases i,
{
    if i > 0 {
        lemma_prefix_sum_bounds(s, i - 1);
        assert((i - 1) * 0xffff_ffff_ffff_ffff + 0xffff_ffff_ffff_ffff == i
            * 0xffff_ffff_ffff_ffff) by (nonlinear_arith);
    }
}

/// Prefix sums are monotone: a longer prefix of nonnegative eigenvalues
/// sums to at least as much.
pub proof fn lemma_prefix_sum_monotone(s: Seq<u64>, i: int, j: int)
    requires
        0 <= i <= j <= s.len(),
    ensures
        prefix_sum(s, i) <= prefix_sum(s, j),
    decreases j - i,
{
    if i < j {
        lemma_prefix_sum_monotone(s, i, j - 1);
    }
}

/// Cumulative explained variance never decreases as more components are
/// kept: its denominator is fixed and its numerator is monotone.
pub proof fn lemma_explained_variance_monotone(s: Seq<u64>, i: int, j: int)
    requires
        0 <= i <= j < s.len(),
    ensures
        explained_num(s, i) <= explained_num(s, j),
{
    lemma_prefix_sum_monotone(s, i + 1, j + 1);
}

/// Keeping every component explains the whole spectrum: the cumulative
/// explained-variance numerator of the last index equals the denominator,
/// so the final ratio is exactly 1.
pub proof fn lemma_explained_variance_complete(s: Seq<u64>)
    requires
        s.len() >= 1,
    ensures
        explained_num(s, s.len() - 1) == spectrum_total(s),
{
}

/// The cumulative explained-variance numerators, in component order:
/// entry `i` is the sum of eigenvalues `0` through `i`.
pub fn cumulative_spectrum(eigenvalues: &[u64]) -> (r: Vec<u128>)
    ensures
        r@.len() == eigenvalues@.len(),
        forall|i: int| 0 <= i < r@.len() ==> #[trigger] r@[i] as int == explained_num(
            eigenvalues@,
            i,
        ),
{
    let n = eigenvalues.len();
    let mut r: Vec<u128> = Vec::new();
    let mut acc: u128 = 0;
    let mut i: usize = 0;
    while i < n
        invariant
            n == eigenvalues@.len(),
            i <= n,
            n <= usize::MAX,
            acc as int == prefix_sum(eigenvalues@, i as int),
            r@.len() == i,
            forall|t: int| 0 <= t < i ==> #[trigger] r@[t] as int == explained_num(
                eigenvalues@,
                t,
            ),
        decreases eigenvalues@.len() - i,
    {
        proof {
            lemma_prefix_sum_bounds(eigenvalues@, i as int);
            assert(i as int * 0xffff_ffff_ffff_ffff < 0xffff_ffff_ffff_ffff_0000_0000_0000_0000)
                by (nonlinear_arith)
                requires
                    0 <= (i as int) && (i as int) < 0x1_0000_0000_0000_0000,
            ;
        }
        acc = acc + (eigenvalues[i] as u128);
        r.push(acc);
        i = i + 1;
    }
    r
}

/// Keep the smallest prefix of the component spectrum whose estimated
/// error-probability bound reaches `input_bit_count` — "at most one
/// expected wrong bit across the whole input". Rejects the spectrum when
/// the very first component already meets the bound (nothing would be
/// compressed away from a one-component basis) or when the spectrum is
/// empty; the bound is always met by the final index, so some prefix
/// qualifies whenever the spectrum is nonempty.
pub fn choose_components(eigenvalues: &[u64], input_bit_count: usize) -> (r: Result<
    usize,
    CompressionError,
>)
    ensures
        match r {
            Ok(k) => {
                &&& 0 < k < eigenvalues@.len()
                &&& bound_met(eigenvalues@, k as int, input_bit_count as int)
                &&& forall|j: int|
                    0 <= j < k ==> !bound_met(eigenvalues@, j, input_bit_count as int)
            },
            Err(e) => e == CompressionError::InsufficientComponents,
        },
        r is Err <==> (eigenvalues@.len() == 0 || bound_met(
            eigenvalues@,
            0,
            input_bit_count as int,
        )),
{
    let ghost s = eigenvalues@;
    let n = eigenvalues.len();
    if n == 0 {
        return Err(CompressionError::InsufficientComponents);
    }

    let mut total: u128 = 0;
    let mut c: usize = 0;
    while c < n
        invariant
            c <= n,
            n == s.len(),
            n <= usize::MAX,
            s == eigenvalues@,
            total as int == prefix_sum(s, c as int),
        decreases n - c,
    {
        proof {
            lemma_prefix_sum_bounds(s, c as int);
            assert(c as int * 0xffff_ffff_ffff_ffff < 0xffff_ffff_ffff_ffff_0000_0000_0000_0000)
                by (nonlinear_arith)
                requires
                    0 <= (c as int) && (c as int) < 0x1_0000_0000_0000_0000,
            ;
        }
        total = total + (eigenvalues[c] as u128);
        c = c + 1;
    }

    let mut p: u128 = 0;
    let mut i: usize = 0;
    while i < n
        invariant
            i <= n,
            n == s.len(),
            n <= usize::MAX,
            s == eigenvalues@,
            total as int == spectrum_total(s),
            p as int == prefix_sum(s, i as int),
            forall|j: int| 0 <= j < i ==> !bound_met(s, j, input_bit_count as int),
        decreases n - i,
    {
        proof {
            lemma_prefix_sum_bounds(s, i as int);
            assert(i as int * 0xffff_ffff_ffff_ffff < 0xffff_ffff_ffff_ffff_0000_0000_0000_0000)
                by (nonlinear_arith)
                requires
                    0 <= (i as int) && (i as int) < 0x1_0000_0000_0000_0000,
            ;
            lemma_prefix_sum_monotone(s, i as int + 1, s.len() as int);
        }
        let p2: u128 = p + (eigenvalues[i] as u128);
        let rem: u128 = total - p2;
        let met: bool = if rem == 0 {
            true
        } else {
            proof {
                lemma_prefix_sum_bounds(s, s.len() as int);
                assert(s.len() as int * 0xffff_ffff_ffff_ffff
                    < 0xffff_ffff_ffff_ffff_ffff_ffff_ffff_ffff) by (nonlinear_arith)
                    requires
                        0 <= (s.len() as int) && (s.len() as int) < 0x1_0000_0000_0000_0000,
                ;
                assert(total as int / rem as int <= total as int) by (nonlinear_arith)
                    requires
                        rem as int >= 1,
                        total as int >= 0,
                ;
            }
            let cdiv: u128 = total / rem + (if total % rem != 0 {
                1
            } else {
                0
            });
            proof {
                let t = total as int;
                let dd = rem as int;
                lemma_fundamental_div_mod(t, dd);
                if t % dd == 0 {
                    assert(t == (t / dd) * dd) by (nonlinear_arith)
                        requires
                            t == dd * (t / dd),
                    ;
                    lemma_ceil_div_exact(t / dd, dd);
                } else {
                    assert(t == (t / dd) * dd + t % dd) by (nonlinear_arith)
                        requires
                            t == dd * (t / dd) + t % dd,
                    ;
                    lemma_ceil_div_partial(t / dd, dd, t % dd);
                }
            }
            cdiv >= (input_bit_count as u128)
        };
        proof {
            assert(met <==> bound_met(s, i as int, input_bit_count as int));
        }
        if met {
            if i == 0 {
                return Err(CompressionError::InsufficientComponents);
            }
            return Ok(i);
        }
        p = p2;
        i = i + 1;
    }
    proof {
        assert(bound_met(s, s.len() - 1, input_bit_count as int));
        assert(false);
    }
    Err(CompressionError::InsufficientComponents)
}

} // verus!
