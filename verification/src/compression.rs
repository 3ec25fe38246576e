//! The integer decisions of the compress pipeline.
//!
//! Compression packs the input into `width`-bit samples, shapes the
//! samples into a matrix, runs the eigendecomposition over that matrix,
//! keeps a prefix of the components, and writes the projection back as a
//! `width`-bit stream. The numeric work in the middle is floating-point
//! and lives with the caller; what this module pins down is every count
//! the pipeline is built on: how many samples a buffer packs into, what
//! shape the sample matrix takes, and how many bytes a retained
//! projection writes back out.

use crate::math::{ceil_div, lemma_ceil_div_exact, lemma_ceil_div_partial};
use crate::partition::{is_partition_divisor, is_prime, reshape};
use crate::CompressionError;
use vstd::arithmetic::div_mod::lemma_fundamental_div_mod;
use vstd::prelude::*;

verus! {

/// The shape of the compression run decided from the input length alone:
/// the packed sample count and the matrix it is reshaped into.
#[derive(Debug, PartialEq, Eq, Structural, Clone, Copy)]
pub struct CompressionPlan {
    /// How many `width`-bit samples the input packs into.
    pub n_samples: usize,
    /// Matrix rows: the number of vectors handed to the eigendecomposition.
    pub rows: usize,
    /// Matrix columns: the number of features of each vector.
    pub cols: usize,
    /// How many eigenpairs the decomposition extracts: bounded by the
    /// feature count, so every eigenvector spans the feature space.
    pub n_components: usize,
}

/// How many `width`-bit samples a buffer of `n_bytes` bytes packs into:
/// the bit stream rounded up to whole chunks.
pub fn sample_count(n_bytes: usize, width: usize) -> (r: usize)
    requires
        1 <= width,
        8 * n_bytes <= usize::MAX,
    ensures
        r as int == ceil_div(8 * n_bytes, width as int),
{
    let n_bits: usize = 8 * n_bytes;
    let r = n_bits / width + (if n_bits % width != 0 {
        1
    } else {
        0
    });
    proof {
        let q = n_bits as int / width as int;
        let rem = n_bits as int % width as int;
        lemma_fundamental_div_mod(n_bits as int, width as int);
        if rem == 0 {
            assert(n_bits as int == q * width) by (nonlinear_arith)
                requires
                    n_bits as int == width * q,
            ;
            lemma_ceil_div_exact(q, width as int);
        } else {
            assert(n_bits as int == q * width + rem) by (nonlinear_arith)
                requires
                    n_bits as int == width * q + rem,
            ;
            lemma_ceil_div_partial(q, width as int, rem);
        }
    }
    r
}

/// How many bytes a sequence of `n_values` samples of `width` bits each
/// writes back out: the sample bit stream rounded up to whole bytes.
pub fn compressed_byte_count(n_values: usize, width: usize) -> (r: usize)
    requires
        n_values * width <= usize::MAX,
    ensures
        r as int == ceil_div(n_values * width, 8),
{
    proof {
        assert(0 <= n_values * width) by (nonlinear_arith);
    }
    let n_bits: usize = n_values * width;
    let r = n_bits / 8 + (if n_bits % 8 != 0 {
        1
    } else {
        0
    });
    proof {
        let q = n_bits as int / 8;
        let rem = n_bits as int % 8;
        lemma_fundamental_div_mod(n_bits as int, 8);
        if rem == 0 {
            lemma_ceil_div_exact(q, 8);
        } else {
            lemma_ceil_div_partial(q, 8, rem);
        }
    }
    r
}

/// Decide the shape of a compression run from the input length: the
/// input packs into `ceil(8 * input_len / width)` samples, and those are
/// shaped by [`reshape`]. Fails exactly where the sample count admits no
/// proper partition: when it is prime or below 4.
pub fn plan_compression(input_len: usize, width: usize) -> (r: Result<
    CompressionPlan,
    CompressionError,
>)
    requires
        1 <= width,
        8 * input_len <= usize::MAX,
    ensures
        match r {
            Ok(p) => {
                &&& p.n_samples as int == ceil_div(8 * input_len, width as int)
                &&& is_partition_divisor(p.n_samples as int, p.rows as int)
                &&& forall|d: int|
                    #[trigger] is_partition_divisor(p.n_samples as int, d) ==> d <= p.rows as int
                &&& p.rows as int * p.cols as int == p.n_samples as int
                &&& p.rows >= 2
                &&& p.cols >= 2
                &&& p.n_components == if p.rows <= p.cols {
                    p.rows as int
                } else {
                    p.cols as int
                }
                &&& 2 <= p.n_components <= p.cols
            },
            Err(e) => e == CompressionError::NonDivisibleLength,
        },
        r is Err <==> (ceil_div(8 * input_len, width as int) < 4 || is_prime(
            ceil_div(8 * input_len, width as int),
        )),
{
    let n_samples = sample_count(input_len, width);
    match reshape(n_samples) {
        Ok((rows, cols)) => {
            let n_components = if rows <= cols {
                rows
            } else {
                cols
            };
            Ok(CompressionPlan { n_samples, rows, cols, n_components })
        },
        Err(e) => Err(e),
    }
}

} // verus!
