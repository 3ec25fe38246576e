//! Lossy byte-stream compression built on principal component analysis.
//!
//! The pipeline re-encodes a byte buffer as fixed-width bit chunks
//! (`conversion`), shapes the chunk sequence into a rectangular sample
//! matrix (`partition`), and keeps only the leading principal components,
//! chosen from the eigenvalue spectrum against an error-probability bound
//! (`selector`). The counts that hold those stages together are pinned
//! down in `compression`, and the compressed payload is framed by a small
//! fixed-size header (`format`) so that the output is self-describing.
//!
//! Floating-point numerics (the eigendecomposition itself) live outside
//! this crate; everything here is stated and proved over the integer
//! models that those numerics produce and consume.

pub mod conversion;
pub mod partition;
pub mod selector;
pub mod format;
pub mod compression;
pub mod math;

use vstd::prelude::*;

verus! {

/// The failure kinds of the compression pipeline.
#[derive(Debug, PartialEq, Eq, Structural, Clone, Copy)]
pub enum CompressionError {
    /// The input path does not name a readable file.
    FileNotFound,
    /// A sample value carries set bits outside the configured chunk width.
    EncodingError,
    /// The value-sequence length admits no partition into at least two
    /// rows of at least two columns (the length is prime or too small).
    NonDivisibleLength,
    /// No proper prefix of the component spectrum meets the error bound.
    InsufficientComponents,
}

} // verus!
