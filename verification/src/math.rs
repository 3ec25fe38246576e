//! Shared integer arithmetic: ceiling division and the division facts the
//! other modules lean on.

use vstd::arithmetic::div_mod::{lemma_fundamental_div_mod, lemma_fundamental_div_mod_converse};
use vstd::prelude::*;

verus! {

/// `ceil(a / b)` on mathematical integers, for a nonnegative `a`.
pub open spec fn ceil_div(a: int, b: int) -> int
    recommends
        a >= 0,
        b >= 1,
{
    (a + b - 1) / b
}

/// `(q * d + r) / d == q` whenever `0 <= r < d`: dividing off a whole
/// number of multiples leaves the remainder behind.
pub proof fn lemma_div_of_multiple_plus_remainder(q: int, d: int, r: int)
    requires
        0 <= r < d,
        q >= 0,
    ensures
        (q * d + r) / d == q,
        (q * d + r) % d == r,
{
    lemma_fundamental_div_mod_converse(q * d + r, d, q, r);
}

/// A sequence of `q` full chunks of width `d` plus a nonempty partial
/// chunk rounds up to `q + 1` chunks.
pub proof fn lemma_ceil_div_partial(q: int, d: int, r: int)
    requires
        q >= 0,
        1 <= r < d,
    ensures
        ceil_div(q * d + r, d) == q + 1,
{
    assert(q * d + r + d - 1 == (q + 1) * d + (r - 1)) by (nonlinear_arith);
    lemma_div_of_multiple_plus_remainder(q + 1, d, r - 1);
}

/// A sequence of `q` full chunks of width `d` rounds up to exactly `q`
/// chunks.
pub proof fn lemma_ceil_div_exact(q: int, d: int)
    requires
        q >= 0,
        d >= 1,
    ensures
        ceil_div(q * d, d) == q,
{
    lemma_div_of_multiple_plus_remainder(q, d, d - 1);
}

/// A position strictly below `q` whole chunks of width `d` falls in a
/// chunk strictly below `q`.
pub proof fn lemma_div_strict_bound(i: int, d: int, q: int)
    requires
        d >= 1,
        q >= 0,
        0 <= i < q * d,
    ensures
        0 <= i / d < q,
{
    lemma_fundamental_div_mod(i, d);
    if i / d >= q {
        assert((i / d) * d >= q * d) by (nonlinear_arith)
            requires
                i / d >= q,
                d >= 1,
        ;
    }
}

/// Position `i` lies inside chunk `i / d`, and that chunk index is below
/// the rounded-up chunk count of any bit total beyond `i`.
pub proof fn lemma_chunk_index_in_range(i: int, d: int, total: int)
    requires
        d >= 1,
        0 <= i < total,
    ensures
        0 <= i / d,
        i / d * d + i % d == i,
        0 <= i % d < d,
        i / d < ceil_div(total, d),
{
    lemma_fundamental_div_mod(i, d);
    lemma_fundamental_div_mod(total + d - 1, d);
    assert(i / d * d == d * (i / d)) by (nonlinear_arith);
    assert(i / d < ceil_div(total, d)) by {
        let c = ceil_div(total, d);
        if i / d >= c {
            assert(i >= (i / d) * d);
            assert((i / d) * d >= c * d) by (nonlinear_arith)
                requires
                    i / d >= c,
                    d >= 1,
            ;
            assert(total + d - 1 == d * c + (total + d - 1) % d);
            assert(d * c == c * d) by (nonlinear_arith);
            assert((total + d - 1) % d < d);
            assert(c * d > total - 1);
            assert(i > total - 1);
        }
    }
}

} // verus!
