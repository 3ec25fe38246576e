//! Shaping a flat value sequence into a rectangular sample matrix.
//!
//! The matrix is built by cutting the sequence into `rows` equal chunks,
//! where `rows` is the largest divisor of the length that keeps the chunks
//! no shorter than the chunk count (a near-square shape, biased towards
//! many columns). A sequence whose length admits no such divisor — a prime
//! length, or one below 4 — cannot be shaped and is reported as
//! [`CompressionError::NonDivisibleLength`].

use crate::CompressionError;
use vstd::arithmetic::div_mod::{lemma_fundamental_div_mod, lemma_fundamental_div_mod_converse};
use vstd::prelude::*;

verus! {

/// `d` cuts a sequence of length `x` into `d` proper rows: `d` divides
/// `x`, at least 2 rows come out, each row is at least as long as the row
/// count (`(d - 1)^2 < x` says `d` is at most the rounded-up square root
/// of `x`), and the shape is a true reshaping (`d < x`, so rows have at
/// least 2 entries).
pub open spec fn is_partition_divisor(x: int, d: int) -> bool {
    &&& 2 <= d < x
    &&& (d - 1) * (d - 1) < x
    &&& x % d == 0
}

/// `n` has no divisors besides 1 and itself.
pub open spec fn is_prime(n: int) -> bool {
    &&& 2 <= n
    &&& forall|d: int| 2 <= d < n ==> #[trigger] (n % d) != 0
}

/// The divisors of `x` between 2 and the rounded-up square root of `x`,
/// in increasing order. A divisor `d` lies in that range exactly when
/// `(d - 1)^2 < x`.
pub fn divisors(x: usize) -> (r: Vec<usize>)
    ensures
        forall|t: int|
            0 <= t < r@.len() ==> {
                &&& 2 <= #[trigger] r@[t]
                &&& (r@[t] - 1) * (r@[t] - 1) < x as int
                &&& (x as int) % (r@[t] as int) == 0
            },
        forall|d: int|
            2 <= d && (d - 1) * (d - 1) < x as int && #[trigger] ((x as int) % d) == 0
                ==> r@.contains(d as usize),
        forall|t1: int, t2: int| 0 <= t1 < t2 < r@.len() ==> r@[t1] < r@[t2],
{
    let mut r: Vec<usize> = Vec::new();
    let mut i: usize = 2;
    let mut sq: u128 = 1;
    while sq < (x as u128)
        invariant
            2 <= i,
            sq as int == (i as int - 1) * (i as int - 1),
            i as int - 2 <= x as int,
            forall|t: int|
                0 <= t < r@.len() ==> {
                    &&& 2 <= #[trigger] r@[t]
                    &&& (r@[t] - 1) * (r@[t] - 1) < x as int
                    &&& (x as int) % (r@[t] as int) == 0
                },
            forall|d: int|
                2 <= d < i && (d - 1) * (d - 1) < x as int && #[trigger] ((x as int) % d) == 0
                    ==> r@.contains(d as usize),
            forall|t: int| 0 <= t < r@.len() ==> r@[t] < i,
            forall|t1: int, t2: int| 0 <= t1 < t2 < r@.len() ==> r@[t1] < r@[t2],
        decreases x + 2 - i,
    {
        proof {
            assert(i as int - 1 <= (i as int - 1) * (i as int - 1)) by (nonlinear_arith)
                requires
                    i >= 2,
            ;
            if i >= 3 {
                assert(2 * (i as int - 1) <= (i as int - 1) * (i as int - 1)) by (nonlinear_arith)
                    requires
                        i as int >= 3,
                ;
            }
        }
        let ghost r0 = r@;
        if x % i == 0 {
            r.push(i);
        }
        proof {
            assert forall|d: int|
                2 <= d < i + 1 && (d - 1) * (d - 1) < x as int && #[trigger] ((x as int) % d)
                    == 0 implies r@.contains(d as usize) by {
                if d < i {
                    assert(r0.contains(d as usize));
                    let t = choose|t: int| 0 <= t < r0.len() && r0[t] == d as usize;
                    assert(r@[t] == d as usize);
                } else {
                    assert(r@[r@.len() - 1] == d as usize);
                }
            }
            assert((i as int + 1 - 1) * (i as int + 1 - 1) == sq as int + 2 * (i as int - 1) + 1)
                by (nonlinear_arith)
                requires
                    sq as int == (i as int - 1) * (i as int - 1),
            ;
        }
        sq = sq + 2 * ((i - 1) as u128) + 1;
        i = i + 1;
    }
    proof {
        assert forall|d: int|
            2 <= d && (d - 1) * (d - 1) < x as int && #[trigger] ((x as int) % d)
                == 0 implies r@.contains(d as usize) by {
            if d >= i {
                assert((i as int - 1) * (i as int - 1) <= (d - 1) * (d - 1)) by (nonlinear_arith)
                    requires
                        d >= i,
                        i >= 2,
                ;
            }
        }
    }
    r
}

/// A length with a proper near-square divisor is at least 4 and composite,
/// and conversely: every composite length from 4 up has a divisor whose
/// square (rounded the divisor down by one) stays below the length.
pub proof fn lemma_partition_exists_iff_composite(n: int)
    requires
        n >= 0,
    ensures
        (exists|d: int| #[trigger] is_partition_divisor(n, d)) <==> (n >= 4 && !is_prime(n)),
{
    if exists|d: int| #[trigger] is_partition_divisor(n, d) {
        let d = choose|d: int| #[trigger] is_partition_divisor(n, d);
        lemma_fundamental_div_mod(n, d);
        let q = n / d;
        assert(n == d * q);
        assert(q >= 2) by (nonlinear_arith)
            requires
                n == d * q,
                2 <= d < n,
        ;
        assert(n >= 2 * d) by (nonlinear_arith)
            requires
                n == d * q,
                q >= 2,
                d >= 2,
        ;
        assert(!is_prime(n));
    }
    if n >= 4 && !is_prime(n) {
        let d = choose|d: int| 2 <= d < n && #[trigger] (n % d) == 0;
        lemma_fundamental_div_mod(n, d);
        let q = n / d;
        assert(n == d * q);
        assert(q >= 2) by (nonlinear_arith)
            requires
                n == d * q,
                2 <= d < n,
        ;
        let e = if d <= q {
            d
        } else {
            q
        };
        assert(e * e <= n) by (nonlinear_arith)
            requires
                n == d * q,
                2 <= d,
                2 <= q,
                (e == d && d <= q) || (e == q && q < d),
        ;
        assert((e - 1) * (e - 1) < e * e) by (nonlinear_arith)
            requires
                e >= 2,
        ;
        assert(e < n) by (nonlinear_arith)
            requires
                n == d * q,
                2 <= d,
                2 <= q,
                (e == d && d <= q) || (e == q && q < d),
        ;
        assert(n % e == 0) by {
            if e == d {
            } else {
                lemma_fundamental_div_mod_converse(n, q, d, 0);
            }
        }
        assert(is_partition_divisor(n, e));
    }
}

/// Shape a sequence of `length` values into a matrix: `rows` is the
/// largest divisor of `length` no greater than its rounded-up square
/// root, and `cols` is the resulting row length. Fails exactly on the
/// lengths that admit no such proper divisor: primes and lengths below 4.
pub fn reshape(length: usize) -> (r: Result<(usize, usize), CompressionError>)
    ensures
        match r {
            Ok(shape) => {
                &&& is_partition_divisor(length as int, shape.0 as int)
                &&& forall|d: int|
                    #[trigger] is_partition_divisor(length as int, d) ==> d <= shape.0 as int
                &&& shape.1 == length as int / shape.0 as int
                &&& shape.0 as int * shape.1 as int == length as int
                &&& shape.0 >= 2
                &&& shape.1 >= 2
            },
            Err(e) => e == CompressionError::NonDivisibleLength,
        },
        r is Err <==> (length < 4 || is_prime(length as int)),
{
    proof {
        lemma_partition_exists_iff_composite(length as int);
    }
    let ds = divisors(length);
    if ds.len() == 0 {
        proof {
            assert forall|d: int| !#[trigger] is_partition_divisor(length as int, d) by {
                if is_partition_divisor(length as int, d) {
                    assert(ds@.contains(d as usize));
                }
            }
        }
        return Err(CompressionError::NonDivisibleLength);
    }
    let rows = ds[ds.len() - 1];
    if rows >= length {
        proof {
            // `rows` sits in the divisor list, so `(rows - 1)^2 < length`;
            // together with `rows >= length` that forces `length <= 2`.
            assert(rows as int - 1 <= (rows as int - 1) * (rows as int - 1)) by (nonlinear_arith)
                requires
                    rows >= 2,
            ;
            assert(rows == length);
            assert(length as int <= 2) by (nonlinear_arith)
                requires
                    (length as int - 1) * (length as int - 1) < length as int,
                    length as int >= 2,
            ;
            assert forall|d: int| !#[trigger] is_partition_divisor(length as int, d) by {}
        }
        return Err(CompressionError::NonDivisibleLength);
    }
    let cols = length / rows;
    proof {
        lemma_fundamental_div_mod(length as int, rows as int);
        assert(is_partition_divisor(length as int, rows as int));
        assert forall|d: int| #[trigger] is_partition_divisor(length as int, d) implies d
            <= rows as int by {
            assert(ds@.contains(d as usize));
            let t = choose|t: int| 0 <= t < ds@.len() && ds@[t] == d as usize;
            assert(ds@[t] <= rows) by {
                if t < ds@.len() - 1 {
                    assert(ds@[t] < ds@[ds@.len() - 1]);
                }
            }
        }
        assert(length as int == rows as int * cols as int);
        assert(cols >= 2) by (nonlinear_arith)
            requires
                length as int == rows as int * cols as int,
                2 <= rows < length,
        ;
        assert(!(length < 4 || is_prime(length as int))) by {
            assert(is_partition_divisor(length as int, rows as int));
        }
    }
    Ok((rows, cols))
}

/// Cut `arr` into `k` rows of `arr.len() / k` values each, in order: row
/// `i` holds the values from `i * cols` up to `(i + 1) * cols`.
pub fn split_into_chunks<T: Copy>(arr: &[T], k: usize) -> (rows: Vec<Vec<T>>)
    requires
        k >= 1,
        arr@.len() as int % (k as int) == 0,
    ensures
        rows@.len() == k,
        forall|i: int|
            0 <= i < k ==> (#[trigger] rows@[i])@.len() == arr@.len() as int / (k as int),
        forall|i: int, j: int|
            0 <= i < k && 0 <= j < arr@.len() as int / (k as int) ==> #[trigger] rows@[i]@[j] == arr@[i
                * (arr@.len() as int / (k as int)) + j],
{
    let chunk_size: usize = arr.len() / k;
    proof {
        lemma_fundamental_div_mod(arr@.len() as int, k as int);
        assert(arr@.len() == k as int * chunk_size as int);
    }
    let mut rows: Vec<Vec<T>> = Vec::new();
    let mut idx: usize = 0;
    let mut i: usize = 0;
    while i < k
        invariant
            i <= k,
            arr@.len() <= usize::MAX,
            arr@.len() == k as int * chunk_size as int,
            idx as int == i as int * chunk_size as int,
            rows@.len() == i,
            forall|a: int| 0 <= a < i ==> (#[trigger] rows@[a])@.len() == chunk_size,
            forall|a: int, b: int|
                0 <= a < i && 0 <= b < chunk_size ==> #[trigger] rows@[a]@[b] == arr@[a * (
                chunk_size as int) + b],
        decreases k - i,
    {
        proof {
            assert((i as int + 1) * chunk_size as int <= k as int * chunk_size as int)
                by (nonlinear_arith)
                requires
                    i as int + 1 <= k as int,
                    chunk_size >= 0,
            ;
            assert(i as int * chunk_size as int + chunk_size as int == (i as int + 1) * (
            chunk_size as int)) by (nonlinear_arith);
        }
        let mut row: Vec<T> = Vec::new();
        let mut j: usize = 0;
        while j < chunk_size
            invariant
                j <= chunk_size,
                idx as int == i as int * chunk_size as int + j as int,
                (i as int + 1) * chunk_size as int <= arr@.len(),
                arr@.len() <= usize::MAX,
                i as int * chunk_size as int + chunk_size as int == (i as int + 1) * (
                chunk_size as int),
                row@.len() == j,
                forall|b: int| 0 <= b < j ==> #[trigger] row@[b] == arr@[i as int * (
                chunk_size as int) + b],
            decreases chunk_size - j,
        {
            let v = arr[idx];
            row.push(v);
            idx = idx + 1;
            j = j + 1;
        }
        rows.push(row);
        i = i + 1;
    }
    rows
}

/// Concatenate the rows of `arr` into one flat sequence, row-major.
pub fn linearize<T: Copy>(arr: &Vec<Vec<T>>) -> (v: Vec<T>)
    ensures
        v@ == arr@.map_values(|row: Vec<T>| row@).flatten(),
{
    let ghost rows_view = arr@.map_values(|row: Vec<T>| row@);
    let mut v: Vec<T> = Vec::new();
    proof {
        assert(rows_view.take(0) =~= Seq::empty());
        assert(Seq::<Seq<T>>::empty().flatten() =~= Seq::empty());
    }
    let mut i: usize = 0;
    while i < arr.len()
        invariant
            i <= arr@.len(),
            rows_view == arr@.map_values(|row: Vec<T>| row@),
            v@ == rows_view.take(i as int).flatten(),
        decreases arr@.len() - i,
    {
        let ghost v0 = v@;
        let mut j: usize = 0;
        while j < arr[i].len()
            invariant
                0 <= i < arr@.len(),
                j <= arr@[i as int]@.len(),
                v@ == v0 + arr@[i as int]@.take(j as int),
            decreases arr@[i as int]@.len() - j,
        {
            let x = arr[i][j];
            v.push(x);
            proof {
                assert(v@ =~= v0 + arr@[i as int]@.take(j as int + 1));
            }
            j = j + 1;
        }
        proof {
            assert(arr@[i as int]@.take(j as int) =~= arr@[i as int]@);
            assert(rows_view.take(i as int).push(rows_view[i as int]) =~= rows_view.take(
                i as int + 1,
            ));
            rows_view.take(i as int).lemma_flatten_push(rows_view[i as int]);
            assert(v@ =~= rows_view.take(i as int + 1).flatten());
        }
        i = i + 1;
    }
    proof {
        assert(rows_view.take(arr@.len() as int) =~= rows_view);
    }
    v
}

/// Linearizing the matrix produced by [`split_into_chunks`] restores the
/// original flat sequence: reshaping loses nothing and keeps order.
pub proof fn lemma_split_linearize_roundtrip<T>(arr: Seq<T>, k: int, rows: Seq<Seq<T>>)
    requires
        k >= 1,
        arr.len() as int % k == 0,
        rows.len() == k,
        forall|i: int| 0 <= i < k ==> (#[trigger] rows[i]).len() == arr.len() as int / k,
        forall|i: int, j: int|
            0 <= i < k && 0 <= j < arr.len() as int / k ==> #[trigger] rows[i][j] == arr[i * (
            arr.len() as int / k) + j],
    ensures
        rows.flatten() == arr,
{
    let cols = arr.len() as int / k;
    lemma_fundamental_div_mod(arr.len() as int, k);
    lemma_flatten_of_rectangular(rows, k, cols, arr);
}

proof fn lemma_flatten_of_rectangular<T>(rows: Seq<Seq<T>>, n: int, cols: int, arr: Seq<T>)
    requires
        0 <= n == rows.len(),
        cols >= 0,
        arr.len() == n * cols,
        forall|i: int| 0 <= i < n ==> (#[trigger] rows[i]).len() == cols,
        forall|i: int, j: int|
            0 <= i < n && 0 <= j < cols ==> #[trigger] rows[i][j] == arr[i * cols + j],
    ensures
        rows.flatten() == arr,
    decreases n,
{
    if n == 0 {
        assert(rows.flatten() =~= arr);
    } else {
        let head = rows.drop_last();
        let front = arr.take((n - 1) * cols);
        assert((n - 1) * cols + cols == n * cols) by (nonlinear_arith);
        assert(0 <= (n - 1) * cols <= arr.len()) by (nonlinear_arith)
            requires
                arr.len() == n * cols,
                n >= 1,
                cols >= 0,
        ;
        assert forall|i2: int, j2: int|
            0 <= i2 < n - 1 && 0 <= j2 < cols implies #[trigger] head[i2][j2] == front[i2 * cols
            + j2] by {
            assert(0 <= i2 * cols + j2 < (n - 1) * cols) by (nonlinear_arith)
                requires
                    0 <= i2 < n - 1,
                    0 <= j2 < cols,
            ;
            assert(rows[i2][j2] == arr[i2 * cols + j2]);
        }
        lemma_flatten_of_rectangular(head, n - 1, cols, front);
        head.lemma_flatten_push(rows.last());
        assert(head.push(rows.last()) =~= rows);
        assert(front + rows.last() =~= arr) by {
            assert forall|j: int| 0 <= j < cols implies #[trigger] rows[n - 1][j] == arr[(n - 1)
                * cols + j] by {}
        }
    }
}

} // verus!
