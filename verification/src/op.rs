//! Row partitioning for parallel sparse matrix products.

use vstd::prelude::*;

verus! {

/// Number of row chunks to use: the requested thread count, but never more
/// than the number of rows (an empty matrix still gets one chunk).
pub fn thread_count(requested: usize, nrows: usize) -> (n_threads: usize)
    requires
        requested > 0,
    ensures
        n_threads == vstd::math::min(requested as int, vstd::math::max(nrows as int, 1)),
        1 <= n_threads,
{
    let rows = if nrows > 1 { nrows } else { 1 };
    if requested < rows { requested } else { rows }
}

/// Rows per chunk when `nrows` rows are split over `n_threads` chunks: the
/// rows, at least one, divided by the thread count and rounded up.
pub fn row_chunk_size(nrows: usize, n_threads: usize) -> (chunk: usize)
    requires
        n_threads > 0,
    ensures
        chunk == (vstd::math::max(nrows as int, 1) + n_threads - 1) / (n_threads as int),
{
    let rows = if nrows > 1 { nrows } else { 1 };
    let whole = rows / n_threads;
    proof {
        lemma_quotient_below(rows as int, n_threads as int);
    }
    let chunk = if rows % n_threads == 0 { whole } else { whole + 1 };
    proof {
        lemma_div_ceil(rows as int, n_threads as int);
    }
    chunk
}

proof fn lemma_quotient_below(m: int, n: int)
    by (nonlinear_arith)
    requires
        m >= 1,
        n > 0,
    ensures
        m % n != 0 ==> m / n < m,
{
    vstd::arithmetic::div_mod::lemma_fundamental_div_mod(m, n);
    if m % n != 0 {
    }
}

proof fn lemma_div_ceil(m: int, n: int)
    by (nonlinear_arith)
    requires
        m >= 0,
        n > 0,
    ensures
        (m + n - 1) / n == m / n + if m % n == 0 {
            0int
        } else {
            1int
        },
{
    vstd::arithmetic::div_mod::lemma_fundamental_div_mod(m, n);
    vstd::arithmetic::div_mod::lemma_fundamental_div_mod(m + n - 1, n);
}

/// Splitting rows into chunks of `row_chunk_size` puts every row in a chunk
/// whose index is below the thread count, and uses at least one row per chunk.
pub proof fn law_row_chunks_cover_rows(nrows: usize, requested: usize)
    requires
        requested > 0,
    ensures
        ({
            let n_threads = vstd::math::min(requested as int, vstd::math::max(nrows as int, 1));
            let chunk = (vstd::math::max(nrows as int, 1) + n_threads - 1) / n_threads;
            &&& chunk >= 1
            &&& chunk * n_threads >= nrows
            &&& forall|row: int| 0 <= row < nrows ==> #[trigger] (row / chunk) < n_threads
        }),
{
    let n_threads = vstd::math::min(requested as int, vstd::math::max(nrows as int, 1));
    let rows = vstd::math::max(nrows as int, 1);
    let chunk = (rows + n_threads - 1) / n_threads;
    lemma_chunk_bounds(rows, n_threads);
    assert forall|row: int| 0 <= row < nrows implies #[trigger] (row / chunk) < n_threads by {
        lemma_row_in_chunk(row, chunk, n_threads);
    }
}

proof fn lemma_chunk_bounds(rows: int, n_threads: int)
    by (nonlinear_arith)
    requires
        rows >= 1,
        1 <= n_threads <= rows,
    ensures
        (rows + n_threads - 1) / n_threads >= 1,
        ((rows + n_threads - 1) / n_threads) * n_threads >= rows,
{
    vstd::arithmetic::div_mod::lemma_fundamental_div_mod(rows + n_threads - 1, n_threads);
}

proof fn lemma_row_in_chunk(row: int, chunk: int, n_threads: int)
    by (nonlinear_arith)
    requires
        0 <= row,
        chunk >= 1,
        row < chunk * n_threads,
    ensures
        row / chunk < n_threads,
{
    vstd::arithmetic::div_mod::lemma_fundamental_div_mod(row, chunk);
}

} // verus!
