//! The row estimator: how many data rows a source holds, judged from a
//! sample of its first bytes, or counted where the source is small.

use crate::csv::index::{data_start, data_start_of, total_rows_of, RowIndex};
use crate::csv::scan::{
    count_newlines, find_byte_in, lemma_count_free, lemma_count_split, LF,
};
use vstd::prelude::*;

verus! {

/// Sources below this size are sampled with [`SMALL_SAMPLE`] bytes.
pub const SMALL_FILE: usize = 10 * 1024 * 1024;

/// Sources below this size, and not small, are sampled with
/// [`MEDIUM_SAMPLE`] bytes; larger ones with [`LARGE_SAMPLE`] bytes.
pub const MEDIUM_FILE: usize = 100 * 1024 * 1024;

/// The sample taken of a small source.
pub const SMALL_SAMPLE: usize = 256 * 1024;

/// The sample taken of a medium source.
pub const MEDIUM_SAMPLE: usize = 128 * 1024;

/// The sample taken of a large source.
pub const LARGE_SAMPLE: usize = 64 * 1024;

/// What the estimator found.
#[derive(Debug, Clone, Copy)]
pub struct RowEstimate {
    /// The number of data rows, estimated or counted.
    pub estimated_rows: usize,
    /// Whether the number was counted over the whole source.
    pub is_exact: bool,
    /// How many bytes were looked at.
    pub sampled_bytes: usize,
    /// The size of the source.
    pub total_bytes: usize,
}

/// The sample size for a source of `file_size` bytes.
pub open spec fn sample_budget_of(file_size: int) -> int {
    if file_size < SMALL_FILE {
        SMALL_SAMPLE as int
    } else if file_size < MEDIUM_FILE {
        MEDIUM_SAMPLE as int
    } else {
        LARGE_SAMPLE as int
    }
}

/// The quotient of `a` by `b`, rounded up.
pub open spec fn ceil_div(a: int, b: int) -> int {
    (a + b - 1) / b
}

/// The end of the sample: `budget` bytes into the data region, or the end of
/// the source.
pub open spec fn sample_end_of(s: Seq<u8>, has_headers: bool, budget: int) -> int {
    let ds = data_start_of(s, has_headers);
    if s.len() - ds > budget {
        ds + budget
    } else {
        s.len() as int
    }
}

/// The estimate for `s` with a sample of `budget` bytes. A source no longer
/// than the budget is counted exactly. Otherwise the line feeds `r` among the
/// first `n` bytes of the data region are scaled up to the whole region,
/// rounding up; a sample without a line feed gives one row.
pub open spec fn estimate_of(s: Seq<u8>, has_headers: bool, budget: int) -> RowEstimate {
    let ds = data_start_of(s, has_headers);
    if s.len() <= budget {
        RowEstimate {
            estimated_rows: total_rows_of(s, ds) as usize,
            is_exact: true,
            sampled_bytes: s.len() as usize,
            total_bytes: s.len() as usize,
        }
    } else {
        let end = sample_end_of(s, has_headers, budget);
        let r = count_newlines(s, ds, end);
        let n = end - ds;
        RowEstimate {
            estimated_rows: if r == 0 {
                1
            } else {
                ceil_div((s.len() - ds) * r, n) as usize
            },
            is_exact: false,
            sampled_bytes: n as usize,
            total_bytes: s.len() as usize,
        }
    }
}

/// The sample size for a source of `file_size` bytes.
pub fn sample_budget(file_size: usize) -> (r: usize)
    ensures
        r == sample_budget_of(file_size as int),
{
    if file_size < SMALL_FILE {
        SMALL_SAMPLE
    } else if file_size < MEDIUM_FILE {
        MEDIUM_SAMPLE
    } else {
        LARGE_SAMPLE
    }
}

/// Counts the line feeds in `data[lo..hi)`.
pub fn count_newlines_in(data: &[u8], lo: usize, hi: usize) -> (r: usize)
    requires
        lo <= hi <= data@.len(),
    ensures
        r == count_newlines(data@, lo as int, hi as int),
        r <= hi - lo,
{
    let mut count: usize = 0;
    let mut pos: usize = lo;
    while pos < hi
        invariant
            lo <= pos <= hi <= data@.len(),
            count == count_newlines(data@, lo as int, pos as int),
            count <= pos - lo,
        decreases hi - pos,
    {
        match find_byte_in(data, LF, pos, hi) {
            Some(p) => {
                proof {
                    lemma_count_split(data@, LF, lo as int, pos as int, p as int);
                    lemma_count_free(data@, LF, pos as int, p as int);
                }
                count = count + 1;
                pos = p + 1;
            },
            None => {
                proof {
                    lemma_count_split(data@, LF, lo as int, pos as int, hi as int);
                    lemma_count_free(data@, LF, pos as int, hi as int);
                }
                pos = hi;
            },
        }
    }
    count
}

/// Counts the data rows of `data` exactly.
pub fn count_rows_exact(data: &[u8], has_headers: bool) -> (r: usize)
    ensures
        r == total_rows_of(data@, data_start_of(data@, has_headers)),
{
    let ds = data_start(data, has_headers);
    let len: usize = data.len();
    if ds < len && data[len - 1] != LF {
        let terminated = count_newlines_in(data, ds, len - 1);
        terminated + 1
    } else {
        count_newlines_in(data, ds, len)
    }
}

/// A rounded-up share of `a` is not more than `a`.
proof fn lemma_scaled_estimate(a: int, r: int, n: int)
    requires
        0 <= a,
        0 < r <= n,
    ensures
        0 <= a * r,
        1 <= ceil_div(a * r, n) || a == 0,
        0 <= ceil_div(a * r, n) <= a,
{
    vstd::arithmetic::mul::lemma_mul_nonnegative(a, r);
    vstd::arithmetic::mul::lemma_mul_inequality(r, n, a);
    assert(a * r <= a * n) by {
        vstd::arithmetic::mul::lemma_mul_is_commutative(a, r);
        vstd::arithmetic::mul::lemma_mul_is_commutative(a, n);
    }
    vstd::arithmetic::div_mod::lemma_div_is_ordered(a * r + n - 1, a * n + n - 1, n);
    vstd::arithmetic::div_mod::lemma_div_multiples_vanish_fancy(a, n - 1, n);
    assert(n * a == a * n) by {
        vstd::arithmetic::mul::lemma_mul_is_commutative(a, n);
    }
    vstd::arithmetic::div_mod::lemma_div_is_ordered(0, a * r + n - 1, n);
    assert(0int / n == 0) by {
        vstd::arithmetic::div_mod::lemma_div_multiples_vanish_fancy(0, 0, n);
        assert(n * 0 + 0 == 0);
    }
    if a > 0 {
        vstd::arithmetic::mul::lemma_mul_inequality(1, a, r);
        assert(1 * r == r);
        assert(a * r >= r) by {
            vstd::arithmetic::mul::lemma_mul_is_commutative(a, r);
        }
        vstd::arithmetic::div_mod::lemma_div_is_ordered(n, a * r + n - 1, n);
        assert(n / n == 1) by {
            vstd::arithmetic::div_mod::lemma_div_multiples_vanish_fancy(1, 0, n);
            assert(n * 1 + 0 == n);
        }
    }
}

impl RowIndex {
    /// Estimates the number of data rows of `data` from its first
    /// `sample_size` bytes; counts them where the source is not longer than
    /// that. Of a sampled source no more than `sample_size` bytes of the data
    /// region are looked at.
    pub fn estimate_rows(data: &[u8], has_headers: bool, sample_size: usize) -> (r: RowEstimate)
        ensures
            r == estimate_of(data@, has_headers, sample_size as int),
            !r.is_exact ==> r.sampled_bytes <= sample_size,
            r.is_exact <==> data@.len() <= sample_size,
    {
        let total_bytes: usize = data.len();
        if total_bytes <= sample_size {
            let exact = count_rows_exact(data, has_headers);
            return RowEstimate {
                estimated_rows: exact,
                is_exact: true,
                sampled_bytes: total_bytes,
                total_bytes,
            };
        }
        let ds = data_start(data, has_headers);
        let sample_end: usize = if total_bytes - ds > sample_size {
            ds + sample_size
        } else {
            total_bytes
        };
        let sample_rows = count_newlines_in(data, ds, sample_end);
        let sampled_bytes: usize = sample_end - ds;
        if sample_rows == 0 {
            return RowEstimate { estimated_rows: 1, is_exact: false, sampled_bytes, total_bytes };
        }
        let data_bytes: u128 = (total_bytes - ds) as u128;
        let rows: u128 = sample_rows as u128;
        let size: u128 = sampled_bytes as u128;
        proof {
            lemma_scaled_estimate(data_bytes as int, rows as int, size as int);
            vstd::arithmetic::mul::lemma_mul_upper_bound(
                data_bytes as int,
                0xffff_ffff_ffff_ffff,
                rows as int,
                0xffff_ffff_ffff_ffff,
            );
            assert(0xffff_ffff_ffff_ffff * 0xffff_ffff_ffff_ffff + 0xffff_ffff_ffff_ffff
                < 0xffff_ffff_ffff_ffff_ffff_ffff_ffff_ffff) by (nonlinear_arith);
        }
        let estimated: u128 = (data_bytes * rows + size - 1) / size;
        RowEstimate {
            estimated_rows: estimated as usize,
            is_exact: false,
            sampled_bytes,
            total_bytes,
        }
    }
}

} // verus!
