//! Scanning a large source in chunks, one worker for each chunk.

use crate::csv::scan::{lemma_positions_split, newlines_in, positions_of, LF};
use rayon::iter::{IntoParallelRefIterator, ParallelIterator};
use vstd::prelude::*;

verus! {

/// No chunk is shorter than this, however many workers there are.
pub const MIN_CHUNK: usize = 1024 * 1024;

/// `chunks` cuts `[lo, hi)` into adjacent, non-empty pieces, in order.
pub open spec fn is_partition(chunks: Seq<(usize, usize)>, lo: int, hi: int) -> bool {
    &&& lo <= hi
    &&& chunks.len() == 0 <==> lo == hi
    &&& chunks.len() > 0 ==> chunks[0].0 == lo && chunks[chunks.len() - 1].1 == hi
    &&& forall|i: int| 0 <= i < chunks.len() ==> (#[trigger] chunks[i]).0 < chunks[i].1
    &&& forall|i: int| 0 <= i < chunks.len() - 1 ==> (#[trigger] chunks[i]).1 == chunks[i + 1].0
}

/// The size of each chunk but the last when `[lo, hi)` is shared among
/// `workers`: an equal share, and not less than [`MIN_CHUNK`].
pub open spec fn chunk_size(lo: int, hi: int, workers: int) -> int {
    if (hi - lo) / workers > MIN_CHUNK {
        (hi - lo) / workers
    } else {
        MIN_CHUNK as int
    }
}

/// `rayon::current_num_threads` answers with the size of the thread pool in
/// use. It depends on the machine, so nothing is claimed of the number.
#[verifier::external_body]
fn worker_count() -> usize {
    rayon::current_num_threads()
}

/// Cuts `[lo, hi)` into chunks of [`chunk_size`] bytes, the last one taking
/// what is left.
pub fn plan_chunks(lo: usize, hi: usize, workers: usize) -> (r: Vec<(usize, usize)>)
    requires
        lo <= hi,
        workers > 0,
    ensures
        is_partition(r@, lo as int, hi as int),
        forall|i: int|
            0 <= i < r@.len() - 1 ==> (#[trigger] r@[i]).1 - r@[i].0 == chunk_size(
                lo as int,
                hi as int,
                workers as int,
            ),
        r@.len() > 0 ==> r@[r@.len() - 1].1 - r@[r@.len() - 1].0 <= chunk_size(
            lo as int,
            hi as int,
            workers as int,
        ),
{
    let share: usize = (hi - lo) / workers;
    let size: usize = if share > MIN_CHUNK {
        share
    } else {
        MIN_CHUNK
    };
    let mut chunks: Vec<(usize, usize)> = Vec::new();
    let mut pos: usize = lo;
    while pos < hi
        invariant
            lo <= pos <= hi,
            size > 0,
            size == chunk_size(lo as int, hi as int, workers as int),
            chunks@.len() == 0 <==> pos == lo,
            chunks@.len() > 0 ==> chunks@[0].0 == lo && chunks@[chunks@.len() - 1].1 == pos,
            forall|i: int| 0 <= i < chunks@.len() ==> (#[trigger] chunks@[i]).0 < chunks@[i].1,
            forall|i: int|
                0 <= i < chunks@.len() - 1 ==> (#[trigger] chunks@[i]).1 == chunks@[i + 1].0,
            forall|i: int| 0 <= i < chunks@.len() ==> (#[trigger] chunks@[i]).1 <= pos,
            forall|i: int|
                0 <= i < chunks@.len() ==> (#[trigger] chunks@[i]).1 - chunks@[i].0 == size || (
                chunks@[i].1 == hi && chunks@[i].1 - chunks@[i].0 <= size),
        decreases hi - pos,
    {
        let end: usize = if hi - pos > size {
            pos + size
        } else {
            hi
        };
        chunks.push((pos, end));
        pos = end;
    }
    proof {
        assert forall|i: int| 0 <= i < chunks@.len() - 1 implies (#[trigger] chunks@[i]).1
            - chunks@[i].0 == size by {
            assert(chunks@[i].1 == chunks@[i + 1].0);
            assert(chunks@[i + 1].0 < chunks@[i + 1].1);
        }
    }
    chunks
}

/// Scans every chunk for line feeds, the chunks shared among the workers of
/// the `rayon` thread pool. `par_iter().map(..).collect()` hands back one
/// result for each chunk, in the order of the chunks, and each result is what
/// [`newlines_in`] finds in that chunk.
#[verifier::external_body]
fn scan_chunks(data: &[u8], chunks: &Vec<(usize, usize)>) -> (r: Vec<Vec<usize>>)
    ensures
        r@.len() == chunks@.len(),
        forall|i: int|
            0 <= i < r@.len() ==> (#[trigger] r@[i])@ == positions_of(
                data@,
                LF,
                chunks@[i].0 as int,
                if chunks@[i].1 < data@.len() {
                    chunks@[i].1 as int
                } else {
                    data@.len() as int
                },
            ),
{
    chunks.par_iter().map(|c| newlines_in(data, c.0, c.1)).collect()
}

/// The positions of every line feed in `data[lo..)`, found chunk by chunk
/// with one worker for each chunk, and put together in the order of the
/// chunks.
pub fn parallel_newlines(data: &[u8], lo: usize) -> (r: Vec<usize>)
    requires
        lo <= data@.len(),
    ensures
        r@ == positions_of(data@, LF, lo as int, data@.len() as int),
{
    let pool: usize = worker_count();
    let workers: usize = if pool == 0 {
        1
    } else {
        pool
    };
    let chunks = plan_chunks(lo, data.len(), workers);
    let parts = scan_chunks(data, &chunks);
    let mut all: Vec<usize> = Vec::new();
    let mut i: usize = 0;
    let ghost mut upto: int = lo as int;
    while i < parts.len()
        invariant
            0 <= i <= parts@.len(),
            parts@.len() == chunks@.len(),
            is_partition(chunks@, lo as int, data@.len() as int),
            forall|j: int|
                0 <= j < parts@.len() ==> (#[trigger] parts@[j])@ == positions_of(
                    data@,
                    LF,
                    chunks@[j].0 as int,
                    if chunks@[j].1 < data@.len() {
                        chunks@[j].1 as int
                    } else {
                        data@.len() as int
                    },
                ),
            lo <= upto <= data@.len(),
            i < chunks@.len() ==> upto == chunks@[i as int].0,
            i == chunks@.len() ==> upto == data@.len(),
            all@ == positions_of(data@, LF, lo as int, upto),
        decreases parts@.len() - i,
    {
        let part = &parts[i];
        let ghost c = chunks@[i as int];
        proof {
            assert(c.1 <= data@.len()) by {
                if i < chunks@.len() - 1 {
                    assert(chunks@[i as int].1 == chunks@[i + 1].0);
                    assert(chunks@[i + 1].0 < chunks@[i + 1].1);
                    lemma_chunk_within(chunks@, lo as int, data@.len() as int, i + 1);
                }
            }
            lemma_positions_split(data@, LF, lo as int, c.0 as int, c.1 as int);
        }
        let mut k: usize = 0;
        while k < part.len()
            invariant
                0 <= k <= part@.len(),
                all@ == positions_of(data@, LF, lo as int, upto) + part@.subrange(0, k as int),
            decreases part@.len() - k,
        {
            all.push(part[k]);
            k = k + 1;
            assert(part@.subrange(0, k as int) =~= part@.subrange(0, k - 1).push(part@[k - 1]));
        }
        assert(part@.subrange(0, k as int) =~= part@);
        proof {
            upto = c.1 as int;
        }
        i = i + 1;
    }
    all
}

/// Every chunk of a partition ends inside the range that it cuts.
proof fn lemma_chunk_within(chunks: Seq<(usize, usize)>, lo: int, hi: int, i: int)
    requires
        is_partition(chunks, lo, hi),
        0 <= i < chunks.len(),
    ensures
        lo <= chunks[i].0 < chunks[i].1 <= hi,
    decreases chunks.len() - i,
{
    if i < chunks.len() - 1 {
        lemma_chunk_within(chunks, lo, hi, i + 1);
        assert(chunks[i].1 == chunks[i + 1].0);
    }
    lemma_chunk_after(chunks, lo, hi, i);
}

/// Every chunk of a partition starts at or after the start of the range.
proof fn lemma_chunk_after(chunks: Seq<(usize, usize)>, lo: int, hi: int, i: int)
    requires
        is_partition(chunks, lo, hi),
        0 <= i < chunks.len(),
    ensures
        lo <= chunks[i].0,
    decreases i,
{
    if i > 0 {
        lemma_chunk_after(chunks, lo, hi, i - 1);
        assert(chunks[i - 1].1 == chunks[i].0);
        assert(chunks[i - 1].0 < chunks[i - 1].1);
    }
}

} // verus!
