//! Byte scanning: where the line feeds are.

use vstd::prelude::*;

verus! {

/// The record separator.
pub const LF: u8 = 0x0A;

/// How many times `needle` occurs in `s[lo..hi)`.
pub open spec fn count_byte(s: Seq<u8>, needle: u8, lo: int, hi: int) -> nat
    decreases hi - lo,
{
    if hi <= lo {
        0
    } else {
        count_byte(s, needle, lo, hi - 1) + if s[hi - 1] == needle {
            1nat
        } else {
            0nat
        }
    }
}

/// How many line feeds `s[lo..hi)` holds.
pub open spec fn count_newlines(s: Seq<u8>, lo: int, hi: int) -> nat {
    count_byte(s, LF, lo, hi)
}

/// The positions of `needle` in `s[lo..hi)`, in increasing order.
pub open spec fn positions_of(s: Seq<u8>, needle: u8, lo: int, hi: int) -> Seq<usize>
    decreases hi - lo,
{
    if hi <= lo {
        Seq::empty()
    } else if s[hi - 1] == needle {
        positions_of(s, needle, lo, hi - 1).push((hi - 1) as usize)
    } else {
        positions_of(s, needle, lo, hi - 1)
    }
}

/// `s[lo..hi)` holds no `needle`.
pub open spec fn free_of(s: Seq<u8>, needle: u8, lo: int, hi: int) -> bool {
    forall|j: int| lo <= j < hi ==> s[j] != needle
}

/// The first position at or after `from` that holds `needle`, or the length
/// of `s` where none does.
pub open spec fn next_byte(s: Seq<u8>, needle: u8, from: int) -> int
    decreases s.len() - from,
{
    if from >= s.len() {
        s.len() as int
    } else if s[from] == needle {
        from
    } else {
        next_byte(s, needle, from + 1)
    }
}

/// `memchr::memchr` returns the index of the first occurrence of `needle` in
/// `haystack`, and `None` exactly when the byte does not occur.
pub assume_specification[ memchr::memchr ](needle: u8, haystack: &[u8]) -> (r: Option<usize>)
    ensures
        match r {
            Some(i) => i < haystack@.len() && haystack@[i as int] == needle && free_of(
                haystack@,
                needle,
                0,
                i as int,
            ),
            None => free_of(haystack@, needle, 0, haystack@.len() as int),
        },
;

pub proof fn lemma_count_split(s: Seq<u8>, needle: u8, lo: int, mid: int, hi: int)
    requires
        lo <= mid <= hi,
    ensures
        count_byte(s, needle, lo, hi) == count_byte(s, needle, lo, mid) + count_byte(
            s,
            needle,
            mid,
            hi,
        ),
    decreases hi - mid,
{
    if mid < hi {
        lemma_count_split(s, needle, lo, mid, hi - 1);
    }
}

pub proof fn lemma_count_free(s: Seq<u8>, needle: u8, lo: int, hi: int)
    requires
        free_of(s, needle, lo, hi),
    ensures
        count_byte(s, needle, lo, hi) == 0,
    decreases hi - lo,
{
    if lo < hi {
        lemma_count_free(s, needle, lo, hi - 1);
    }
}

/// A position that holds `needle`, with none before it from `from` on, is the
/// next one; and where nothing from `from` on holds it, the next one is the end.
pub proof fn lemma_next_byte(s: Seq<u8>, needle: u8, from: int, p: int)
    requires
        0 <= from <= p <= s.len(),
        free_of(s, needle, from, p),
        p == s.len() || s[p] == needle,
    ensures
        next_byte(s, needle, from) == p,
    decreases p - from,
{
    if from < p {
        lemma_next_byte(s, needle, from + 1, p);
    }
}

/// What the next position is: nothing between `from` and it holds the byte,
/// and it holds the byte unless it is the end.
pub proof fn lemma_next_byte_facts(s: Seq<u8>, needle: u8, from: int)
    requires
        0 <= from <= s.len(),
    ensures
        from <= next_byte(s, needle, from) <= s.len(),
        free_of(s, needle, from, next_byte(s, needle, from)),
        next_byte(s, needle, from) < s.len() ==> s[next_byte(s, needle, from)] == needle,
    decreases s.len() - from,
{
    if from < s.len() && s[from] != needle {
        lemma_next_byte_facts(s, needle, from + 1);
    }
}

/// The first `needle` in `data[from..to)`, found with `memchr`. A bound
/// beyond the data counts as its end.
pub fn find_byte_in(data: &[u8], needle: u8, from: usize, to: usize) -> (r: Option<usize>)
    ensures
        match r {
            Some(p) => from <= p < to && p < data@.len() && data@[p as int] == needle && free_of(
                data@,
                needle,
                from as int,
                p as int,
            ),
            None => forall|j: int| from <= j < to && j < data@.len() ==> data@[j] != needle,
        },
{
    let end: usize = if to < data.len() {
        to
    } else {
        data.len()
    };
    if from >= end {
        return None;
    }
    let part = vstd::slice::slice_subrange(data, from, end);
    match memchr::memchr(needle, part) {
        Some(i) => {
            assert(forall|j: int| from <= j < from + i ==> data@[j] == part@[j - from]);
            Some(from + i)
        },
        None => {
            assert(forall|j: int| from <= j < end ==> data@[j] == part@[j - from]);
            None
        },
    }
}

/// The first `needle` at or after `from`.
pub fn find_byte(data: &[u8], needle: u8, from: usize) -> (r: Option<usize>)
    ensures
        match r {
            Some(p) => from <= p < data@.len() && data@[p as int] == needle && free_of(
                data@,
                needle,
                from as int,
                p as int,
            ) && next_byte(data@, needle, from as int) == p,
            None => free_of(data@, needle, from as int, data@.len() as int) && next_byte(
                data@,
                needle,
                from as int,
            ) == data@.len(),
        },
{
    let r = find_byte_in(data, needle, from, data.len());
    proof {
        match r {
            Some(p) => {
                lemma_next_byte(data@, needle, from as int, p as int);
            },
            None => {
                if from <= data@.len() {
                    lemma_next_byte(data@, needle, from as int, data@.len() as int);
                }
            },
        }
    }
    r
}

/// Positions are additive over adjacent ranges.
pub proof fn lemma_positions_split(s: Seq<u8>, needle: u8, lo: int, mid: int, hi: int)
    requires
        lo <= mid <= hi,
    ensures
        positions_of(s, needle, lo, hi) == positions_of(s, needle, lo, mid) + positions_of(
            s,
            needle,
            mid,
            hi,
        ),
    decreases hi - mid,
{
    if mid < hi {
        lemma_positions_split(s, needle, lo, mid, hi - 1);
        assert(positions_of(s, needle, lo, hi) =~= positions_of(s, needle, lo, mid)
            + positions_of(s, needle, mid, hi));
    } else {
        assert(positions_of(s, needle, lo, hi) =~= positions_of(s, needle, lo, mid)
            + positions_of(s, needle, mid, hi));
    }
}

/// A range without the byte has no positions.
pub proof fn lemma_positions_free(s: Seq<u8>, needle: u8, lo: int, hi: int)
    requires
        free_of(s, needle, lo, hi),
    ensures
        positions_of(s, needle, lo, hi) == Seq::<usize>::empty(),
    decreases hi - lo,
{
    if lo < hi {
        lemma_positions_free(s, needle, lo, hi - 1);
    }
}

/// What the positions are: as many as the byte occurs, each inside the
/// range and holding the byte, each preceded in the range by as many
/// occurrences as its rank says, and strictly increasing.
pub proof fn lemma_positions_facts(s: Seq<u8>, needle: u8, lo: int, hi: int)
    requires
        0 <= lo,
        hi <= usize::MAX,
    ensures
        positions_of(s, needle, lo, hi).len() == count_byte(s, needle, lo, hi),
        forall|k: int|
            #![trigger positions_of(s, needle, lo, hi)[k]]
            0 <= k < positions_of(s, needle, lo, hi).len() ==> {
                let p = positions_of(s, needle, lo, hi)[k];
                &&& lo <= p < hi
                &&& s[p as int] == needle
                &&& count_byte(s, needle, lo, p as int) == k
                &&& (k > 0 ==> positions_of(s, needle, lo, hi)[k - 1] < p)
            },
    decreases hi - lo,
{
    if lo < hi {
        lemma_positions_facts(s, needle, lo, hi - 1);
        let prev = positions_of(s, needle, lo, hi - 1);
        let all = positions_of(s, needle, lo, hi);
        assert forall|k: int| #![trigger all[k]] 0 <= k < all.len() implies {
            let p = all[k];
            &&& lo <= p < hi
            &&& s[p as int] == needle
            &&& count_byte(s, needle, lo, p as int) == k
            &&& (k > 0 ==> all[k - 1] < p)
        } by {
            if k < prev.len() {
                assert(all[k] == prev[k]);
                if k > 0 {
                    assert(all[k - 1] == prev[k - 1]);
                }
            } else {
                if k > 0 {
                    assert(all[k - 1] == prev[k - 1]);
                }
            }
        }
    }
}

/// The positions of every line feed in `data[lo..hi)`, in increasing order.
/// A bound beyond the data counts as its end.
pub fn newlines_in(data: &[u8], lo: usize, hi: usize) -> (r: Vec<usize>)
    ensures
        r@ == positions_of(
            data@,
            LF,
            lo as int,
            if hi < data@.len() {
                hi as int
            } else {
                data@.len() as int
            },
        ),
{
    let end: usize = if hi < data.len() {
        hi
    } else {
        data.len()
    };
    let mut out: Vec<usize> = Vec::new();
    if lo >= end {
        return out;
    }
    let mut pos: usize = lo;
    while pos < end
        invariant
            lo <= pos <= end <= data@.len(),
            out@ == positions_of(data@, LF, lo as int, pos as int),
        decreases end - pos,
    {
        match find_byte_in(data, LF, pos, end) {
            Some(p) => {
                proof {
                    lemma_positions_split(data@, LF, lo as int, pos as int, p as int);
                    lemma_positions_free(data@, LF, pos as int, p as int);
                    assert(positions_of(data@, LF, lo as int, p as int) =~= out@);
                }
                out.push(p);
                pos = p + 1;
            },
            None => {
                proof {
                    lemma_positions_split(data@, LF, lo as int, pos as int, end as int);
                    lemma_positions_free(data@, LF, pos as int, end as int);
                    assert(positions_of(data@, LF, lo as int, end as int) =~= out@);
                }
                pos = end;
            },
        }
    }
    out
}

/// A byte occurs in a range no more often than the range is long.
pub proof fn lemma_count_bound(s: Seq<u8>, needle: u8, lo: int, hi: int)
    requires
        lo <= hi,
    ensures
        count_byte(s, needle, lo, hi) <= hi - lo,
    decreases hi - lo,
{
    if lo < hi {
        lemma_count_bound(s, needle, lo, hi - 1);
    }
}

/// Positions increase with their rank.
pub proof fn lemma_positions_sorted(s: Seq<u8>, needle: u8, lo: int, hi: int, i: int, j: int)
    requires
        0 <= lo,
        hi <= usize::MAX,
        0 <= i < j < positions_of(s, needle, lo, hi).len(),
    ensures
        positions_of(s, needle, lo, hi)[i] < positions_of(s, needle, lo, hi)[j],
    decreases j - i,
{
    lemma_positions_facts(s, needle, lo, hi);
    if i + 1 < j {
        lemma_positions_sorted(s, needle, lo, hi, i, j - 1);
    }
}

/// The position of every line feed in `bytes`, in increasing order.
pub fn find_newlines(bytes: &[u8]) -> (r: Vec<usize>)
    ensures
        r@ == positions_of(bytes@, LF, 0, bytes@.len() as int),
{
    newlines_in(bytes, 0, bytes.len())
}

} // verus!
