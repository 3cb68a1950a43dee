//! Walking the lines of a source: skipping rows, reading rows, and finding
//! the start of the row that an offset lies in.

use crate::csv::record::{parse_line_spec, CsvRecord};
use crate::csv::scan::{find_byte, free_of, next_byte, LF};
use vstd::prelude::*;

verus! {

/// How far back a stray offset is taken to the start of its row.
pub const REALIGN_WINDOW: usize = 1024;

/// The texts of a sequence of records.
pub open spec fn record_texts<'a>(records: Seq<CsvRecord<'a>>) -> Seq<Seq<Seq<char>>> {
    Seq::new(records.len(), |i: int| records[i]@)
}

/// The offset reached from `from` after `count` lines: behind the line feed
/// of each; the end of the source where the lines run out.
pub open spec fn skip_lines(s: Seq<u8>, from: int, count: nat) -> int
    decreases count,
{
    if count == 0 || from >= s.len() {
        from
    } else if next_byte(s, LF, from) >= s.len() {
        s.len() as int
    } else {
        skip_lines(s, next_byte(s, LF, from) + 1, (count - 1) as nat)
    }
}

/// The parsed lines that start at `from`, `count` of them at most: each runs
/// up to the next line feed or to the end of the source.
pub open spec fn lines_from(s: Seq<u8>, delimiter: u8, from: int, count: nat) -> Seq<
    Seq<Seq<char>>,
>
    decreases count,
{
    if count == 0 || from >= s.len() || from < 0 {
        Seq::empty()
    } else {
        let end = next_byte(s, LF, from);
        seq![parse_line_spec(s.subrange(from, end), delimiter)] + lines_from(
            s,
            delimiter,
            end + 1,
            (count - 1) as nat,
        )
    }
}

/// The last position in `s[lo..hi)` that holds `needle`, or -1.
pub open spec fn prev_byte(s: Seq<u8>, needle: u8, lo: int, hi: int) -> int
    decreases hi - lo,
{
    if hi <= lo {
        -1
    } else if s[hi - 1] == needle {
        hi - 1
    } else {
        prev_byte(s, needle, lo, hi - 1)
    }
}

/// The start of the row that `off` lies in, as far as the last
/// [`REALIGN_WINDOW`] bytes before `off` show it: behind the last line feed
/// among them, or `off` itself where they hold none.
pub open spec fn realigned(s: Seq<u8>, off: int) -> int {
    let lo = if off > REALIGN_WINDOW {
        off - REALIGN_WINDOW
    } else {
        0
    };
    let p = prev_byte(s, LF, lo, off);
    if p < 0 {
        off
    } else {
        p + 1
    }
}

/// `memchr::memrchr` returns the index of the last occurrence of `needle` in
/// `haystack`, and `None` exactly when the byte does not occur.
pub assume_specification[ memchr::memrchr ](needle: u8, haystack: &[u8]) -> (r: Option<usize>)
    ensures
        match r {
            Some(i) => i < haystack@.len() && haystack@[i as int] == needle && free_of(
                haystack@,
                needle,
                i + 1,
                haystack@.len() as int,
            ),
            None => free_of(haystack@, needle, 0, haystack@.len() as int),
        },
;

/// The last `needle` before `hi` is the one behind which none follows.
proof fn lemma_prev_byte(s: Seq<u8>, needle: u8, lo: int, hi: int, p: int)
    requires
        0 <= lo <= hi,
        p == -1 || (lo <= p < hi && s[p] == needle),
        free_of(s, needle, if p < 0 { lo } else { p + 1 }, hi),
    ensures
        prev_byte(s, needle, lo, hi) == p,
    decreases hi - lo,
{
    if lo < hi {
        if hi - 1 == p {
            assert(s[hi - 1] == needle);
        } else {
            assert(s[hi - 1] != needle);
            lemma_prev_byte(s, needle, lo, hi - 1, p);
        }
    }
}

/// Takes an offset back to the start of its row: see [`realigned`].
pub fn realign(data: &[u8], off: usize) -> (r: usize)
    requires
        off <= data@.len(),
    ensures
        r == realigned(data@, off as int),
        r <= off,
{
    let lo: usize = if off > REALIGN_WINDOW {
        off - REALIGN_WINDOW
    } else {
        0
    };
    let window = vstd::slice::slice_subrange(data, lo, off);
    match memchr::memrchr(LF, window) {
        Some(i) => {
            proof {
                assert(forall|j: int| lo + i < j < off ==> data@[j] == window@[j - lo]);
                lemma_prev_byte(data@, LF, lo as int, off as int, lo + i);
            }
            lo + i + 1
        },
        None => {
            proof {
                assert(forall|j: int| lo <= j < off ==> data@[j] == window@[j - lo]);
                lemma_prev_byte(data@, LF, lo as int, off as int, -1);
            }
            off
        },
    }
}

/// Skips `count` lines from `from` on: see [`skip_lines`].
pub fn skip_rows(data: &[u8], from: usize, count: usize) -> (r: usize)
    requires
        from <= data@.len(),
    ensures
        r == skip_lines(data@, from as int, count as nat),
        from <= r <= data@.len(),
{
    let len: usize = data.len();
    let mut pos: usize = from;
    let mut left: usize = count;
    while left > 0 && pos < len
        invariant
            len == data@.len(),
            from <= pos <= len,
            skip_lines(data@, pos as int, left as nat) == skip_lines(
                data@,
                from as int,
                count as nat,
            ),
        decreases left,
    {
        match find_byte(data, LF, pos) {
            Some(p) => {
                pos = p + 1;
                left = left - 1;
            },
            None => {
                pos = len;
                left = 0;
            },
        }
    }
    pos
}

/// Reads up to `count` lines from `from` on and parses each: see
/// [`lines_from`]. The records borrow from `data` where they can.
pub fn read_rows<'a>(data: &'a [u8], delimiter: u8, from: usize, count: usize) -> (r: Vec<
    CsvRecord<'a>,
>)
    requires
        from <= data@.len(),
    ensures
        record_texts(r@) == lines_from(data@, delimiter, from as int, count as nat),
        r@.len() <= count,
{
    let len: usize = data.len();
    let mut records: Vec<CsvRecord<'a>> = Vec::new();
    let mut pos: usize = from;
    let mut left: usize = count;
    assert(record_texts(records@) + lines_from(data@, delimiter, pos as int, left as nat)
        =~= lines_from(data@, delimiter, from as int, count as nat));
    while left > 0 && pos < len
        invariant
            len == data@.len(),
            from <= pos <= len,
            records@.len() + left <= count,
            record_texts(records@) + lines_from(data@, delimiter, pos as int, left as nat)
                == lines_from(data@, delimiter, from as int, count as nat),
        decreases left,
    {
        let end: usize = match find_byte(data, LF, pos) {
            Some(p) => p,
            None => len,
        };
        let line = vstd::slice::slice_subrange(data, pos, end);
        let record = CsvRecord::parse_line(line, delimiter);
        let ghost before = record_texts(records@);
        let ghost rest = lines_from(data@, delimiter, end + 1, (left - 1) as nat);
        records.push(record);
        proof {
            assert(record_texts(records@) =~= before.push(record@));
            assert(before + (seq![record@] + rest) =~= before.push(record@) + rest);
        }
        pos = if end < len {
            end + 1
        } else {
            len
        };
        left = left - 1;
    }
    proof {
        assert(lines_from(data@, delimiter, pos as int, left as nat) =~= Seq::<
            Seq<Seq<char>>,
        >::empty());
        assert(record_texts(records@) + Seq::<Seq<Seq<char>>>::empty() =~= record_texts(
            records@,
        ));
    }
    records
}

} // verus!
