//! The sparse row index: every `G`-th data row is remembered with the byte
//! offset at which it starts, so that any row can be reached by a short scan.

use crate::csv::chunks::parallel_newlines;
use crate::csv::scan::{
    count_newlines, find_byte, free_of, lemma_count_bound, lemma_count_free,
    lemma_count_split, lemma_next_byte_facts, lemma_positions_facts, lemma_positions_sorted,
    next_byte, positions_of, LF,
};
use crate::csv::signal::{cancel_requested, report_progress};
use crate::error::{CsvError, Result};
use std::sync::atomic::{AtomicBool, AtomicUsize};
use vstd::prelude::*;

verus! {

/// The source starts with the UTF-8 byte order mark.
pub open spec fn has_bom(s: Seq<u8>) -> bool {
    s.len() >= 3 && s[0] == 0xEF && s[1] == 0xBB && s[2] == 0xBF
}

/// Length of the byte order mark at the start of `s`: 3 or 0.
pub open spec fn bom_len(s: Seq<u8>) -> int {
    if has_bom(s) {
        3
    } else {
        0
    }
}

/// Where the data region starts: past the byte order mark and, with headers,
/// past the first line feed. A header line that no line feed ends is itself
/// taken as data.
pub open spec fn data_start_of(s: Seq<u8>, has_headers: bool) -> int {
    let b = bom_len(s);
    if has_headers && next_byte(s, LF, b) < s.len() {
        next_byte(s, LF, b) + 1
    } else {
        b
    }
}

/// `off` is the first byte of the data row with 0-based number `k`: it lies
/// in the data region, directly behind a line feed or at the region's start,
/// and exactly `k` line feeds precede it in the region.
pub open spec fn is_row_start(s: Seq<u8>, ds: int, k: int, off: int) -> bool {
    &&& 0 <= ds <= off <= s.len()
    &&& (off == ds || s[off - 1] == LF)
    &&& count_newlines(s, ds, off) == k
}

/// The number of data rows that a line feed ends.
pub open spec fn terminated_rows(s: Seq<u8>, ds: int) -> nat {
    count_newlines(s, ds, s.len() as int)
}

/// The number of data rows: those that a line feed ends, and one more where
/// bytes follow the last line feed.
pub open spec fn total_rows_of(s: Seq<u8>, ds: int) -> nat {
    terminated_rows(s, ds) + if ds < s.len() && s[s.len() - 1] != LF {
        1nat
    } else {
        0nat
    }
}

/// The mathematical content of a [`RowIndex`].
#[verifier::ext_equal]
pub struct RowIndexView {
    pub offsets: Seq<u64>,
    pub row_numbers: Seq<usize>,
    pub granularity: usize,
    pub total_rows: usize,
    pub is_complete: bool,
    pub indexed_bytes: u64,
    pub data_start: u64,
}

impl RowIndexView {
    /// The invariant of every index, whatever it was built from: anchors
    /// strictly increase in both coordinates, every anchor row is a positive
    /// multiple of the granularity, and nothing points past what was scanned.
    pub open spec fn wf(self) -> bool {
        &&& self.granularity > 0
        &&& self.offsets.len() == self.row_numbers.len()
        &&& forall|i: int, j: int|
            0 <= i < j < self.row_numbers.len() ==> self.row_numbers[i] < self.row_numbers[j]
        &&& forall|i: int, j: int|
            0 <= i < j < self.offsets.len() ==> self.offsets[i] < self.offsets[j]
        &&& forall|i: int|
            #![trigger self.row_numbers[i]]
            0 <= i < self.row_numbers.len() ==> 0 < self.row_numbers[i]
                <= self.total_rows && self.row_numbers[i] as int % self.granularity as int == 0
        &&& forall|i: int|
            #![trigger self.offsets[i]]
            0 <= i < self.offsets.len() ==> self.data_start <= self.offsets[i]
                < self.indexed_bytes
        &&& self.data_start <= self.indexed_bytes
        &&& self.total_rows <= self.indexed_bytes - self.data_start
    }

    /// The index is the one that scanning `s` from `ds` produces: anchor `i`
    /// is row number `(i + 1) * G` with the offset at which that row starts.
    /// A complete index covers the whole of `s` and counts its rows exactly; a
    /// partial one stops at the start of the row that follows the rows it
    /// counted.
    pub open spec fn describes(self, s: Seq<u8>, ds: int) -> bool {
        &&& self.wf()
        &&& self.data_start == ds
        &&& 0 <= ds <= s.len()
        &&& if self.is_complete {
            &&& self.indexed_bytes == s.len()
            &&& self.total_rows == total_rows_of(s, ds)
            &&& self.row_numbers.len() == terminated_rows(s, ds) / self.granularity as nat
        } else {
            &&& is_row_start(s, ds, self.total_rows as int, self.indexed_bytes as int)
            &&& self.row_numbers.len() == self.total_rows as nat / self.granularity as nat
        }
        &&& forall|i: int|
            #![trigger self.row_numbers[i]]
            0 <= i < self.row_numbers.len() ==> self.row_numbers[i] == (i + 1)
                * self.granularity
        &&& forall|i: int|
            #![trigger self.offsets[i]]
            0 <= i < self.offsets.len() ==> is_row_start(
                s,
                ds,
                (i + 1) * self.granularity - 1,
                self.offsets[i] as int,
            )
    }
}

/// A sparse index over the data rows of one source.
#[derive(Debug)]
pub struct RowIndex {
    offsets: Vec<u64>,
    row_numbers: Vec<usize>,
    granularity: usize,
    total_rows: usize,
    is_complete: bool,
    indexed_bytes: u64,
    data_start: u64,
}

impl View for RowIndex {
    type V = RowIndexView;

    closed spec fn view(&self) -> RowIndexView {
        RowIndexView {
            offsets: self.offsets@,
            row_numbers: self.row_numbers@,
            granularity: self.granularity,
            total_rows: self.total_rows,
            is_complete: self.is_complete,
            indexed_bytes: self.indexed_bytes,
            data_start: self.data_start,
        }
    }
}

proof fn lemma_div_step(c: int, g: int)
    requires
        c >= 1,
        g > 0,
    ensures
        c % g == 0 ==> c / g == (c - 1) / g + 1 && (c / g) * g == c,
        c % g != 0 ==> c / g == (c - 1) / g,
{
    vstd::arithmetic::div_mod::lemma_fundamental_div_mod(c, g);
    vstd::arithmetic::div_mod::lemma_fundamental_div_mod(c - 1, g);
    vstd::arithmetic::div_mod::lemma_mod_bound(c, g);
    vstd::arithmetic::div_mod::lemma_mod_bound(c - 1, g);
    let q = c / g;
    let p = (c - 1) / g;
    assert(g * q + c % g == g * p + (c - 1) % g + 1);
    assert(q == p || q == p + 1) by (nonlinear_arith)
        requires
            g > 0,
            0 <= c % g < g,
            0 <= (c - 1) % g < g,
            g * q + c % g == g * p + (c - 1) % g + 1,
    ;
    if q == p + 1 {
        assert(c % g == 0) by (nonlinear_arith)
            requires
                g > 0,
                0 <= c % g < g,
                0 <= (c - 1) % g < g,
                q == p + 1,
                g * q + c % g == g * p + (c - 1) % g + 1,
        ;
    } else {
        assert(c % g != 0) by (nonlinear_arith)
            requires
                g > 0,
                0 <= c % g < g,
                0 <= (c - 1) % g < g,
                q == p,
                g * q + c % g == g * p + (c - 1) % g + 1,
        ;
    }
    assert(c % g == 0 ==> q * g == c) by (nonlinear_arith)
        requires
            c == g * q + c % g,
    ;
}

proof fn lemma_div_bounds(x: int, g: int)
    requires
        x >= 0,
        g > 0,
    ensures
        (x / g) * g <= x < (x / g + 1) * g,
{
    vstd::arithmetic::div_mod::lemma_fundamental_div_mod(x, g);
    vstd::arithmetic::div_mod::lemma_mod_bound(x, g);
    assert((x / g) * g == g * (x / g)) by (nonlinear_arith);
    assert((x / g + 1) * g == g * (x / g) + g) by (nonlinear_arith);
}

/// The length of the byte order mark at the start of `data`: 3 or 0.
pub fn bom_length(data: &[u8]) -> (r: usize)
    ensures
        r == bom_len(data@),
        r <= data@.len(),
{
    if data.len() >= 3 && data[0] == 0xEF && data[1] == 0xBB && data[2] == 0xBF {
        3
    } else {
        0
    }
}

/// Where the data region of `data` starts.
pub fn data_start(data: &[u8], has_headers: bool) -> (r: usize)
    ensures
        r == data_start_of(data@, has_headers),
        r <= data@.len(),
{
    let bom: usize = bom_length(data);
    let len: usize = data.len();
    assert(len == data@.len());
    if has_headers {
        match find_byte(data, LF, bom) {
            Some(p) => p + 1,
            None => bom,
        }
    } else {
        bom
    }
}

impl Clone for RowIndex {
    fn clone(&self) -> (r: Self)
        ensures
            r@ == self@,
    {
        let offsets = self.offsets.clone();
        let row_numbers = self.row_numbers.clone();
        assert(offsets@ =~= self.offsets@);
        assert(row_numbers@ =~= self.row_numbers@);
        RowIndex {
            offsets,
            row_numbers,
            granularity: self.granularity,
            total_rows: self.total_rows,
            is_complete: self.is_complete,
            indexed_bytes: self.indexed_bytes,
            data_start: self.data_start,
        }
    }
}

/// The row count at which a scan with a limit stops, having started with
/// `first` rows counted: the limit, but never before one more row is counted.
pub open spec fn stop_row(first: usize, limit: Option<usize>) -> int {
    match limit {
        Some(l) => if l > first {
            l as int
        } else {
            first + 1
        },
        None => 0,
    }
}

/// A scan with this limit over data with `terminated` rows that a line feed
/// ends stops before the data does.
pub open spec fn stops_at_limit(terminated: nat, first: usize, limit: Option<usize>) -> bool {
    limit is Some && terminated >= stop_row(first, limit)
}

/// Carries a partial index on over `data`: from the row at which it stopped,
/// one line feed at a time, until the data ends, `limit` rows are counted or
/// a stop is requested.
#[verifier::rlimit(40)]
fn scan_rows(
    data: &[u8],
    start: RowIndex,
    limit: Option<usize>,
    cancel: Option<&AtomicBool>,
    progress: Option<&AtomicUsize>,
) -> (r: RowIndex)
    requires
        start@.wf(),
        !start@.is_complete,
    ensures
        r@.wf(),
        r@.granularity == start@.granularity,
        r@.data_start == start@.data_start,
        start@.describes(data@, start@.data_start as int) ==> {
            &&& r@.describes(data@, start@.data_start as int)
            &&& r@.total_rows >= start@.total_rows
            &&& cancel is None ==> (r@.is_complete <==> !stops_at_limit(
                terminated_rows(data@, start@.data_start as int),
                start@.total_rows,
                limit,
            ))
            &&& cancel is None && !r@.is_complete ==> r@.total_rows == stop_row(
                start@.total_rows,
                limit,
            )
        },
{
    let ghost good = start@.describes(data@, start@.data_start as int);
    let ghost ds = start@.data_start as int;
    let ghost first_rows = start@.total_rows;
    let granularity = start.granularity;
    let origin = start.data_start;
    let len: usize = data.len();
    if start.indexed_bytes >= len as u64 {
        proof {
            if good {
                lemma_count_split(data@, LF, ds, ds, len as int);
            }
        }
        let mut done = start;
        done.is_complete = true;
        return done;
    }
    let mut offsets = start.offsets;
    let mut row_numbers = start.row_numbers;
    let mut current_row: usize = start.total_rows;
    let mut line_start: usize = start.indexed_bytes as usize;
    let mut stopped = false;
    let mut ended = false;
    while !stopped && !ended
        invariant
            granularity > 0,
            len == data@.len(),
            origin == ds,
            good == start@.describes(data@, ds),
            first_rows == start@.total_rows,
            origin <= line_start <= len,
            current_row <= line_start - origin,
            current_row >= first_rows,
            offsets@.len() == row_numbers@.len(),
            forall|i: int, j: int|
                0 <= i < j < row_numbers@.len() ==> row_numbers@[i] < row_numbers@[j],
            forall|i: int, j: int| 0 <= i < j < offsets@.len() ==> offsets@[i] < offsets@[j],
            forall|i: int|
                #![trigger row_numbers@[i]]
                0 <= i < row_numbers@.len() ==> 0 < row_numbers@[i] <= current_row
                    && row_numbers@[i] as int % granularity as int == 0,
            forall|i: int|
                #![trigger offsets@[i]]
                0 <= i < offsets@.len() ==> origin <= offsets@[i] < line_start,
            good ==> is_row_start(data@, ds, current_row as int, line_start as int),
            good ==> row_numbers@.len() == current_row as nat / granularity as nat,
            good ==> forall|i: int|
                #![trigger row_numbers@[i]]
                0 <= i < row_numbers@.len() ==> row_numbers@[i] == (i + 1) * granularity,
            good ==> forall|i: int|
                #![trigger offsets@[i]]
                0 <= i < offsets@.len() ==> is_row_start(
                    data@,
                    ds,
                    (i + 1) * granularity - 1,
                    offsets@[i] as int,
                ),
            ended ==> free_of(data@, LF, line_start as int, len as int),
            !(stopped && ended),
            stopped && cancel is None ==> limit is Some && current_row == stop_row(
                first_rows,
                limit,
            ),
            !stopped && current_row > first_rows && limit is Some ==> current_row
                < limit->Some_0,
        decreases
                len - line_start + if stopped || ended {
                    0int
                } else {
                    1int
                },
    {
        match find_byte(data, LF, line_start) {
            None => {
                ended = true;
            },
            Some(p) => {
                if cancel_requested(cancel) {
                    stopped = true;
                } else {
                    let ghost anchors = row_numbers@.len() as int;
                    proof {
                        lemma_div_step(current_row + 1, granularity as int);
                        if good {
                            lemma_count_split(data@, LF, ds, line_start as int, p as int);
                            lemma_count_free(data@, LF, line_start as int, p as int);
                        }
                    }
                    current_row = current_row + 1;
                    if current_row % granularity == 0 {
                        offsets.push(line_start as u64);
                        row_numbers.push(current_row);
                        assert(good ==> (anchors + 1) * granularity == current_row);
                    }
                    line_start = p + 1;
                    report_progress(progress, p);
                    match limit {
                        Some(l) => {
                            if current_row >= l {
                                stopped = true;
                            }
                        },
                        None => {},
                    }
                }
            },
        }
    }
    if stopped {
        proof {
            if good {
                lemma_count_split(data@, LF, ds, line_start as int, len as int);
            }
        }
        RowIndex {
            offsets,
            row_numbers,
            granularity,
            total_rows: current_row,
            is_complete: false,
            indexed_bytes: line_start as u64,
            data_start: origin,
        }
    } else {
        proof {
            if good {
                lemma_count_split(data@, LF, ds, line_start as int, len as int);
                lemma_count_free(data@, LF, line_start as int, len as int);
            }
        }
        if line_start < len {
            current_row = current_row + 1;
        }
        report_progress(progress, len);
        RowIndex {
            offsets,
            row_numbers,
            granularity,
            total_rows: current_row,
            is_complete: true,
            indexed_bytes: len as u64,
            data_start: origin,
        }
    }
}

/// The offset at which data row `k` (0-based) starts.
pub open spec fn row_start(s: Seq<u8>, ds: int, k: int) -> int {
    choose|off: int| is_row_start(s, ds, k, off)
}

/// The complete index of `s` with granularity `g`, its data region starting
/// at `ds`: one anchor for each full group of `g` rows that a line feed ends.
pub open spec fn full_index_at(s: Seq<u8>, ds: int, g: usize) -> RowIndexView {
    let anchors = terminated_rows(s, ds) / g as nat;
    RowIndexView {
        offsets: Seq::new(anchors, |i: int| row_start(s, ds, (i + 1) * g - 1) as u64),
        row_numbers: Seq::new(anchors, |i: int| ((i + 1) * g) as usize),
        granularity: g,
        total_rows: total_rows_of(s, ds) as usize,
        is_complete: true,
        indexed_bytes: s.len() as u64,
        data_start: ds as u64,
    }
}

/// The complete index of `s` with granularity `g`.
pub open spec fn full_index(s: Seq<u8>, has_headers: bool, g: usize) -> RowIndexView {
    full_index_at(s, data_start_of(s, has_headers), g)
}

/// A row has one start only.
pub proof fn lemma_row_start_unique(s: Seq<u8>, ds: int, k: int, a: int, b: int)
    requires
        is_row_start(s, ds, k, a),
        is_row_start(s, ds, k, b),
    ensures
        a == b,
        row_start(s, ds, k) == a,
{
    if a < b {
        lemma_count_split(s, LF, ds, a, b - 1);
        lemma_count_split(s, LF, ds, b - 1, b);
    }
    if b < a {
        lemma_count_split(s, LF, ds, b, a - 1);
        lemma_count_split(s, LF, ds, a - 1, a);
    }
    let c = row_start(s, ds, k);
    if a == b && c != a {
        if a < c {
            lemma_count_split(s, LF, ds, a, c - 1);
            lemma_count_split(s, LF, ds, c - 1, c);
        } else {
            lemma_count_split(s, LF, ds, c, a - 1);
            lemma_count_split(s, LF, ds, a - 1, a);
        }
    }
}

/// A complete index that describes `s` is the complete index of `s`.
pub proof fn lemma_complete_is_full(v: RowIndexView, s: Seq<u8>, ds: int)
    requires
        v.describes(s, ds),
        v.is_complete,
    ensures
        v == full_index_at(s, ds, v.granularity),
{
    let f = full_index_at(s, ds, v.granularity);
    assert(v.offsets.len() == f.offsets.len());
    assert forall|i: int| 0 <= i < v.offsets.len() implies v.offsets[i] == f.offsets[i] by {
        lemma_row_start_unique(
            s,
            ds,
            (i + 1) * v.granularity - 1,
            v.offsets[i] as int,
            v.offsets[i] as int,
        );
    }
    assert forall|i: int| 0 <= i < v.row_numbers.len() implies v.row_numbers[i]
        == f.row_numbers[i] by {
        assert(v.row_numbers[i] == (i + 1) * v.granularity);
    }
    assert(v.offsets =~= f.offsets);
    assert(v.row_numbers =~= f.row_numbers);
    assert(v =~= f);
}

/// Construction determinism: whatever way two indexes of one granularity
/// were built, if both are complete and describe the same data, they hold
/// the same total and the same anchors.
pub proof fn lemma_construction_deterministic(
    a: RowIndexView,
    b: RowIndexView,
    s: Seq<u8>,
    ds: int,
)
    requires
        a.describes(s, ds),
        b.describes(s, ds),
        a.is_complete,
        b.is_complete,
        a.granularity == b.granularity,
    ensures
        a == b,
{
    lemma_complete_is_full(a, s, ds);
    lemma_complete_is_full(b, s, ds);
}

/// Anchor monotonicity and granularity: in every well-formed index both anchor
/// sequences strictly increase, and every anchor row is a multiple of the
/// granularity.
pub proof fn lemma_anchors_ordered(v: RowIndexView, i: int, j: int)
    requires
        v.wf(),
        0 <= i < j < v.row_numbers.len(),
    ensures
        v.row_numbers[i] < v.row_numbers[j],
        v.offsets[i] < v.offsets[j],
        v.row_numbers[i] as int % v.granularity as int == 0,
        v.row_numbers[j] as int % v.granularity as int == 0,
{
}

/// What a lookup of `target` answers with `(off, anchor)`: the anchor is the
/// largest anchor row that is not above `target`, with its offset; where every
/// anchor row is above `target`, it is 0 with the start of the data region.
pub open spec fn is_seek_answer(v: RowIndexView, target: usize, off: u64, anchor: usize) -> bool {
    &&& anchor <= target
    &&& forall|i: int|
        0 <= i < v.row_numbers.len() && v.row_numbers[i] <= target ==> v.row_numbers[i]
            <= anchor
    &&& if anchor == 0 {
        off == v.data_start
    } else {
        exists|i: int|
            0 <= i < v.row_numbers.len() && v.row_numbers[i] == anchor && v.offsets[i] == off
    }
}

/// `off` is the offset that a lookup of `target` answers.
pub open spec fn is_seek_offset(v: RowIndexView, target: usize, off: u64) -> bool {
    exists|anchor: usize| #[trigger] is_seek_answer(v, target, off, anchor)
}

/// Seek correctness: where the index describes `s`, the offset that a lookup
/// answers is the first byte of the data row whose 1-based number is the
/// anchor row; with anchor row 0 it is the start of the data region.
pub proof fn lemma_seek_lands_on_row(
    v: RowIndexView,
    s: Seq<u8>,
    ds: int,
    target: usize,
    off: u64,
    anchor: usize,
)
    requires
        v.describes(s, ds),
        is_seek_answer(v, target, off, anchor),
        target < v.total_rows,
    ensures
        anchor == 0 ==> off == ds && is_row_start(s, ds, 0, off as int),
        anchor > 0 ==> is_row_start(s, ds, anchor - 1, off as int),
        anchor as int % v.granularity as int == 0,
        target - anchor < v.granularity,
{
    let g = v.granularity as int;
    let n = v.row_numbers.len() as int;
    let scanned: int = if v.is_complete {
        terminated_rows(s, ds) as int
    } else {
        v.total_rows as int
    };
    assert(target <= scanned);
    assert(n == scanned / g);
    lemma_div_bounds(scanned, g);
    if anchor > 0 {
        let i = choose|i: int|
            0 <= i < v.row_numbers.len() && v.row_numbers[i] == anchor && v.offsets[i] == off;
        assert(v.row_numbers[i] == (i + 1) * v.granularity);
        assert(is_row_start(s, ds, (i + 1) * v.granularity - 1, v.offsets[i] as int));
        if i + 1 < n {
            assert(v.row_numbers[i + 1] == (i + 2) * g);
            assert((i + 2) * g == (i + 1) * g + g) by (nonlinear_arith);
            assert(target - anchor < g);
        } else {
            assert((n + 1) * g == n * g + g) by (nonlinear_arith);
            assert(anchor == n * g);
            assert(target - anchor < g);
        }
    } else {
        lemma_count_split(s, LF, ds, ds, ds);
        if n > 0 {
            assert(v.row_numbers[0] == (0 + 1) * g);
            assert((0 + 1) * g == g) by (nonlinear_arith);
            assert(target - anchor < g);
        } else {
            assert((0 + 1) * g == g) by (nonlinear_arith);
            assert(target - anchor < g);
        }
    }
}

impl RowIndex {
    /// Puts together an index whose parts are known to keep the invariant.
    pub(crate) fn assemble(
        offsets: Vec<u64>,
        row_numbers: Vec<usize>,
        granularity: usize,
        total_rows: usize,
        is_complete: bool,
        indexed_bytes: u64,
        data_start: u64,
    ) -> (r: Self)
        requires
            (RowIndexView {
                offsets: offsets@,
                row_numbers: row_numbers@,
                granularity,
                total_rows,
                is_complete,
                indexed_bytes,
                data_start,
            }).wf(),
        ensures
            r@ == (RowIndexView {
                offsets: offsets@,
                row_numbers: row_numbers@,
                granularity,
                total_rows,
                is_complete,
                indexed_bytes,
                data_start,
            }),
    {
        RowIndex {
            offsets,
            row_numbers,
            granularity,
            total_rows,
            is_complete,
            indexed_bytes,
            data_start,
        }
    }

    /// An empty, incomplete index over nothing yet.
    pub fn new(granularity: usize) -> (r: Self)
        requires
            granularity > 0,
        ensures
            r@.wf(),
            r@.granularity == granularity,
            r@.offsets.len() == 0,
            r@.row_numbers.len() == 0,
            r@.total_rows == 0,
            !r@.is_complete,
            r@.indexed_bytes == 0,
            r@.data_start == 0,
    {
        RowIndex {
            offsets: Vec::new(),
            row_numbers: Vec::new(),
            granularity,
            total_rows: 0,
            is_complete: false,
            indexed_bytes: 0,
            data_start: 0,
        }
    }

    /// Whether the whole source has been scanned.
    pub fn is_complete(&self) -> (r: bool)
        ensures
            r == self@.is_complete,
    {
        self.is_complete
    }

    /// The offset up to which the source has been scanned.
    pub fn indexed_bytes(&self) -> (r: u64)
        ensures
            r == self@.indexed_bytes,
    {
        self.indexed_bytes
    }

    /// The number of data rows known so far; exact once the index is complete.
    pub fn total_rows(&self) -> (r: usize)
        ensures
            r == self@.total_rows,
    {
        self.total_rows
    }

    /// The number of rows between two anchors.
    pub fn granularity(&self) -> (r: usize)
        ensures
            r == self@.granularity,
    {
        self.granularity
    }

    /// The number of anchors.
    pub fn index_count(&self) -> (r: usize)
        ensures
            r == self@.offsets.len(),
    {
        self.offsets.len()
    }

    /// The offset at which the data region starts.
    pub fn data_start(&self) -> (r: u64)
        ensures
            r == self@.data_start,
    {
        self.data_start
    }

    /// The anchor offsets, in order.
    pub fn offsets(&self) -> (r: &Vec<u64>)
        ensures
            r@ == self@.offsets,
    {
        &self.offsets
    }

    /// The anchor row numbers, in order.
    pub fn row_numbers(&self) -> (r: &Vec<usize>)
        ensures
            r@ == self@.row_numbers,
    {
        &self.row_numbers
    }
}

/// Whether a partial build with this row limit stops before the end of data
/// that holds `terminated` rows ended by a line feed.
pub open spec fn partial_stops(terminated: nat, max_rows: Option<usize>) -> bool {
    stops_at_limit(terminated, 0, max_rows)
}

impl RowIndex {
    /// An index that has scanned nothing of a data region starting at `ds`.
    fn fresh(granularity: usize, ds: usize) -> (r: Self)
        requires
            granularity > 0,
        ensures
            r@.wf(),
            r@.granularity == granularity,
            r@.data_start == ds,
            !r@.is_complete,
            r@.total_rows == 0,
            forall|s: Seq<u8>| ds <= s.len() ==> #[trigger] r@.describes(s, ds as int),
    {
        let r = RowIndex {
            offsets: Vec::new(),
            row_numbers: Vec::new(),
            granularity,
            total_rows: 0,
            is_complete: false,
            indexed_bytes: ds as u64,
            data_start: ds as u64,
        };
        proof {
            lemma_div_bounds(0, granularity as int);
            assert((0int / granularity as int) * granularity as int >= 0 ==> 0int
                / granularity as int == 0) by (nonlinear_arith)
                requires
                    granularity > 0,
                    (0int / granularity as int) * granularity as int <= 0,
                    0 < (0int / granularity as int + 1) * granularity as int,
            ;
        }
        r
    }

    /// Indexes the first rows of `data` only: the scan stops behind the row
    /// that reaches `max_rows` (at least one row), and the index stays
    /// incomplete; where the data ends first, or no limit is given, the index
    /// is complete. The flag returned says which.
    pub fn build_partial(
        data: &[u8],
        has_headers: bool,
        granularity: usize,
        max_rows: Option<usize>,
    ) -> (r: Result<(Self, bool)>)
        requires
            granularity > 0,
        ensures
            r matches Ok((idx, complete)) && {
                let ds = data_start_of(data@, has_headers);
                &&& idx@.describes(data@, ds)
                &&& idx@.granularity == granularity
                &&& complete == idx@.is_complete
                &&& complete <==> !partial_stops(terminated_rows(data@, ds), max_rows)
                &&& complete ==> idx@ == full_index(data@, has_headers, granularity)
                &&& !complete ==> idx@.total_rows == stop_row(0, max_rows)
            },
    {
        let ds = data_start(data, has_headers);
        let start = Self::fresh(granularity, ds);
        assert(start@.describes(data@, ds as int));
        let idx = scan_rows(data, start, max_rows, None, None);
        proof {
            if idx@.is_complete {
                lemma_complete_is_full(idx@, data@, ds as int);
            }
        }
        let complete = idx.is_complete;
        Ok((idx, complete))
    }

    /// Indexes all of `data`, publishing the number of bytes scanned through
    /// `progress` on the way.
    pub fn build_with_progress(
        data: &[u8],
        has_headers: bool,
        granularity: usize,
        progress: Option<&AtomicUsize>,
    ) -> (r: Result<Self>)
        requires
            granularity > 0,
        ensures
            r matches Ok(idx) && idx@ == full_index(data@, has_headers, granularity)
                && idx@.describes(data@, data_start_of(data@, has_headers)),
    {
        let ds = data_start(data, has_headers);
        let start = Self::fresh(granularity, ds);
        assert(start@.describes(data@, ds as int));
        let idx = scan_rows(data, start, None, None, progress);
        proof {
            lemma_complete_is_full(idx@, data@, ds as int);
        }
        Ok(idx)
    }

    /// Resumes an incomplete index where it stopped and carries it to the
    /// end of `data`, unless `cancel` asks it to stop first. Answers whether
    /// the index is complete now. A complete index is left as it is.
    pub fn continue_build(
        &mut self,
        data: &[u8],
        cancel: Option<&AtomicBool>,
        progress: Option<&AtomicUsize>,
    ) -> (r: Result<bool>)
        requires
            old(self)@.wf(),
        ensures
            final(self)@.wf(),
            r matches Ok(done) && done == final(self)@.is_complete,
            final(self)@.granularity == old(self)@.granularity,
            final(self)@.data_start == old(self)@.data_start,
            old(self)@.is_complete ==> final(self)@ == old(self)@,
            old(self)@.describes(data@, old(self)@.data_start as int) ==> {
                &&& final(self)@.describes(data@, old(self)@.data_start as int)
                &&& final(self)@.total_rows >= old(self)@.total_rows
                &&& cancel is None ==> final(self)@ == full_index_at(
                    data@,
                    old(self)@.data_start as int,
                    old(self)@.granularity,
                )
            },
    {
        if self.is_complete {
            proof {
                if self@.describes(data@, self@.data_start as int) {
                    lemma_complete_is_full(self@, data@, self@.data_start as int);
                }
            }
            return Ok(true);
        }
        let mut taken = Self::fresh(self.granularity, 0);
        std::mem::swap(self, &mut taken);
        let next = scan_rows(data, taken, None, cancel, progress);
        proof {
            if old(self)@.describes(data@, old(self)@.data_start as int) && next@.is_complete {
                lemma_complete_is_full(next@, data@, old(self)@.data_start as int);
            }
        }
        let done = next.is_complete;
        *self = next;
        Ok(done)
    }

    /// The anchor from which to scan forward to `target_row` (0-based), as
    /// `(offset, anchor_row)`: the nearest anchor that is not above the
    /// target, found by bisection; the start of the data region with row 0
    /// where there is none. Rows that the index does not know are refused.
    pub fn seek_to_row_with_info(&self, target_row: usize) -> (r: Result<(u64, usize)>)
        requires
            self@.wf(),
        ensures
            target_row >= self@.total_rows ==> (r matches Err(
                CsvError::IndexOutOfBounds { row, total_rows },
            ) && row == target_row && total_rows == self@.total_rows),
            target_row < self@.total_rows ==> (r matches Ok((off, anchor)) && is_seek_answer(
                self@,
                target_row,
                off,
                anchor,
            )),
    {
        if target_row >= self.total_rows {
            return Err(CsvError::IndexOutOfBounds { row: target_row, total_rows: self.total_rows });
        }
        let n: usize = self.row_numbers.len();
        let mut lo: usize = 0;
        let mut hi: usize = n;
        while lo < hi
            invariant
                self@.wf(),
                n == self.row_numbers@.len(),
                0 <= lo <= hi <= n,
                forall|i: int| 0 <= i < lo ==> self.row_numbers@[i] <= target_row,
                forall|i: int| hi <= i < n ==> self.row_numbers@[i] > target_row,
            decreases hi - lo,
        {
            let mid: usize = lo + (hi - lo) / 2;
            if self.row_numbers[mid] <= target_row {
                lo = mid + 1;
            } else {
                hi = mid;
            }
        }
        if lo == 0 {
            Ok((self.data_start, 0))
        } else {
            Ok((self.offsets[lo - 1], self.row_numbers[lo - 1]))
        }
    }

    /// The offset of the anchor from which to scan forward to `target_row`.
    pub fn seek_to_row(&self, target_row: usize) -> (r: Result<u64>)
        requires
            self@.wf(),
        ensures
            target_row >= self@.total_rows ==> (r matches Err(
                CsvError::IndexOutOfBounds { row, total_rows },
            ) && row == target_row && total_rows == self@.total_rows),
            target_row < self@.total_rows ==> (r matches Ok(off) && is_seek_offset(
                self@,
                target_row,
                off,
            )),
    {
        match self.seek_to_row_with_info(target_row) {
            Ok((off, anchor)) => {
                assert(is_seek_answer(self@, target_row, off, anchor));
                Ok(off)
            },
            Err(e) => Err(e),
        }
    }
}

/// A source longer than this is scanned in parallel.
pub const PARALLEL_THRESHOLD: usize = 100 * 1024 * 1024;

/// The offset at which data row `k` starts, read off the positions of the
/// line feeds.
pub open spec fn start_from_newlines(newlines: Seq<usize>, ds: int, k: int) -> int {
    if k == 0 {
        ds
    } else {
        newlines[k - 1] + 1
    }
}

/// What the positions of the line feeds say of the rows: row `k` starts
/// behind line feed `k - 1`, before the end of the data where a line feed
/// ends it, and later rows start later.
proof fn lemma_rows_from_newlines(s: Seq<u8>, ds: int, k: int)
    requires
        0 <= ds <= s.len() <= usize::MAX,
        0 <= k <= positions_of(s, LF, ds, s.len() as int).len(),
    ensures
        is_row_start(
            s,
            ds,
            k,
            start_from_newlines(positions_of(s, LF, ds, s.len() as int), ds, k),
        ),
        k < positions_of(s, LF, ds, s.len() as int).len() ==> start_from_newlines(
            positions_of(s, LF, ds, s.len() as int),
            ds,
            k,
        ) <= positions_of(s, LF, ds, s.len() as int)[k] < s.len(),
        forall|j: int|
            0 <= j < k ==> start_from_newlines(positions_of(s, LF, ds, s.len() as int), ds, j)
                < start_from_newlines(positions_of(s, LF, ds, s.len() as int), ds, k),
{
    let p = positions_of(s, LF, ds, s.len() as int);
    lemma_positions_facts(s, LF, ds, s.len() as int);
    if k > 0 {
        assert(ds <= p[k - 1] < s.len());
        lemma_count_split(s, LF, ds, p[k - 1] as int, p[k - 1] + 1);
    } else {
        lemma_count_split(s, LF, ds, ds, ds);
    }
    if k < p.len() {
        assert(ds <= p[k] < s.len());
        if k > 0 {
            assert(p[k - 1] < p[k]);
        }
    }
    assert forall|j: int| 0 <= j < k implies start_from_newlines(p, ds, j)
        < start_from_newlines(p, ds, k) by {
        assert(ds <= p[k - 1]);
        if j > 0 {
            if j - 1 < k - 1 {
                lemma_positions_sorted(s, LF, ds, s.len() as int, j - 1, k - 1);
            }
        }
    }
}

/// Derives the complete index from the positions of all line feeds of the
/// data region, in one pass over the anchors.
#[verifier::rlimit(40)]
fn from_newlines(data: &[u8], ds: usize, granularity: usize, newlines: &Vec<usize>) -> (r:
    RowIndex)
    requires
        granularity > 0,
        ds <= data@.len(),
        newlines@ == positions_of(data@, LF, ds as int, data@.len() as int),
    ensures
        r@.describes(data@, ds as int),
        r@.is_complete,
        r@.granularity == granularity,
{
    let len: usize = data.len();
    let n: usize = newlines.len();
    let mut offsets: Vec<u64> = Vec::new();
    let mut row_numbers: Vec<usize> = Vec::new();
    let mut row: usize = 0;
    proof {
        lemma_positions_facts(data@, LF, ds as int, len as int);
        lemma_count_bound(data@, LF, ds as int, len as int);
    }
    while n - row >= granularity
        invariant
            granularity > 0,
            len == data@.len(),
            ds <= len,
            n == newlines@.len(),
            newlines@ == positions_of(data@, LF, ds as int, len as int),
            0 <= row <= n,
            offsets@.len() == row_numbers@.len(),
            row == row_numbers@.len() * granularity,
            forall|i: int|
                #![trigger row_numbers@[i]]
                0 <= i < row_numbers@.len() ==> row_numbers@[i] == (i + 1) * granularity,
            forall|i: int|
                #![trigger offsets@[i]]
                0 <= i < offsets@.len() ==> offsets@[i] == start_from_newlines(
                    newlines@,
                    ds as int,
                    (i + 1) * granularity - 1,
                ),
        decreases n - row,
    {
        let ghost anchors = row_numbers@.len() as int;
        let k: usize = row + (granularity - 1);
        proof {
            lemma_positions_facts(data@, LF, ds as int, len as int);
            if k > 0 {
                assert(newlines@[k - 1] < len);
            }
        }
        let off: usize = if k == 0 {
            ds
        } else {
            newlines[k - 1] + 1
        };
        proof {
            lemma_rows_from_newlines(data@, ds as int, k as int);
            assert((anchors + 1) * granularity == anchors * granularity + granularity)
                by (nonlinear_arith);
        }
        offsets.push(off as u64);
        row_numbers.push(row + granularity);
        row = row + granularity;
    }
    let last: usize = if n == 0 {
        ds
    } else {
        newlines[n - 1] + 1
    };
    proof {
        lemma_rows_from_newlines(data@, ds as int, n as int);
        lemma_count_split(data@, LF, ds as int, last as int, len as int);
        lemma_last_byte(data@, last as int);
        if last < len {
            lemma_count_split(data@, LF, ds as int, len - 1, len as int);
            lemma_count_bound(data@, LF, ds as int, len - 1);
        }
    }
    let total: usize = if last < len {
        n + 1
    } else {
        n
    };
    let r = RowIndex {
        offsets,
        row_numbers,
        granularity,
        total_rows: total,
        is_complete: true,
        indexed_bytes: len as u64,
        data_start: ds as u64,
    };
    proof {
        let g = granularity as int;
        let a = r@.row_numbers.len() as int;
        vstd::arithmetic::div_mod::lemma_fundamental_div_mod_converse(n as int, g, a, n - row);
        assert forall|i: int| 0 <= i < a implies #[trigger] r@.row_numbers[i] <= n
            && r@.row_numbers[i] > 0 && r@.row_numbers[i] as int % g == 0 by {
            assert(r@.row_numbers[i] == (i + 1) * g);
            assert((i + 1) * g <= a * g) by (nonlinear_arith)
                requires
                    0 <= i < a,
                    g > 0,
            ;
            assert((i + 1) * g > 0) by (nonlinear_arith)
                requires
                    0 <= i,
                    g > 0,
            ;
            vstd::arithmetic::div_mod::lemma_fundamental_div_mod_converse(
                (i + 1) * g,
                g,
                i + 1,
                0,
            );
        }
        assert forall|i: int| 0 <= i < a implies is_row_start(
            data@,
            ds as int,
            (i + 1) * g - 1,
            #[trigger] r@.offsets[i] as int,
        ) && ds <= r@.offsets[i] < len by {
            assert(r@.row_numbers[i] == (i + 1) * g);
            assert(r@.row_numbers[i] <= n);
            lemma_rows_from_newlines(data@, ds as int, (i + 1) * g - 1);
        }
        assert forall|i: int, j: int| 0 <= i < j < a implies r@.row_numbers[i]
            < r@.row_numbers[j] && r@.offsets[i] < r@.offsets[j] by {
            assert(r@.row_numbers[i] == (i + 1) * g);
            assert(r@.row_numbers[j] == (j + 1) * g);
            assert(r@.row_numbers[j] <= n);
            assert((i + 1) * g < (j + 1) * g) by (nonlinear_arith)
                requires
                    0 <= i < j,
                    g > 0,
            ;
            lemma_rows_from_newlines(data@, ds as int, (j + 1) * g - 1);
        }
    }
    r
}

/// Where no line feed follows `from`, the last byte of a longer sequence is
/// none either.
proof fn lemma_last_byte(s: Seq<u8>, from: int)
    requires
        0 <= from <= s.len(),
        count_newlines(s, from, s.len() as int) == 0,
    ensures
        from < s.len() ==> s[s.len() - 1] != LF,
{
}

impl RowIndex {
    /// Indexes all of `data` in chunks that the workers of a thread pool
    /// scan side by side. The result is the one of the serial build.
    pub fn build_parallel(data: &[u8], has_headers: bool, granularity: usize) -> (r: Result<Self>)
        requires
            granularity > 0,
        ensures
            r matches Ok(idx) && idx@ == full_index(data@, has_headers, granularity)
                && idx@.describes(data@, data_start_of(data@, has_headers)),
    {
        let ds = data_start(data, has_headers);
        let newlines = parallel_newlines(data, ds);
        let idx = from_newlines(data, ds, granularity, &newlines);
        proof {
            lemma_complete_is_full(idx@, data@, ds as int);
        }
        Ok(idx)
    }

    /// Indexes all of `data`: in parallel where it is longer than
    /// [`PARALLEL_THRESHOLD`], serially otherwise.
    pub fn build(data: &[u8], has_headers: bool, granularity: usize) -> (r: Result<Self>)
        requires
            granularity > 0,
        ensures
            r matches Ok(idx) && idx@ == full_index(data@, has_headers, granularity)
                && idx@.describes(data@, data_start_of(data@, has_headers)),
    {
        if data.len() > PARALLEL_THRESHOLD {
            Self::build_parallel(data, has_headers, granularity)
        } else {
            Self::build_with_progress(data, has_headers, granularity, None)
        }
    }
}

/// The bytes of data row `k`, without the line feed that ends it.
pub open spec fn row_bytes(s: Seq<u8>, ds: int, k: int) -> Seq<u8> {
    s.subrange(row_start(s, ds, k), next_byte(s, LF, row_start(s, ds, k)))
}

/// From one row to the next: a row that exists starts inside the source; the
/// row behind its line feed is the next one; and a row that no line feed ends
/// is the last one.
pub proof fn lemma_row_step(s: Seq<u8>, ds: int, k: int, off: int)
    requires
        is_row_start(s, ds, k, off),
        k < total_rows_of(s, ds),
    ensures
        off < s.len(),
        row_start(s, ds, k) == off,
        off <= next_byte(s, LF, off) <= s.len(),
        next_byte(s, LF, off) < s.len() ==> is_row_start(s, ds, k + 1, next_byte(s, LF, off) + 1),
        next_byte(s, LF, off) >= s.len() ==> k + 1 == total_rows_of(s, ds),
{
    lemma_row_start_unique(s, ds, k, off, off);
    if off == s.len() {
        lemma_count_split(s, LF, ds, off, off);
    }
    lemma_next_byte_facts(s, LF, off);
    let e = next_byte(s, LF, off);
    lemma_count_split(s, LF, ds, off, e);
    lemma_count_free(s, LF, off, e);
    if e < s.len() {
        lemma_count_split(s, LF, ds, e, e + 1);
    }
}

/// An offset at which a row starts needs no realigning, and a lookup is
/// answered in one way only.
pub proof fn lemma_seek_unique(
    v: RowIndexView,
    target: usize,
    off1: u64,
    anchor1: usize,
    off2: u64,
    anchor2: usize,
)
    requires
        v.wf(),
        is_seek_answer(v, target, off1, anchor1),
        is_seek_answer(v, target, off2, anchor2),
    ensures
        off1 == off2,
        anchor1 == anchor2,
{
    if anchor1 > 0 {
        let i = choose|i: int|
            0 <= i < v.row_numbers.len() && v.row_numbers[i] == anchor1 && v.offsets[i] == off1;
        assert(v.row_numbers[i] <= anchor2);
    }
    if anchor2 > 0 {
        let j = choose|j: int|
            0 <= j < v.row_numbers.len() && v.row_numbers[j] == anchor2 && v.offsets[j] == off2;
        assert(v.row_numbers[j] <= anchor1);
        let i = choose|i: int|
            0 <= i < v.row_numbers.len() && v.row_numbers[i] == anchor1 && v.offsets[i] == off1;
        if i < j {
            assert(v.row_numbers[i] < v.row_numbers[j]);
        }
        if j < i {
            assert(v.row_numbers[j] < v.row_numbers[i]);
        }
    }
}

/// The answer to a lookup of `target`.
pub open spec fn seek_answer(v: RowIndexView, target: usize) -> (u64, usize) {
    choose|p: (u64, usize)| is_seek_answer(v, target, p.0, p.1)
}

} // verus!
