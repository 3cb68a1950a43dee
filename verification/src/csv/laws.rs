//! What holds of every source: how many rows a full build counts, and which
//! rows a page holds.

use crate::csv::cache::PageText;
use crate::csv::index::{
    is_row_start, is_seek_answer, lemma_row_start_unique, lemma_row_step,
    lemma_seek_lands_on_row, row_bytes, seek_answer, total_rows_of, RowIndexView,
};
use crate::csv::lines::{lines_from, prev_byte, realigned, skip_lines};
use crate::csv::reader::{page_known, page_len, page_origin, page_text, ReaderView};
use crate::csv::record::{
    field_bytes, field_text, is_boundary, last_boundary, lemma_last_boundary,
    lemma_unescape_plain, parse_line_spec, raw_fields, strip_cr, strip_quotes, text_of, unescape,
    CR, QUOTE,
};
use crate::csv::scan::{
    count_byte, count_newlines, free_of, lemma_count_free, lemma_count_split, next_byte, LF,
};
use vstd::prelude::*;

verus! {

/// The bytes of these rows, each with a line feed behind it.
pub open spec fn terminated_text(rows: Seq<Seq<u8>>) -> Seq<u8>
    decreases rows.len(),
{
    if rows.len() == 0 {
        Seq::empty()
    } else {
        terminated_text(rows.subrange(0, rows.len() - 1)) + rows[rows.len() - 1] + seq![LF]
    }
}

/// The bytes of these rows with a line feed between them, and one behind
/// the last row where `trailing` says so.
pub open spec fn joined_rows(rows: Seq<Seq<u8>>, trailing: bool) -> Seq<u8> {
    if rows.len() == 0 {
        Seq::empty()
    } else if trailing {
        terminated_text(rows)
    } else {
        terminated_text(rows.subrange(0, rows.len() - 1)) + rows[rows.len() - 1]
    }
}

/// No row holds a line feed, and a last row without a line feed behind it
/// is not empty.
pub open spec fn are_rows(rows: Seq<Seq<u8>>, trailing: bool) -> bool {
    &&& forall|i: int| 0 <= i < rows.len() ==> free_of(#[trigger] rows[i], LF, 0, rows[i].len() as int)
    &&& !trailing && rows.len() > 0 ==> rows[rows.len() - 1].len() > 0
}

/// Sequences that agree on a range hold a byte equally often in it.
proof fn lemma_count_agree(a: Seq<u8>, b: Seq<u8>, needle: u8, lo: int, hi: int)
    requires
        forall|j: int| lo <= j < hi ==> a[j] == b[j],
    ensures
        count_byte(a, needle, lo, hi) == count_byte(b, needle, lo, hi),
    decreases hi - lo,
{
    if lo < hi {
        lemma_count_agree(a, b, needle, lo, hi - 1);
    }
}

/// Rows that each end with a line feed are counted by their line feeds.
proof fn lemma_terminated_count(prefix: Seq<u8>, rows: Seq<Seq<u8>>)
    requires
        forall|i: int| 0 <= i < rows.len() ==> free_of(#[trigger] rows[i], LF, 0, rows[i].len() as int),
    ensures
        count_newlines(
            prefix + terminated_text(rows),
            prefix.len() as int,
            (prefix + terminated_text(rows)).len() as int,
        ) == rows.len(),
        rows.len() > 0 ==> (prefix + terminated_text(rows))[(prefix + terminated_text(rows)).len()
            - 1] == LF,
    decreases rows.len(),
{
    let ds = prefix.len() as int;
    let s = prefix + terminated_text(rows);
    if rows.len() == 0 {
        assert(s =~= prefix);
    } else {
        let init = rows.subrange(0, rows.len() - 1);
        let last = rows[rows.len() - 1];
        let before = prefix + terminated_text(init);
        assert forall|i: int| 0 <= i < init.len() implies free_of(
            #[trigger] init[i],
            LF,
            0,
            init[i].len() as int,
        ) by {
            assert(init[i] == rows[i]);
        }
        lemma_terminated_count(prefix, init);
        assert(s =~= before + last + seq![LF]);
        let mid = before.len() as int;
        let end = mid + last.len();
        lemma_count_agree(s, before, LF, ds, mid);
        assert(free_of(s, LF, mid, end)) by {
            assert(forall|j: int| mid <= j < end ==> s[j] == last[j - mid]);
        }
        lemma_count_free(s, LF, mid, end);
        lemma_count_split(s, LF, ds, mid, end);
        lemma_count_split(s, LF, ds, end, end + 1);
    }
}

/// Row totals: a source made of a prefix, which takes the byte order mark
/// and the header line, and of `rows.len()` rows behind it has that many data
/// rows, whether a line feed follows the last row or not.
pub proof fn lemma_row_totals(prefix: Seq<u8>, rows: Seq<Seq<u8>>, trailing: bool)
    requires
        are_rows(rows, trailing),
    ensures
        total_rows_of(prefix + joined_rows(rows, trailing), prefix.len() as int) == rows.len(),
{
    let ds = prefix.len() as int;
    let s = prefix + joined_rows(rows, trailing);
    if rows.len() == 0 {
        assert(s =~= prefix);
    } else if trailing {
        lemma_terminated_count(prefix, rows);
    } else {
        let init = rows.subrange(0, rows.len() - 1);
        let last = rows[rows.len() - 1];
        let before = prefix + terminated_text(init);
        assert forall|i: int| 0 <= i < init.len() implies free_of(
            #[trigger] init[i],
            LF,
            0,
            init[i].len() as int,
        ) by {
            assert(init[i] == rows[i]);
        }
        lemma_terminated_count(prefix, init);
        assert(s =~= before + last);
        let mid = before.len() as int;
        lemma_count_agree(s, before, LF, ds, mid);
        assert(free_of(s, LF, mid, s.len() as int)) by {
            assert(forall|j: int| mid <= j < s.len() ==> s[j] == last[j - mid]);
        }
        lemma_count_free(s, LF, mid, s.len() as int);
        lemma_count_split(s, LF, ds, mid, s.len() as int);
    }
}

/// The parsed rows `first`, `first + 1`, ... of the source, `count` of them.
pub open spec fn file_rows(s: Seq<u8>, ds: int, delimiter: u8, first: int, count: nat) -> PageText {
    Seq::new(count, |i: int| parse_line_spec(row_bytes(s, ds, first + i), delimiter))
}

/// The smaller of two numbers.
pub open spec fn at_most(a: int, b: int) -> nat {
    if a <= b {
        if a < 0 {
            0
        } else {
            a as nat
        }
    } else if b < 0 {
        0
    } else {
        b as nat
    }
}

/// Skipping lines from the start of a row leads to the start of a later row.
pub proof fn lemma_skip_lines(s: Seq<u8>, ds: int, k: int, off: int, count: nat)
    requires
        is_row_start(s, ds, k, off),
        k + count < total_rows_of(s, ds),
    ensures
        is_row_start(s, ds, k + count, skip_lines(s, off, count)),
    decreases count,
{
    if count > 0 {
        lemma_row_step(s, ds, k, off);
        lemma_skip_lines(s, ds, k + 1, next_byte(s, LF, off) + 1, (count - 1) as nat);
    }
}

/// Behind the last row nothing is left to read.
proof fn lemma_end_of_rows(s: Seq<u8>, ds: int, off: int)
    requires
        is_row_start(s, ds, total_rows_of(s, ds) as int, off),
    ensures
        off == s.len(),
{
    if off < s.len() {
        lemma_count_split(s, LF, ds, off, s.len() as int);
        lemma_count_split(s, LF, ds, s.len() - 1, s.len() as int);
        if s[s.len() - 1] == LF {
            lemma_count_split(s, LF, off, s.len() - 1, s.len() as int);
        }
    }
}

/// Reading lines from the start of a row gives that row and those behind
/// it, as many as were asked for and as there are.
pub proof fn lemma_lines_are_rows(
    s: Seq<u8>,
    ds: int,
    delimiter: u8,
    k: int,
    off: int,
    count: nat,
)
    requires
        is_row_start(s, ds, k, off),
        k < total_rows_of(s, ds),
    ensures
        lines_from(s, delimiter, off, count) == file_rows(
            s,
            ds,
            delimiter,
            k,
            at_most(count as int, total_rows_of(s, ds) - k),
        ),
    decreases count,
{
    let total = total_rows_of(s, ds) as int;
    let want = file_rows(s, ds, delimiter, k, at_most(count as int, total - k));
    if count == 0 {
        assert(lines_from(s, delimiter, off, count) =~= want);
    } else {
        lemma_row_step(s, ds, k, off);
        let end = next_byte(s, LF, off);
        let rest = lines_from(s, delimiter, end + 1, (count - 1) as nat);
        if end < s.len() && k + 1 < total {
            lemma_lines_are_rows(s, ds, delimiter, k + 1, end + 1, (count - 1) as nat);
            let tail = file_rows(s, ds, delimiter, k + 1, at_most(count - 1, total - k - 1));
            assert(seq![parse_line_spec(s.subrange(off, end), delimiter)] + tail =~= want);
        } else {
            if end < s.len() {
                lemma_end_of_rows(s, ds, end + 1);
            }
            assert(rest =~= Seq::<Seq<Seq<char>>>::empty()) by {
                if count - 1 > 0 && end + 1 < s.len() {
                    assert(false);
                }
            }
            assert(seq![parse_line_spec(s.subrange(off, end), delimiter)] + rest =~= want);
        }
    }
}

/// The start of a row behind the first needs no realigning.
proof fn lemma_row_start_is_aligned(s: Seq<u8>, ds: int, k: int, off: int)
    requires
        is_row_start(s, ds, k, off),
        off > ds,
    ensures
        realigned(s, off) == off,
{
    let lo = if off > 1024 {
        off - 1024
    } else {
        0
    };
    assert(prev_byte(s, LF, lo, off) == off - 1);
}

/// `(off, anchor)` answers a lookup of `target` as far as the first `upto`
/// anchors go.
pub open spec fn answers_upto(
    v: RowIndexView,
    target: usize,
    off: u64,
    anchor: usize,
    upto: int,
) -> bool {
    &&& anchor <= target
    &&& forall|i: int| 0 <= i < upto && v.row_numbers[i] <= target ==> v.row_numbers[i] <= anchor
    &&& if anchor == 0 {
        off == v.data_start
    } else {
        exists|i: int| 0 <= i < upto && v.row_numbers[i] == anchor && v.offsets[i] == off
    }
}

/// Every lookup in a well-formed index has an answer.
pub proof fn lemma_seek_exists(v: RowIndexView, target: usize, upto: int)
    requires
        v.wf(),
        0 <= upto <= v.row_numbers.len(),
    ensures
        exists|off: u64, anchor: usize| #[trigger] answers_upto(v, target, off, anchor, upto),
    decreases upto,
{
    if upto == 0 {
        assert(answers_upto(v, target, v.data_start, 0usize, upto));
    } else {
        lemma_seek_exists(v, target, upto - 1);
        if v.row_numbers[upto - 1] <= target {
            let off = v.offsets[upto - 1];
            let anchor = v.row_numbers[upto - 1];
            assert forall|i: int|
                0 <= i < upto && v.row_numbers[i] <= target implies v.row_numbers[i]
                <= anchor by {
                if i < upto - 1 {
                    assert(v.row_numbers[i] < v.row_numbers[upto - 1]);
                }
            }
            assert(0 < v.row_numbers[upto - 1]);
            assert(answers_upto(v, target, off, anchor, upto));
        } else {
            let (off, anchor) = choose|off: u64, anchor: usize| #[trigger]
                answers_upto(v, target, off, anchor, upto - 1);
            if anchor != 0 {
                let i = choose|i: int|
                    0 <= i < upto - 1 && v.row_numbers[i] == anchor && v.offsets[i] == off;
                assert(0 <= i < upto && v.row_numbers[i] == anchor && v.offsets[i] == off);
            }
            assert(answers_upto(v, target, off, anchor, upto));
        }
    }
}

/// Pages hold rows: where the index describes the source, a page that the
/// index reaches holds the parsed rows of the source from `page * size` on,
/// as many as the page has room for and as the source has.
pub proof fn lemma_page_holds_rows(v: ReaderView, page: usize, size: usize)
    requires
        v.index.describes(v.data, v.data_start),
        page * size < v.total_rows,
        page_known(v, page, size),
    ensures
        page_text(v, page, size) == file_rows(
            v.data,
            v.data_start,
            v.delimiter,
            page * size,
            at_most(
                page_len(v.total_rows, page * size, size) as int,
                total_rows_of(v.data, v.data_start) - page * size,
            ),
        ),
{
    let s = v.data;
    let ds = v.data_start;
    let first = (page * size) as usize;
    lemma_seek_exists(v.index, first, v.index.row_numbers.len() as int);
    let (off0, anchor0) = choose|off: u64, anchor: usize| #[trigger]
        answers_upto(v.index, first, off, anchor, v.index.row_numbers.len() as int);
    assert(is_seek_answer(v.index, first, (off0, anchor0).0, (off0, anchor0).1));
    let (off, anchor) = seek_answer(v.index, first);
    assert(is_seek_answer(v.index, first, off, anchor));
    lemma_seek_lands_on_row(v.index, s, ds, first, off, anchor);
    lemma_total_rows_cover(v.index, s, ds);
    let (start, base) = page_origin(v, off, anchor);
    assert(is_row_start(s, ds, base, start) && base <= first) by {
        if anchor == 0 || off <= ds {
            lemma_count_split(s, LF, ds, ds, ds);
            if anchor > 0 {
                lemma_row_start_unique(s, ds, anchor - 1, off as int, off as int);
            }
        } else {
            lemma_row_step(s, ds, anchor - 1, off as int);
            lemma_row_start_is_aligned(s, ds, anchor - 1, off as int);
        }
    }
    lemma_skip_lines(s, ds, base, start, (first - base) as nat);
    lemma_lines_are_rows(
        s,
        ds,
        v.delimiter,
        first as int,
        skip_lines(s, start, (first - base) as nat),
        page_len(v.total_rows, first as int, size),
    );
}

/// An index that describes a source knows no more rows than the source has.
pub proof fn lemma_total_rows_cover(v: RowIndexView, s: Seq<u8>, ds: int)
    requires
        v.describes(s, ds),
    ensures
        v.total_rows <= total_rows_of(s, ds),
{
    if !v.is_complete {
        lemma_count_split(s, LF, ds, v.indexed_bytes as int, s.len() as int);
    }
}

/// The bytes with every `"` doubled.
pub open spec fn doubled(bytes: Seq<u8>) -> Seq<u8>
    decreases bytes.len(),
{
    if bytes.len() == 0 {
        Seq::empty()
    } else if bytes[0] == QUOTE {
        seq![QUOTE, QUOTE] + doubled(bytes.subrange(1, bytes.len() as int))
    } else {
        seq![bytes[0]] + doubled(bytes.subrange(1, bytes.len() as int))
    }
}

/// A field as it is written in quotes: its quotes doubled, and a quote on
/// either side.
pub open spec fn quoted(field: Seq<u8>) -> Seq<u8> {
    seq![QUOTE] + doubled(field) + seq![QUOTE]
}

/// Doubling the quotes is undone by unescaping.
pub proof fn lemma_unescape_doubled(bytes: Seq<u8>)
    ensures
        unescape(doubled(bytes)) == bytes,
    decreases bytes.len(),
{
    if bytes.len() > 0 {
        let rest = bytes.subrange(1, bytes.len() as int);
        let d = doubled(bytes);
        lemma_unescape_doubled(rest);
        if bytes[0] == QUOTE {
            assert(d.subrange(2, d.len() as int) =~= doubled(rest));
            assert(unescape(d) == seq![QUOTE] + unescape(d.subrange(2, d.len() as int)));
        } else {
            assert(d.subrange(1, d.len() as int) =~= doubled(rest));
            assert(unescape(d) == seq![d[0]] + unescape(d.subrange(1, d.len() as int)));
        }
        assert(seq![bytes[0]] + rest =~= bytes);
    }
}

/// Round trip of a field: a field written in quotes, whatever bytes it
/// holds, is parsed back to the same bytes; and so is a field without any
/// quote that is written as it is.
pub proof fn lemma_field_round_trip(field: Seq<u8>)
    ensures
        field_bytes(quoted(field)) == field,
        free_of(field, QUOTE, 0, field.len() as int) ==> field_bytes(field) == field,
{
    let q = quoted(field);
    assert(q[0] == QUOTE && q[q.len() - 1] == QUOTE);
    assert(strip_quotes(q) =~= doubled(field));
    lemma_unescape_doubled(field);
    if free_of(field, QUOTE, 0, field.len() as int) {
        if field.len() >= 2 {
            assert(field[0] != QUOTE);
        }
        lemma_unescape_plain(field);
    }
}

/// A field has to be written in quotes: it holds the delimiter, a quote, a
/// line feed or a carriage return.
pub open spec fn needs_quotes(field: Seq<u8>, delimiter: u8) -> bool {
    exists|i: int|
        0 <= i < field.len() && (#[trigger] field[i] == delimiter || field[i] == QUOTE || field[i]
            == LF || field[i] == CR)
}

/// A field as it is written: in quotes where it has to be or where quotes
/// are asked for, else as it is.
pub open spec fn written_as(field: Seq<u8>, delimiter: u8, forced: bool) -> Seq<u8> {
    if forced || needs_quotes(field, delimiter) {
        quoted(field)
    } else {
        field
    }
}

/// A line as it is written: its fields as they are written, each in quotes
/// where `forced` asks for them or the field needs them, with the delimiter
/// between the fields.
pub open spec fn written_line_as(fields: Seq<Seq<u8>>, forced: Seq<bool>, delimiter: u8) -> Seq<
    u8,
>
    decreases fields.len(),
{
    if fields.len() == 0 {
        Seq::empty()
    } else if fields.len() == 1 {
        written_as(fields[0], delimiter, forced[0])
    } else {
        written_line_as(
            fields.subrange(0, fields.len() - 1),
            forced.subrange(0, fields.len() - 1),
            delimiter,
        ) + seq![delimiter] + written_as(
            fields[fields.len() - 1],
            delimiter,
            forced[fields.len() - 1],
        )
    }
}

/// The fields as they are written, one by one.
pub open spec fn written_fields_as(fields: Seq<Seq<u8>>, forced: Seq<bool>, delimiter: u8) -> Seq<
    Seq<u8>,
> {
    Seq::new(fields.len(), |i: int| written_as(fields[i], delimiter, forced[i]))
}

/// Quotes are asked for no field.
pub open spec fn unforced(count: nat) -> Seq<bool> {
    Seq::new(count, |i: int| false)
}

/// A field as it is written with quotes only where it needs them.
pub open spec fn written(field: Seq<u8>, delimiter: u8) -> Seq<u8> {
    written_as(field, delimiter, false)
}

/// A line as it is written with quotes only where a field needs them.
pub open spec fn written_line(fields: Seq<Seq<u8>>, delimiter: u8) -> Seq<u8> {
    written_line_as(fields, unforced(fields.len()), delimiter)
}

/// How often a byte occurs in a sequence of one byte.
proof fn lemma_count_single(byte: u8, needle: u8)
    ensures
        count_byte(seq![byte], needle, 0, 1) == if byte == needle {
            1nat
        } else {
            0nat
        },
{
    reveal_with_fuel(count_byte, 2);
}

/// A byte occurs twice in a sequence of two of it.
proof fn lemma_count_pair(byte: u8)
    ensures
        count_byte(seq![byte, byte], byte, 0, 2) == 2,
{
    reveal_with_fuel(count_byte, 3);
}

/// A byte occurs in the start of a concatenation as often as in its parts.
proof fn lemma_count_concat(a: Seq<u8>, b: Seq<u8>, needle: u8, j: int)
    requires
        0 <= j <= b.len(),
    ensures
        count_byte(a + b, needle, 0, a.len() + j) == count_byte(a, needle, 0, a.len() as int)
            + count_byte(b, needle, 0, j),
    decreases j,
{
    if j == 0 {
        lemma_count_agree(a + b, a, needle, 0, a.len() as int);
    } else {
        lemma_count_concat(a, b, needle, j - 1);
        assert((a + b)[a.len() + j - 1] == b[j - 1]);
    }
}

/// In doubled bytes an even number of quotes stands before every byte that
/// is no quote, and before the end.
proof fn lemma_doubled_parity(bytes: Seq<u8>, j: int)
    requires
        0 <= j <= doubled(bytes).len(),
        j == doubled(bytes).len() || doubled(bytes)[j] != QUOTE,
    ensures
        count_byte(doubled(bytes), QUOTE, 0, j) % 2 == 0,
    decreases bytes.len(),
{
    if bytes.len() > 0 {
        let rest = bytes.subrange(1, bytes.len() as int);
        let d = doubled(bytes);
        let dr = doubled(rest);
        if bytes[0] == QUOTE {
            let head = seq![QUOTE, QUOTE];
            assert(d =~= head + dr);
            assert(j >= 2);
            assert(dr.len() == d.len() - 2);
            if j - 2 < dr.len() {
                assert(dr[j - 2] == d[j]);
            }
            lemma_doubled_parity(rest, j - 2);
            lemma_count_concat(head, dr, QUOTE, j - 2);
            lemma_count_pair(QUOTE);
        } else {
            let head = seq![bytes[0]];
            assert(d =~= head + dr);
            if j >= 1 {
                if j - 1 < dr.len() {
                    assert(dr[j - 1] == d[j]);
                }
                lemma_doubled_parity(rest, j - 1);
                lemma_count_concat(head, dr, QUOTE, j - 1);
                lemma_count_single(bytes[0], QUOTE);
            }
        }
    }
}

/// In a field as it is written the quotes come in an even number, and every
/// delimiter stands behind an odd number of them.
proof fn lemma_written_parity(field: Seq<u8>, delimiter: u8, forced: bool)
    requires
        delimiter != QUOTE,
    ensures
        count_byte(
            written_as(field, delimiter, forced),
            QUOTE,
            0,
            written_as(field, delimiter, forced).len() as int,
        ) % 2 == 0,
        forall|j: int|
            0 <= j < written_as(field, delimiter, forced).len() && #[trigger] written_as(
                field,
                delimiter,
                forced,
            )[j] == delimiter ==> count_byte(written_as(field, delimiter, forced), QUOTE, 0, j)
                % 2 == 1,
{
    let w = written_as(field, delimiter, forced);
    lemma_count_single(QUOTE, QUOTE);
    if forced || needs_quotes(field, delimiter) {
        let d = doubled(field);
        let open = seq![QUOTE] + d;
        assert(w =~= open + seq![QUOTE]);
        lemma_doubled_parity(field, d.len() as int);
        lemma_count_concat(seq![QUOTE], d, QUOTE, d.len() as int);
        lemma_count_concat(open, seq![QUOTE], QUOTE, 1);
        assert forall|j: int| 0 <= j < w.len() && #[trigger] w[j] == delimiter implies count_byte(
            w,
            QUOTE,
            0,
            j,
        ) % 2 == 1 by {
            assert(1 <= j < w.len() - 1);
            assert(d[j - 1] == w[j]);
            lemma_doubled_parity(field, j - 1);
            lemma_count_concat(seq![QUOTE], d, QUOTE, j - 1);
            lemma_count_agree(w, open, QUOTE, 0, j);
        }
    } else {
        assert(free_of(w, QUOTE, 0, w.len() as int));
        lemma_count_free(w, QUOTE, 0, w.len() as int);
    }
}

/// Lines that agree up to a position have the same fields up to it.
proof fn lemma_raw_fields_agree(a: Seq<u8>, b: Seq<u8>, delimiter: u8, hi: int)
    requires
        0 <= hi <= a.len(),
        hi <= b.len(),
        forall|j: int| 0 <= j < hi ==> a[j] == b[j],
    ensures
        -1 <= last_boundary(a, delimiter, hi) < hi || hi == 0,
        last_boundary(a, delimiter, hi) == last_boundary(b, delimiter, hi),
        raw_fields(a, delimiter, hi) == raw_fields(b, delimiter, hi),
    decreases hi,
{
    if hi > 0 {
        lemma_count_agree(a, b, QUOTE, 0, hi - 1);
        lemma_raw_fields_agree(a, b, delimiter, hi - 1);
        let lb = last_boundary(a, delimiter, hi);
        if lb >= 0 {
            lemma_raw_fields_agree(a, b, delimiter, lb);
            assert(a.subrange(lb + 1, hi) =~= b.subrange(lb + 1, hi));
        } else {
            assert(a.subrange(0, hi) =~= b.subrange(0, hi));
        }
    } else {
        assert(a.subrange(0, 0) =~= b.subrange(0, 0));
    }
}

/// A line of one written field is that field.
#[verifier::rlimit(50)]
proof fn lemma_line_of_one(fields: Seq<Seq<u8>>, forced: Seq<bool>, delimiter: u8)
    requires
        fields.len() == 1,
        forced.len() == 1,
        delimiter != QUOTE,
    ensures
        raw_fields(
            written_line_as(fields, forced, delimiter),
            delimiter,
            written_line_as(fields, forced, delimiter).len() as int,
        ) == written_fields_as(fields, forced, delimiter),
        count_byte(
            written_line_as(fields, forced, delimiter),
            QUOTE,
            0,
            written_line_as(fields, forced, delimiter).len() as int,
        ) % 2 == 0,
{
    let line = written_line_as(fields, forced, delimiter);
    let w = written_as(fields[0], delimiter, forced[0]);
    lemma_written_parity(fields[0], delimiter, forced[0]);
    assert(line == w);
    assert forall|j: int| 0 <= j < line.len() implies !is_boundary(line, delimiter, j) by {
        if line[j] == delimiter {
            assert(w[j] == delimiter);
        }
    }
    lemma_last_boundary(line, delimiter, 0, line.len() as int);
    assert(line.subrange(0, line.len() as int) =~= w);
    assert(raw_fields(line, delimiter, line.len() as int) =~= seq![w]);
    assert(seq![w] =~= written_fields_as(fields, forced, delimiter));
}

/// A written field behind a line: the delimiter between them is a field
/// boundary, the last one of the longer line, and the quotes of the longer
/// line come in an even number.
#[verifier::rlimit(50)]
proof fn lemma_line_grows(p: Seq<u8>, w: Seq<u8>, delimiter: u8)
    requires
        delimiter != QUOTE,
        count_byte(p, QUOTE, 0, p.len() as int) % 2 == 0,
        count_byte(w, QUOTE, 0, w.len() as int) % 2 == 0,
        forall|j: int|
            0 <= j < w.len() && #[trigger] w[j] == delimiter ==> count_byte(w, QUOTE, 0, j) % 2
                == 1,
    ensures
        last_boundary(
            p + seq![delimiter] + w,
            delimiter,
            (p + seq![delimiter] + w).len() as int,
        ) == p.len(),
        count_byte(
            p + seq![delimiter] + w,
            QUOTE,
            0,
            (p + seq![delimiter] + w).len() as int,
        ) % 2 == 0,
{
    let head = p + seq![delimiter];
    let line = head + w;
    let m = p.len() as int;
    assert(line =~= p + seq![delimiter] + w);
    lemma_count_single(delimiter, QUOTE);
    lemma_count_concat(p, seq![delimiter], QUOTE, 1);
    lemma_count_agree(line, p, QUOTE, 0, m);
    assert(line[m] == delimiter);
    assert(is_boundary(line, delimiter, m));
    assert forall|j: int| m + 1 <= j < line.len() implies !is_boundary(line, delimiter, j) by {
        if line[j] == delimiter {
            assert(w[j - m - 1] == delimiter);
            lemma_count_concat(head, w, QUOTE, j - m - 1);
        }
    }
    lemma_last_boundary(line, delimiter, m + 1, line.len() as int);
    assert(last_boundary(line, delimiter, m + 1) == m);
    lemma_count_concat(head, w, QUOTE, w.len() as int);
}

/// A written line falls apart into its written fields.
#[verifier::rlimit(50)]
proof fn lemma_line_fields(fields: Seq<Seq<u8>>, forced: Seq<bool>, delimiter: u8)
    requires
        fields.len() >= 1,
        forced.len() == fields.len(),
        delimiter != QUOTE,
    ensures
        raw_fields(
            written_line_as(fields, forced, delimiter),
            delimiter,
            written_line_as(fields, forced, delimiter).len() as int,
        ) == written_fields_as(fields, forced, delimiter),
        count_byte(
            written_line_as(fields, forced, delimiter),
            QUOTE,
            0,
            written_line_as(fields, forced, delimiter).len() as int,
        ) % 2 == 0,
    decreases fields.len(),
{
    if fields.len() == 1 {
        lemma_line_of_one(fields, forced, delimiter);
    } else {
        let line = written_line_as(fields, forced, delimiter);
        let last = fields[fields.len() - 1];
        let w = written_as(last, delimiter, forced[fields.len() - 1]);
        let init = fields.subrange(0, fields.len() - 1);
        let init_forced = forced.subrange(0, fields.len() - 1);
        let p = written_line_as(init, init_forced, delimiter);
        let m = p.len() as int;
        lemma_written_parity(last, delimiter, forced[fields.len() - 1]);
        lemma_line_fields(init, init_forced, delimiter);
        lemma_line_grows(p, w, delimiter);
        assert(line == p + seq![delimiter] + w);
        lemma_raw_fields_agree(line, p, delimiter, m);
        assert(line.subrange(m + 1, line.len() as int) =~= w);
        assert(raw_fields(line, delimiter, line.len() as int) == raw_fields(
            line,
            delimiter,
            m,
        ).push(w));
        assert(written_fields_as(init, init_forced, delimiter).push(w) =~= written_fields_as(
            fields,
            forced,
            delimiter,
        )) by {
            assert forall|i: int| 0 <= i < init.len() implies written_as(
                init[i],
                delimiter,
                init_forced[i],
            ) == written_as(fields[i], delimiter, forced[i]) by {
                assert(init[i] == fields[i]);
                assert(init_forced[i] == forced[i]);
            }
        }
    }
}

/// Two choices of quotes under which every field is written alike give the
/// same line.
proof fn lemma_same_line(
    fields: Seq<Seq<u8>>,
    one: Seq<bool>,
    other: Seq<bool>,
    delimiter: u8,
)
    requires
        one.len() == fields.len(),
        other.len() == fields.len(),
        forall|i: int|
            0 <= i < fields.len() ==> written_as(fields[i], delimiter, one[i]) == written_as(
                fields[i],
                delimiter,
                other[i],
            ),
    ensures
        written_line_as(fields, one, delimiter) == written_line_as(fields, other, delimiter),
    decreases fields.len(),
{
    if fields.len() > 1 {
        let n = fields.len() - 1;
        let init = fields.subrange(0, n);
        assert forall|i: int| 0 <= i < init.len() implies written_as(
            init[i],
            delimiter,
            one.subrange(0, n)[i],
        ) == written_as(init[i], delimiter, other.subrange(0, n)[i]) by {
            assert(init[i] == fields[i]);
        }
        lemma_same_line(init, one.subrange(0, n), other.subrange(0, n), delimiter);
    }
}

/// Parser round trip. Take a line that is written from fields: each field
/// in quotes, with its quotes doubled, where it holds the delimiter, a
/// quote, a line feed or a carriage return, and also wherever else the
/// writer chose to quote. The line is parsed back into the same fields, byte
/// for byte and so text for text. Writing those fields again with quotes
/// only where they are needed gives the line back, unless the line quoted a
/// field without need. The delimiter is no quote, line feed or carriage
/// return.
pub proof fn lemma_line_round_trip(fields: Seq<Seq<u8>>, forced: Seq<bool>, delimiter: u8)
    requires
        fields.len() >= 1,
        forced.len() == fields.len(),
        delimiter != QUOTE,
        delimiter != LF,
        delimiter != CR,
    ensures
        raw_fields(
            strip_cr(written_line_as(fields, forced, delimiter)),
            delimiter,
            strip_cr(written_line_as(fields, forced, delimiter)).len() as int,
        ) == written_fields_as(fields, forced, delimiter),
        forall|i: int|
            0 <= i < fields.len() ==> field_bytes(
                #[trigger] written_as(fields[i], delimiter, forced[i]),
            ) == fields[i],
        parse_line_spec(written_line_as(fields, forced, delimiter), delimiter) == Seq::new(
            fields.len(),
            |i: int| text_of(fields[i]),
        ),
        (forall|i: int| 0 <= i < fields.len() && forced[i] ==> needs_quotes(fields[i], delimiter))
            ==> written_line(fields, delimiter) == written_line_as(fields, forced, delimiter),
{
    let line = written_line_as(fields, forced, delimiter);
    let last = fields[fields.len() - 1];
    let last_forced = forced[fields.len() - 1];
    let w = written_as(last, delimiter, last_forced);
    lemma_line_fields(fields, forced, delimiter);
    assert(strip_cr(line) == line) by {
        if line.len() > 0 {
            if fields.len() == 1 {
                assert(line == w);
            } else {
                let p = written_line_as(
                    fields.subrange(0, fields.len() - 1),
                    forced.subrange(0, fields.len() - 1),
                    delimiter,
                );
                assert(line =~= p + seq![delimiter] + w);
                if w.len() == 0 {
                    assert(line[line.len() - 1] == delimiter);
                } else {
                    assert(line[line.len() - 1] == w[w.len() - 1]);
                }
            }
            if w.len() > 0 {
                if last_forced || needs_quotes(last, delimiter) {
                    assert(w[w.len() - 1] == QUOTE);
                } else {
                    assert(w[w.len() - 1] != CR);
                }
            }
        }
    }
    assert forall|i: int| 0 <= i < fields.len() implies field_bytes(
        #[trigger] written_as(fields[i], delimiter, forced[i]),
    ) == fields[i] by {
        lemma_field_round_trip(fields[i]);
        if !needs_quotes(fields[i], delimiter) {
            assert(free_of(fields[i], QUOTE, 0, fields[i].len() as int));
        }
    }
    assert(parse_line_spec(line, delimiter) =~= Seq::new(
        fields.len(),
        |i: int| text_of(fields[i]),
    )) by {
        assert forall|i: int| 0 <= i < fields.len() implies field_text(
            written_fields_as(fields, forced, delimiter)[i],
        ) == text_of(fields[i]) by {
            assert(written_fields_as(fields, forced, delimiter)[i] == written_as(
                fields[i],
                delimiter,
                forced[i],
            ));
        }
    }
    if forall|i: int| 0 <= i < fields.len() && forced[i] ==> needs_quotes(fields[i], delimiter) {
        lemma_same_line(fields, unforced(fields.len()), forced, delimiter);
    }
}

} // verus!
