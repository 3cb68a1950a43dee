//! The reader: a source, its index and a page cache, read page by page.

use crate::csv::cache::{PageCache, PageRows, PageText};
use crate::csv::estimate::{estimate_of, sample_budget, sample_budget_of, RowEstimate};
use crate::csv::index::{
    bom_len, bom_length, data_start, data_start_of, full_index, is_seek_answer, lemma_seek_unique,
    partial_stops, seek_answer, terminated_rows, RowIndex, RowIndexView,
};
use crate::csv::lines::{lines_from, read_rows, realign, realigned, record_texts, skip_lines, skip_rows};
use crate::csv::record::{parse_line_spec, CsvRecord, CR};
use crate::csv::scan::{find_byte, next_byte, LF};
use crate::csv::search::{finds_text, is_match, matches_record, SearchOptions, SearchResult};
use crate::error::{CsvError, Result};
use vstd::prelude::*;
use vstd::string::StringExecFns;

verus! {

/// How many rows a fast open indexes before it hands out the reader.
pub const FAST_OPEN_ROWS: usize = 500;

/// What a reader tells of its source.
#[derive(Debug, Clone)]
pub struct CsvInfo {
    /// The path that the source was opened under.
    pub file_path: String,
    /// The size of the source in bytes.
    pub file_size: u64,
    /// The number of data rows; an estimate while the index is incomplete.
    pub total_rows: usize,
    /// The number of columns of the first line.
    pub total_cols: usize,
    /// The header fields; empty without headers.
    pub headers: Vec<String>,
}

/// Where the first line of the source ends: at the first line feed behind
/// the byte order mark; without one, at the first carriage return; without
/// either, at the end.
pub open spec fn first_line_end(s: Seq<u8>) -> int {
    let b = bom_len(s);
    if next_byte(s, LF, b) < s.len() {
        next_byte(s, LF, b)
    } else if next_byte(s, CR, b) < s.len() {
        next_byte(s, CR, b)
    } else {
        s.len() as int
    }
}

/// The first line of the source, without the byte order mark.
pub open spec fn first_line(s: Seq<u8>) -> Seq<u8> {
    s.subrange(bom_len(s), first_line_end(s))
}

/// The first line of the source.
fn first_line_of<'a>(data: &'a [u8]) -> (r: &'a [u8])
    ensures
        r@ == first_line(data@),
{
    let start = bom_length(data);
    let end: usize = match find_byte(data, LF, start) {
        Some(p) => p,
        None => match find_byte(data, CR, start) {
            Some(p) => p,
            None => data.len(),
        },
    };
    vstd::slice::slice_subrange(data, start, end)
}

/// The header fields: the fields of the first line. A source whose first
/// line is empty has no headers to read.
pub fn read_headers(data: &[u8], delimiter: u8) -> (r: Result<Vec<String>>)
    ensures
        first_line(data@).len() == 0 ==> r matches Err(CsvError::Format(_)),
        first_line(data@).len() > 0 ==> (r matches Ok(headers) && headers.deep_view()
            == parse_line_spec(first_line(data@), delimiter)),
{
    let line = first_line_of(data);
    if line.len() == 0 {
        return Err(CsvError::Format(String::from_str("the source is empty or malformed")));
    }
    let record = CsvRecord::parse_line(line, delimiter);
    Ok(record.to_strings())
}

/// The number of fields of the first line. A source whose first line is
/// empty has no columns to count.
pub fn count_columns_first_line(data: &[u8], delimiter: u8) -> (r: Result<usize>)
    ensures
        first_line(data@).len() == 0 ==> r matches Err(CsvError::Format(_)),
        first_line(data@).len() > 0 ==> (r matches Ok(n) && n == parse_line_spec(
            first_line(data@),
            delimiter,
        ).len()),
{
    let line = first_line_of(data);
    if line.len() == 0 {
        return Err(CsvError::Format(String::from_str("the source is empty or malformed")));
    }
    let record = CsvRecord::parse_line(line, delimiter);
    Ok(record.fields.len())
}

/// The rows of a page as owned strings.
pub fn rows_of<'a>(records: &Vec<CsvRecord<'a>>) -> (r: PageRows)
    ensures
        r.deep_view() == record_texts(records@),
{
    let mut rows: PageRows = Vec::new();
    let mut i: usize = 0;
    while i < records.len()
        invariant
            0 <= i <= records@.len(),
            rows@.len() == i,
            forall|k: int| 0 <= k < i ==> (#[trigger] rows@[k]).deep_view() == records@[k]@,
        decreases records@.len() - i,
    {
        rows.push(records[i].to_strings());
        i = i + 1;
    }
    assert(rows.deep_view() =~= record_texts(records@));
    rows
}

/// The records that own these rows.
pub fn records_of(rows: PageRows) -> (r: Vec<CsvRecord<'static>>)
    ensures
        record_texts(r@) == rows.deep_view(),
{
    let mut records: Vec<CsvRecord<'static>> = Vec::new();
    let mut i: usize = 0;
    while i < rows.len()
        invariant
            0 <= i <= rows@.len(),
            records@.len() == i,
            forall|k: int| 0 <= k < i ==> (#[trigger] records@[k])@ == rows@[k].deep_view(),
        decreases rows@.len() - i,
    {
        records.push(CsvRecord::from_strings(rows[i].clone()));
        i = i + 1;
    }
    assert(record_texts(records@) =~= rows.deep_view());
    records
}

/// What a reader reads from: the source, the index, and how rows are counted
/// and split.
pub struct ReaderView {
    pub data: Seq<u8>,
    pub index: RowIndexView,
    pub total_rows: usize,
    pub delimiter: u8,
    pub data_start: int,
}

/// Where reading starts for the anchor that a lookup answered, and the
/// number of the row that starts there: the start of the data region with
/// row 0 where the anchor gives nothing later; else the anchor's offset,
/// taken back to the start of its row, with the row before the anchor row.
pub open spec fn page_origin(v: ReaderView, off: u64, anchor: usize) -> (int, int) {
    if anchor == 0 || off <= v.data_start {
        (v.data_start, 0int)
    } else if off >= v.data.len() {
        (v.data.len() as int, anchor - 1)
    } else {
        (realigned(v.data, off as int), anchor - 1)
    }
}

/// The number of rows on a page whose first row is `first`.
pub open spec fn page_len(total_rows: usize, first: int, size: usize) -> nat {
    if first >= total_rows {
        0
    } else if size <= total_rows - first {
        size as nat
    } else {
        (total_rows - first) as nat
    }
}

/// The index knows the first row of the page, so that the page can be read.
pub open spec fn page_known(v: ReaderView, page: usize, size: usize) -> bool {
    page * size < v.index.total_rows
}

/// The rows of page `page` at `size` rows a page.
pub open spec fn page_text(v: ReaderView, page: usize, size: usize) -> PageText {
    let first = page * size;
    if first >= v.total_rows {
        Seq::empty()
    } else {
        let (off, anchor) = seek_answer(v.index, first as usize);
        let (start, base) = page_origin(v, off, anchor);
        lines_from(
            v.data,
            v.delimiter,
            skip_lines(v.data, start, (first - base) as nat),
            page_len(v.total_rows, first, size),
        )
    }
}

/// A reader over one source.
pub struct CsvReader<'a> {
    data: &'a [u8],
    index: RowIndex,
    cache: PageCache,
    cached_page_size: usize,
    info: CsvInfo,
    delimiter: u8,
    data_start_offset: usize,
    has_headers: bool,
    index_granularity: usize,
    row_estimate: Option<RowEstimate>,
}

impl<'a> View for CsvReader<'a> {
    type V = ReaderView;

    closed spec fn view(&self) -> ReaderView {
        ReaderView {
            data: self.data@,
            index: self.index@,
            total_rows: self.info.total_rows,
            delimiter: self.delimiter,
            data_start: self.data_start_offset as int,
        }
    }
}

/// What a fast open builds for a source. A source that is no longer than
/// its sample is counted, and gets its complete index and no estimate. Any
/// longer source gets the estimate from its sample and an index over its
/// first [`FAST_OPEN_ROWS`] rows, which is complete only where the source
/// has no more rows that a line feed ends; the number of rows to announce is
/// the larger of the estimate and the rows indexed.
pub open spec fn is_fast_index(
    data: Seq<u8>,
    has_headers: bool,
    granularity: usize,
    index: RowIndexView,
    total_rows: usize,
    estimate: Option<RowEstimate>,
) -> bool {
    let ds = data_start_of(data, has_headers);
    let budget = sample_budget_of(data.len() as int);
    let sampled = estimate_of(data, has_headers, budget);
    &&& index.describes(data, ds)
    &&& index.granularity == granularity
    &&& total_rows >= index.total_rows
    &&& data.len() <= budget ==> index == full_index(data, has_headers, granularity)
        && total_rows == index.total_rows && estimate is None
    &&& data.len() > budget ==> {
        &&& estimate == Some(sampled)
        &&& !sampled.is_exact
        &&& sampled.sampled_bytes <= budget
        &&& sampled.total_bytes == data.len()
        &&& index.is_complete <==> !partial_stops(terminated_rows(data, ds), Some(FAST_OPEN_ROWS))
        &&& !index.is_complete ==> index.total_rows == FAST_OPEN_ROWS
        &&& total_rows == if sampled.estimated_rows >= index.total_rows {
            sampled.estimated_rows
        } else {
            index.total_rows
        }
    }
}

/// Builds the index of a fast open: see [`is_fast_index`]. Answers with the
/// index, the number of rows to announce and the estimate where one was
/// needed.
pub fn build_fast_index(data: &[u8], has_headers: bool, granularity: usize) -> (r: Result<
    (RowIndex, usize, Option<RowEstimate>),
>)
    requires
        granularity > 0,
    ensures
        r matches Ok((index, total_rows, estimate)) && is_fast_index(
            data@,
            has_headers,
            granularity,
            index@,
            total_rows,
            estimate,
        ),
{
    let file_size: usize = data.len();
    let estimate = RowIndex::estimate_rows(data, has_headers, sample_budget(file_size));
    if estimate.is_exact {
        match RowIndex::build(data, has_headers, granularity) {
            Ok(index) => {
                let total_rows = index.total_rows();
                Ok((index, total_rows, None))
            },
            Err(e) => Err(e),
        }
    } else {
        match RowIndex::build_partial(data, has_headers, granularity, Some(FAST_OPEN_ROWS)) {
            Ok((index, _complete)) => {
                let indexed = index.total_rows();
                let total_rows: usize = if estimate.estimated_rows >= indexed {
                    estimate.estimated_rows
                } else {
                    indexed
                };
                Ok((index, total_rows, Some(estimate)))
            },
            Err(e) => Err(e),
        }
    }
}

impl<'a> CsvReader<'a> {
    /// What every cached page holds: the rows of that page at the page size
    /// that the cache is kept for.
    pub closed spec fn cache_is_valid(&self) -> bool {
        forall|p: usize|
            self.cache.lookup(p) is Some ==> #[trigger] self.cache.lookup(p) == Some(
                page_text(self@, p, self.cached_page_size),
            ) && page_known(self@, p, self.cached_page_size) && p * self.cached_page_size
                < self@.total_rows
    }

    /// The invariant of a reader.
    pub closed spec fn wf(&self) -> bool {
        &&& self.index@.wf()
        &&& self.cache.wf()
        &&& self.cache_is_valid()
        &&& self.data_start_offset <= self.data@.len()
        &&& self.index_granularity > 0
    }

    /// Puts a reader together around an index.
    fn assemble(
        data: &'a [u8],
        file_path: &str,
        has_headers: bool,
        delimiter: u8,
        index_granularity: usize,
        index: RowIndex,
        total_rows: usize,
        row_estimate: Option<RowEstimate>,
    ) -> (r: Result<Self>)
        requires
            index_granularity > 0,
            index@.wf(),
        ensures
            first_line(data@).len() == 0 ==> r matches Err(CsvError::Format(_)),
            first_line(data@).len() > 0 ==> (r matches Ok(reader) && {
                &&& reader.wf()
                &&& reader@ == (ReaderView {
                    data: data@,
                    index: index@,
                    total_rows,
                    delimiter,
                    data_start: data_start_of(data@, has_headers),
                })
                &&& reader.spec_headers() == if has_headers {
                    parse_line_spec(first_line(data@), delimiter)
                } else {
                    Seq::empty()
                }
                &&& reader.spec_total_cols() == parse_line_spec(first_line(data@), delimiter).len()
                &&& reader.spec_estimate() == row_estimate
                &&& reader.spec_file_path() == file_path@
                &&& reader.spec_file_size() == data@.len()
                &&& reader.cached_pages().len() == 0
            }),
    {
        let headers: Vec<String> = if has_headers {
            match read_headers(data, delimiter) {
                Ok(h) => h,
                Err(e) => {
                    return Err(e);
                },
            }
        } else {
            Vec::new()
        };
        let total_cols: usize = if has_headers {
            headers.len()
        } else {
            match count_columns_first_line(data, delimiter) {
                Ok(n) => n,
                Err(e) => {
                    return Err(e);
                },
            }
        };
        assert(!has_headers ==> headers.deep_view() =~= Seq::<Seq<char>>::empty());
        let info = CsvInfo {
            file_path: String::from_str(file_path),
            file_size: data.len() as u64,
            total_rows,
            total_cols,
            headers,
        };
        Ok(
            CsvReader {
                data,
                index,
                cache: PageCache::default(),
                cached_page_size: 0,
                info,
                delimiter,
                data_start_offset: data_start(data, has_headers),
                has_headers,
                index_granularity,
                row_estimate,
            },
        )
    }

    /// The header fields, as text.
    pub closed spec fn spec_headers(&self) -> Seq<Seq<char>> {
        self.info.headers.deep_view()
    }

    /// The number of columns.
    pub closed spec fn spec_total_cols(&self) -> usize {
        self.info.total_cols
    }

    /// The estimate that stands in for the row count.
    pub closed spec fn spec_estimate(&self) -> Option<RowEstimate> {
        self.row_estimate
    }

    /// The path that the source was opened under.
    pub closed spec fn spec_file_path(&self) -> Seq<char> {
        self.info.file_path@
    }

    /// The size of the source in bytes.
    pub closed spec fn spec_file_size(&self) -> u64 {
        self.info.file_size
    }

    /// Opens a reader with a complete index: the one handed in, which the
    /// caller has restored and found valid, or else one built here. A source
    /// whose first line is empty cannot be opened.
    pub fn open(
        data: &'a [u8],
        file_path: &str,
        has_headers: bool,
        delimiter: u8,
        index_granularity: usize,
        stored: Option<RowIndex>,
    ) -> (r: Result<Self>)
        requires
            index_granularity > 0,
            stored matches Some(index) ==> index@.wf(),
        ensures
            first_line(data@).len() == 0 ==> r matches Err(CsvError::Format(_)),
            first_line(data@).len() > 0 ==> (r matches Ok(reader) && {
                &&& reader.wf()
                &&& reader@.data == data@
                &&& reader@.delimiter == delimiter
                &&& reader@.data_start == data_start_of(data@, has_headers)
                &&& reader@.index == match stored {
                    Some(index) => index@,
                    None => full_index(data@, has_headers, index_granularity),
                }
                &&& stored is None ==> reader@.index.describes(
                    data@,
                    data_start_of(data@, has_headers),
                )
                &&& reader@.total_rows == reader@.index.total_rows
                &&& reader.spec_headers() == if has_headers {
                    parse_line_spec(first_line(data@), delimiter)
                } else {
                    Seq::empty()
                }
                &&& reader.spec_total_cols() == parse_line_spec(first_line(data@), delimiter).len()
                &&& reader.spec_estimate() is None
                &&& reader.spec_file_path() == file_path@
                &&& reader.spec_file_size() == data@.len()
                &&& reader.cached_pages().len() == 0
            }),
    {
        let index = match stored {
            Some(index) => index,
            None => match RowIndex::build(data, has_headers, index_granularity) {
                Ok(index) => index,
                Err(e) => {
                    return Err(e);
                },
            },
        };
        let total_rows = index.total_rows();
        Self::assemble(
            data,
            file_path,
            has_headers,
            delimiter,
            index_granularity,
            index,
            total_rows,
            None,
        )
    }

    /// Opens a reader without scanning the whole source: with the index
    /// handed in, which the caller has restored and found valid, or else
    /// with what [`build_fast_index`] builds: an estimate and an index over
    /// the first rows, for every source that is longer than its sample.
    pub fn open_fast(
        data: &'a [u8],
        file_path: &str,
        has_headers: bool,
        delimiter: u8,
        index_granularity: usize,
        stored: Option<RowIndex>,
    ) -> (r: Result<Self>)
        requires
            index_granularity > 0,
            stored matches Some(index) ==> index@.wf(),
        ensures
            first_line(data@).len() == 0 ==> r matches Err(CsvError::Format(_)),
            first_line(data@).len() > 0 ==> (r matches Ok(reader) && {
                &&& reader.wf()
                &&& reader@.data == data@
                &&& reader@.delimiter == delimiter
                &&& reader@.data_start == data_start_of(data@, has_headers)
                &&& stored matches Some(index) ==> reader@.index == index@ && reader@.total_rows
                    == index@.total_rows && reader.spec_estimate() is None
                &&& stored is None ==> is_fast_index(
                    data@,
                    has_headers,
                    index_granularity,
                    reader@.index,
                    reader@.total_rows,
                    reader.spec_estimate(),
                )
                &&& reader.spec_headers() == if has_headers {
                    parse_line_spec(first_line(data@), delimiter)
                } else {
                    Seq::empty()
                }
                &&& reader.spec_total_cols() == parse_line_spec(first_line(data@), delimiter).len()
                &&& reader.spec_file_path() == file_path@
                &&& reader.spec_file_size() == data@.len()
                &&& reader.cached_pages().len() == 0
            }),
    {
        match stored {
            Some(index) => {
                let total_rows = index.total_rows();
                Self::assemble(
                    data,
                    file_path,
                    has_headers,
                    delimiter,
                    index_granularity,
                    index,
                    total_rows,
                    None,
                )
            },
            None => match build_fast_index(data, has_headers, index_granularity) {
                Ok((index, total_rows, estimate)) => Self::assemble(
                    data,
                    file_path,
                    has_headers,
                    delimiter,
                    index_granularity,
                    index,
                    total_rows,
                    estimate,
                ),
                Err(e) => Err(e),
            },
        }
    }

    /// Takes over an index that was completed elsewhere: the row count is
    /// the one of the new index, the estimate is dropped, and the cache is
    /// emptied, since rows may be numbered otherwise now.
    pub fn update_index(&mut self, new_index: RowIndex)
        requires
            old(self).wf(),
            new_index@.wf(),
        ensures
            final(self).wf(),
            final(self)@ == (ReaderView {
                index: new_index@,
                total_rows: new_index@.total_rows,
                ..old(self)@
            }),
            final(self).spec_estimate() is None,
            final(self).spec_headers() == old(self).spec_headers(),
            final(self).spec_total_cols() == old(self).spec_total_cols(),
            final(self).spec_file_path() == old(self).spec_file_path(),
            final(self).spec_file_size() == old(self).spec_file_size(),
            final(self).cached_pages().len() == 0,
            forall|page: usize| final(self).cached_page(page) is None,
    {
        self.info.total_rows = new_index.total_rows();
        self.index = new_index;
        self.row_estimate = None;
        self.cache.clear();
    }

    /// Whether the index covers the whole source.
    pub fn is_index_complete(&self) -> (r: bool)
        ensures
            r == self@.index.is_complete,
    {
        self.index.is_complete()
    }

    /// The estimate that stands in for the row count, while there is one.
    pub fn row_estimate(&self) -> (r: Option<&RowEstimate>)
        ensures
            match r {
                Some(e) => self.spec_estimate() == Some(*e),
                None => self.spec_estimate() is None,
            },
    {
        self.row_estimate.as_ref()
    }

    /// The index.
    pub fn index(&self) -> (r: &RowIndex)
        ensures
            r@ == self@.index,
    {
        &self.index
    }

    /// What the reader tells of its source.
    pub fn info(&self) -> (r: &CsvInfo)
        ensures
            r.total_rows == self@.total_rows,
            r.total_cols == self.spec_total_cols(),
            r.headers.deep_view() == self.spec_headers(),
            r.file_path@ == self.spec_file_path(),
            r.file_size == self.spec_file_size(),
    {
        &self.info
    }

    /// The header fields.
    pub fn headers(&self) -> (r: &Vec<String>)
        ensures
            r.deep_view() == self.spec_headers(),
    {
        &self.info.headers
    }

    /// The field delimiter.
    pub fn delimiter(&self) -> (r: u8)
        ensures
            r == self@.delimiter,
    {
        self.delimiter
    }

    /// The number of pages at `page_size` rows a page.
    pub fn total_pages(&self, page_size: usize) -> (r: usize)
        requires
            page_size > 0,
        ensures
            r == (self@.total_rows + page_size - 1) / page_size as int,
    {
        let total = self.info.total_rows;
        let whole: usize = total / page_size;
        proof {
            vstd::arithmetic::div_mod::lemma_fundamental_div_mod(total as int, page_size as int);
            vstd::arithmetic::div_mod::lemma_mod_bound(total as int, page_size as int);
            let q = total as int / page_size as int;
            let m = total as int % page_size as int;
            if m == 0 {
                vstd::arithmetic::div_mod::lemma_fundamental_div_mod_converse(
                    total + page_size - 1,
                    page_size as int,
                    q,
                    page_size - 1,
                );
            } else {
                assert(total + page_size - 1 == (q + 1) * page_size + (m - 1))
                    by (nonlinear_arith)
                    requires
                        total == page_size * q + m,
                ;
                vstd::arithmetic::div_mod::lemma_fundamental_div_mod_converse(
                    total + page_size - 1,
                    page_size as int,
                    q + 1,
                    m - 1,
                );
                assert(q < total) by (nonlinear_arith)
                    requires
                        total == page_size * q + m,
                        m > 0,
                        page_size > 0,
                        q >= 0,
                ;
            }
        }
        if total % page_size == 0 {
            whole
        } else {
            whole + 1
        }
    }

    /// The pages that the cache holds, the most recently used first: page
    /// number and rows.
    pub closed spec fn cached_pages(&self) -> Seq<(usize, PageText)> {
        self.cache@
    }

    /// The rows that the cache holds for page `page`, if any.
    pub closed spec fn cached_page(&self, page: usize) -> Option<PageText> {
        self.cache.lookup(page)
    }

    /// Forgets every cached page: the cache is empty afterwards, and nothing
    /// else of the reader changes.
    pub fn clear_cache(&mut self)
        requires
            old(self).wf(),
        ensures
            final(self).wf(),
            final(self)@ == old(self)@,
            final(self).cached_pages().len() == 0,
            forall|page: usize| final(self).cached_page(page) is None,
            final(self).spec_headers() == old(self).spec_headers(),
            final(self).spec_total_cols() == old(self).spec_total_cols(),
            final(self).spec_estimate() == old(self).spec_estimate(),
            final(self).spec_file_path() == old(self).spec_file_path(),
            final(self).spec_file_size() == old(self).spec_file_size(),
    {
        self.cache.clear();
    }

    /// Reads page `page` at `page_size` rows a page: the rows from
    /// `page * page_size` on, as far as the page and the rows go. A page
    /// behind the last row is empty. A page that the index does not reach yet
    /// is refused. The rows of a page read before come from the cache, and
    /// the rows of a page that was read are in the cache afterwards.
    #[verifier::rlimit(40)]
    pub fn read_page(&mut self, page: usize, page_size: usize) -> (r: Result<Vec<CsvRecord<'a>>>)
        requires
            old(self).wf(),
        ensures
            final(self).wf(),
            final(self)@ == old(self)@,
            page * page_size >= old(self)@.total_rows ==> (r matches Ok(records)
                && records@.len() == 0),
            page * page_size < old(self)@.total_rows && !page_known(old(self)@, page, page_size)
                ==> (r matches Err(CsvError::IndexOutOfBounds { row, total_rows }) && row == page
                * page_size && total_rows == old(self)@.index.total_rows),
            page * page_size < old(self)@.total_rows && page_known(old(self)@, page, page_size)
                ==> (r matches Ok(records) && record_texts(records@) == page_text(
                old(self)@,
                page,
                page_size,
            ) && final(self).cached_page(page) == Some(page_text(old(self)@, page, page_size))),
            final(self).spec_headers() == old(self).spec_headers(),
            final(self).spec_total_cols() == old(self).spec_total_cols(),
            final(self).spec_estimate() == old(self).spec_estimate(),
            final(self).spec_file_path() == old(self).spec_file_path(),
            final(self).spec_file_size() == old(self).spec_file_size(),
    {
        let total = self.info.total_rows;
        let first: usize = match page.checked_mul(page_size) {
            Some(first) => first,
            None => {
                return Ok(Vec::new());
            },
        };
        if first >= total {
            return Ok(Vec::new());
        }
        let count: usize = if page_size <= total - first {
            page_size
        } else {
            total - first
        };
        if self.cached_page_size != page_size {
            self.cache.clear();
            self.cached_page_size = page_size;
        }
        match self.cache.get(&page) {
            Some(rows) => {
                return Ok(records_of(rows));
            },
            None => {},
        }
        let (off, anchor) = match self.index.seek_to_row_with_info(first) {
            Ok(found) => found,
            Err(e) => {
                return Err(e);
            },
        };
        proof {
            let chosen = seek_answer(self.index@, first);
            assert(is_seek_answer(self.index@, first, (off, anchor).0, (off, anchor).1));
            lemma_seek_unique(self.index@, first, off, anchor, chosen.0, chosen.1);
        }
        let len: usize = self.data.len();
        let (start, base): (usize, usize) = if anchor == 0 || off <= self.data_start_offset as u64 {
            (self.data_start_offset, 0)
        } else if off >= len as u64 {
            (len, anchor - 1)
        } else {
            (realign(self.data, off as usize), anchor - 1)
        };
        let from = skip_rows(self.data, start, first - base);
        let records = read_rows(self.data, self.delimiter, from, count);
        self.cache.put(page, rows_of(&records));
        Ok(records)
    }
}

/// A row that a search found, as values: its number, its finds and its
/// fields.
pub type FoundRow = (usize, Seq<(usize, Seq<(usize, usize)>)>, Seq<Seq<char>>);

/// The rows that a search found, as values.
pub open spec fn results_text(results: Seq<SearchResult>) -> Seq<FoundRow> {
    Seq::new(
        results.len(),
        |i: int| (results[i].row_number, finds_text(results[i].matches@), results[i].record@),
    )
}

/// Where the line behind the one that starts at `off` starts: behind the
/// next line feed, or at the end of the data where there is none.
pub open spec fn line_after(data: Seq<u8>, off: int) -> int {
    if off <= next_byte(data, LF, off) < data.len() {
        next_byte(data, LF, off) + 1
    } else {
        data.len() as int
    }
}

/// The rows that a search finds from offset `off` on, where row number
/// `row` starts, `room` of them at most: line by line, each row that the
/// search wants with its number, its finds and its fields.
pub open spec fn found_from(
    data: Seq<u8>,
    delimiter: u8,
    options: SearchOptions,
    off: int,
    row: nat,
    room: nat,
) -> Seq<FoundRow>
    decreases data.len() - off,
{
    if off >= data.len() || off < 0 || room == 0 {
        Seq::empty()
    } else {
        let record = parse_line_spec(data.subrange(off, next_byte(data, LF, off)), delimiter);
        if options.wants(record) {
            seq![
                (
                    row as usize,
                    if options.invert_match {
                        Seq::empty()
                    } else {
                        options.record_finds(record)
                    },
                    record,
                ),
            ] + found_from(
                data,
                delimiter,
                options,
                line_after(data, off),
                row + 1,
                (room - 1) as nat,
            )
        } else {
            found_from(data, delimiter, options, line_after(data, off), row + 1, room)
        }
    }
}

/// The number of rows that a search wants from offset `off` on.
pub open spec fn wanted_from(data: Seq<u8>, delimiter: u8, options: SearchOptions, off: int) -> nat
    decreases data.len() - off,
{
    if off >= data.len() || off < 0 {
        0
    } else {
        let record = parse_line_spec(data.subrange(off, next_byte(data, LF, off)), delimiter);
        wanted_from(data, delimiter, options, line_after(data, off)) + if options.wants(record) {
            1nat
        } else {
            0nat
        }
    }
}

/// The number of rows that a search finds at most.
pub open spec fn search_room(options: SearchOptions) -> nat {
    match options.max_results {
        Some(max) => max as nat,
        None => usize::MAX as nat,
    }
}

impl<'a> CsvReader<'a> {
    /// The first `count` data rows, or as many as there are.
    pub fn read_first_rows(&self, count: usize) -> (r: Vec<CsvRecord<'a>>)
        requires
            self.wf(),
        ensures
            record_texts(r@) == lines_from(
                self@.data,
                self@.delimiter,
                self@.data_start,
                count as nat,
            ),
    {
        read_rows(self.data, self.delimiter, self.data_start_offset, count)
    }

    /// Searches the data rows from the first to the last, or until as many
    /// rows are found as the search allows: see [`found_from`].
    #[verifier::rlimit(40)]
    pub fn search(&self, options: &SearchOptions) -> (r: Result<Vec<SearchResult>>)
        requires
            self.wf(),
        ensures
            r matches Ok(results) && results_text(results@) == found_from(
                self@.data,
                self@.delimiter,
                *options,
                self@.data_start,
                0,
                search_room(*options),
            ),
    {
        let max: usize = match options.max_results {
            Some(max) => max,
            None => usize::MAX,
        };
        let len: usize = self.data.len();
        let mut results: Vec<SearchResult> = Vec::new();
        let mut off: usize = self.data_start_offset;
        let mut row: usize = 0;
        let ghost goal = found_from(
            self@.data,
            self@.delimiter,
            *options,
            self@.data_start,
            0,
            search_room(*options),
        );
        assert(results_text(results@) + goal =~= goal);
        while off < len && results.len() < max
            invariant
                len == self.data@.len(),
                self.data_start_offset <= off <= len,
                row <= off - self.data_start_offset,
                results@.len() <= max,
                goal == found_from(
                    self@.data,
                    self@.delimiter,
                    *options,
                    self@.data_start,
                    0,
                    search_room(*options),
                ),
                results_text(results@) + found_from(
                    self@.data,
                    self@.delimiter,
                    *options,
                    off as int,
                    row as nat,
                    (max - results@.len()) as nat,
                ) == goal,
            decreases len - off,
        {
            let end: usize = match find_byte(self.data, LF, off) {
                Some(p) => p,
                None => len,
            };
            let line = vstd::slice::slice_subrange(self.data, off, end);
            let record = CsvRecord::parse_line(line, self.delimiter);
            let ghost before = results_text(results@);
            let ghost rest = found_from(
                self@.data,
                self@.delimiter,
                *options,
                off as int,
                row as nat,
                (max - results@.len()) as nat,
            );
            match matches_record(options, &record) {
                Some(matches) => {
                    let owned = record.to_owned();
                    results.push(SearchResult { row_number: row, matches, record: owned });
                    proof {
                        let item = (
                            row,
                            if options.invert_match {
                                Seq::empty()
                            } else {
                                options.record_finds(record@)
                            },
                            record@,
                        );
                        assert(results_text(results@) =~= before.push(item));
                        let tail = found_from(
                            self@.data,
                            self@.delimiter,
                            *options,
                            line_after(self@.data, off as int),
                            (row + 1) as nat,
                            (max - results@.len()) as nat,
                        );
                        assert(rest == seq![item] + tail);
                        assert(before.push(item) + tail =~= before + rest);
                    }
                },
                None => {},
            }
            let ghost next = line_after(self@.data, off as int);
            off = if end < len {
                end + 1
            } else {
                len
            };
            row = row + 1;
            assert(next == off);
        }
        assert(found_from(
            self@.data,
            self@.delimiter,
            *options,
            off as int,
            row as nat,
            (max - results@.len()) as nat,
        ) =~= Seq::empty());
        assert(results_text(results@) + Seq::<FoundRow>::empty() =~= results_text(results@));
        Ok(results)
    }

    /// Counts the data rows that a search wants, whatever limit the search
    /// has.
    pub fn count_matches(&self, options: &SearchOptions) -> (r: Result<usize>)
        requires
            self.wf(),
        ensures
            r matches Ok(count) && count == wanted_from(
                self@.data,
                self@.delimiter,
                *options,
                self@.data_start,
            ),
    {
        let len: usize = self.data.len();
        let mut count: usize = 0;
        let mut off: usize = self.data_start_offset;
        while off < len
            invariant
                len == self.data@.len(),
                self.data_start_offset <= off <= len,
                count <= off - self.data_start_offset,
                count + wanted_from(self@.data, self@.delimiter, *options, off as int)
                    == wanted_from(self@.data, self@.delimiter, *options, self@.data_start),
            decreases len - off,
        {
            let end: usize = match find_byte(self.data, LF, off) {
                Some(p) => p,
                None => len,
            };
            let line = vstd::slice::slice_subrange(self.data, off, end);
            let record = CsvRecord::parse_line(line, self.delimiter);
            let ghost next = line_after(self@.data, off as int);
            let ghost here = wanted_from(self@.data, self@.delimiter, *options, off as int);
            assert(here == wanted_from(self@.data, self@.delimiter, *options, next) + if
                options.wants(record@) {
                1nat
            } else {
                0nat
            });
            if is_match(options, &record) {
                count = count + 1;
            }
            off = if end < len {
                end + 1
            } else {
                len
            };
            assert(wanted_from(self@.data, self@.delimiter, *options, next) == wanted_from(
                self@.data,
                self@.delimiter,
                *options,
                off as int,
            ));
        }
        Ok(count)
    }
}

} // verus!
