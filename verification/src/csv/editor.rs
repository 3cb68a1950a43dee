//! The editor: changes to a source, collected beside it and merged with it
//! only when the result is written out.

use crate::csv::index::{data_start_of, full_index, total_rows_of};
use crate::csv::lines::record_texts;
use crate::csv::reader::{first_line, page_text, CsvReader, ReaderView};
use crate::csv::record::parse_line_spec;
use crate::csv::writer::{
    format_row, line_text, rows_text, CellEdit, ChangeStats, RowData, WriteOptions,
};
use crate::error::{CsvError, Result};
use std::collections::{HashMap, HashSet};
use vstd::prelude::*;
use vstd::string::StringExecFns;

verus! {

broadcast use vstd::std_specs::hash::group_hash_axioms;

/// The changed cells as values: row, column and new text.
pub open spec fn edits_text(edits: Seq<CellEdit>) -> Seq<(usize, usize, Seq<char>)> {
    Seq::new(edits.len(), |i: int| (edits[i].row, edits[i].col, edits[i].value@))
}

/// The inserted rows as values: position and fields.
pub open spec fn inserted_text(rows: Seq<(usize, RowData)>) -> Seq<(usize, Seq<Seq<char>>)> {
    Seq::new(rows.len(), |i: int| (rows[i].0, rows[i].1@))
}

/// The position of the first edit of cell `(row, col)`, or -1.
pub open spec fn edit_rank(edits: Seq<(usize, usize, Seq<char>)>, row: usize, col: usize) -> int
    decreases edits.len(),
{
    if edits.len() == 0 {
        -1
    } else if edits[edits.len() - 1].0 == row && edits[edits.len() - 1].1 == col
        && edit_rank(edits.subrange(0, edits.len() - 1), row, col) < 0 {
        edits.len() - 1
    } else {
        edit_rank(edits.subrange(0, edits.len() - 1), row, col)
    }
}

/// The edits with the one of cell `(row, col)` set to `value`: replaced
/// where the cell has one, added at the end otherwise.
pub open spec fn with_edit(
    edits: Seq<(usize, usize, Seq<char>)>,
    row: usize,
    col: usize,
    value: Seq<char>,
) -> Seq<(usize, usize, Seq<char>)> {
    let i = edit_rank(edits, row, col);
    if i >= 0 {
        edits.update(i, (row, col, value))
    } else {
        edits.push((row, col, value))
    }
}

/// An edit lies in row `n`, or in column `n`.
pub open spec fn edit_hits(edit: (usize, usize, Seq<char>), by_row: bool, n: usize) -> bool {
    if by_row {
        edit.0 == n
    } else {
        edit.1 == n
    }
}

/// The edits without those of row `n`, or of column `n`, in their order.
pub open spec fn without(edits: Seq<(usize, usize, Seq<char>)>, by_row: bool, n: usize) -> Seq<
    (usize, usize, Seq<char>),
>
    decreases edits.len(),
{
    if edits.len() == 0 {
        Seq::empty()
    } else if edit_hits(edits[edits.len() - 1], by_row, n) {
        without(edits.subrange(0, edits.len() - 1), by_row, n)
    } else {
        without(edits.subrange(0, edits.len() - 1), by_row, n).push(edits[edits.len() - 1])
    }
}

/// The cell of the source as a reader with a complete index reads it: the
/// field in column `col` of row `row`, if there is one.
pub open spec fn source_cell(
    data: Seq<u8>,
    has_headers: bool,
    delimiter: u8,
    granularity: usize,
    row: usize,
    col: usize,
) -> Option<Seq<char>> {
    let index = full_index(data, has_headers, granularity);
    let v = ReaderView {
        data,
        index,
        total_rows: index.total_rows,
        delimiter,
        data_start: data_start_of(data, has_headers),
    };
    let page = page_text(v, row, 1);
    if page.len() > 0 && col < page[0].len() {
        Some(page[0][col as int])
    } else {
        None
    }
}

/// The text of a value that may be missing.
pub open spec fn option_text(value: Option<String>) -> Option<Seq<char>> {
    match value {
        Some(s) => Some(s@),
        None => None,
    }
}

/// What an editor holds.
pub struct EditorView {
    pub path: Seq<char>,
    pub delimiter: u8,
    pub has_headers: bool,
    pub granularity: usize,
    pub headers: Seq<Seq<char>>,
    pub source_cols: usize,
    pub source_rows: usize,
    pub edits: Seq<(usize, usize, Seq<char>)>,
    pub inserted_rows: Seq<(usize, Seq<Seq<char>>)>,
    pub deleted_rows: Set<usize>,
    pub inserted_cols: nat,
    pub deleted_cols: Set<usize>,
    pub appended_rows: Seq<Seq<Seq<char>>>,
}

impl EditorView {
    /// No cell has two edits, and what is deleted are rows and columns of
    /// the source.
    pub open spec fn wf(self) -> bool {
        &&& forall|i: int, j: int|
            0 <= i < j < self.edits.len() ==> !(self.edits[i].0 == self.edits[j].0
                && self.edits[i].1 == self.edits[j].1)
        &&& self.deleted_rows.finite()
        &&& forall|row: usize| self.deleted_rows.contains(row) ==> row < self.source_rows
        &&& self.deleted_cols.finite()
        &&& forall|col: usize| self.deleted_cols.contains(col) ==> col < self.source_cols
    }

    /// The new value of cell `(row, col)`, if it has one.
    pub open spec fn edit_at(self, row: usize, col: usize) -> Option<Seq<char>> {
        let i = edit_rank(self.edits, row, col);
        if i < 0 {
            None
        } else {
            Some(self.edits[i].2)
        }
    }

    /// Row `row` is one of the appended rows.
    pub open spec fn is_appended(self, row: usize) -> bool {
        self.source_rows <= row < self.source_rows + self.appended_rows.len()
    }

    /// The number of columns after the changes, kept within the range of
    /// `usize`.
    pub open spec fn effective_cols(self) -> int {
        let kept = if self.source_cols >= self.deleted_cols.len() {
            self.source_cols - self.deleted_cols.len()
        } else {
            0
        };
        if kept + self.inserted_cols > usize::MAX {
            usize::MAX as int
        } else {
            kept + self.inserted_cols
        }
    }

    /// The number of rows after the changes, kept within the range of
    /// `usize`.
    pub open spec fn effective_rows(self) -> int {
        let kept = if self.source_rows >= self.deleted_rows.len() {
            self.source_rows - self.deleted_rows.len()
        } else {
            0
        };
        let with_inserted = if kept + self.inserted_rows.len() > usize::MAX {
            usize::MAX as int
        } else {
            kept + self.inserted_rows.len()
        };
        if with_inserted + self.appended_rows.len() > usize::MAX {
            usize::MAX as int
        } else {
            with_inserted + self.appended_rows.len()
        }
    }

    /// Whether anything was changed.
    pub open spec fn has_changes(self) -> bool {
        self.edits.len() > 0 || self.inserted_rows.len() > 0 || self.deleted_rows.len() > 0
            || self.inserted_cols > 0 || self.deleted_cols.len() > 0 || self.appended_rows.len()
            > 0
    }
}

/// An editor over one source.
pub struct CsvEditor {
    source_path: String,
    headers: Vec<String>,
    source_col_count: usize,
    source_row_count: usize,
    delimiter: u8,
    has_headers: bool,
    granularity: usize,
    cell_edits: Vec<CellEdit>,
    inserted_rows: Vec<(usize, RowData)>,
    deleted_rows: HashSet<usize>,
    inserted_cols: HashMap<usize, (String, String)>,
    deleted_cols: HashSet<usize>,
    appended_rows: Vec<RowData>,
}

impl View for CsvEditor {
    type V = EditorView;

    closed spec fn view(&self) -> EditorView {
        EditorView {
            path: self.source_path@,
            delimiter: self.delimiter,
            has_headers: self.has_headers,
            granularity: self.granularity,
            headers: self.headers.deep_view(),
            source_cols: self.source_col_count,
            source_rows: self.source_row_count,
            edits: edits_text(self.cell_edits@),
            inserted_rows: inserted_text(self.inserted_rows@),
            deleted_rows: self.deleted_rows@,
            inserted_cols: self.inserted_cols@.len(),
            deleted_cols: self.deleted_cols@,
            appended_rows: rows_text(self.appended_rows@),
        }
    }
}

/// A finite set of numbers below `n` has no more than `n` elements.
pub proof fn lemma_bounded_set(s: Set<usize>, n: nat)
    requires
        s.finite(),
        forall|x: usize| s.contains(x) ==> x < n,
    ensures
        s.len() <= n,
    decreases n,
{
    if n == 0 {
        assert(s =~= Set::<usize>::empty());
    } else {
        let top = (n - 1) as usize;
        let rest = s.remove(top);
        assert forall|x: usize| rest.contains(x) implies x < n - 1 by {
            assert(s.contains(x));
        }
        lemma_bounded_set(rest, (n - 1) as nat);
    }
}

/// No more rows and columns are deleted than the source has, so that the
/// rows and columns that are left are counted without loss.
pub proof fn lemma_deleted_within_source(v: EditorView)
    requires
        v.wf(),
    ensures
        v.deleted_rows.len() <= v.source_rows,
        v.deleted_cols.len() <= v.source_cols,
{
    lemma_bounded_set(v.deleted_rows, v.source_rows as nat);
    lemma_bounded_set(v.deleted_cols, v.source_cols as nat);
}

/// Deleting a row of the source that is not deleted yet makes one more row
/// deleted, and so one row less left of the source.
pub proof fn lemma_delete_lowers_count(v: EditorView, row: usize)
    requires
        v.wf(),
        row < v.source_rows,
        !v.deleted_rows.contains(row),
    ensures
        v.deleted_rows.insert(row).len() == v.deleted_rows.len() + 1,
        v.deleted_rows.insert(row).len() <= v.source_rows,
{
    let after = v.deleted_rows.insert(row);
    assert forall|x: usize| after.contains(x) implies x < v.source_rows by {
        if x != row {
            assert(v.deleted_rows.contains(x));
        }
    }
    lemma_bounded_set(after, v.source_rows as nat);
}

/// What the rank of a cell says: the edit at a rank that is not negative is
/// one of the cell, and with a negative rank no edit is.
pub proof fn lemma_edit_rank(edits: Seq<(usize, usize, Seq<char>)>, row: usize, col: usize)
    ensures
        -1 <= edit_rank(edits, row, col) < edits.len(),
        edit_rank(edits, row, col) >= 0 ==> edits[edit_rank(edits, row, col)].0 == row
            && edits[edit_rank(edits, row, col)].1 == col,
        forall|i: int|
            0 <= i < edits.len() && (i < edit_rank(edits, row, col) || edit_rank(edits, row, col)
                < 0) ==> !((#[trigger] edits[i]).0 == row && edits[i].1 == col),
    decreases edits.len(),
{
    if edits.len() > 0 {
        let init = edits.subrange(0, edits.len() - 1);
        lemma_edit_rank(init, row, col);
        assert forall|i: int|
            0 <= i < edits.len() && (i < edit_rank(edits, row, col) || edit_rank(edits, row, col)
                < 0) implies !((#[trigger] edits[i]).0 == row && edits[i].1 == col) by {
            if i < edits.len() - 1 {
                assert(init[i] == edits[i]);
            }
        }
    }
}

/// The first edit of cell `(row, col)` among the first `upto` edits.
fn find_edit(edits: &Vec<CellEdit>, row: usize, col: usize) -> (r: Option<usize>)
    ensures
        match r {
            Some(i) => i == edit_rank(edits_text(edits@), row, col),
            None => edit_rank(edits_text(edits@), row, col) < 0,
        },
{
    let ghost all = edits_text(edits@);
    let mut i: usize = 0;
    while i < edits.len()
        invariant
            0 <= i <= edits@.len(),
            all == edits_text(edits@),
            edit_rank(all.subrange(0, i as int), row, col) < 0,
        decreases edits@.len() - i,
    {
        if edits[i].row == row && edits[i].col == col {
            proof {
                lemma_rank_found(all, row, col, i as int);
            }
            return Some(i);
        }
        i = i + 1;
        proof {
            let now = all.subrange(0, i as int);
            assert(now.subrange(0, now.len() - 1) =~= all.subrange(0, i - 1));
        }
    }
    assert(all.subrange(0, all.len() as int) =~= all);
    None
}

/// An edit of the cell before which the cell has none is the cell's first.
proof fn lemma_rank_found(edits: Seq<(usize, usize, Seq<char>)>, row: usize, col: usize, i: int)
    requires
        0 <= i < edits.len(),
        edits[i].0 == row && edits[i].1 == col,
        edit_rank(edits.subrange(0, i), row, col) < 0,
    ensures
        edit_rank(edits, row, col) == i,
    decreases edits.len() - i,
{
    let init = edits.subrange(0, edits.len() - 1);
    if i == edits.len() - 1 {
        assert(init =~= edits.subrange(0, i));
    } else {
        assert(init.subrange(0, i) =~= edits.subrange(0, i));
        lemma_rank_found(init, row, col, i);
    }
}

/// A copy of a list of strings.
fn copy_strings(items: &Vec<String>) -> (r: Vec<String>)
    ensures
        r.deep_view() == items.deep_view(),
{
    let mut out: Vec<String> = Vec::new();
    let mut i: usize = 0;
    while i < items.len()
        invariant
            0 <= i <= items@.len(),
            out@.len() == i,
            forall|k: int| 0 <= k < i ==> (#[trigger] out@[k])@ == items@[k]@,
        decreases items@.len() - i,
    {
        out.push(items[i].clone());
        i = i + 1;
    }
    assert(out.deep_view() =~= items.deep_view());
    out
}

impl CsvEditor {
    /// The invariant of an editor.
    pub closed spec fn wf(&self) -> bool {
        self@.wf() && self.granularity > 0
    }

    /// The delimiter of the source.
    pub open spec fn spec_delimiter(&self) -> u8 {
        self@.delimiter
    }

    /// Whether the source has a header line.
    pub open spec fn spec_has_headers(&self) -> bool {
        self@.has_headers
    }

    /// The granularity at which the source is indexed.
    pub open spec fn spec_granularity(&self) -> usize {
        self@.granularity
    }

    /// Opens an editor without changes over a source: its headers, columns
    /// and rows are those that a reader finds. A source whose first line is
    /// empty cannot be opened.
    pub fn open(
        data: &[u8],
        path: &str,
        has_headers: bool,
        delimiter: u8,
        granularity: usize,
    ) -> (r: Result<Self>)
        requires
            granularity > 0,
        ensures
            first_line(data@).len() == 0 ==> r matches Err(CsvError::Format(_)),
            first_line(data@).len() > 0 ==> (r matches Ok(editor) && {
                &&& editor.wf()
                &&& editor.spec_delimiter() == delimiter
                &&& editor.spec_has_headers() == has_headers
                &&& editor.spec_granularity() == granularity
                &&& editor@ == (EditorView {
                    path: path@,
                    delimiter,
                    has_headers,
                    granularity,
                    headers: if has_headers {
                        parse_line_spec(first_line(data@), delimiter)
                    } else {
                        Seq::empty()
                    },
                    source_cols: parse_line_spec(first_line(data@), delimiter).len() as usize,
                    source_rows: total_rows_of(
                        data@,
                        data_start_of(data@, has_headers),
                    ) as usize,
                    edits: Seq::empty(),
                    inserted_rows: Seq::empty(),
                    deleted_rows: Set::empty(),
                    inserted_cols: 0,
                    deleted_cols: Set::empty(),
                    appended_rows: Seq::empty(),
                })
            }),
    {
        let reader = match CsvReader::open(data, path, has_headers, delimiter, granularity, None) {
            Ok(reader) => reader,
            Err(e) => {
                return Err(e);
            },
        };
        let info = reader.info();
        let editor = CsvEditor {
            source_path: String::from_str(path),
            headers: copy_strings(&info.headers),
            source_col_count: info.total_cols,
            source_row_count: info.total_rows,
            delimiter,
            has_headers,
            granularity,
            cell_edits: Vec::new(),
            inserted_rows: Vec::new(),
            deleted_rows: HashSet::new(),
            inserted_cols: HashMap::new(),
            deleted_cols: HashSet::new(),
            appended_rows: Vec::new(),
        };
        proof {
            assert(editor@.edits =~= Seq::empty());
            assert(editor@.inserted_rows =~= Seq::empty());
            assert(editor@.appended_rows =~= Seq::empty());
        }
        Ok(editor)
    }

    /// The header fields.
    pub fn headers(&self) -> (r: &Vec<String>)
        ensures
            r.deep_view() == self@.headers,
    {
        &self.headers
    }

    /// The number of rows of the source.
    pub fn row_count(&self) -> (r: usize)
        ensures
            r == self@.source_rows,
    {
        self.source_row_count
    }

    /// The number of columns of the source.
    pub fn col_count(&self) -> (r: usize)
        ensures
            r == self@.source_cols,
    {
        self.source_col_count
    }

    /// The number of rows after the changes.
    pub fn effective_row_count(&self) -> (r: usize)
        ensures
            r == self@.effective_rows(),
    {
        let kept = self.source_row_count.saturating_sub(self.deleted_rows.len());
        kept.saturating_add(self.inserted_rows.len()).saturating_add(self.appended_rows.len())
    }

    /// The number of columns after the changes.
    pub fn effective_col_count(&self) -> (r: usize)
        ensures
            r == self@.effective_cols(),
    {
        let kept = self.source_col_count.saturating_sub(self.deleted_cols.len());
        kept.saturating_add(self.inserted_cols.len())
    }

    /// Whether anything was changed.
    pub fn has_changes(&self) -> (r: bool)
        ensures
            r == self@.has_changes(),
    {
        self.cell_edits.len() > 0 || self.inserted_rows.len() > 0 || self.deleted_rows.len() > 0
            || self.inserted_cols.len() > 0 || self.deleted_cols.len() > 0
            || self.appended_rows.len() > 0
    }

    /// Whether row `row` is one of the appended rows.
    pub fn is_appended_row(&self, row: usize) -> (r: bool)
        ensures
            r == self@.is_appended(row),
    {
        row >= self.source_row_count && row - self.source_row_count < self.appended_rows.len()
    }

    /// Gives cell `(row, col)` a new value, in place of an earlier one. The
    /// row must be one of the source or an appended one and not deleted, the
    /// column one of the source.
    pub fn edit_cell(&mut self, row: usize, col: usize, value: String) -> (r: Result<()>)
        requires
            old(self).wf(),
        ensures
            final(self).wf(),
            row >= old(self)@.source_rows && !old(self)@.is_appended(row) ==> (r matches Err(
                CsvError::IndexOutOfBounds { row: bad, total_rows },
            ) && bad == row && total_rows == old(self)@.effective_rows() && final(self)@ == old(self)@),
            (row < old(self)@.source_rows || old(self)@.is_appended(row)) && (col >= old(self)@.source_cols || old(self)@.deleted_rows.contains(row)) ==> (r matches Err(
                CsvError::Format(_),
            ) && final(self)@ == old(self)@),
            (row < old(self)@.source_rows || old(self)@.is_appended(row)) && col < old(self)@.source_cols && !old(self)@.deleted_rows.contains(row) ==> (r is Ok && final(self)@ == (EditorView {
                edits: with_edit(old(self)@.edits, row, col, value@),
                ..old(self)@
            })),
    {
        if row >= self.source_row_count && !self.is_appended_row(row) {
            return Err(
                CsvError::IndexOutOfBounds { row, total_rows: self.effective_row_count() },
            );
        }
        if col >= self.source_col_count {
            return Err(CsvError::Format(String::from_str("the column is out of range")));
        }
        if self.deleted_rows.contains(&row) {
            return Err(CsvError::Format(String::from_str("the row has been deleted")));
        }
        let ghost before = edits_text(self.cell_edits@);
        proof {
            lemma_edit_rank(before, row, col);
            assert(before == self@.edits);
            assert(self@.wf());
            assert(forall|a: int, b: int|
                0 <= a < b < before.len() ==> !(before[a].0 == before[b].0 && before[a].1
                    == before[b].1));
        }
        match find_edit(&self.cell_edits, row, col) {
            Some(i) => {
                self.cell_edits.set(i, CellEdit { row, col, value });
                let ghost after = edits_text(self.cell_edits@);
                assert(after =~= before.update(i as int, (row, col, value@)));
                assert forall|a: int, b: int| 0 <= a < b < after.len() implies !(after[a].0
                    == after[b].0 && after[a].1 == after[b].1) by {
                    assert(after[a].0 == before[a].0 && after[a].1 == before[a].1);
                    assert(after[b].0 == before[b].0 && after[b].1 == before[b].1);
                }
            },
            None => {
                self.cell_edits.push(CellEdit { row, col, value });
                let ghost after = edits_text(self.cell_edits@);
                assert(after =~= before.push((row, col, value@)));
                assert forall|a: int, b: int| 0 <= a < b < after.len() implies !(after[a].0
                    == after[b].0 && after[a].1 == after[b].1) by {
                    assert(after[a] == before[a]);
                    if b < before.len() {
                        assert(after[b] == before[b]);
                    }
                }
            },
        }
        assert(self@.wf());
        Ok(())
    }

    /// Restores a deleted row. A row that is not deleted is refused.
    pub fn undelete_row(&mut self, row: usize) -> (r: Result<()>)
        requires
            old(self).wf(),
        ensures
            final(self).wf(),
            old(self)@.deleted_rows.contains(row) ==> r is Ok && final(self)@ == (EditorView {
                deleted_rows: old(self)@.deleted_rows.remove(row),
                ..old(self)@
            }),
            !old(self)@.deleted_rows.contains(row) ==> (r matches Err(CsvError::Format(_))
                && final(self)@ == old(self)@),
    {
        if !self.deleted_rows.remove(&row) {
            assert(self.deleted_rows@ =~= old(self).deleted_rows@);
            return Err(CsvError::Format(String::from_str("the row is not deleted")));
        }
        assert(self.cell_edits@ == old(self).cell_edits@);
        assert(self@.edits == old(self)@.edits);
        assert(self.granularity > 0);
        assert(self@.wf());
        Ok(())
    }

    /// Adds a row behind all others. A row that is not as wide as the table
    /// is after the changes is refused.
    pub fn append_row(&mut self, row: RowData) -> (r: Result<()>)
        requires
            old(self).wf(),
        ensures
            final(self).wf(),
            row@.len() == old(self)@.effective_cols() ==> r is Ok && final(self)@ == (EditorView {
                appended_rows: old(self)@.appended_rows.push(row@),
                ..old(self)@
            }),
            row@.len() != old(self)@.effective_cols() ==> (r matches Err(CsvError::Format(_))
                && final(self)@ == old(self)@),
    {
        let expected = self.effective_col_count();
        if row.len() != expected {
            return Err(CsvError::Format(String::from_str("the row is not as wide as the table")));
        }
        self.appended_rows.push(row);
        assert(rows_text(self.appended_rows@) =~= rows_text(old(self).appended_rows@).push(row@));
        Ok(())
    }

    /// Inserts a row before row `position` of the source. Rows inserted at
    /// one position keep the order in which they came. The number of rows is
    /// taken as a position too, but a row inserted there stands before no row
    /// and is left out when the changes are written: a row that is to stand
    /// behind the last one is appended.
    pub fn insert_row(&mut self, position: usize, row: RowData) -> (r: Result<()>)
        requires
            old(self).wf(),
        ensures
            final(self).wf(),
            position > old(self)@.source_rows ==> (r matches Err(
                CsvError::IndexOutOfBounds { row: bad, total_rows },
            ) && bad == position && total_rows == old(self)@.source_rows && final(self)@
                == old(self)@),
            position <= old(self)@.source_rows && row@.len() != old(self)@.effective_cols()
                ==> (r matches Err(CsvError::Format(_)) && final(self)@ == old(self)@),
            position <= old(self)@.source_rows && row@.len() == old(self)@.effective_cols()
                ==> r is Ok && final(self)@ == (EditorView {
                inserted_rows: old(self)@.inserted_rows.push((position, row@)),
                ..old(self)@
            }),
    {
        if position > self.source_row_count {
            return Err(
                CsvError::IndexOutOfBounds { row: position, total_rows: self.source_row_count },
            );
        }
        let expected = self.effective_col_count();
        if row.len() != expected {
            return Err(CsvError::Format(String::from_str("the row is not as wide as the table")));
        }
        self.inserted_rows.push((position, row));
        assert(inserted_text(self.inserted_rows@) =~= inserted_text(
            old(self).inserted_rows@,
        ).push((position, row@)));
        Ok(())
    }

    /// Gives column `col` another header.
    pub fn set_header(&mut self, col: usize, name: String) -> (r: Result<()>)
        requires
            old(self).wf(),
        ensures
            final(self).wf(),
            col < old(self)@.headers.len() ==> r is Ok && final(self)@ == (EditorView {
                headers: old(self)@.headers.update(col as int, name@),
                ..old(self)@
            }),
            col >= old(self)@.headers.len() ==> (r matches Err(CsvError::Format(_)) && final(self)@ == old(self)@),
    {
        if col >= self.headers.len() {
            return Err(CsvError::Format(String::from_str("the column is out of range")));
        }
        self.headers.set(col, name);
        assert(self.headers.deep_view() =~= old(self).headers.deep_view().update(
            col as int,
            name@,
        ));
        assert(self.cell_edits@ == old(self).cell_edits@);
        assert(self@.edits == old(self)@.edits);
        assert(self@.wf());
        Ok(())
    }

    /// Forgets every change.
    pub fn discard_changes(&mut self)
        requires
            old(self).wf(),
        ensures
            final(self).wf(),
            final(self)@ == (EditorView {
                edits: Seq::empty(),
                inserted_rows: Seq::empty(),
                deleted_rows: Set::empty(),
                inserted_cols: 0,
                deleted_cols: Set::empty(),
                appended_rows: Seq::empty(),
                ..old(self)@
            }),
    {
        self.cell_edits.clear();
        self.inserted_rows.clear();
        self.deleted_rows.clear();
        self.inserted_cols.clear();
        self.deleted_cols.clear();
        self.appended_rows.clear();
        proof {
            assert(self@.edits =~= Seq::empty());
            assert(self@.inserted_rows =~= Seq::empty());
            assert(self@.appended_rows =~= Seq::empty());
        }
    }

    /// How much was changed.
    pub fn change_stats(&self) -> (r: ChangeStats)
        ensures
            r.cells_edited == self@.edits.len(),
            r.rows_deleted == self@.deleted_rows.len(),
            r.rows_inserted == self@.inserted_rows.len(),
            r.rows_appended == self@.appended_rows.len(),
            r.cols_deleted == self@.deleted_cols.len(),
            r.cols_inserted == self@.inserted_cols,
            self.wf() ==> r.rows_deleted <= self@.source_rows && r.cols_deleted
                <= self@.source_cols,
    {
        proof {
            if self.wf() {
                lemma_deleted_within_source(self@);
            }
        }
        ChangeStats {
            cells_edited: self.cell_edits.len(),
            rows_deleted: self.deleted_rows.len(),
            rows_inserted: self.inserted_rows.len(),
            rows_appended: self.appended_rows.len(),
            cols_deleted: self.deleted_cols.len(),
            cols_inserted: self.inserted_cols.len(),
        }
    }
}

/// Dropping edits keeps the others as they are: what is left are edits that
/// were there, none of them in the row or column dropped, and no cell has two.
pub proof fn lemma_without(edits: Seq<(usize, usize, Seq<char>)>, by_row: bool, n: usize)
    requires
        forall|i: int, j: int|
            0 <= i < j < edits.len() ==> !(edits[i].0 == edits[j].0 && edits[i].1 == edits[j].1),
    ensures
        forall|k: int|
            0 <= k < without(edits, by_row, n).len() ==> edits.contains(
                #[trigger] without(edits, by_row, n)[k],
            ) && !edit_hits(without(edits, by_row, n)[k], by_row, n),
        forall|i: int, j: int|
            0 <= i < j < without(edits, by_row, n).len() ==> !(without(edits, by_row, n)[i].0
                == without(edits, by_row, n)[j].0 && without(edits, by_row, n)[i].1 == without(
                edits,
                by_row,
                n,
            )[j].1),
    decreases edits.len(),
{
    if edits.len() > 0 {
        let init = edits.subrange(0, edits.len() - 1);
        let last = edits[edits.len() - 1];
        assert forall|i: int, j: int| 0 <= i < j < init.len() implies !(init[i].0 == init[j].0
            && init[i].1 == init[j].1) by {
            assert(init[i] == edits[i] && init[j] == edits[j]);
        }
        lemma_without(init, by_row, n);
        let w = without(edits, by_row, n);
        let wi = without(init, by_row, n);
        assert forall|k: int| 0 <= k < w.len() implies edits.contains(#[trigger] w[k])
            && !edit_hits(w[k], by_row, n) by {
            if k < wi.len() {
                assert(w[k] == wi[k]);
                assert(init.contains(wi[k]));
                let m = choose|m: int| 0 <= m < init.len() && init[m] == wi[k];
                assert(edits[m] == wi[k]);
            } else {
                assert(w[k] == last);
            }
        }
        assert forall|i: int, j: int| 0 <= i < j < w.len() implies !(w[i].0 == w[j].0 && w[i].1
            == w[j].1) by {
            assert(w[i] == wi[i]);
            if j < wi.len() {
                assert(w[j] == wi[j]);
            } else {
                assert(w[j] == last);
                assert(init.contains(wi[i]));
                let m = choose|m: int| 0 <= m < init.len() && init[m] == wi[i];
                assert(edits[m] == wi[i]);
            }
        }
    }
}

/// The edits without those of row `n`, or of column `n`.
fn drop_edits(edits: &Vec<CellEdit>, by_row: bool, n: usize) -> (r: Vec<CellEdit>)
    ensures
        edits_text(r@) == without(edits_text(edits@), by_row, n),
{
    let ghost all = edits_text(edits@);
    let mut out: Vec<CellEdit> = Vec::new();
    let mut i: usize = 0;
    assert(edits_text(out@) =~= without(all.subrange(0, 0), by_row, n));
    while i < edits.len()
        invariant
            0 <= i <= edits@.len(),
            all == edits_text(edits@),
            edits_text(out@) == without(all.subrange(0, i as int), by_row, n),
        decreases edits@.len() - i,
    {
        let edit = &edits[i];
        let hit = if by_row {
            edit.row == n
        } else {
            edit.col == n
        };
        let ghost before = edits_text(out@);
        if !hit {
            out.push(CellEdit { row: edit.row, col: edit.col, value: edit.value.clone() });
        }
        i = i + 1;
        proof {
            let now = all.subrange(0, i as int);
            assert(now.subrange(0, now.len() - 1) =~= all.subrange(0, i - 1));
            assert(now[now.len() - 1] == all[i - 1]);
            if !hit {
                assert(edits_text(out@) =~= before.push(all[i - 1]));
            }
        }
    }
    assert(all.subrange(0, all.len() as int) =~= all);
    out
}

impl CsvEditor {
    /// Deletes a row. A row of the source is marked as deleted and loses its
    /// edits; an appended row is taken out, and the appended rows behind it
    /// move up. Any other row is refused.
    pub fn delete_row(&mut self, row: usize) -> (r: Result<()>)
        requires
            old(self).wf(),
        ensures
            final(self).wf(),
            row < old(self)@.source_rows ==> r is Ok && final(self)@ == (EditorView {
                deleted_rows: old(self)@.deleted_rows.insert(row),
                edits: without(old(self)@.edits, true, row),
                ..old(self)@
            }),
            old(self)@.is_appended(row) ==> r is Ok && final(self)@ == (EditorView {
                appended_rows: old(self)@.appended_rows.remove(row - old(self)@.source_rows),
                ..old(self)@
            }),
            row >= old(self)@.source_rows && !old(self)@.is_appended(row) ==> (r matches Err(
                CsvError::IndexOutOfBounds { row: bad, total_rows },
            ) && bad == row && total_rows == old(self)@.effective_rows() && final(self)@ == old(self)@),
    {
        if row >= self.source_row_count {
            let at: usize = row - self.source_row_count;
            if at < self.appended_rows.len() {
                self.appended_rows.remove(at);
                assert(rows_text(self.appended_rows@) =~= rows_text(
                    old(self).appended_rows@,
                ).remove(at as int));
                assert(self.cell_edits@ == old(self).cell_edits@);
                assert(self@.edits == old(self)@.edits);
                return Ok(());
            }
            return Err(
                CsvError::IndexOutOfBounds { row, total_rows: self.effective_row_count() },
            );
        }
        proof {
            assert(self@.wf());
            lemma_without(self@.edits, true, row);
        }
        self.deleted_rows.insert(row);
        self.cell_edits = drop_edits(&self.cell_edits, true, row);
        Ok(())
    }

    /// Deletes a column of the source: it is marked as deleted, and its
    /// edits are dropped. A column that the source does not have is refused.
    pub fn delete_col(&mut self, col: usize) -> (r: Result<()>)
        requires
            old(self).wf(),
        ensures
            final(self).wf(),
            col < old(self)@.source_cols ==> r is Ok && final(self)@ == (EditorView {
                deleted_cols: old(self)@.deleted_cols.insert(col),
                edits: without(old(self)@.edits, false, col),
                ..old(self)@
            }),
            col >= old(self)@.source_cols ==> (r matches Err(CsvError::Format(_)) && final(self)@ == old(self)@),
    {
        if col >= self.source_col_count {
            return Err(CsvError::Format(String::from_str("the column is out of range")));
        }
        proof {
            assert(self@.wf());
            lemma_without(self@.edits, false, col);
        }
        self.deleted_cols.insert(col);
        self.cell_edits = drop_edits(&self.cell_edits, false, col);
        Ok(())
    }

    /// The value of cell `(row, col)` with the changes applied: nothing for
    /// a deleted row; the new value of an edited cell; the field of an
    /// appended row; else the field that a reader over `data` finds. `data`
    /// is the source that the editor was opened over.
    pub fn get_cell(&self, data: &[u8], row: usize, col: usize) -> (r: Result<Option<String>>)
        requires
            self.wf(),
        ensures
            self@.deleted_rows.contains(row) ==> r matches Ok(None),
            !self@.deleted_rows.contains(row) && self@.edit_at(row, col) is Some ==> (r matches Ok(
                value,
            ) && option_text(value) == self@.edit_at(row, col)),
            !self@.deleted_rows.contains(row) && self@.edit_at(row, col) is None && row
                >= self@.source_rows ==> (r matches Ok(value) && option_text(value) == if
                self@.is_appended(row) && col < self@.appended_rows[row
                    - self@.source_rows].len() {
                Some(self@.appended_rows[row - self@.source_rows][col as int])
            } else {
                None
            }),
            !self@.deleted_rows.contains(row) && self@.edit_at(row, col) is None && row
                < self@.source_rows && first_line(data@).len() == 0 ==> r matches Err(
                CsvError::Format(_),
            ),
            !self@.deleted_rows.contains(row) && self@.edit_at(row, col) is None && row
                < self@.source_rows && first_line(data@).len() > 0 ==> (r matches Ok(value)
                && option_text(value) == source_cell(
                data@,
                self.spec_has_headers(),
                self.spec_delimiter(),
                self.spec_granularity(),
                row,
                col,
            )),
    {
        if self.deleted_rows.contains(&row) {
            return Ok(None);
        }
        proof {
            lemma_edit_rank(self@.edits, row, col);
        }
        match find_edit(&self.cell_edits, row, col) {
            Some(i) => {
                return Ok(Some(self.cell_edits[i].value.clone()));
            },
            None => {},
        }
        if row >= self.source_row_count {
            let at: usize = row - self.source_row_count;
            if at < self.appended_rows.len() {
                let fields = &self.appended_rows[at].fields;
                assert(self@.appended_rows[at as int] == fields.deep_view());
                if col < fields.len() {
                    return Ok(Some(fields[col].clone()));
                }
            }
            return Ok(None);
        }
        let mut reader = match CsvReader::open(
            data,
            self.source_path.as_str(),
            self.has_headers,
            self.delimiter,
            self.granularity,
            None,
        ) {
            Ok(reader) => reader,
            Err(e) => {
                return Err(e);
            },
        };
        let ghost v = reader@;
        assert(row * 1 == row) by (nonlinear_arith);
        match reader.read_page(row, 1) {
            Ok(page) => {
                assert(record_texts(page@) == page_text(v, row, 1));
                if page.len() > 0 {
                    let record = &page[0];
                    assert(record@ == record_texts(page@)[0]);
                    if col < record.fields.len() {
                        let fields = record.to_strings();
                        assert(fields@[col as int]@ == record@[col as int]);
                        return Ok(Some(fields[col].clone()));
                    }
                }
                Ok(None)
            },
            Err(e) => Err(e),
        }
    }
}

/// The fields whose columns are not deleted, in their order.
pub open spec fn kept_fields(fields: Seq<Seq<char>>, deleted: Set<usize>) -> Seq<Seq<char>>
    decreases fields.len(),
{
    if fields.len() == 0 {
        Seq::empty()
    } else if deleted.contains((fields.len() - 1) as usize) {
        kept_fields(fields.subrange(0, fields.len() - 1), deleted)
    } else {
        kept_fields(fields.subrange(0, fields.len() - 1), deleted).push(fields[fields.len() - 1])
    }
}

/// The fields of row `row` with the edits of that row in place.
pub open spec fn edited_fields(v: EditorView, fields: Seq<Seq<char>>, row: usize) -> Seq<
    Seq<char>,
> {
    Seq::new(
        fields.len(),
        |i: int|
            match v.edit_at(row, i as usize) {
                Some(value) => value,
                None => fields[i],
            },
    )
}

/// A row as it is written: what is left of its fields, and the line ending.
pub open spec fn written_row(fields: Seq<Seq<char>>, deleted: Set<usize>, options: WriteOptions) -> Seq<
    char,
> {
    line_text(kept_fields(fields, deleted), options) + options.line_ending.text()
}

/// The lines of the rows inserted before row `position`, in the order in
/// which they were inserted.
pub open spec fn inserted_lines(
    inserted: Seq<(usize, Seq<Seq<char>>)>,
    position: usize,
    deleted: Set<usize>,
    options: WriteOptions,
) -> Seq<char>
    decreases inserted.len(),
{
    if inserted.len() == 0 {
        Seq::empty()
    } else {
        let last = inserted[inserted.len() - 1];
        inserted_lines(inserted.subrange(0, inserted.len() - 1), position, deleted, options) + if
            last.0 == position {
            written_row(last.1, deleted, options)
        } else {
            Seq::empty()
        }
    }
}

/// The number of rows inserted before row `position`.
pub open spec fn inserted_count(inserted: Seq<(usize, Seq<Seq<char>>)>, position: usize) -> nat
    decreases inserted.len(),
{
    if inserted.len() == 0 {
        0
    } else {
        inserted_count(inserted.subrange(0, inserted.len() - 1), position) + if inserted[
            inserted.len() - 1].0 == position {
            1nat
        } else {
            0nat
        }
    }
}

/// Row `row` of the source as a reader reads it, if the source has it.
pub open spec fn source_row(rv: ReaderView, row: usize) -> Option<Seq<Seq<char>>> {
    let page = page_text(rv, row, 1);
    if page.len() > 0 {
        Some(page[0])
    } else {
        None
    }
}

/// The lines that stand for the first `upto` rows of the source: before
/// each row the rows inserted there; then the row itself with its edits,
/// unless it is deleted or the source does not have it.
pub open spec fn body_text(v: EditorView, rv: ReaderView, options: WriteOptions, upto: nat) -> Seq<
    char,
>
    decreases upto,
{
    if upto == 0 {
        Seq::empty()
    } else {
        let row = (upto - 1) as usize;
        body_text(v, rv, options, (upto - 1) as nat) + inserted_lines(
            v.inserted_rows,
            row,
            v.deleted_cols,
            options,
        ) + if v.deleted_rows.contains(row) {
            Seq::empty()
        } else {
            match source_row(rv, row) {
                Some(fields) => written_row(edited_fields(v, fields, row), v.deleted_cols, options),
                None => Seq::empty(),
            }
        }
    }
}

/// The number of lines in [`body_text`].
pub open spec fn body_rows(v: EditorView, rv: ReaderView, upto: nat) -> nat
    decreases upto,
{
    if upto == 0 {
        0
    } else {
        let row = (upto - 1) as usize;
        body_rows(v, rv, (upto - 1) as nat) + inserted_count(v.inserted_rows, row) + if
            !v.deleted_rows.contains(row) && source_row(rv, row) is Some {
            1nat
        } else {
            0nat
        }
    }
}

/// The lines of the appended rows.
pub open spec fn appended_text(rows: Seq<Seq<Seq<char>>>, deleted: Set<usize>, options: WriteOptions) -> Seq<
    char,
>
    decreases rows.len(),
{
    if rows.len() == 0 {
        Seq::empty()
    } else {
        appended_text(rows.subrange(0, rows.len() - 1), deleted, options) + written_row(
            rows[rows.len() - 1],
            deleted,
            options,
        )
    }
}

/// What a reader with a complete index reads from.
pub open spec fn source_view(
    data: Seq<u8>,
    has_headers: bool,
    delimiter: u8,
    granularity: usize,
) -> ReaderView {
    let index = full_index(data, has_headers, granularity);
    ReaderView {
        data,
        index,
        total_rows: index.total_rows,
        delimiter,
        data_start: data_start_of(data, has_headers),
    }
}

/// The text that the source becomes with the changes applied: the header
/// line, where asked for and where there are headers; the rows of the
/// source with what was inserted, deleted and edited; and the appended rows.
pub open spec fn rendered_text(v: EditorView, rv: ReaderView, options: WriteOptions) -> Seq<char> {
    (if options.write_headers && v.headers.len() > 0 {
        written_row(v.headers, v.deleted_cols, options)
    } else {
        Seq::empty()
    }) + body_text(v, rv, options, v.source_rows as nat) + appended_text(
        v.appended_rows,
        v.deleted_cols,
        options,
    )
}

/// The number of rows in [`rendered_text`], the header line not counted.
pub open spec fn rendered_rows(v: EditorView, rv: ReaderView) -> nat {
    body_rows(v, rv, v.source_rows as nat) + v.appended_rows.len()
}

/// The fields whose columns are not deleted.
fn keep_fields(fields: &Vec<String>, deleted: &HashSet<usize>) -> (r: Vec<String>)
    ensures
        r.deep_view() == kept_fields(fields.deep_view(), deleted@),
{
    let ghost all = fields.deep_view();
    let mut out: Vec<String> = Vec::new();
    let mut i: usize = 0;
    assert(out.deep_view() =~= kept_fields(all.subrange(0, 0), deleted@));
    while i < fields.len()
        invariant
            0 <= i <= fields@.len(),
            all == fields.deep_view(),
            all.len() == fields@.len(),
            out.deep_view() == kept_fields(all.subrange(0, i as int), deleted@),
        decreases fields@.len() - i,
    {
        let ghost before = out.deep_view();
        let dropped = deleted.contains(&i);
        if !dropped {
            out.push(fields[i].clone());
        }
        i = i + 1;
        proof {
            let now = all.subrange(0, i as int);
            assert(now.subrange(0, now.len() - 1) =~= all.subrange(0, i - 1));
            assert(now[now.len() - 1] == fields@[i - 1]@);
            if !dropped {
                assert(out.deep_view() =~= before.push(fields@[i - 1]@));
            } else {
                assert(out.deep_view() =~= before);
            }
        }
    }
    assert(all.subrange(0, all.len() as int) =~= all);
    out
}

/// Appends a row as it is written: see [`written_row`].
fn write_row(out: &mut String, fields: &Vec<String>, deleted: &HashSet<usize>, options: &WriteOptions)
    ensures
        final(out)@ == old(out)@ + written_row(fields.deep_view(), deleted@, *options),
{
    let kept = keep_fields(fields, deleted);
    let line = format_row(&kept, options);
    out.append(line.as_str());
    options.line_ending.append_to(out);
    assert(out@ =~= old(out)@ + written_row(fields.deep_view(), deleted@, *options));
}

impl CsvEditor {
    /// The fields of row `row` with the edits of that row in place.
    fn apply_edits(&self, fields: &Vec<String>, row: usize) -> (r: Vec<String>)
        ensures
            r.deep_view() == edited_fields(self@, fields.deep_view(), row),
    {
        let mut out: Vec<String> = Vec::new();
        let mut i: usize = 0;
        while i < fields.len()
            invariant
                0 <= i <= fields@.len(),
                out@.len() == i,
                forall|k: int|
                    0 <= k < i ==> (#[trigger] out@[k])@ == edited_fields(
                        self@,
                        fields.deep_view(),
                        row,
                    )[k],
            decreases fields@.len() - i,
        {
            proof {
                lemma_edit_rank(self@.edits, row, i);
            }
            let value = match find_edit(&self.cell_edits, row, i) {
                Some(at) => self.cell_edits[at].value.clone(),
                None => fields[i].clone(),
            };
            assert(value@ == edited_fields(self@, fields.deep_view(), row)[i as int]) by {
                assert(fields.deep_view()[i as int] == fields@[i as int]@);
            }
            out.push(value);
            i = i + 1;
        }
        assert(out.deep_view() =~= edited_fields(self@, fields.deep_view(), row));
        out
    }

    /// Appends the rows inserted before row `position`, and answers with
    /// their number.
    fn write_inserted(&self, out: &mut String, position: usize, options: &WriteOptions) -> (r:
        usize)
        ensures
            final(out)@ == old(out)@ + inserted_lines(
                self@.inserted_rows,
                position,
                self@.deleted_cols,
                *options,
            ),
            r == inserted_count(self@.inserted_rows, position),
    {
        let ghost all = inserted_text(self.inserted_rows@);
        let ghost base = out@;
        let mut count: usize = 0;
        let mut k: usize = 0;
        assert(out@ =~= base + inserted_lines(
            all.subrange(0, 0),
            position,
            self.deleted_cols@,
            *options,
        ));
        while k < self.inserted_rows.len()
            invariant
                0 <= k <= self.inserted_rows@.len(),
                all == inserted_text(self.inserted_rows@),
                count <= k,
                count == inserted_count(all.subrange(0, k as int), position),
                out@ == base + inserted_lines(
                    all.subrange(0, k as int),
                    position,
                    self.deleted_cols@,
                    *options,
                ),
            decreases self.inserted_rows@.len() - k,
        {
            let ghost before = out@;
            let here = self.inserted_rows[k].0 == position;
            if here {
                write_row(out, &self.inserted_rows[k].1.fields, &self.deleted_cols, options);
                count = count + 1;
            }
            k = k + 1;
            proof {
                let now = all.subrange(0, k as int);
                assert(now.subrange(0, now.len() - 1) =~= all.subrange(0, k - 1));
                assert(now[now.len() - 1] == all[k - 1]);
                assert(all[k - 1].1 == self.inserted_rows@[k - 1].1.fields.deep_view());
                assert(out@ =~= base + inserted_lines(
                    now,
                    position,
                    self.deleted_cols@,
                    *options,
                ));
            }
        }
        assert(all.subrange(0, all.len() as int) =~= all);
        count
    }

    /// Writes the source out with the changes applied: see
    /// [`rendered_text`]. `data` is the source that the editor was opened
    /// over. Answers with the text and the number of rows in it; the number
    /// stops at the largest `usize`.
    #[verifier::rlimit(40)]
    pub fn render(&self, data: &[u8], options: &WriteOptions) -> (r: Result<(String, usize)>)
        requires
            self.wf(),
        ensures
            first_line(data@).len() == 0 ==> r matches Err(CsvError::Format(_)),
            first_line(data@).len() > 0 ==> (r matches Ok((text, rows)) && {
                let rv = source_view(
                    data@,
                    self.spec_has_headers(),
                    self.spec_delimiter(),
                    self.spec_granularity(),
                );
                &&& text@ == rendered_text(self@, rv, *options)
                &&& rows == if rendered_rows(self@, rv) > usize::MAX {
                    usize::MAX as nat
                } else {
                    rendered_rows(self@, rv)
                }
            }),
    {
        let mut reader = match CsvReader::open(
            data,
            self.source_path.as_str(),
            self.has_headers,
            self.delimiter,
            self.granularity,
            None,
        ) {
            Ok(reader) => reader,
            Err(e) => {
                return Err(e);
            },
        };
        let ghost rv = reader@;
        let ghost v = self@;
        assert(rv == source_view(data@, self.has_headers, self.delimiter, self.granularity));
        let mut out = String::new();
        if options.write_headers && self.headers.len() > 0 {
            write_row(&mut out, &self.headers, &self.deleted_cols, options);
        }
        let ghost head = out@;
        let mut rows: usize = 0;
        let ghost mut exact: nat = 0;
        let mut row: usize = 0;
        while row < self.source_row_count
            invariant
                0 <= row <= self.source_row_count,
                self.wf(),
                v == self@,
                reader.wf(),
                reader@ == rv,
                rv.total_rows == rv.index.total_rows,
                out@ == head + body_text(v, rv, *options, row as nat),
                exact == body_rows(v, rv, row as nat),
                rows == if exact > usize::MAX {
                    usize::MAX as nat
                } else {
                    exact
                },
            decreases self.source_row_count - row,
        {
            let ghost before = out@;
            let inserted = self.write_inserted(&mut out, row, options);
            rows = rows.saturating_add(inserted);
            let mut written: bool = false;
            if !self.deleted_rows.contains(&row) {
                assert(row * 1 == row) by (nonlinear_arith);
                match reader.read_page(row, 1) {
                    Ok(page) => {
                        if page.len() > 0 {
                            let fields = page[0].to_strings();
                            assert(fields.deep_view() == page_text(rv, row, 1)[0]);
                            let edited = self.apply_edits(&fields, row);
                            write_row(&mut out, &edited, &self.deleted_cols, options);
                            rows = rows.saturating_add(1);
                            written = true;
                        }
                    },
                    Err(e) => {
                        return Err(e);
                    },
                }
            }
            proof {
                exact = exact + inserted as nat + if written {
                    1nat
                } else {
                    0nat
                };
                assert(out@ =~= head + body_text(v, rv, *options, (row + 1) as nat));
            }
            row = row + 1;
        }
        let ghost body = out@;
        let ghost all = rows_text(self.appended_rows@);
        let mut k: usize = 0;
        assert(out@ =~= body + appended_text(all.subrange(0, 0), self.deleted_cols@, *options));
        while k < self.appended_rows.len()
            invariant
                0 <= k <= self.appended_rows@.len(),
                all == rows_text(self.appended_rows@),
                out@ == body + appended_text(
                    all.subrange(0, k as int),
                    self.deleted_cols@,
                    *options,
                ),
                rows == if exact + k > usize::MAX {
                    usize::MAX as int
                } else {
                    exact + k
                },
            decreases self.appended_rows@.len() - k,
        {
            write_row(&mut out, &self.appended_rows[k].fields, &self.deleted_cols, options);
            rows = rows.saturating_add(1);
            k = k + 1;
            proof {
                let now = all.subrange(0, k as int);
                assert(now.subrange(0, now.len() - 1) =~= all.subrange(0, k - 1));
                assert(now[now.len() - 1] == self.appended_rows@[k - 1]@);
                assert(out@ =~= body + appended_text(now, self.deleted_cols@, *options));
            }
        }
        assert(all.subrange(0, all.len() as int) =~= all);
        assert(out@ =~= rendered_text(v, rv, *options));
        Ok((out, rows))
    }
}

} // verus!
