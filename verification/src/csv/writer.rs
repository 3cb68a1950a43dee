//! Writing delimited text: rows made from scratch, and the changes that an
//! editor collects against a source until they are written out.

use crate::csv::export::{escape_field, escaped_field};
use crate::csv::record::CsvRecord;
use crate::csv::text::push_char;
use crate::error::{CsvError, Result};
use vstd::prelude::*;
use vstd::string::StringExecFns;

verus! {

broadcast use vstd::std_specs::hash::group_hash_axioms;

/// A changed cell.
#[derive(Debug, Clone)]
pub struct CellEdit {
    /// The row, counted from 0 without the header.
    pub row: usize,
    /// The column, counted from 0.
    pub col: usize,
    /// The new value.
    pub value: String,
}

/// One row of values.
#[derive(Debug, Clone)]
pub struct RowData {
    pub fields: Vec<String>,
}

impl View for RowData {
    type V = Seq<Seq<char>>;

    open spec fn view(&self) -> Seq<Seq<char>> {
        self.fields.deep_view()
    }
}

impl RowData {
    /// A row of these values.
    pub fn new(fields: Vec<String>) -> (r: Self)
        ensures
            r.fields == fields,
    {
        RowData { fields }
    }

    /// A row of these values, copied.
    pub fn from_strs(fields: &[&str]) -> (r: Self)
        ensures
            r@.len() == fields@.len(),
            forall|i: int| 0 <= i < fields@.len() ==> r@[i] == fields@[i]@,
    {
        let mut out: Vec<String> = Vec::new();
        let mut i: usize = 0;
        while i < fields.len()
            invariant
                0 <= i <= fields@.len(),
                out@.len() == i,
                forall|k: int| 0 <= k < i ==> (#[trigger] out@[k])@ == fields@[k]@,
            decreases fields@.len() - i,
        {
            out.push(String::from_str(fields[i]));
            i = i + 1;
        }
        let r = RowData { fields: out };
        assert(r@.len() == fields@.len());
        assert forall|k: int| 0 <= k < fields@.len() implies r@[k] == fields@[k]@ by {
            assert(r@[k] == r.fields@[k]@);
        }
        r
    }

    /// A row of the fields of a record.
    pub fn from_record(record: &CsvRecord) -> (r: Self)
        ensures
            r@ == record@,
    {
        RowData { fields: record.to_strings() }
    }

    /// The number of values.
    pub fn len(&self) -> (r: usize)
        ensures
            r == self.fields@.len(),
    {
        self.fields.len()
    }

    /// Whether the row has no values.
    pub fn is_empty(&self) -> (r: bool)
        ensures
            r == (self.fields@.len() == 0),
    {
        self.fields.len() == 0
    }
}

const LF_BYTES: [u8; 1] = [0x0A];

const CRLF_BYTES: [u8; 2] = [0x0D, 0x0A];

const CR_BYTES: [u8; 1] = [0x0D];

/// How a line ends.
#[derive(Debug, Clone, Copy, PartialEq, Eq, Structural)]
pub enum LineEnding {
    /// A line feed.
    Lf,
    /// A carriage return and a line feed.
    CrLf,
    /// A carriage return.
    Cr,
}

impl Default for LineEnding {
    /// A line feed.
    fn default() -> (r: Self)
        ensures
            r == LineEnding::Lf,
    {
        LineEnding::Lf
    }
}

impl LineEnding {
    /// The characters of the line ending.
    pub open spec fn text(self) -> Seq<char> {
        match self {
            LineEnding::Lf => seq!['\n'],
            LineEnding::CrLf => seq!['\r', '\n'],
            LineEnding::Cr => seq!['\r'],
        }
    }

    /// The bytes of the line ending.
    pub open spec fn bytes(self) -> Seq<u8> {
        match self {
            LineEnding::Lf => seq![0x0Au8],
            LineEnding::CrLf => seq![0x0Du8, 0x0Au8],
            LineEnding::Cr => seq![0x0Du8],
        }
    }

    /// The bytes of the line ending.
    pub fn as_bytes(&self) -> (r: &'static [u8])
        ensures
            r@ == self.bytes(),
    {
        match self {
            LineEnding::Lf => LF_BYTES.as_slice(),
            LineEnding::CrLf => CRLF_BYTES.as_slice(),
            LineEnding::Cr => CR_BYTES.as_slice(),
        }
    }

    /// Appends the line ending to `out`.
    pub fn append_to(&self, out: &mut String)
        ensures
            final(out)@ == old(out)@ + self.text(),
    {
        match self {
            LineEnding::Lf => {
                push_char(out, '\n');
            },
            LineEnding::CrLf => {
                push_char(out, '\r');
                push_char(out, '\n');
            },
            LineEnding::Cr => {
                push_char(out, '\r');
            },
        }
        assert(out@ =~= old(out)@ + self.text());
    }
}

/// How delimited text is written.
#[derive(Debug, Clone, Copy)]
pub struct WriteOptions {
    pub delimiter: u8,
    pub line_ending: LineEnding,
    pub always_quote: bool,
    pub write_headers: bool,
}

impl Default for WriteOptions {
    /// Commas, line feeds, quotes where needed, with the header line.
    fn default() -> (r: Self)
        ensures
            r == (WriteOptions {
                delimiter: 0x2C,
                line_ending: LineEnding::Lf,
                always_quote: false,
                write_headers: true,
            }),
    {
        WriteOptions {
            delimiter: 0x2C,
            line_ending: LineEnding::Lf,
            always_quote: false,
            write_headers: true,
        }
    }
}

impl WriteOptions {
    /// Commas, line feeds, quotes where needed, with the header line.
    pub fn new() -> (r: Self)
        ensures
            r == (WriteOptions {
                delimiter: 0x2C,
                line_ending: LineEnding::Lf,
                always_quote: false,
                write_headers: true,
            }),
    {
        WriteOptions {
            delimiter: 0x2C,
            line_ending: LineEnding::Lf,
            always_quote: false,
            write_headers: true,
        }
    }

    /// The options with another delimiter.
    pub fn with_delimiter(self, delimiter: u8) -> (r: Self)
        ensures
            r == (WriteOptions { delimiter, ..self }),
    {
        WriteOptions {
            delimiter,
            line_ending: self.line_ending,
            always_quote: self.always_quote,
            write_headers: self.write_headers,
        }
    }

    /// The options with another line ending.
    pub fn with_line_ending(self, line_ending: LineEnding) -> (r: Self)
        ensures
            r == (WriteOptions { line_ending, ..self }),
    {
        WriteOptions {
            delimiter: self.delimiter,
            line_ending,
            always_quote: self.always_quote,
            write_headers: self.write_headers,
        }
    }

    /// The options with every field quoted, or only those that need it.
    pub fn with_always_quote(self, always_quote: bool) -> (r: Self)
        ensures
            r == (WriteOptions { always_quote, ..self }),
    {
        WriteOptions {
            delimiter: self.delimiter,
            line_ending: self.line_ending,
            always_quote,
            write_headers: self.write_headers,
        }
    }

    /// The options with or without the header line.
    pub fn with_headers(self, write_headers: bool) -> (r: Self)
        ensures
            r == (WriteOptions { write_headers, ..self }),
    {
        WriteOptions {
            delimiter: self.delimiter,
            line_ending: self.line_ending,
            always_quote: self.always_quote,
            write_headers,
        }
    }
}

/// How much an editor has collected.
#[derive(Debug, Clone, Copy)]
pub struct ChangeStats {
    pub cells_edited: usize,
    pub rows_deleted: usize,
    pub rows_inserted: usize,
    pub rows_appended: usize,
    pub cols_deleted: usize,
    pub cols_inserted: usize,
}

impl ChangeStats {
    /// Whether anything was changed.
    pub fn has_changes(&self) -> (r: bool)
        ensures
            r == (self.cells_edited > 0 || self.rows_deleted > 0 || self.rows_inserted > 0
                || self.rows_appended > 0 || self.cols_deleted > 0 || self.cols_inserted > 0),
    {
        self.cells_edited > 0 || self.rows_deleted > 0 || self.rows_inserted > 0
            || self.rows_appended > 0 || self.cols_deleted > 0 || self.cols_inserted > 0
    }
}

/// What was written.
#[derive(Debug, Clone)]
pub struct SaveStats {
    pub rows_written: usize,
    pub bytes_written: usize,
    pub file_path: String,
}

/// The fields of a line as they are written, with the delimiter between
/// them.
pub open spec fn line_text(fields: Seq<Seq<char>>, options: WriteOptions) -> Seq<char>
    decreases fields.len(),
{
    if fields.len() == 0 {
        Seq::empty()
    } else if fields.len() == 1 {
        escaped_field(fields[0], options.delimiter as char, options.always_quote)
    } else {
        line_text(fields.subrange(0, fields.len() - 1), options) + seq![
            options.delimiter as char,
        ] + escaped_field(
            fields[fields.len() - 1],
            options.delimiter as char,
            options.always_quote,
        )
    }
}

/// The lines of these rows as they are written, each with its line ending.
pub open spec fn lines_text(rows: Seq<Seq<Seq<char>>>, options: WriteOptions) -> Seq<char>
    decreases rows.len(),
{
    if rows.len() == 0 {
        Seq::empty()
    } else {
        lines_text(rows.subrange(0, rows.len() - 1), options) + line_text(
            rows[rows.len() - 1],
            options,
        ) + options.line_ending.text()
    }
}

/// The header line as it is written: nothing where headers are not asked
/// for or there are none.
pub open spec fn header_text(headers: Seq<Seq<char>>, options: WriteOptions) -> Seq<char> {
    if options.write_headers && headers.len() > 0 {
        line_text(headers, options) + options.line_ending.text()
    } else {
        Seq::empty()
    }
}

/// Writes one field as these options ask: see [`escaped_field`].
pub fn escape_csv_field(field: &str, options: &WriteOptions) -> (r: String)
    ensures
        r@ == escaped_field(field@, options.delimiter as char, options.always_quote),
{
    escape_field(field, options.delimiter, options.always_quote)
}

/// Writes one line without its ending: see [`line_text`].
pub fn format_row(fields: &Vec<String>, options: &WriteOptions) -> (r: String)
    ensures
        r@ == line_text(fields.deep_view(), *options),
{
    let mut out = String::new();
    let mut i: usize = 0;
    let ghost all = fields.deep_view();
    while i < fields.len()
        invariant
            0 <= i <= fields@.len(),
            all == fields.deep_view(),
            all.len() == fields@.len(),
            out@ == line_text(all.subrange(0, i as int), *options),
        decreases fields@.len() - i,
    {
        if i > 0 {
            push_char(&mut out, options.delimiter as char);
        }
        let escaped = escape_field(fields[i].as_str(), options.delimiter, options.always_quote);
        out.append(escaped.as_str());
        i = i + 1;
        proof {
            let now = all.subrange(0, i as int);
            assert(now.subrange(0, now.len() - 1) =~= all.subrange(0, i - 1));
            assert(now[now.len() - 1] == fields@[i - 1]@);
            assert(out@ =~= line_text(now, *options));
        }
    }
    assert(all.subrange(0, all.len() as int) =~= all);
    out
}

/// Builds delimited text from nothing: a header line and rows as wide as it.
pub struct CsvCreator {
    headers: Vec<String>,
    rows: Vec<RowData>,
    options: WriteOptions,
}

/// The values of a sequence of rows.
pub open spec fn rows_text(rows: Seq<RowData>) -> Seq<Seq<Seq<char>>> {
    Seq::new(rows.len(), |i: int| rows[i]@)
}

/// The position of the first row from `from` on that is not `width` fields
/// wide; the number of rows where every row from there on is.
pub open spec fn first_refused(rows: Seq<RowData>, width: nat, from: int) -> int
    decreases rows.len() - from,
{
    if from < 0 || from >= rows.len() {
        rows.len() as int
    } else if rows[from]@.len() != width {
        from
    } else {
        first_refused(rows, width, from + 1)
    }
}

impl CsvCreator {
    /// The header fields.
    pub closed spec fn spec_headers(&self) -> Seq<Seq<char>> {
        self.headers.deep_view()
    }

    /// The rows added so far.
    pub closed spec fn spec_rows(&self) -> Seq<Seq<Seq<char>>> {
        rows_text(self.rows@)
    }

    /// How the text is written.
    pub closed spec fn spec_options(&self) -> WriteOptions {
        self.options
    }

    /// A creator with these headers, no rows and the default options.
    pub fn new(headers: Vec<String>) -> (r: Self)
        ensures
            r.spec_headers() == headers.deep_view(),
            r.spec_rows().len() == 0,
            r.spec_options() == (WriteOptions {
                delimiter: 0x2C,
                line_ending: LineEnding::Lf,
                always_quote: false,
                write_headers: true,
            }),
    {
        CsvCreator { headers, rows: Vec::new(), options: WriteOptions::new() }
    }

    /// The creator with other options.
    pub fn with_options(self, options: WriteOptions) -> (r: Self)
        ensures
            r.spec_headers() == self.spec_headers(),
            r.spec_rows() == self.spec_rows(),
            r.spec_options() == options,
    {
        CsvCreator { headers: self.headers, rows: self.rows, options }
    }

    /// Adds a row. A row that is not as wide as the header line is refused.
    pub fn add_row(&mut self, row: RowData) -> (r: Result<()>)
        ensures
            final(self).spec_headers() == old(self).spec_headers(),
            final(self).spec_options() == old(self).spec_options(),
            row@.len() == old(self).spec_headers().len() ==> r is Ok && final(self).spec_rows()
                == old(self).spec_rows().push(row@),
            row@.len() != old(self).spec_headers().len() ==> (r matches Err(CsvError::Format(_))
                && final(self).spec_rows() == old(self).spec_rows()),
    {
        if row.len() != self.headers.len() {
            return Err(
                CsvError::Format(String::from_str("the row is not as wide as the header line")),
            );
        }
        self.rows.push(row);
        assert(rows_text(self.rows@) =~= rows_text(old(self).rows@).push(row@));
        Ok(())
    }

    /// Adds rows one by one, up to the first that is refused: the rows
    /// before it stay added, it and the rows behind it are not.
    pub fn add_rows(&mut self, rows: Vec<RowData>) -> (r: Result<()>)
        ensures
            final(self).spec_headers() == old(self).spec_headers(),
            final(self).spec_options() == old(self).spec_options(),
            final(self).spec_rows() == old(self).spec_rows() + rows_text(
                rows@.subrange(0, first_refused(rows@, old(self).spec_headers().len(), 0)),
            ),
            r is Ok <==> first_refused(rows@, old(self).spec_headers().len(), 0) == rows@.len(),
            r is Err ==> r matches Err(CsvError::Format(_)),
            (forall|i: int|
                0 <= i < rows@.len() ==> (#[trigger] rows@[i])@.len() == old(self).spec_headers().len()) ==> r is Ok && final(self).spec_rows() == old(self).spec_rows() + rows_text(rows@),
            (exists|i: int|
                0 <= i < rows@.len() && (#[trigger] rows@[i])@.len() != old(self).spec_headers().len()) ==> r matches Err(CsvError::Format(_)),
    {
        let mut i: usize = 0;
        while i < rows.len()
            invariant
                0 <= i <= rows@.len(),
                self.spec_headers() == old(self).spec_headers(),
                self.spec_options() == old(self).spec_options(),
                forall|k: int|
                    0 <= k < i ==> (#[trigger] rows@[k])@.len() == old(self).spec_headers().len(),
                self.spec_rows() == old(self).spec_rows() + rows_text(rows@.subrange(0, i as int)),
                first_refused(rows@, old(self).spec_headers().len(), i as int) == first_refused(
                    rows@,
                    old(self).spec_headers().len(),
                    0,
                ),
            decreases rows@.len() - i,
        {
            let row = RowData { fields: rows[i].fields.clone() };
            assert(row@ =~= rows@[i as int]@) by {
                assert(row.fields@ =~= rows@[i as int].fields@);
            }
            match self.add_row(row) {
                Ok(()) => {},
                Err(e) => {
                    return Err(e);
                },
            }
            i = i + 1;
            assert(rows_text(rows@.subrange(0, i as int)) =~= rows_text(
                rows@.subrange(0, i - 1),
            ).push(rows@[i - 1]@));
        }
        assert(rows@.subrange(0, rows@.len() as int) =~= rows@);
        Ok(())
    }

    /// The text that the creator stands for: the header line, where asked
    /// for, and a line for each row. Answers with the text and the number of
    /// rows in it.
    pub fn render(&self) -> (r: (String, usize))
        ensures
            r.0@ == header_text(self.spec_headers(), self.spec_options()) + lines_text(
                self.spec_rows(),
                self.spec_options(),
            ),
            r.1 == self.spec_rows().len(),
    {
        let mut out = String::new();
        if self.options.write_headers && self.headers.len() > 0 {
            let line = format_row(&self.headers, &self.options);
            out.append(line.as_str());
            self.options.line_ending.append_to(&mut out);
        }
        let ghost head = out@;
        let ghost all = rows_text(self.rows@);
        let mut i: usize = 0;
        while i < self.rows.len()
            invariant
                0 <= i <= self.rows@.len(),
                all == rows_text(self.rows@),
                out@ == head + lines_text(all.subrange(0, i as int), self.options),
            decreases self.rows@.len() - i,
        {
            let line = format_row(&self.rows[i].fields, &self.options);
            out.append(line.as_str());
            self.options.line_ending.append_to(&mut out);
            i = i + 1;
            proof {
                let now = all.subrange(0, i as int);
                assert(now.subrange(0, now.len() - 1) =~= all.subrange(0, i - 1));
                assert(out@ =~= head + lines_text(now, self.options));
            }
        }
        assert(all.subrange(0, all.len() as int) =~= all);
        (out, self.rows.len())
    }
}

} // verus!
