//! Exporting rows: as a JSON array, as JSON lines, or as delimited text.

use crate::csv::cache::PageText;
use crate::csv::export::{escape_json_string, json_escaped, ExportFormat};
use crate::csv::lines::{lines_from, record_texts};
use crate::csv::number::{is_number, is_number_text};
use crate::csv::reader::{found_from, results_text, search_room, CsvReader, FoundRow};
use crate::csv::record::CsvRecord;
use crate::csv::search::SearchOptions;
use crate::csv::text::{lowercase_text, push_char, same_text, to_lowercase};
use crate::csv::writer::{format_row, line_text, LineEnding, WriteOptions};
use crate::error::Result;
use vstd::prelude::*;
use vstd::string::StringExecFns;

verus! {

/// What is exported, and how.
#[derive(Debug, Clone)]
pub struct ExportOptions {
    /// The format.
    pub format: ExportFormat,
    /// The columns that are exported, in this order; all where none are
    /// named.
    pub columns: Option<Vec<usize>>,
    /// The rows that are exported, from the first number up to the second.
    pub row_range: Option<(usize, usize)>,
    /// The search whose finds are exported, in place of all rows.
    pub search_filter: Option<SearchOptions>,
    /// Whether a JSON array is spread over lines.
    pub pretty: bool,
    /// The delimiter of delimited text.
    pub delimiter: u8,
    /// Whether delimited text starts with the header line.
    pub include_headers: bool,
}

impl Default for ExportOptions {
    /// A JSON array of all rows and columns on one line.
    fn default() -> (r: Self)
        ensures
            r == (ExportOptions {
                format: ExportFormat::Json,
                columns: None,
                row_range: None,
                search_filter: None,
                pretty: false,
                delimiter: 0x2C,
                include_headers: true,
            }),
    {
        ExportOptions {
            format: ExportFormat::Json,
            columns: None,
            row_range: None,
            search_filter: None,
            pretty: false,
            delimiter: 0x2C,
            include_headers: true,
        }
    }
}

impl ExportOptions {
    /// An export of all rows and columns in this format.
    pub fn new(format: ExportFormat) -> (r: Self)
        ensures
            r == (ExportOptions {
                format,
                columns: None,
                row_range: None,
                search_filter: None,
                pretty: false,
                delimiter: 0x2C,
                include_headers: true,
            }),
    {
        ExportOptions {
            format,
            columns: None,
            row_range: None,
            search_filter: None,
            pretty: false,
            delimiter: 0x2C,
            include_headers: true,
        }
    }

    /// The export of these columns only.
    pub fn with_columns(self, columns: Vec<usize>) -> (r: Self)
        ensures
            r == (ExportOptions { columns: Some(columns), ..self }),
    {
        let mut options = self;
        options.columns = Some(columns);
        options
    }

    /// The export of the rows from `start` up to `end` only.
    pub fn with_row_range(self, start: usize, end: usize) -> (r: Self)
        ensures
            r == (ExportOptions { row_range: Some((start, end)), ..self }),
    {
        let mut options = self;
        options.row_range = Some((start, end));
        options
    }

    /// The export of what this search finds.
    pub fn with_search_filter(self, filter: SearchOptions) -> (r: Self)
        ensures
            r == (ExportOptions { search_filter: Some(filter), ..self }),
    {
        let mut options = self;
        options.search_filter = Some(filter);
        options
    }

    /// The export with a JSON array spread over lines, or on one line.
    pub fn with_pretty(self, pretty: bool) -> (r: Self)
        ensures
            r == (ExportOptions { pretty, ..self }),
    {
        let mut options = self;
        options.pretty = pretty;
        options
    }

    /// The export with another delimiter.
    pub fn with_delimiter(self, delimiter: u8) -> (r: Self)
        ensures
            r == (ExportOptions { delimiter, ..self }),
    {
        let mut options = self;
        options.delimiter = delimiter;
        options
    }

    /// The export with or without the header line.
    pub fn with_headers(self, wanted: bool) -> (r: Self)
        ensures
            r == (ExportOptions { include_headers: wanted, ..self }),
    {
        let mut options = self;
        options.include_headers = wanted;
        options
    }

    /// How delimited text is written: tabs for the tab format, else the
    /// delimiter asked for; line feeds; quotes where needed.
    pub open spec fn write_options(self) -> WriteOptions {
        WriteOptions {
            delimiter: if self.format == ExportFormat::Tsv {
                0x09
            } else {
                self.delimiter
            },
            line_ending: LineEnding::Lf,
            always_quote: false,
            write_headers: self.include_headers,
        }
    }

    /// The columns asked for, as values.
    pub open spec fn column_list(self) -> Option<Seq<usize>> {
        match self.columns {
            Some(columns) => Some(columns@),
            None => None,
        }
    }
}

/// The items in the first `upto` of the columns, as far as there are items
/// for them.
pub open spec fn picked_by(items: Seq<Seq<char>>, columns: Seq<usize>, upto: int) -> Seq<
    Seq<char>,
>
    decreases upto,
{
    if upto <= 0 {
        Seq::empty()
    } else if columns[upto - 1] < items.len() {
        picked_by(items, columns, upto - 1).push(items[columns[upto - 1] as int])
    } else {
        picked_by(items, columns, upto - 1)
    }
}

/// The items in the columns asked for; all items where none are named.
pub open spec fn picked(items: Seq<Seq<char>>, columns: Option<Seq<usize>>) -> Seq<Seq<char>> {
    match columns {
        Some(columns) => picked_by(items, columns, columns.len() as int),
        None => items,
    }
}

/// A value as it stands in JSON: a number as it is; `true`, `false` and
/// `null` for those words in any case, and `null` for the empty text; any
/// other text as a string.
pub open spec fn json_value_text(value: Seq<char>) -> Seq<char> {
    if is_number(value) {
        value
    } else if lowercase_text(value) == "true"@ {
        "true"@
    } else if lowercase_text(value) == "false"@ {
        "false"@
    } else if lowercase_text(value) == "null"@ || lowercase_text(value) == ""@ {
        "null"@
    } else {
        seq!['"'] + json_escaped(value) + seq!['"']
    }
}

/// The first `upto` members of a JSON object: name and value, with commas
/// between the members.
pub open spec fn json_members(headers: Seq<Seq<char>>, fields: Seq<Seq<char>>, upto: int) -> Seq<
    char,
>
    decreases upto,
{
    if upto <= 0 {
        Seq::empty()
    } else {
        json_members(headers, fields, upto - 1) + (if upto > 1 {
            seq![',']
        } else {
            Seq::empty()
        }) + seq!['"'] + json_escaped(headers[upto - 1]) + seq!['"', ':'] + json_value_text(
            fields[upto - 1],
        )
    }
}

/// A row as a JSON object: as many members as there are headers and fields.
pub open spec fn json_object(headers: Seq<Seq<char>>, fields: Seq<Seq<char>>) -> Seq<char> {
    seq!['{'] + json_members(
        headers,
        fields,
        if headers.len() <= fields.len() {
            headers.len() as int
        } else {
            fields.len() as int
        },
    ) + seq!['}']
}

/// The objects of the first `upto` rows as they stand in a JSON array: with
/// a comma between them; spread over lines and indented where asked for.
pub open spec fn json_items(
    headers: Seq<Seq<char>>,
    rows: PageText,
    columns: Option<Seq<usize>>,
    pretty: bool,
    upto: int,
) -> Seq<char>
    decreases upto,
{
    if upto <= 0 {
        Seq::empty()
    } else {
        json_items(headers, rows, columns, pretty, upto - 1) + (if upto > 1 {
            if pretty {
                seq![',', '\n']
            } else {
                seq![',']
            }
        } else {
            Seq::empty()
        }) + (if pretty {
            seq![' ', ' ']
        } else {
            Seq::empty()
        }) + json_object(headers, picked(rows[upto - 1], columns))
    }
}

/// The rows as a JSON array.
pub open spec fn json_document(
    headers: Seq<Seq<char>>,
    rows: PageText,
    columns: Option<Seq<usize>>,
    pretty: bool,
) -> Seq<char> {
    (if pretty {
        seq!['[', '\n']
    } else {
        seq!['[']
    }) + json_items(headers, rows, columns, pretty, rows.len() as int) + (if pretty {
        seq!['\n', ']', '\n']
    } else {
        seq![']', '\n']
    })
}

/// The first `upto` rows as JSON lines.
pub open spec fn json_lines(
    headers: Seq<Seq<char>>,
    rows: PageText,
    columns: Option<Seq<usize>>,
    upto: int,
) -> Seq<char>
    decreases upto,
{
    if upto <= 0 {
        Seq::empty()
    } else {
        json_lines(headers, rows, columns, upto - 1) + json_object(
            headers,
            picked(rows[upto - 1], columns),
        ) + seq!['\n']
    }
}

/// The first `upto` rows as delimited text.
pub open spec fn delimited_lines(
    rows: PageText,
    columns: Option<Seq<usize>>,
    options: WriteOptions,
    upto: int,
) -> Seq<char>
    decreases upto,
{
    if upto <= 0 {
        Seq::empty()
    } else {
        delimited_lines(rows, columns, options, upto - 1) + line_text(
            picked(rows[upto - 1], columns),
            options,
        ) + seq!['\n']
    }
}

/// The rows as delimited text, behind the header line where it is asked
/// for and there are headers.
pub open spec fn delimited_document(
    headers: Seq<Seq<char>>,
    rows: PageText,
    columns: Option<Seq<usize>>,
    options: WriteOptions,
) -> Seq<char> {
    (if options.write_headers && headers.len() > 0 {
        line_text(headers, options) + seq!['\n']
    } else {
        Seq::empty()
    }) + delimited_lines(rows, columns, options, rows.len() as int)
}

/// The rows from `start` up to `end`, as far as there are rows.
pub open spec fn ranged(rows: PageText, start: usize, end: usize) -> PageText {
    let stop = if end <= rows.len() {
        end as int
    } else {
        rows.len() as int
    };
    if start >= stop {
        Seq::empty()
    } else {
        rows.subrange(start as int, stop)
    }
}

/// The fields of the rows that a search found.
pub open spec fn found_records(found: Seq<FoundRow>) -> PageText {
    Seq::new(found.len(), |i: int| found[i].2)
}

/// The items in the columns asked for: see [`picked`].
pub fn pick(items: &Vec<String>, columns: &Option<Vec<usize>>) -> (r: Vec<String>)
    ensures
        r.deep_view() == picked(
            items.deep_view(),
            match columns {
                Some(c) => Some(c@),
                None => None,
            },
        ),
{
    let mut out: Vec<String> = Vec::new();
    match columns {
        Some(columns) => {
            let mut i: usize = 0;
            assert(out.deep_view() =~= picked_by(items.deep_view(), columns@, 0));
            while i < columns.len()
                invariant
                    0 <= i <= columns@.len(),
                    out.deep_view() == picked_by(items.deep_view(), columns@, i as int),
                decreases columns@.len() - i,
            {
                let ghost before = out.deep_view();
                let c = columns[i];
                if c < items.len() {
                    out.push(items[c].clone());
                    assert(out.deep_view() =~= before.push(items.deep_view()[c as int])) by {
                        assert(items.deep_view()[c as int] == items@[c as int]@);
                    }
                } else {
                    assert(out.deep_view() =~= before);
                }
                i = i + 1;
            }
        },
        None => {
            let mut i: usize = 0;
            while i < items.len()
                invariant
                    0 <= i <= items@.len(),
                    out@.len() == i,
                    forall|k: int| 0 <= k < i ==> (#[trigger] out@[k])@ == items@[k]@,
                decreases items@.len() - i,
            {
                out.push(items[i].clone());
                i = i + 1;
            }
            assert(out.deep_view() =~= items.deep_view());
        },
    }
    out
}

/// A value as it stands in JSON, given its lowercase form: see
/// [`json_value_text`].
pub fn json_value_of(value: &str, lower: &str) -> (r: String)
    ensures
        r@ == if is_number(value@) {
            value@
        } else if lower@ == "true"@ {
            "true"@
        } else if lower@ == "false"@ {
            "false"@
        } else if lower@ == "null"@ || lower@ == ""@ {
            "null"@
        } else {
            seq!['"'] + json_escaped(value@) + seq!['"']
        },
{
    if is_number_text(value) {
        return String::from_str(value);
    }
    if same_text(lower, "true") {
        return String::from_str("true");
    }
    if same_text(lower, "false") {
        return String::from_str("false");
    }
    if same_text(lower, "null") || same_text(lower, "") {
        return String::from_str("null");
    }
    let mut out = String::new();
    push_char(&mut out, '"');
    let escaped = escape_json_string(value);
    out.append(escaped.as_str());
    push_char(&mut out, '"');
    assert(out@ =~= seq!['"'] + json_escaped(value@) + seq!['"']);
    out
}

/// A value as it stands in JSON: see [`json_value_text`].
pub fn json_value(value: &str) -> (r: String)
    ensures
        r@ == json_value_text(value@),
{
    let lower = to_lowercase(value);
    json_value_of(value, lower.as_str())
}

/// A row as a JSON object: see [`json_object`].
pub fn record_to_json(headers: &Vec<String>, fields: &Vec<String>) -> (r: String)
    ensures
        r@ == json_object(headers.deep_view(), fields.deep_view()),
{
    let count: usize = if headers.len() <= fields.len() {
        headers.len()
    } else {
        fields.len()
    };
    let ghost hs = headers.deep_view();
    let ghost fs = fields.deep_view();
    let mut out = String::new();
    push_char(&mut out, '{');
    let mut i: usize = 0;
    assert(out@ =~= seq!['{'] + json_members(hs, fs, 0));
    while i < count
        invariant
            0 <= i <= count,
            count <= headers@.len(),
            count <= fields@.len(),
            hs == headers.deep_view(),
            fs == fields.deep_view(),
            out@ == seq!['{'] + json_members(hs, fs, i as int),
        decreases count - i,
    {
        let ghost before = out@;
        if i > 0 {
            push_char(&mut out, ',');
        }
        push_char(&mut out, '"');
        let name = escape_json_string(headers[i].as_str());
        out.append(name.as_str());
        push_char(&mut out, '"');
        push_char(&mut out, ':');
        let value = json_value(fields[i].as_str());
        out.append(value.as_str());
        i = i + 1;
        proof {
            assert(hs[i - 1] == headers@[i - 1]@);
            assert(fs[i - 1] == fields@[i - 1]@);
            assert(out@ =~= seq!['{'] + json_members(hs, fs, i as int));
        }
    }
    push_char(&mut out, '}');
    assert(out@ =~= json_object(hs, fs));
    out
}

/// The rows from `start` up to `end`: see [`ranged`].
pub fn take_range<'a>(rows: Vec<CsvRecord<'a>>, start: usize, end: usize) -> (r: Vec<
    CsvRecord<'a>,
>)
    ensures
        record_texts(r@) == ranged(record_texts(rows@), start, end),
{
    let stop: usize = if end <= rows.len() {
        end
    } else {
        rows.len()
    };
    let mut out: Vec<CsvRecord<'a>> = Vec::new();
    if start >= stop {
        assert(record_texts(out@) =~= ranged(record_texts(rows@), start, end));
        return out;
    }
    let mut i: usize = start;
    while i < stop
        invariant
            start <= i <= stop <= rows@.len(),
            out@.len() == i - start,
            forall|k: int| 0 <= k < out@.len() ==> (#[trigger] out@[k])@ == rows@[start + k]@,
        decreases stop - i,
    {
        out.push(rows[i].to_owned());
        i = i + 1;
    }
    assert(record_texts(out@) =~= record_texts(rows@).subrange(start as int, stop as int));
    out
}

/// What exports the rows of a reader.
pub struct Exporter<'r, 'a> {
    reader: &'r CsvReader<'a>,
    options: ExportOptions,
}

impl<'r, 'a> Exporter<'r, 'a> {
    /// What the exporter exports from.
    pub closed spec fn reader(&self) -> &CsvReader<'a> {
        self.reader
    }

    /// What is exported, and how.
    pub closed spec fn options(&self) -> ExportOptions {
        self.options
    }

    /// An exporter of the rows of `reader`.
    pub fn new(reader: &'r CsvReader<'a>, options: ExportOptions) -> (r: Self)
        ensures
            r.reader() == reader,
            r.options() == options,
    {
        Exporter { reader, options }
    }

    /// The rows that are exported: what the search finds, where there is
    /// one, else the rows of the source up to the end of the range or to the
    /// number of rows that the reader announces; and of those the rows in
    /// the range.
    pub open spec fn export_rows(&self) -> PageText {
        let v = self.reader()@;
        match self.options().search_filter {
            Some(filter) => {
                let found = found_records(
                    found_from(v.data, v.delimiter, filter, v.data_start, 0, search_room(filter)),
                );
                match self.options().row_range {
                    Some((start, end)) => ranged(found, start, end),
                    None => found,
                }
            },
            None => {
                let (start, end) = match self.options().row_range {
                    Some(range) => range,
                    None => (0usize, v.total_rows),
                };
                let stop = if end <= v.total_rows {
                    end
                } else {
                    v.total_rows
                };
                ranged(lines_from(v.data, v.delimiter, v.data_start, stop as nat), start, stop)
            },
        }
    }

    /// The headers that are exported.
    pub open spec fn export_headers(&self) -> Seq<Seq<char>> {
        picked(self.reader().spec_headers(), self.options().column_list())
    }

    /// The text of the export.
    pub open spec fn export_text(&self) -> Seq<char> {
        let columns = self.options().column_list();
        match self.options().format {
            ExportFormat::Json => json_document(
                self.export_headers(),
                self.export_rows(),
                columns,
                self.options().pretty,
            ),
            ExportFormat::JsonLines => json_lines(
                self.export_headers(),
                self.export_rows(),
                columns,
                self.export_rows().len() as int,
            ),
            _ => delimited_document(
                self.export_headers(),
                self.export_rows(),
                columns,
                self.options().write_options(),
            ),
        }
    }

    /// The headers that are exported.
    pub fn get_export_headers(&self) -> (r: Vec<String>)
        ensures
            r.deep_view() == self.export_headers(),
    {
        pick(self.reader.headers(), &self.options.columns)
    }

    /// The rows that are exported: see [`Exporter::export_rows`].
    pub fn get_export_records(&self) -> (r: Result<Vec<CsvRecord<'a>>>)
        requires
            self.reader().wf(),
        ensures
            r matches Ok(rows) && record_texts(rows@) == self.export_rows(),
    {
        let total = self.reader.info().total_rows;
        match &self.options.search_filter {
            Some(filter) => {
                let results = match self.reader.search(filter) {
                    Ok(results) => results,
                    Err(e) => {
                        return Err(e);
                    },
                };
                let mut rows: Vec<CsvRecord<'a>> = Vec::new();
                let mut i: usize = 0;
                while i < results.len()
                    invariant
                        0 <= i <= results@.len(),
                        rows@.len() == i,
                        forall|k: int| 0 <= k < i ==> (#[trigger] rows@[k])@ == results@[k].record@,
                    decreases results@.len() - i,
                {
                    rows.push(results[i].record.to_owned());
                    i = i + 1;
                }
                assert(record_texts(rows@) =~= found_records(results_text(results@)));
                match self.options.row_range {
                    Some((start, end)) => Ok(take_range(rows, start, end)),
                    None => Ok(rows),
                }
            },
            None => {
                let (start, end) = match self.options.row_range {
                    Some(range) => range,
                    None => (0, total),
                };
                let stop: usize = if end <= total {
                    end
                } else {
                    total
                };
                let rows = self.reader.read_first_rows(stop);
                Ok(take_range(rows, start, stop))
            },
        }
    }

    /// The text of the export, with the number of rows and of columns in it:
    /// see [`Exporter::export_text`].
    #[verifier::rlimit(40)]
    pub fn render(&self) -> (r: Result<(String, usize, usize)>)
        requires
            self.reader().wf(),
        ensures
            r matches Ok((text, rows, cols)) && text@ == self.export_text() && rows
                == self.export_rows().len() && cols == self.export_headers().len(),
    {
        let headers = self.get_export_headers();
        let records = match self.get_export_records() {
            Ok(records) => records,
            Err(e) => {
                return Err(e);
            },
        };
        let ghost hs = headers.deep_view();
        let ghost rows = record_texts(records@);
        let ghost columns = self.options().column_list();
        let mut out = String::new();
        match self.options.format {
            ExportFormat::Json => {
                let pretty = self.options.pretty;
                push_char(&mut out, '[');
                if pretty {
                    push_char(&mut out, '\n');
                }
                let ghost head = out@;
                let mut i: usize = 0;
                assert(out@ =~= head + json_items(hs, rows, columns, pretty, 0));
                while i < records.len()
                    invariant
                        0 <= i <= records@.len(),
                        hs == headers.deep_view(),
                        rows == record_texts(records@),
                        columns == self.options().column_list(),
                        pretty == self.options().pretty,
                        out@ == head + json_items(hs, rows, columns, pretty, i as int),
                    decreases records@.len() - i,
                {
                    if i > 0 {
                        push_char(&mut out, ',');
                        if pretty {
                            push_char(&mut out, '\n');
                        }
                    }
                    if pretty {
                        push_char(&mut out, ' ');
                        push_char(&mut out, ' ');
                    }
                    let fields = pick(&records[i].to_strings(), &self.options.columns);
                    let object = record_to_json(&headers, &fields);
                    out.append(object.as_str());
                    i = i + 1;
                    proof {
                        assert(rows[i - 1] == records@[i - 1]@);
                        assert(out@ =~= head + json_items(hs, rows, columns, pretty, i as int));
                    }
                }
                if pretty {
                    push_char(&mut out, '\n');
                }
                push_char(&mut out, ']');
                push_char(&mut out, '\n');
                assert(out@ =~= json_document(hs, rows, columns, pretty));
            },
            ExportFormat::JsonLines => {
                let mut i: usize = 0;
                assert(out@ =~= json_lines(hs, rows, columns, 0));
                while i < records.len()
                    invariant
                        0 <= i <= records@.len(),
                        hs == headers.deep_view(),
                        rows == record_texts(records@),
                        columns == self.options().column_list(),
                        out@ == json_lines(hs, rows, columns, i as int),
                    decreases records@.len() - i,
                {
                    let fields = pick(&records[i].to_strings(), &self.options.columns);
                    let object = record_to_json(&headers, &fields);
                    out.append(object.as_str());
                    push_char(&mut out, '\n');
                    i = i + 1;
                    proof {
                        assert(rows[i - 1] == records@[i - 1]@);
                        assert(out@ =~= json_lines(hs, rows, columns, i as int));
                    }
                }
            },
            _ => {
                let delimiter: u8 = match self.options.format {
                    ExportFormat::Tsv => 0x09,
                    _ => self.options.delimiter,
                };
                let how = WriteOptions {
                    delimiter,
                    line_ending: LineEnding::Lf,
                    always_quote: false,
                    write_headers: self.options.include_headers,
                };
                assert(how == self.options().write_options());
                if self.options.include_headers && headers.len() > 0 {
                    let line = format_row(&headers, &how);
                    out.append(line.as_str());
                    push_char(&mut out, '\n');
                }
                let ghost head = out@;
                let mut i: usize = 0;
                assert(out@ =~= head + delimited_lines(rows, columns, how, 0));
                while i < records.len()
                    invariant
                        0 <= i <= records@.len(),
                        rows == record_texts(records@),
                        columns == self.options().column_list(),
                        out@ == head + delimited_lines(rows, columns, how, i as int),
                    decreases records@.len() - i,
                {
                    let fields = pick(&records[i].to_strings(), &self.options.columns);
                    let line = format_row(&fields, &how);
                    out.append(line.as_str());
                    push_char(&mut out, '\n');
                    i = i + 1;
                    proof {
                        assert(rows[i - 1] == records@[i - 1]@);
                        assert(out@ =~= head + delimited_lines(rows, columns, how, i as int));
                    }
                }
                assert(out@ =~= delimited_document(hs, rows, columns, how));
            },
        }
        Ok((out, records.len(), headers.len()))
    }
}

} // verus!
