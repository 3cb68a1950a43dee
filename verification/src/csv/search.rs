//! What a search finds in a row, and how the finds are marked in a text.

use crate::csv::pattern::SearchPattern;
use crate::csv::record::CsvRecord;
use std::borrow::Cow;
use vstd::prelude::*;
use vstd::string::{StringExecFns, StringSliceAdditionalSpecFns};
use vstd::utf8::{
    decode_utf8, encode_utf8_decode_utf8, encode_utf8_valid_utf8, is_char_boundary,
    is_char_boundary_iff_not_is_continuation_byte, is_char_boundary_start_end_of_seq,
};

verus! {

/// The finds in one column: byte ranges of the field's text.
#[derive(Debug, Clone)]
pub struct MatchInfo {
    pub column: usize,
    pub positions: Vec<(usize, usize)>,
}

/// A row that a search found.
#[derive(Debug, Clone)]
pub struct SearchResult {
    /// The number of the row, counted from 0 without the header.
    pub row_number: usize,
    /// The finds, column by column.
    pub matches: Vec<MatchInfo>,
    /// The row itself.
    pub record: CsvRecord<'static>,
}

impl SearchResult {
    /// Whether anything was found in column `col`.
    pub fn has_match_in_column(&self, col: usize) -> (r: bool)
        ensures
            r == exists|i: int| 0 <= i < self.matches@.len() && self.matches@[i].column == col,
    {
        let mut i: usize = 0;
        while i < self.matches.len()
            invariant
                0 <= i <= self.matches@.len(),
                forall|k: int| 0 <= k < i ==> self.matches@[k].column != col,
            decreases self.matches@.len() - i,
        {
            if self.matches[i].column == col {
                return true;
            }
            i = i + 1;
        }
        false
    }

    /// The columns in which something was found, in the order of the finds.
    pub fn matched_columns(&self) -> (r: Vec<usize>)
        ensures
            r@.len() == self.matches@.len(),
            forall|i: int| 0 <= i < r@.len() ==> r@[i] == self.matches@[i].column,
    {
        let mut out: Vec<usize> = Vec::new();
        let mut i: usize = 0;
        while i < self.matches.len()
            invariant
                0 <= i <= self.matches@.len(),
                out@.len() == i,
                forall|k: int| 0 <= k < i ==> out@[k] == self.matches@[k].column,
            decreases self.matches@.len() - i,
        {
            out.push(self.matches[i].column);
            i = i + 1;
        }
        out
    }
}

/// The text that the bytes from `from` up to `to` encode.
pub open spec fn text_between(bytes: Seq<u8>, from: int, to: int) -> Seq<char> {
    decode_utf8(bytes.subrange(from, to))
}

/// Every range lies in the text, does not run backwards, and starts and ends
/// between characters.
pub open spec fn ranges_fit(bytes: Seq<u8>, positions: Seq<(usize, usize)>) -> bool {
    forall|i: int|
        0 <= i < positions.len() ==> {
            &&& (#[trigger] positions[i]).0 <= positions[i].1 <= bytes.len()
            &&& is_char_boundary(bytes, positions[i].0 as int)
            &&& is_char_boundary(bytes, positions[i].1 as int)
        }
}

/// Where the range before range `k` ended; 0 for the first range.
pub open spec fn end_before(positions: Seq<(usize, usize)>, k: int) -> int {
    if k <= 0 {
        0
    } else {
        positions[k - 1].1 as int
    }
}

/// The text up to the end of range `k - 1`, with the first `k` ranges
/// marked: what lies between the end of one range and the start of the next
/// is kept, and each range stands between the marks that switch the
/// highlight on and off.
pub open spec fn marked(bytes: Seq<u8>, positions: Seq<(usize, usize)>, k: int) -> Seq<char>
    decreases k,
{
    if k <= 0 {
        Seq::empty()
    } else {
        let (start, end) = positions[k - 1];
        let gap = if start > end_before(positions, k - 1) {
            text_between(bytes, end_before(positions, k - 1), start as int)
        } else {
            Seq::empty()
        };
        marked(bytes, positions, k - 1) + gap + "\x1b[1;33m"@ + text_between(
            bytes,
            start as int,
            end as int,
        ) + "\x1b[0m"@
    }
}

/// The text with all ranges marked; the text itself without ranges.
pub open spec fn highlighted(text: Seq<char>, bytes: Seq<u8>, positions: Seq<(usize, usize)>) -> Seq<
    char,
> {
    if positions.len() == 0 {
        text
    } else {
        let n = positions.len() as int;
        marked(bytes, positions, n) + if end_before(positions, n) < bytes.len() {
            text_between(bytes, end_before(positions, n), bytes.len() as int)
        } else {
            Seq::empty()
        }
    }
}

/// The part of `s` from byte `from` up to byte `to`.
fn slice_str<'a>(s: &'a str, from: usize, to: usize) -> (r: &'a str)
    requires
        from <= to <= s.spec_bytes().len(),
        is_char_boundary(s.spec_bytes(), from as int),
        is_char_boundary(s.spec_bytes(), to as int),
    ensures
        r@ == text_between(s.spec_bytes(), from as int, to as int),
{
    let ghost bytes = s.spec_bytes();
    proof {
        encode_utf8_valid_utf8(s@);
    }
    let (_head, tail) = s.split_at(from);
    proof {
        encode_utf8_valid_utf8(tail@);
        assert(tail.spec_bytes() =~= bytes.subrange(from as int, bytes.len() as int));
        if to < bytes.len() {
            is_char_boundary_iff_not_is_continuation_byte(bytes, to as int);
            assert(tail.spec_bytes()[to - from] == bytes[to as int]);
            is_char_boundary_iff_not_is_continuation_byte(tail.spec_bytes(), to - from);
        } else {
            is_char_boundary_start_end_of_seq(tail.spec_bytes());
        }
    }
    let (part, _rest) = tail.split_at(to - from);
    proof {
        assert(part.spec_bytes() =~= bytes.subrange(from as int, to as int));
        encode_utf8_decode_utf8(part@);
    }
    part
}

/// Marks the finds in a text for a terminal: each range is set between the
/// escape sequences that switch bold yellow on and off. The ranges are byte
/// ranges of the text, given in order.
pub fn highlight_matches(text: &str, positions: &[(usize, usize)]) -> (r: String)
    requires
        ranges_fit(text.spec_bytes(), positions@),
    ensures
        r@ == highlighted(text@, text.spec_bytes(), positions@),
{
    if positions.len() == 0 {
        return String::from_str(text);
    }
    let ghost bytes = text.spec_bytes();
    let len: usize = text.as_bytes().len();
    proof {
        encode_utf8_valid_utf8(text@);
        is_char_boundary_start_end_of_seq(bytes);
    }
    let mut result = String::new();
    let mut last_end: usize = 0;
    let mut k: usize = 0;
    while k < positions.len()
        invariant
            bytes == text.spec_bytes(),
            len == bytes.len(),
            ranges_fit(bytes, positions@),
            0 <= k <= positions@.len(),
            last_end == end_before(positions@, k as int),
            last_end <= len,
            is_char_boundary(bytes, last_end as int),
            result@ == marked(bytes, positions@, k as int),
        decreases positions@.len() - k,
    {
        let (start, end) = positions[k];
        let ghost before = result@;
        assert(positions@[k as int].0 <= positions@[k as int].1 <= bytes.len());
        if start > last_end {
            result.append(slice_str(text, last_end, start));
        }
        result.append("\x1b[1;33m");
        result.append(slice_str(text, start, end));
        result.append("\x1b[0m");
        last_end = end;
        k = k + 1;
        assert(result@ =~= marked(bytes, positions@, k as int));
    }
    if last_end < len {
        result.append(slice_str(text, last_end, len));
    }
    result
}

/// How a search is made.
#[derive(Debug, Clone)]
pub struct SearchOptions {
    /// What is looked for.
    pub pattern: SearchPattern,
    /// The columns that are searched; all of them where none are named.
    pub columns: Option<Vec<usize>>,
    /// Whether case matters.
    pub case_sensitive: bool,
    /// How many rows are found at most.
    pub max_results: Option<usize>,
    /// Whether the rows without a find are the ones wanted.
    pub invert_match: bool,
}

impl SearchOptions {
    /// A search for `pattern` in all columns, with regard to case, without
    /// a limit, for the rows with a find.
    pub fn new(pattern: SearchPattern) -> (r: Self)
        ensures
            r == (SearchOptions {
                pattern,
                columns: None,
                case_sensitive: true,
                max_results: None,
                invert_match: false,
            }),
    {
        SearchOptions {
            pattern,
            columns: None,
            case_sensitive: true,
            max_results: None,
            invert_match: false,
        }
    }

    /// The search in these columns only.
    pub fn with_columns(self, columns: Vec<usize>) -> (r: Self)
        ensures
            r == (SearchOptions { columns: Some(columns), ..self }),
    {
        let mut options = self;
        options.columns = Some(columns);
        options
    }

    /// The search with or without regard to case.
    pub fn with_case_sensitive(self, case_sensitive: bool) -> (r: Self)
        ensures
            r == (SearchOptions { case_sensitive, ..self }),
    {
        let mut options = self;
        options.case_sensitive = case_sensitive;
        options
    }

    /// The search for `max` rows at most.
    pub fn with_max_results(self, max: usize) -> (r: Self)
        ensures
            r == (SearchOptions { max_results: Some(max), ..self }),
    {
        let mut options = self;
        options.max_results = Some(max);
        options
    }

    /// The search for the rows with a find, or for those without.
    pub fn with_invert_match(self, invert: bool) -> (r: Self)
        ensures
            r == (SearchOptions { invert_match: invert, ..self }),
    {
        let mut options = self;
        options.invert_match = invert;
        options
    }

    /// The number of columns that are looked at in a row of `width` fields.
    pub open spec fn column_count(self, width: nat) -> nat {
        match self.columns {
            Some(columns) => columns@.len(),
            None => width,
        }
    }

    /// The column that is looked at in place `i`.
    pub open spec fn column_at(self, i: int) -> usize {
        match self.columns {
            Some(columns) => columns@[i],
            None => i as usize,
        }
    }

    /// The finds in the first `upto` columns that are looked at: for each
    /// column that the row has and that holds a find, the column and its
    /// finds.
    pub open spec fn column_finds(self, record: Seq<Seq<char>>, upto: int) -> Seq<
        (usize, Seq<(usize, usize)>),
    >
        decreases upto,
    {
        if upto <= 0 {
            Seq::empty()
        } else {
            let col = self.column_at(upto - 1);
            let before = self.column_finds(record, upto - 1);
            if col < record.len() && self.pattern.finds(
                record[col as int],
                self.case_sensitive,
            ).len() > 0 {
                before.push((col, self.pattern.finds(record[col as int], self.case_sensitive)))
            } else {
                before
            }
        }
    }

    /// All finds in a row.
    pub open spec fn record_finds(self, record: Seq<Seq<char>>) -> Seq<
        (usize, Seq<(usize, usize)>),
    > {
        self.column_finds(record, self.column_count(record.len()) as int)
    }

    /// Whether the row is one of those wanted.
    pub open spec fn wants(self, record: Seq<Seq<char>>) -> bool {
        (self.record_finds(record).len() > 0) != self.invert_match
    }
}

/// The finds as values: column and byte ranges.
pub open spec fn finds_text(matches: Seq<MatchInfo>) -> Seq<(usize, Seq<(usize, usize)>)> {
    Seq::new(matches.len(), |i: int| (matches[i].column, matches[i].positions@))
}

/// What a search says of a row with these finds: the finds where the rows
/// with finds are wanted and there are some; no finds where the rows
/// without are wanted and there are none; else nothing.
pub fn verdict(found: Vec<MatchInfo>, invert_match: bool) -> (r: Option<Vec<MatchInfo>>)
    ensures
        (found@.len() > 0) == invert_match ==> r is None,
        found@.len() > 0 && !invert_match ==> r == Some(found),
        found@.len() == 0 && invert_match ==> (r matches Some(none) && none@.len() == 0),
{
    if invert_match {
        if found.len() == 0 {
            Some(Vec::new())
        } else {
            None
        }
    } else {
        if found.len() == 0 {
            None
        } else {
            Some(found)
        }
    }
}

/// The text of a field.
fn field_str<'b>(field: &'b Cow<'_, str>) -> (r: &'b str)
    ensures
        r@ == field@,
{
    match field {
        Cow::Borrowed(s) => s,
        Cow::Owned(s) => s.as_str(),
    }
}

/// The column that is looked at in place `i`.
fn column(options: &SearchOptions, i: usize) -> (r: usize)
    requires
        options.columns matches Some(columns) ==> i < columns@.len(),
    ensures
        r == options.column_at(i as int),
{
    match &options.columns {
        Some(columns) => columns[i],
        None => i,
    }
}

/// The number of columns that are looked at in a row of `width` fields.
fn columns_in(options: &SearchOptions, width: usize) -> (r: usize)
    ensures
        r == options.column_count(width as nat),
{
    match &options.columns {
        Some(columns) => columns.len(),
        None => width,
    }
}

/// All finds of a search in a row.
pub fn find_in_record(options: &SearchOptions, record: &CsvRecord) -> (r: Vec<MatchInfo>)
    ensures
        finds_text(r@) == options.record_finds(record@),
{
    let count = columns_in(options, record.fields.len());
    let mut found: Vec<MatchInfo> = Vec::new();
    let mut i: usize = 0;
    assert(finds_text(found@) =~= options.column_finds(record@, 0));
    while i < count
        invariant
            0 <= i <= count,
            count == options.column_count(record@.len()),
            record@.len() == record.fields@.len(),
            finds_text(found@) == options.column_finds(record@, i as int),
        decreases count - i,
    {
        let col = column(options, i);
        let ghost before = finds_text(found@);
        if col < record.fields.len() {
            let text = field_str(&record.fields[col]);
            assert(text@ == record@[col as int]);
            let positions = options.pattern.find_matches(text, options.case_sensitive);
            if positions.len() > 0 {
                found.push(MatchInfo { column: col, positions });
                assert(finds_text(found@) =~= before.push(
                    (col, options.pattern.finds(record@[col as int], options.case_sensitive)),
                ));
            }
        }
        i = i + 1;
    }
    found
}

/// What a search says of a row: its finds where it is one of the rows
/// wanted, nothing where it is not.
pub fn matches_record(options: &SearchOptions, record: &CsvRecord) -> (r: Option<Vec<MatchInfo>>)
    ensures
        r is Some <==> options.wants(record@),
        r matches Some(found) ==> finds_text(found@) == if options.invert_match {
            Seq::empty()
        } else {
            options.record_finds(record@)
        },
{
    let found = find_in_record(options, record);
    let r = verdict(found, options.invert_match);
    proof {
        if r is Some && options.invert_match {
            assert(finds_text(r->Some_0@) =~= Seq::empty());
        }
    }
    r
}

/// Whether a row is one of those that a search wants.
pub fn is_match(options: &SearchOptions, record: &CsvRecord) -> (r: bool)
    ensures
        r == options.wants(record@),
{
    let found = find_in_record(options, record);
    (found.len() > 0) != options.invert_match
}

/// What searches rows.
pub struct Searcher {
    options: SearchOptions,
}

impl Searcher {
    /// How the searcher searches.
    pub closed spec fn options(&self) -> SearchOptions {
        self.options
    }

    /// A searcher for this search.
    pub fn new(options: SearchOptions) -> (r: Self)
        ensures
            r.options() == options,
    {
        Searcher { options }
    }

    /// How the searcher searches.
    pub fn get_options(&self) -> (r: &SearchOptions)
        ensures
            *r == self.options(),
    {
        &self.options
    }

    /// What the search says of a row: its finds where it is one of the rows
    /// wanted, nothing where it is not.
    pub fn matches_record(&self, record: &CsvRecord) -> (r: Option<Vec<MatchInfo>>)
        ensures
            r is Some <==> self.options().wants(record@),
            r matches Some(found) ==> finds_text(found@) == if self.options().invert_match {
                Seq::empty()
            } else {
                self.options().record_finds(record@)
            },
    {
        self::matches_record(&self.options, record)
    }

    /// Whether a row is one of those wanted.
    pub fn is_match(&self, record: &CsvRecord) -> (r: bool)
        ensures
            r == self.options().wants(record@),
    {
        self::is_match(&self.options, record)
    }
}

} // verus!
