//! How rows are to be ordered: keys, directions and data types.

use crate::csv::record::CsvRecord;
use crate::csv::text::{lowercase_text, same_text, to_lowercase};
use vstd::prelude::*;

verus! {

/// The direction of an ordering.
#[derive(Debug, Clone, Copy, PartialEq, Eq, Structural)]
pub enum SortOrder {
    Ascending,
    Descending,
}

/// The direction that a lowercase word names.
pub open spec fn order_named(word: Seq<char>) -> Option<SortOrder> {
    if word == "asc"@ || word == "ascending"@ || word == "a"@ {
        Some(SortOrder::Ascending)
    } else if word == "desc"@ || word == "descending"@ || word == "d"@ {
        Some(SortOrder::Descending)
    } else {
        None
    }
}

impl SortOrder {
    /// The direction that a word in lowercase names: `asc`, `ascending` or
    /// `a`; `desc`, `descending` or `d`.
    pub fn from_lowercase(word: &str) -> (r: Option<Self>)
        ensures
            r == order_named(word@),
    {
        if same_text(word, "asc") || same_text(word, "ascending") || same_text(word, "a") {
            Some(SortOrder::Ascending)
        } else if same_text(word, "desc") || same_text(word, "descending") || same_text(
            word,
            "d",
        ) {
            Some(SortOrder::Descending)
        } else {
            None
        }
    }

    /// The direction that a word names, whatever its case.
    pub fn from_str(s: &str) -> (r: Option<Self>)
        ensures
            r == order_named(lowercase_text(s@)),
    {
        let lower = to_lowercase(s);
        Self::from_lowercase(lower.as_str())
    }

    /// The other direction.
    pub fn reverse(&self) -> (r: Self)
        ensures
            r == match *self {
                SortOrder::Ascending => SortOrder::Descending,
                SortOrder::Descending => SortOrder::Ascending,
            },
    {
        match self {
            SortOrder::Ascending => SortOrder::Descending,
            SortOrder::Descending => SortOrder::Ascending,
        }
    }
}

/// How the values of a column are compared.
#[derive(Debug, Clone, Copy, PartialEq, Eq, Structural)]
pub enum DataType {
    /// As text.
    String,
    /// As numbers.
    Number,
    /// As numbers where both values are numbers, else as text.
    Auto,
}

/// The data type that a lowercase word names.
pub open spec fn data_type_named(word: Seq<char>) -> Option<DataType> {
    if word == "string"@ || word == "str"@ || word == "s"@ || word == "text"@ {
        Some(DataType::String)
    } else if word == "number"@ || word == "num"@ || word == "n"@ || word == "numeric"@ {
        Some(DataType::Number)
    } else if word == "auto"@ || word == "a"@ {
        Some(DataType::Auto)
    } else {
        None
    }
}

impl DataType {
    /// The data type that a word in lowercase names.
    pub fn from_lowercase(word: &str) -> (r: Option<Self>)
        ensures
            r == data_type_named(word@),
    {
        if same_text(word, "string") || same_text(word, "str") || same_text(word, "s")
            || same_text(word, "text") {
            Some(DataType::String)
        } else if same_text(word, "number") || same_text(word, "num") || same_text(word, "n")
            || same_text(word, "numeric") {
            Some(DataType::Number)
        } else if same_text(word, "auto") || same_text(word, "a") {
            Some(DataType::Auto)
        } else {
            None
        }
    }

    /// The data type that a word names, whatever its case.
    pub fn from_str(s: &str) -> (r: Option<Self>)
        ensures
            r == data_type_named(lowercase_text(s@)),
    {
        let lower = to_lowercase(s);
        Self::from_lowercase(lower.as_str())
    }
}

/// One key of an ordering: a column, a direction and a data type.
#[derive(Debug, Clone, Copy, PartialEq, Eq, Structural)]
pub struct SortKey {
    pub column: usize,
    pub order: SortOrder,
    pub data_type: DataType,
}

impl SortKey {
    /// A key.
    pub fn new(column: usize, order: SortOrder, data_type: DataType) -> (r: Self)
        ensures
            r == (SortKey { column, order, data_type }),
    {
        SortKey { column, order, data_type }
    }

    /// An ascending key whose data type is found out from the values.
    pub fn ascending(column: usize) -> (r: Self)
        ensures
            r == (SortKey { column, order: SortOrder::Ascending, data_type: DataType::Auto }),
    {
        Self::new(column, SortOrder::Ascending, DataType::Auto)
    }

    /// A descending key whose data type is found out from the values.
    pub fn descending(column: usize) -> (r: Self)
        ensures
            r == (SortKey { column, order: SortOrder::Descending, data_type: DataType::Auto }),
    {
        Self::new(column, SortOrder::Descending, DataType::Auto)
    }

    /// The key with another data type.
    pub fn with_data_type(self, data_type: DataType) -> (r: Self)
        ensures
            r == (SortKey { data_type, ..self }),
    {
        SortKey { column: self.column, order: self.order, data_type }
    }
}

/// An ordering: its keys, the first one weighing most, and how empty values
/// and case are treated.
#[derive(Debug, Clone)]
pub struct SortOptions {
    pub keys: Vec<SortKey>,
    pub nulls_last: bool,
    pub case_sensitive: bool,
}

impl Default for SortOptions {
    /// No keys, empty values last, case matters.
    fn default() -> (r: Self)
        ensures
            r.keys@.len() == 0,
            r.nulls_last,
            r.case_sensitive,
    {
        SortOptions { keys: Vec::new(), nulls_last: true, case_sensitive: true }
    }
}

impl SortOptions {
    /// No keys, empty values last, case matters.
    pub fn new() -> (r: Self)
        ensures
            r.keys@.len() == 0,
            r.nulls_last,
            r.case_sensitive,
    {
        SortOptions { keys: Vec::new(), nulls_last: true, case_sensitive: true }
    }

    /// The ordering with one more key, which weighs least.
    pub fn add_key(self, key: SortKey) -> (r: Self)
        ensures
            r.keys@ == self.keys@.push(key),
            r.nulls_last == self.nulls_last,
            r.case_sensitive == self.case_sensitive,
    {
        let mut options = self;
        options.keys.push(key);
        options
    }

    /// The ordering with empty values last or first.
    pub fn with_nulls_last(self, nulls_last: bool) -> (r: Self)
        ensures
            r.keys@ == self.keys@,
            r.nulls_last == nulls_last,
            r.case_sensitive == self.case_sensitive,
    {
        let mut options = self;
        options.nulls_last = nulls_last;
        options
    }

    /// The ordering with or without regard to case.
    pub fn with_case_sensitive(self, case_sensitive: bool) -> (r: Self)
        ensures
            r.keys@ == self.keys@,
            r.nulls_last == self.nulls_last,
            r.case_sensitive == case_sensitive,
    {
        let mut options = self;
        options.case_sensitive = case_sensitive;
        options
    }
}

/// A row with the number that it had before the rows were ordered.
#[derive(Debug, Clone)]
pub struct SortedRecord {
    pub original_row: usize,
    pub record: CsvRecord<'static>,
}

/// What orders rows: an ordering, ready to be applied.
pub struct Sorter {
    options: SortOptions,
}

impl Sorter {
    /// A sorter for this ordering.
    pub fn new(options: SortOptions) -> (r: Self)
        ensures
            r.options() == options,
    {
        Sorter { options }
    }

    /// The ordering.
    pub closed spec fn options(&self) -> SortOptions {
        self.options
    }

    /// The ordering.
    pub fn get_options(&self) -> (r: &SortOptions)
        ensures
            *r == self.options(),
    {
        &self.options
    }

    /// Pairs every row with its number, in the order given.
    pub fn number_rows(records: Vec<(usize, CsvRecord<'static>)>) -> (r: Vec<SortedRecord>)
        ensures
            r@.len() == records@.len(),
            forall|i: int|
                0 <= i < r@.len() ==> (#[trigger] r@[i]).original_row == records@[i].0
                    && r@[i].record == records@[i].1,
    {
        let ghost all = records@;
        let mut out: Vec<SortedRecord> = Vec::new();
        for pair in it: records
            invariant
                it.seq() == all,
                out@.len() == it.index(),
                forall|i: int|
                    0 <= i < out@.len() ==> (#[trigger] out@[i]).original_row == all[i].0
                        && out@[i].record == all[i].1,
        {
            let (row, record) = pair;
            out.push(SortedRecord { original_row: row, record });
        }
        out
    }
}

} // verus!
