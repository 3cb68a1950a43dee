//! Comparing rows for an ordering: which of two rows comes first by the
//! keys, where missing and empty values go, and how two values compare as
//! text. How two values compare as numbers is for the caller to find out
//! and hand in.

use crate::csv::number::{is_nan, is_nan_text, is_number, is_number_text};
use crate::csv::record::CsvRecord;
use crate::csv::sort::{DataType, SortKey, SortOptions, SortOrder, Sorter};
use crate::csv::text::{lowercase_text, to_lowercase};
use std::borrow::Cow;
use std::cmp::Ordering;
use vstd::prelude::*;
use vstd::string::StringSliceAdditionalSpecFns;
use vstd::utf8::encode_utf8;

verus! {

/// The other way round.
pub open spec fn reversed(order: Ordering) -> Ordering {
    match order {
        Ordering::Less => Ordering::Greater,
        Ordering::Equal => Ordering::Equal,
        Ordering::Greater => Ordering::Less,
    }
}

/// Where a missing value stands against a value that is there: behind it
/// where missing values go last, before it otherwise.
pub open spec fn missing_order(nulls_last: bool) -> Ordering {
    if nulls_last {
        Ordering::Greater
    } else {
        Ordering::Less
    }
}

/// How two byte strings compare: by the first byte in which they differ,
/// and a string before every longer one that starts with it.
pub open spec fn text_order(a: Seq<u8>, b: Seq<u8>) -> Ordering
    decreases a.len(),
{
    if a.len() == 0 {
        if b.len() == 0 {
            Ordering::Equal
        } else {
            Ordering::Less
        }
    } else if b.len() == 0 {
        Ordering::Greater
    } else if a[0] < b[0] {
        Ordering::Less
    } else if a[0] > b[0] {
        Ordering::Greater
    } else {
        text_order(a.drop_first(), b.drop_first())
    }
}

/// How two texts compare as text: by their bytes, or by the bytes of their
/// lowercase forms where case does not matter.
pub open spec fn string_order(a: Seq<char>, b: Seq<char>, case_sensitive: bool) -> Ordering {
    if case_sensitive {
        text_order(encode_utf8(a), encode_utf8(b))
    } else {
        text_order(encode_utf8(lowercase_text(a)), encode_utf8(lowercase_text(b)))
    }
}

/// A text gives no number to compare: it is no number, or it is the number
/// that is no number.
pub open spec fn lacks_number(text: Seq<char>) -> bool {
    !is_number(text) || is_nan(text)
}

/// How two values compare. As text they compare by [`string_order`]. As
/// numbers they compare as `numeric` says; a value that gives no number
/// stands where missing values stand, and two such values are equal. Where
/// the data type is left open, two numbers compare as numbers, and any other
/// two values as text.
pub open spec fn value_order(
    a: Seq<char>,
    b: Seq<char>,
    data_type: DataType,
    nulls_last: bool,
    case_sensitive: bool,
    numeric: Ordering,
) -> Ordering {
    match data_type {
        DataType::String => string_order(a, b, case_sensitive),
        DataType::Number => if lacks_number(a) && lacks_number(b) {
            Ordering::Equal
        } else if lacks_number(a) {
            missing_order(nulls_last)
        } else if lacks_number(b) {
            reversed(missing_order(nulls_last))
        } else {
            numeric
        },
        DataType::Auto => if is_number(a) && is_number(b) {
            numeric
        } else {
            string_order(a, b, case_sensitive)
        },
    }
}

/// How two fields compare for a key. A field that is missing or empty
/// stands behind, or before, every field that holds a value, whatever the
/// direction of the key; two such fields are equal. Two values compare by
/// [`value_order`], the other way round for a descending key.
pub open spec fn field_order(
    a: Option<Seq<char>>,
    b: Option<Seq<char>>,
    key: SortKey,
    nulls_last: bool,
    case_sensitive: bool,
    numeric: Ordering,
) -> Ordering {
    let a_missing = a is None || a->Some_0.len() == 0;
    let b_missing = b is None || b->Some_0.len() == 0;
    if a_missing && b_missing {
        Ordering::Equal
    } else if a_missing {
        missing_order(nulls_last)
    } else if b_missing {
        reversed(missing_order(nulls_last))
    } else {
        let values = value_order(
            a->Some_0,
            b->Some_0,
            key.data_type,
            nulls_last,
            case_sensitive,
            numeric,
        );
        match key.order {
            SortOrder::Ascending => values,
            SortOrder::Descending => reversed(values),
        }
    }
}

/// The field of a row in a column, if the row has one there.
pub open spec fn field_at(record: Seq<Seq<char>>, column: usize) -> Option<Seq<char>> {
    if column < record.len() {
        Some(record[column as int])
    } else {
        None
    }
}

/// What the caller found for key `i`; equal where nothing was handed in
/// for it.
pub open spec fn numeric_at(numeric: Seq<Ordering>, i: int) -> Ordering {
    if 0 <= i < numeric.len() {
        numeric[i]
    } else {
        Ordering::Equal
    }
}

/// How two rows compare by the first `upto` keys: by the first key for
/// which their fields are not equal.
pub open spec fn record_order(
    a: Seq<Seq<char>>,
    b: Seq<Seq<char>>,
    options: SortOptions,
    numeric: Seq<Ordering>,
    upto: int,
) -> Ordering
    decreases upto,
{
    if upto <= 0 {
        Ordering::Equal
    } else if record_order(a, b, options, numeric, upto - 1) != Ordering::Equal {
        record_order(a, b, options, numeric, upto - 1)
    } else {
        field_order(
            field_at(a, options.keys@[upto - 1].column),
            field_at(b, options.keys@[upto - 1].column),
            options.keys@[upto - 1],
            options.nulls_last,
            options.case_sensitive,
            numeric_at(numeric, upto - 1),
        )
    }
}

/// The number of keys of an ordering.
pub open spec fn key_count(options: SortOptions) -> int {
    options.keys@.len() as int
}

/// How two rows compare by all keys of an ordering.
pub open spec fn rows_order(
    a: Seq<Seq<char>>,
    b: Seq<Seq<char>>,
    options: SortOptions,
    numeric: Seq<Ordering>,
) -> Ordering {
    record_order(a, b, options, numeric, key_count(options))
}

/// The text of a value that may be missing.
pub open spec fn option_text(value: Option<&str>) -> Option<Seq<char>> {
    match value {
        Some(text) => Some(text@),
        None => None,
    }
}

/// The other way round.
pub fn reverse(order: Ordering) -> (r: Ordering)
    ensures
        r == reversed(order),
{
    match order {
        Ordering::Less => Ordering::Greater,
        Ordering::Equal => Ordering::Equal,
        Ordering::Greater => Ordering::Less,
    }
}

/// Where a missing value stands against a value that is there.
pub fn missing(nulls_last: bool) -> (r: Ordering)
    ensures
        r == missing_order(nulls_last),
{
    if nulls_last {
        Ordering::Greater
    } else {
        Ordering::Less
    }
}

/// Compares two byte strings: see [`text_order`].
pub fn compare_bytes(a: &[u8], b: &[u8]) -> (r: Ordering)
    ensures
        r == text_order(a@, b@),
{
    let n: usize = a.len();
    let m: usize = b.len();
    let mut i: usize = 0;
    let ghost mut at: int = 0;
    assert(a@.skip(0) =~= a@);
    assert(b@.skip(0) =~= b@);
    while i < n && i < m
        invariant
            n == a@.len(),
            m == b@.len(),
            at == i,
            i <= n,
            i <= m,
            text_order(a@.skip(at), b@.skip(at)) == text_order(a@, b@),
        decreases n - i,
    {
        proof {
            assert(a@.skip(at)[0] == a@[at]);
            assert(b@.skip(at)[0] == b@[at]);
            assert(a@.skip(at).drop_first() =~= a@.skip(at + 1));
            assert(b@.skip(at).drop_first() =~= b@.skip(at + 1));
        }
        if a[i] < b[i] {
            return Ordering::Less;
        }
        if a[i] > b[i] {
            return Ordering::Greater;
        }
        i = i + 1;
        proof {
            at = at + 1;
        }
    }
    if i < m {
        Ordering::Less
    } else if i < n {
        Ordering::Greater
    } else {
        Ordering::Equal
    }
}

/// Compares two texts as text: see [`string_order`].
pub fn compare_strings(a: &str, b: &str, case_sensitive: bool) -> (r: Ordering)
    ensures
        r == string_order(a@, b@, case_sensitive),
{
    if case_sensitive {
        compare_bytes(a.as_bytes(), b.as_bytes())
    } else {
        let x = to_lowercase(a);
        let y = to_lowercase(b);
        compare_bytes(x.as_str().as_bytes(), y.as_str().as_bytes())
    }
}

/// Compares two values: see [`value_order`]. `numeric` is how the two
/// compare as numbers, which matters only where both are numbers.
pub fn compare_values(
    a: &str,
    b: &str,
    data_type: DataType,
    nulls_last: bool,
    case_sensitive: bool,
    numeric: Ordering,
) -> (r: Ordering)
    ensures
        r == value_order(a@, b@, data_type, nulls_last, case_sensitive, numeric),
{
    match data_type {
        DataType::String => compare_strings(a, b, case_sensitive),
        DataType::Number => {
            let a_lacks = !is_number_text(a) || is_nan_text(a);
            let b_lacks = !is_number_text(b) || is_nan_text(b);
            if a_lacks && b_lacks {
                Ordering::Equal
            } else if a_lacks {
                missing(nulls_last)
            } else if b_lacks {
                reverse(missing(nulls_last))
            } else {
                numeric
            }
        },
        DataType::Auto => {
            if is_number_text(a) && is_number_text(b) {
                numeric
            } else {
                compare_strings(a, b, case_sensitive)
            }
        },
    }
}

/// Compares two fields for a key: see [`field_order`].
pub fn compare_fields(
    a: Option<&str>,
    b: Option<&str>,
    key: &SortKey,
    nulls_last: bool,
    case_sensitive: bool,
    numeric: Ordering,
) -> (r: Ordering)
    ensures
        r == field_order(
            option_text(a),
            option_text(b),
            *key,
            nulls_last,
            case_sensitive,
            numeric,
        ),
{
    let a_value: Option<&str> = match a {
        Some(text) => if has_text(text) {
            Some(text)
        } else {
            None
        },
        None => None,
    };
    let b_value: Option<&str> = match b {
        Some(text) => if has_text(text) {
            Some(text)
        } else {
            None
        },
        None => None,
    };
    match (a_value, b_value) {
        (None, None) => Ordering::Equal,
        (None, Some(_)) => missing(nulls_last),
        (Some(_), None) => reverse(missing(nulls_last)),
        (Some(x), Some(y)) => {
            let values = compare_values(x, y, key.data_type, nulls_last, case_sensitive, numeric);
            match key.order {
                SortOrder::Ascending => values,
                SortOrder::Descending => reverse(values),
            }
        },
    }
}

/// Whether a text is not empty.
fn has_text(text: &str) -> (r: bool)
    ensures
        r == (text@.len() > 0),
{
    !text.is_empty()
}

/// The field of a row in a column, if the row has one there.
pub fn field_of<'r>(record: &'r CsvRecord, column: usize) -> (r: Option<&'r str>)
    ensures
        option_text(r) == field_at(record@, column),
{
    if column < record.fields.len() {
        let text: &'r str = match &record.fields[column] {
            Cow::Borrowed(s) => s,
            Cow::Owned(s) => s.as_str(),
        };
        assert(text@ == record@[column as int]);
        Some(text)
    } else {
        None
    }
}

/// Compares two rows by the keys of an ordering: see [`record_order`].
/// `numeric` holds for each key how the two fields of its column compare as
/// numbers.
pub fn compare_records(
    a: &CsvRecord,
    b: &CsvRecord,
    options: &SortOptions,
    numeric: &Vec<Ordering>,
) -> (r: Ordering)
    ensures
        r == rows_order(a@, b@, *options, numeric@),
{
    let count: usize = options.keys.len();
    let mut i: usize = 0;
    let ghost mut at: int = 0;
    let ghost total: int = key_count(*options);
    while i < count
        invariant
            count == options.keys@.len(),
            total == key_count(*options),
            total == count,
            at == i,
            i <= count,
            record_order(a@, b@, *options, numeric@, at) == Ordering::Equal,
        decreases count - i,
    {
        let key = &options.keys[i];
        let found: Ordering = if i < numeric.len() {
            numeric[i]
        } else {
            Ordering::Equal
        };
        let order = compare_fields(
            field_of(a, key.column),
            field_of(b, key.column),
            key,
            options.nulls_last,
            options.case_sensitive,
            found,
        );
        proof {
            lemma_order_settled(a@, b@, *options, numeric@, at + 1, total);
        }
        match order {
            Ordering::Equal => {},
            Ordering::Less => {
                return Ordering::Less;
            },
            Ordering::Greater => {
                return Ordering::Greater;
            },
        }
        i = i + 1;
        proof {
            at = at + 1;
        }
    }
    Ordering::Equal
}

/// Once a key tells two rows apart, later keys change nothing.
proof fn lemma_order_settled(
    a: Seq<Seq<char>>,
    b: Seq<Seq<char>>,
    options: SortOptions,
    numeric: Seq<Ordering>,
    lo: int,
    hi: int,
)
    requires
        0 <= lo <= hi,
    ensures
        record_order(a, b, options, numeric, lo) != Ordering::Equal ==> record_order(
            a,
            b,
            options,
            numeric,
            hi,
        ) == record_order(a, b, options, numeric, lo),
    decreases hi - lo,
{
    if lo < hi {
        lemma_order_settled(a, b, options, numeric, lo, hi - 1);
    }
}

impl Sorter {
    /// Compares two rows as the sorter orders them: see [`record_order`].
    pub fn compare_records(&self, a: &CsvRecord, b: &CsvRecord, numeric: &Vec<Ordering>) -> (r:
        Ordering)
        ensures
            r == rows_order(a@, b@, self.options(), numeric@),
    {
        self::compare_records(a, b, self.get_options(), numeric)
    }

    /// Compares two fields for a key as the sorter orders them: see
    /// [`field_order`].
    pub fn compare_fields(
        &self,
        a: Option<&str>,
        b: Option<&str>,
        key: &SortKey,
        numeric: Ordering,
    ) -> (r: Ordering)
        ensures
            r == field_order(
                option_text(a),
                option_text(b),
                *key,
                self.options().nulls_last,
                self.options().case_sensitive,
                numeric,
            ),
    {
        let options = self.get_options();
        self::compare_fields(a, b, key, options.nulls_last, options.case_sensitive, numeric)
    }

    /// Compares two values for a key as the sorter orders them: see
    /// [`value_order`].
    pub fn compare_values(&self, a: &str, b: &str, key: &SortKey, numeric: Ordering) -> (r:
        Ordering)
        ensures
            r == value_order(
                a@,
                b@,
                key.data_type,
                self.options().nulls_last,
                self.options().case_sensitive,
                numeric,
            ),
    {
        let options = self.get_options();
        self::compare_values(
            a,
            b,
            key.data_type,
            options.nulls_last,
            options.case_sensitive,
            numeric,
        )
    }
}

} // verus!
