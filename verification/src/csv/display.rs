//! Small helpers for showing rows: naming a column and shortening a text.

use crate::csv::number::is_digit;
use crate::csv::text::{chars_of, push_char, string_of};
use crate::error::{CsvError, Result};
use vstd::prelude::*;
use vstd::string::StringExecFns;

verus! {

/// The value of a decimal digit.
pub open spec fn digit_value(c: char) -> int {
    c as u32 - 0x30
}

/// The number that the first `upto` digits of `text` spell.
pub open spec fn decimal_value(text: Seq<char>, upto: int) -> int
    decreases upto,
{
    if upto <= 0 {
        0
    } else {
        decimal_value(text, upto - 1) * 10 + digit_value(text[upto - 1])
    }
}

/// The digits of a number: the text without a `+` at its start.
pub open spec fn number_digits(text: Seq<char>) -> Seq<char> {
    if text.len() > 0 && text[0] == '+' {
        text.subrange(1, text.len() as int)
    } else {
        text
    }
}

/// The text is a number of a column: digits only, after an optional `+`, at
/// least one of them, and not too many for a `usize`.
pub open spec fn column_number(text: Seq<char>) -> Option<usize> {
    let digits = number_digits(text);
    if digits.len() > 0 && (forall|i: int| 0 <= i < digits.len() ==> is_digit(digits[i]))
        && decimal_value(digits, digits.len() as int) <= usize::MAX {
        Some(decimal_value(digits, digits.len() as int) as usize)
    } else {
        None
    }
}

/// The two characters are the same but for the case of ASCII letters.
pub open spec fn same_letter(a: char, b: char) -> bool {
    ascii_lower(a) == ascii_lower(b)
}

/// The character with an ASCII capital letter made small.
pub open spec fn ascii_lower(c: char) -> u32 {
    if 'A' <= c <= 'Z' {
        (c as u32 + 32) as u32
    } else {
        c as u32
    }
}

/// The two texts are the same but for the case of ASCII letters.
pub open spec fn same_name(a: Seq<char>, b: Seq<char>) -> bool {
    a.len() == b.len() && forall|i: int| 0 <= i < a.len() ==> same_letter(a[i], b[i])
}

/// The first header that is `name` but for case, among the first `upto`.
pub open spec fn header_rank(headers: Seq<Seq<char>>, name: Seq<char>, upto: int) -> int
    decreases upto,
{
    if upto <= 0 {
        -1
    } else if header_rank(headers, name, upto - 1) >= 0 {
        header_rank(headers, name, upto - 1)
    } else if same_name(headers[upto - 1], name) {
        upto - 1
    } else {
        -1
    }
}

/// The number that a text spells, if it is the number of a column.
pub fn parse_number(text: &str) -> (r: Option<usize>)
    ensures
        r == column_number(text@),
{
    let chars = chars_of(text);
    let n: usize = chars.len();
    let from: usize = if n > 0 && chars[0] == '+' {
        1
    } else {
        0
    };
    let ghost digits = number_digits(text@);
    assert(digits =~= chars@.subrange(from as int, n as int));
    if from == n {
        return None;
    }
    let mut value: usize = 0;
    let mut i: usize = from;
    while i < n
        invariant
            from <= i <= n,
            n == chars@.len(),
            digits == number_digits(text@),
            digits == chars@.subrange(from as int, n as int),
            forall|k: int| 0 <= k < i - from ==> is_digit(digits[k]),
            value == decimal_value(digits, i - from),
        decreases n - i,
    {
        let c = chars[i];
        assert(digits[i - from] == c);
        if !('0' <= c && c <= '9') {
            assert(!is_digit(digits[i - from]));
            return None;
        }
        let digit: usize = (c as u32 - 0x30) as usize;
        assert(decimal_value(digits, i - from + 1) == value * 10 + digit);
        if value > (usize::MAX - digit) / 10 {
            proof {
                assert(value * 10 + digit > usize::MAX);
                lemma_decimal_grows(digits, i - from + 1, digits.len() as int);
            }
            return None;
        }
        value = value * 10 + digit;
        i = i + 1;
    }
    assert(digits.len() == n - from);
    Some(value)
}

/// More digits do not make a number smaller.
proof fn lemma_decimal_grows(text: Seq<char>, lo: int, hi: int)
    requires
        0 <= lo <= hi <= text.len(),
        forall|k: int| 0 <= k < lo ==> is_digit(text[k]),
    ensures
        decimal_value(text, lo) >= 0,
        (forall|k: int| lo <= k < hi ==> is_digit(text[k])) ==> decimal_value(text, hi)
            >= decimal_value(text, lo),
    decreases hi,
{
    if lo > 0 {
        lemma_decimal_grows(text, lo - 1, lo - 1);
    }
    if lo < hi {
        lemma_decimal_grows(text, lo, hi - 1);
    }
}

/// Whether two texts are the same but for the case of ASCII letters.
pub fn same_name_as(a: &str, b: &str) -> (r: bool)
    ensures
        r == same_name(a@, b@),
{
    let x = chars_of(a);
    let y = chars_of(b);
    if x.len() != y.len() {
        return false;
    }
    let mut i: usize = 0;
    while i < x.len()
        invariant
            0 <= i <= x@.len(),
            x@ == a@,
            y@ == b@,
            x@.len() == y@.len(),
            forall|k: int| 0 <= k < i ==> same_letter(a@[k], b@[k]),
        decreases x@.len() - i,
    {
        let p = x[i];
        let q = y[i];
        let lp: u32 = if 'A' <= p && p <= 'Z' {
            p as u32 + 32
        } else {
            p as u32
        };
        let lq: u32 = if 'A' <= q && q <= 'Z' {
            q as u32 + 32
        } else {
            q as u32
        };
        if lp != lq {
            return false;
        }
        i = i + 1;
    }
    true
}

/// The column that a text names, counted from 0: the column before the
/// number where the text is a number, which must not be 0; else the first
/// column whose header is the text but for case.
pub fn parse_column_spec(spec: &str, headers: &Vec<String>) -> (r: Result<usize>)
    ensures
        match column_number(spec@) {
            Some(number) => if number == 0 {
                r matches Err(CsvError::Format(_))
            } else {
                r == Ok::<usize, CsvError>((number - 1) as usize)
            },
            None => if header_rank(headers.deep_view(), spec@, headers@.len() as int) >= 0 {
                r matches Ok(column) && column == header_rank(
                    headers.deep_view(),
                    spec@,
                    headers@.len() as int,
                )
            } else {
                r matches Err(CsvError::Format(_))
            },
        },
{
    match parse_number(spec) {
        Some(number) => {
            if number == 0 {
                return Err(CsvError::Format(String::from_str("columns are numbered from 1")));
            }
            return Ok(number - 1);
        },
        None => {},
    }
    let ghost all = headers.deep_view();
    let mut i: usize = 0;
    while i < headers.len()
        invariant
            0 <= i <= headers@.len(),
            all == headers.deep_view(),
            column_number(spec@) is None,
            header_rank(all, spec@, i as int) < 0,
        decreases headers@.len() - i,
    {
        assert(all[i as int] == headers@[i as int]@);
        if same_name_as(headers[i].as_str(), spec) {
            proof {
                assert(header_rank(all, spec@, i + 1) == i);
                lemma_rank_stays(all, spec@, i + 1, headers@.len() as int);
            }
            return Ok(i);
        }
        i = i + 1;
    }
    Err(CsvError::Format(String::from_str("no column has this name")))
}

/// Once a header is found, later headers do not change the find.
proof fn lemma_rank_stays(headers: Seq<Seq<char>>, name: Seq<char>, lo: int, hi: int)
    requires
        0 <= lo <= hi,
        header_rank(headers, name, lo) >= 0,
    ensures
        header_rank(headers, name, hi) == header_rank(headers, name, lo),
    decreases hi - lo,
{
    if lo < hi {
        lemma_rank_stays(headers, name, lo, hi - 1);
    }
}

/// The text cut to `max_len` characters: a longer text keeps its first
/// `max_len - 2` characters, with two dots behind them.
pub open spec fn truncated(text: Seq<char>, max_len: usize) -> Seq<char> {
    if text.len() > max_len {
        text.subrange(0, max_len - 2) + seq!['.', '.']
    } else {
        text
    }
}

/// Cuts a text to `max_len` characters: see [`truncated`].
pub fn truncate_str(s: &str, max_len: usize) -> (r: String)
    requires
        max_len >= 2 || s@.len() <= max_len,
    ensures
        r@ == truncated(s@, max_len),
{
    let chars = chars_of(s);
    if chars.len() > max_len {
        let mut out = String::new();
        let mut i: usize = 0;
        while i < max_len - 2
            invariant
                2 <= max_len < chars@.len(),
                0 <= i <= max_len - 2,
                out@ == chars@.subrange(0, i as int),
            decreases max_len - 2 - i,
        {
            push_char(&mut out, chars[i]);
            i = i + 1;
            assert(out@ =~= chars@.subrange(0, i as int));
        }
        push_char(&mut out, '.');
        push_char(&mut out, '.');
        assert(out@ =~= truncated(s@, max_len));
        out
    } else {
        string_of(&chars)
    }
}

} // verus!
