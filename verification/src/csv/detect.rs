//! Guessing how a source is laid out: which delimiter it uses, and whether
//! its first line is a header line.

use crate::csv::lines::{skip_lines, skip_rows};
use crate::csv::record::utf8_str;
use crate::csv::scan::{count_byte, find_byte_in, lemma_count_free, lemma_count_split};
use crate::csv::text::chars_of;
use crate::error::{CsvError, Result};
use vstd::prelude::*;
use vstd::string::StringExecFns;
use vstd::utf8::{decode_utf8, valid_utf8};

verus! {

/// How many lines are looked at to guess the delimiter.
pub const SAMPLE_LINES: usize = 11;

/// The end of the lines that are looked at.
pub open spec fn sample_end(data: Seq<u8>) -> int {
    skip_lines(data, 0, SAMPLE_LINES as nat)
}

/// The delimiter that the counts of the four candidates speak for: the one
/// that occurs most often, and among equals the comma before the semicolon
/// before the tab before the bar; the comma where none occurs.
pub open spec fn favoured(commas: nat, semicolons: nat, tabs: nat, bars: nat) -> u8 {
    if commas > 0 && commas >= semicolons && commas >= tabs && commas >= bars {
        0x2C
    } else if semicolons > 0 && semicolons >= commas && semicolons >= tabs && semicolons >= bars {
        0x3B
    } else if tabs > 0 && tabs >= commas && tabs >= semicolons && tabs >= bars {
        0x09
    } else if bars > 0 && bars >= commas && bars >= semicolons && bars >= tabs {
        0x7C
    } else {
        0x2C
    }
}

/// Counts a byte in `data[lo..hi)`.
pub fn count_in(data: &[u8], needle: u8, lo: usize, hi: usize) -> (r: usize)
    requires
        lo <= hi <= data@.len(),
    ensures
        r == count_byte(data@, needle, lo as int, hi as int),
        r <= hi - lo,
{
    let mut count: usize = 0;
    let mut pos: usize = lo;
    while pos < hi
        invariant
            lo <= pos <= hi <= data@.len(),
            count == count_byte(data@, needle, lo as int, pos as int),
            count <= pos - lo,
        decreases hi - pos,
    {
        match find_byte_in(data, needle, pos, hi) {
            Some(p) => {
                proof {
                    lemma_count_split(data@, needle, lo as int, pos as int, p as int);
                    lemma_count_free(data@, needle, pos as int, p as int);
                }
                count = count + 1;
                pos = p + 1;
            },
            None => {
                proof {
                    lemma_count_split(data@, needle, lo as int, pos as int, hi as int);
                    lemma_count_free(data@, needle, pos as int, hi as int);
                }
                pos = hi;
            },
        }
    }
    count
}

/// Guesses the delimiter of a source from its first lines: see
/// [`favoured`].
pub fn detect_delimiter(data: &[u8]) -> (r: u8)
    ensures
        r == favoured(
            count_byte(data@, 0x2C, 0, sample_end(data@)),
            count_byte(data@, 0x3B, 0, sample_end(data@)),
            count_byte(data@, 0x09, 0, sample_end(data@)),
            count_byte(data@, 0x7C, 0, sample_end(data@)),
        ),
{
    let end = skip_rows(data, 0, SAMPLE_LINES);
    let commas = count_in(data, 0x2C, 0, end);
    let semicolons = count_in(data, 0x3B, 0, end);
    let tabs = count_in(data, 0x09, 0, end);
    let bars = count_in(data, 0x7C, 0, end);
    if commas > 0 && commas >= semicolons && commas >= tabs && commas >= bars {
        0x2C
    } else if semicolons > 0 && semicolons >= commas && semicolons >= tabs && semicolons >= bars {
        0x3B
    } else if tabs > 0 && tabs >= commas && tabs >= semicolons && tabs >= bars {
        0x09
    } else if bars > 0 && bars >= commas && bars >= semicolons && bars >= tabs {
        0x7C
    } else {
        0x2C
    }
}

/// What `char::is_alphabetic` says of a character: whether Unicode counts
/// it as alphabetic.
pub uninterp spec fn is_alphabetic(c: char) -> bool;

/// What `char::is_numeric` says of a character: whether Unicode counts it
/// as numeric.
pub uninterp spec fn is_numeric(c: char) -> bool;

/// `char::is_alphabetic`.
#[verifier::external_body]
fn alphabetic(c: char) -> (r: bool)
    ensures
        r == is_alphabetic(c),
{
    c.is_alphabetic()
}

/// `char::is_numeric`.
#[verifier::external_body]
fn numeric(c: char) -> (r: bool)
    ensures
        r == is_numeric(c),
{
    c.is_numeric()
}

/// Whether a text holds an alphabetic character.
pub fn has_letters(text: &str) -> (r: bool)
    ensures
        r == exists|i: int| 0 <= i < text@.len() && is_alphabetic(text@[i]),
{
    let chars = chars_of(text);
    let mut i: usize = 0;
    while i < chars.len()
        invariant
            0 <= i <= chars@.len(),
            chars@ == text@,
            forall|k: int| 0 <= k < i ==> !is_alphabetic(text@[k]),
        decreases chars@.len() - i,
    {
        if alphabetic(chars[i]) {
            return true;
        }
        i = i + 1;
    }
    false
}

/// Whether a text holds a numeric character.
pub fn has_numbers(text: &str) -> (r: bool)
    ensures
        r == exists|i: int| 0 <= i < text@.len() && is_numeric(text@[i]),
{
    let chars = chars_of(text);
    let mut i: usize = 0;
    while i < chars.len()
        invariant
            0 <= i <= chars@.len(),
            chars@ == text@,
            forall|k: int| 0 <= k < i ==> !is_numeric(text@[k]),
        decreases chars@.len() - i,
    {
        if numeric(chars[i]) {
            return true;
        }
        i = i + 1;
    }
    false
}

/// The first line of the source, with its line feed.
pub open spec fn line_one(data: Seq<u8>) -> Seq<u8> {
    data.subrange(0, skip_lines(data, 0, 1))
}

/// The second line of the source, with its line feed.
pub open spec fn line_two(data: Seq<u8>) -> Seq<u8> {
    data.subrange(skip_lines(data, 0, 1), skip_lines(data, skip_lines(data, 0, 1), 1))
}

/// Guesses whether the first line of a source is a header line: it is
/// taken for one where it holds a letter and the second line holds a number.
/// Lines that are not well-formed UTF-8 cannot be judged.
pub fn detect_has_headers(data: &[u8]) -> (r: Result<bool>)
    ensures
        !valid_utf8(line_one(data@)) || !valid_utf8(line_two(data@)) ==> r matches Err(
            CsvError::Io(_),
        ),
        valid_utf8(line_one(data@)) && valid_utf8(line_two(data@)) ==> (r matches Ok(guess)
            && guess == ((exists|i: int|
            0 <= i < decode_utf8(line_one(data@)).len() && is_alphabetic(
                decode_utf8(line_one(data@))[i],
            )) && (exists|i: int|
            0 <= i < decode_utf8(line_two(data@)).len() && is_numeric(
                decode_utf8(line_two(data@))[i],
            )))),
{
    let first_end = skip_rows(data, 0, 1);
    let second_end = skip_rows(data, first_end, 1);
    let first = match utf8_str(vstd::slice::slice_subrange(data, 0, first_end)) {
        Some(text) => text,
        None => {
            return Err(CsvError::Io(String::from_str("the first line is not valid UTF-8")));
        },
    };
    let second = match utf8_str(vstd::slice::slice_subrange(data, first_end, second_end)) {
        Some(text) => text,
        None => {
            return Err(CsvError::Io(String::from_str("the second line is not valid UTF-8")));
        },
    };
    let letters = has_letters(first);
    let numbers = has_numbers(second);
    Ok(letters && numbers)
}

} // verus!
