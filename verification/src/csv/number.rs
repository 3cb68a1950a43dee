//! Telling numbers from other text.
//!
//! A number is an optional sign followed by `inf`, `infinity`, `nan` or
//! digits with at most one point among them and at least one digit, and an
//! optional exponent: `e`, an optional sign, and digits. Letters count
//! whatever their case.

use crate::csv::text::chars_of;
use vstd::prelude::*;

verus! {

/// A decimal digit.
pub open spec fn is_digit(c: char) -> bool {
    '0' <= c <= '9'
}

/// A sign.
pub open spec fn is_sign(c: char) -> bool {
    c == '+' || c == '-'
}

/// The two letters are the same but for their case; `lower` is the small
/// one.
pub open spec fn is_letter(c: char, lower: char) -> bool {
    c == lower || c as u32 + 32 == lower as u32
}

/// The text spells the word, whatever the case of its letters.
pub open spec fn spells(text: Seq<char>, word: Seq<char>) -> bool {
    text.len() == word.len() && forall|i: int| 0 <= i < text.len() ==> is_letter(text[i], word[i])
}

/// Every character of `text[lo..hi)` is a digit.
pub open spec fn all_digits(text: Seq<char>, lo: int, hi: int) -> bool {
    forall|i: int| lo <= i < hi ==> is_digit(text[i])
}

/// The end of the digits that start at `from`.
pub open spec fn digits_end(text: Seq<char>, from: int) -> int
    decreases text.len() - from,
{
    if from < 0 || from >= text.len() || !is_digit(text[from]) {
        from
    } else {
        digits_end(text, from + 1)
    }
}

/// `text[from..)` is an exponent: `e`, an optional sign, and one digit or
/// more up to the end.
pub open spec fn is_exponent(text: Seq<char>, from: int) -> bool {
    let digits = if from + 1 < text.len() && is_sign(text[from + 1]) {
        from + 2
    } else {
        from + 1
    };
    &&& from < text.len()
    &&& is_letter(text[from], 'e')
    &&& digits < text.len()
    &&& digits_end(text, digits) == text.len()
}

/// `text[from..)` is digits with at most one point among them and at least
/// one digit, and an optional exponent behind them.
pub open spec fn is_decimal(text: Seq<char>, from: int) -> bool {
    let whole_end = digits_end(text, from);
    let has_point = whole_end < text.len() && text[whole_end] == '.';
    let fraction_end = if has_point {
        digits_end(text, whole_end + 1)
    } else {
        whole_end
    };
    let digits = (whole_end - from) + if has_point {
        fraction_end - whole_end - 1
    } else {
        0
    };
    &&& digits > 0
    &&& fraction_end == text.len() || is_exponent(text, fraction_end)
}

/// The text is a number.
pub open spec fn is_number(text: Seq<char>) -> bool {
    let from = if text.len() > 0 && is_sign(text[0]) {
        1int
    } else {
        0int
    };
    let rest = text.subrange(from, text.len() as int);
    spells(rest, "inf"@) || spells(rest, "infinity"@) || spells(rest, "nan"@) || is_decimal(
        text,
        from,
    )
}

/// The end of the digits that start at `from`.
fn skip_digits(text: &Vec<char>, from: usize) -> (r: usize)
    requires
        from <= text@.len(),
    ensures
        r == digits_end(text@, from as int),
        from <= r <= text@.len(),
{
    let mut i: usize = from;
    while i < text.len() && '0' <= text[i] && text[i] <= '9'
        invariant
            from <= i <= text@.len(),
            digits_end(text@, i as int) == digits_end(text@, from as int),
        decreases text@.len() - i,
    {
        i = i + 1;
    }
    i
}

/// Whether `c` is the letter `lower` in either case.
fn letter_is(c: char, lower: char) -> (r: bool)
    requires
        'a' <= lower <= 'z',
    ensures
        r == is_letter(c, lower),
{
    let code: u32 = c as u32;
    let small: u32 = lower as u32;
    c == lower || code + 32 == small
}

/// Whether `text[from..)` spells `word`, whatever the case.
fn spells_from(text: &Vec<char>, from: usize, word: &str) -> (r: bool)
    requires
        from <= text@.len(),
        forall|i: int| 0 <= i < word@.len() ==> 'a' <= #[trigger] word@[i] <= 'z',
    ensures
        r == spells(text@.subrange(from as int, text@.len() as int), word@),
{
    let letters = chars_of(word);
    let ghost rest = text@.subrange(from as int, text@.len() as int);
    let n: usize = text.len();
    if n - from != letters.len() {
        return false;
    }
    let mut i: usize = 0;
    while i < letters.len()
        invariant
            0 <= i <= letters@.len(),
            letters@ == word@,
            n == text@.len(),
            from + letters@.len() == n,
            rest == text@.subrange(from as int, text@.len() as int),
            forall|k: int| 0 <= k < word@.len() ==> 'a' <= #[trigger] word@[k] <= 'z',
            forall|k: int| 0 <= k < i ==> is_letter(rest[k], word@[k]),
        decreases letters@.len() - i,
    {
        assert('a' <= word@[i as int] <= 'z');
        if !letter_is(text[from + i], letters[i]) {
            assert(!is_letter(rest[i as int], word@[i as int]));
            return false;
        }
        i = i + 1;
    }
    true
}

/// Whether a text is a number.
pub fn is_number_text(s: &str) -> (r: bool)
    ensures
        r == is_number(s@),
{
    let text = chars_of(s);
    let n: usize = text.len();
    let from: usize = if n > 0 && (text[0] == '+' || text[0] == '-') {
        1
    } else {
        0
    };
    proof {
        reveal_strlit("inf");
        reveal_strlit("infinity");
        reveal_strlit("nan");
    }
    if spells_from(&text, from, "inf") || spells_from(&text, from, "infinity") || spells_from(
        &text,
        from,
        "nan",
    ) {
        return true;
    }
    let whole_end = skip_digits(&text, from);
    let has_point = whole_end < n && text[whole_end] == '.';
    let fraction_end: usize = if has_point {
        skip_digits(&text, whole_end + 1)
    } else {
        whole_end
    };
    let digits: usize = (whole_end - from) + if has_point {
        fraction_end - whole_end - 1
    } else {
        0
    };
    if digits == 0 {
        return false;
    }
    if fraction_end == n {
        return true;
    }
    if !letter_is(text[fraction_end], 'e') {
        return false;
    }
    let start: usize = if fraction_end + 1 < n && (text[fraction_end + 1] == '+'
        || text[fraction_end + 1] == '-') {
        fraction_end + 2
    } else {
        fraction_end + 1
    };
    if start >= n {
        return false;
    }
    skip_digits(&text, start) == n
}

/// The text is the number that is no number: `nan`, in any case, behind an
/// optional sign.
pub open spec fn is_nan(text: Seq<char>) -> bool {
    let from = if text.len() > 0 && is_sign(text[0]) {
        1int
    } else {
        0int
    };
    spells(text.subrange(from, text.len() as int), "nan"@)
}

/// Whether a text is the number that is no number.
pub fn is_nan_text(s: &str) -> (r: bool)
    ensures
        r == is_nan(s@),
{
    let text = chars_of(s);
    let n: usize = text.len();
    let from: usize = if n > 0 && (text[0] == '+' || text[0] == '-') {
        1
    } else {
        0
    };
    proof {
        reveal_strlit("nan");
    }
    spells_from(&text, from, "nan")
}

} // verus!
