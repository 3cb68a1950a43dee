//! The record parser: one logical line of bytes becomes its fields.
//!
//! A field boundary is a delimiter outside quotes; quotes toggle on every
//! `"`. A field wrapped in quotes loses them, and `""` inside stands for one
//! `"`. Fields are decoded as UTF-8, with replacement characters where the
//! bytes are not well formed. A field without any quote that decodes cleanly
//! is handed out as a view of the input.

use crate::csv::scan::{count_byte, find_byte, free_of};
use std::borrow::Cow;
use vstd::prelude::*;
use vstd::utf8::{decode_utf8, valid_utf8};

verus! {

/// The quoting character.
pub const QUOTE: u8 = 0x22;

/// The byte that may precede the line feed at the end of a record.
pub const CR: u8 = 0x0D;

/// The line without the carriage return at its end, if it has one.
pub open spec fn strip_cr(line: Seq<u8>) -> Seq<u8> {
    if line.len() > 0 && line[line.len() - 1] == CR {
        line.subrange(0, line.len() - 1)
    } else {
        line
    }
}

/// Position `i` lies inside quotes: an odd number of `"` precedes it.
pub open spec fn in_quotes(line: Seq<u8>, i: int) -> bool {
    count_byte(line, QUOTE, 0, i) % 2 == 1
}

/// Position `i` holds a delimiter that separates two fields.
pub open spec fn is_boundary(line: Seq<u8>, delimiter: u8, i: int) -> bool {
    0 <= i < line.len() && line[i] == delimiter && delimiter != QUOTE && !in_quotes(line, i)
}

/// The last field boundary before `hi`, or -1 where there is none.
pub open spec fn last_boundary(line: Seq<u8>, delimiter: u8, hi: int) -> int
    decreases hi,
{
    if hi <= 0 {
        -1
    } else if is_boundary(line, delimiter, hi - 1) {
        hi - 1
    } else {
        last_boundary(line, delimiter, hi - 1)
    }
}

/// The raw fields of `line[0..hi)`: the pieces between its field boundaries.
/// There is always at least one, and a piece may be empty.
pub open spec fn raw_fields(line: Seq<u8>, delimiter: u8, hi: int) -> Seq<Seq<u8>>
    decreases hi,
{
    let b = last_boundary(line, delimiter, hi);
    if hi <= 0 || b < 0 {
        seq![line.subrange(0, if hi < 0 { 0 } else { hi })]
    } else if b < hi {
        raw_fields(line, delimiter, b).push(line.subrange(b + 1, hi))
    } else {
        Seq::empty()
    }
}

/// The field without its outer quotes, if it starts and ends with one.
pub open spec fn strip_quotes(field: Seq<u8>) -> Seq<u8> {
    if field.len() >= 2 && field[0] == QUOTE && field[field.len() - 1] == QUOTE {
        field.subrange(1, field.len() - 1)
    } else {
        field
    }
}

/// The bytes with every `""` replaced by a single `"`, from left to right.
pub open spec fn unescape(bytes: Seq<u8>) -> Seq<u8>
    decreases bytes.len(),
{
    if bytes.len() == 0 {
        Seq::empty()
    } else if bytes.len() >= 2 && bytes[0] == QUOTE && bytes[1] == QUOTE {
        seq![QUOTE] + unescape(bytes.subrange(2, bytes.len() as int))
    } else {
        seq![bytes[0]] + unescape(bytes.subrange(1, bytes.len() as int))
    }
}

/// The bytes that a raw field stands for.
pub open spec fn field_bytes(raw: Seq<u8>) -> Seq<u8> {
    unescape(strip_quotes(raw))
}

/// What `String::from_utf8_lossy` makes of `bytes`: their text, with the
/// replacement character in place of each ill-formed part.
pub uninterp spec fn lossy_text(bytes: Seq<u8>) -> Seq<char>;

/// The text of decoded bytes: their UTF-8 decoding where they are well
/// formed, the lossy conversion otherwise.
pub open spec fn text_of(bytes: Seq<u8>) -> Seq<char> {
    if valid_utf8(bytes) {
        decode_utf8(bytes)
    } else {
        lossy_text(bytes)
    }
}

/// The text of a raw field.
pub open spec fn field_text(raw: Seq<u8>) -> Seq<char> {
    text_of(field_bytes(raw))
}

/// The texts of the fields of a line.
pub open spec fn parse_line_spec(line: Seq<u8>, delimiter: u8) -> Seq<Seq<char>> {
    let body = strip_cr(line);
    let raw = raw_fields(body, delimiter, body.len() as int);
    Seq::new(raw.len(), |i: int| field_text(raw[i]))
}

/// A raw field can be handed out as a view of the input: it holds no quote
/// once the outer quotes are off, and it is well-formed UTF-8.
pub open spec fn is_plain(raw: Seq<u8>) -> bool {
    let inner = strip_quotes(raw);
    free_of(inner, QUOTE, 0, inner.len() as int) && valid_utf8(inner)
}

/// The texts of a sequence of fields.
pub open spec fn texts<'a>(fields: Seq<Cow<'a, str>>) -> Seq<Seq<char>> {
    Seq::new(fields.len(), |i: int| fields[i]@)
}

/// `core::str::from_utf8` accepts exactly the byte strings that are
/// well-formed UTF-8, and then hands back the same bytes as a string slice.
#[verifier::external_body]
pub(crate) fn utf8_str<'a>(bytes: &'a [u8]) -> (r: Option<&'a str>)
    ensures
        r is Some <==> valid_utf8(bytes@),
        r matches Some(s) ==> s@ == decode_utf8(bytes@),
{
    core::str::from_utf8(bytes).ok()
}

/// `String::from_utf8` accepts exactly the byte strings that are well-formed
/// UTF-8 and then owns them as a string; otherwise the error gives the bytes
/// back unchanged.
#[verifier::external_body]
fn string_from_utf8(bytes: Vec<u8>) -> (r: std::result::Result<String, Vec<u8>>)
    ensures
        match r {
            Ok(s) => valid_utf8(bytes@) && s@ == decode_utf8(bytes@),
            Err(b) => !valid_utf8(bytes@) && b@ == bytes@,
        },
{
    String::from_utf8(bytes).map_err(|e| e.into_bytes())
}

/// `String::from_utf8_lossy`, owned: the lossy conversion of `bytes`.
#[verifier::external_body]
fn lossy_string(bytes: &[u8]) -> (r: String)
    ensures
        r@ == lossy_text(bytes@),
{
    String::from_utf8_lossy(bytes).into_owned()
}

/// One record: its fields in order, each borrowing the input where it can.
#[derive(Debug, Clone)]
pub struct CsvRecord<'a> {
    pub fields: Vec<Cow<'a, str>>,
}

impl<'a> View for CsvRecord<'a> {
    type V = Seq<Seq<char>>;

    open spec fn view(&self) -> Seq<Seq<char>> {
        texts(self.fields@)
    }
}

/// Without a quote there is nothing to unescape.
pub proof fn lemma_unescape_plain(bytes: Seq<u8>)
    requires
        free_of(bytes, QUOTE, 0, bytes.len() as int),
    ensures
        unescape(bytes) == bytes,
    decreases bytes.len(),
{
    if bytes.len() > 0 {
        let rest = bytes.subrange(1, bytes.len() as int);
        assert(free_of(rest, QUOTE, 0, rest.len() as int)) by {
            assert(forall|j: int| 0 <= j < rest.len() ==> rest[j] == bytes[j + 1]);
        }
        lemma_unescape_plain(rest);
        assert(seq![bytes[0]] + rest =~= bytes);
    }
}

/// Decodes one raw field.
fn parse_field<'a>(field: &'a [u8]) -> (r: Cow<'a, str>)
    ensures
        r@ == field_text(field@),
        is_plain(field@) ==> r is Borrowed,
{
    let n: usize = field.len();
    let inner: &'a [u8] = if n >= 2 && field[0] == QUOTE && field[n - 1] == QUOTE {
        vstd::slice::slice_subrange(field, 1, n - 1)
    } else {
        field
    };
    assert(inner@ == strip_quotes(field@));
    let m: usize = inner.len();
    match find_byte(inner, QUOTE, 0) {
        None => {
            proof {
                lemma_unescape_plain(inner@);
            }
            match utf8_str(inner) {
                Some(s) => Cow::Borrowed(s),
                None => Cow::Owned(lossy_string(inner)),
            }
        },
        Some(_first) => {
            let mut out: Vec<u8> = Vec::new();
            let mut i: usize = 0;
            assert(inner@.subrange(0, m as int) =~= inner@);
            assert(out@ + unescape(inner@) =~= unescape(inner@));
            while i < m
                invariant
                    m == inner@.len(),
                    0 <= i <= m,
                    out@ + unescape(inner@.subrange(i as int, m as int)) == unescape(inner@),
                decreases m - i,
            {
                let ghost rest = inner@.subrange(i as int, m as int);
                let ghost before = out@;
                if i < m - 1 && inner[i] == QUOTE && inner[i + 1] == QUOTE {
                    out.push(QUOTE);
                    i = i + 2;
                    proof {
                        let tail = inner@.subrange(i as int, m as int);
                        assert(rest.subrange(2, rest.len() as int) =~= tail);
                        assert(unescape(rest) == seq![QUOTE] + unescape(tail));
                        assert(out@ + unescape(tail) =~= before + unescape(rest));
                    }
                } else {
                    out.push(inner[i]);
                    i = i + 1;
                    proof {
                        let tail = inner@.subrange(i as int, m as int);
                        assert(rest.subrange(1, rest.len() as int) =~= tail);
                        assert(unescape(rest) == seq![rest[0]] + unescape(tail));
                        assert(out@ + unescape(tail) =~= before + unescape(rest));
                    }
                }
            }
            assert(inner@.subrange(m as int, m as int) =~= Seq::<u8>::empty());
            assert(out@ =~= unescape(inner@));
            match string_from_utf8(out) {
                Ok(s) => Cow::Owned(s),
                Err(bytes) => Cow::Owned(lossy_string(bytes.as_slice())),
            }
        },
    }
}

/// Where no boundary lies between two positions, the last boundary before
/// the one is the last before the other.
pub proof fn lemma_last_boundary(line: Seq<u8>, delimiter: u8, lo: int, hi: int)
    requires
        0 <= lo <= hi,
        forall|j: int| lo <= j < hi ==> !is_boundary(line, delimiter, j),
    ensures
        last_boundary(line, delimiter, hi) == last_boundary(line, delimiter, lo),
    decreases hi - lo,
{
    if lo < hi {
        lemma_last_boundary(line, delimiter, lo, hi - 1);
    }
}

impl<'a> CsvRecord<'a> {
    /// Parses one logical line, given without its line feed. A carriage
    /// return at its end is dropped first. Every byte sequence is a record.
    #[verifier::rlimit(40)]
    pub fn parse_line(line: &'a [u8], delimiter: u8) -> (r: Self)
        ensures
            r@ == parse_line_spec(line@, delimiter),
            r.fields@.len() == raw_fields(
                strip_cr(line@),
                delimiter,
                strip_cr(line@).len() as int,
            ).len(),
            forall|i: int|
                0 <= i < r.fields@.len() && is_plain(
                    #[trigger] raw_fields(
                        strip_cr(line@),
                        delimiter,
                        strip_cr(line@).len() as int,
                    )[i],
                ) ==> r.fields@[i] is Borrowed,
    {
        let body: &'a [u8] = if line.len() > 0 && line[line.len() - 1] == CR {
            vstd::slice::slice_subrange(line, 0, line.len() - 1)
        } else {
            line
        };
        assert(body@ == strip_cr(line@));
        let n: usize = body.len();
        let mut fields: Vec<Cow<'a, str>> = Vec::new();
        let mut start: usize = 0;
        let mut quoted = false;
        let mut i: usize = 0;
        while i < n
            invariant
                n == body@.len(),
                0 <= start <= i <= n,
                quoted == in_quotes(body@, i as int),
                forall|j: int| start <= j < i ==> !is_boundary(body@, delimiter, j),
                start == 0 ==> fields@.len() == 0,
                start > 0 ==> is_boundary(body@, delimiter, start - 1),
                start > 0 ==> fields@.len() == raw_fields(body@, delimiter, start - 1).len(),
                start > 0 ==> forall|k: int|
                    #![trigger fields@[k]]
                    0 <= k < fields@.len() ==> {
                        let raw = raw_fields(body@, delimiter, start - 1)[k];
                        &&& fields@[k]@ == field_text(raw)
                        &&& (is_plain(raw) ==> fields@[k] is Borrowed)
                    },
            decreases n - i,
        {
            let byte = body[i];
            if byte == QUOTE {
                quoted = !quoted;
            } else if byte == delimiter && !quoted {
                proof {
                    lemma_last_boundary(body@, delimiter, start as int, i as int);
                    if start > 0 {
                        assert(last_boundary(body@, delimiter, start as int) == start - 1);
                    }
                }
                let raw = vstd::slice::slice_subrange(body, start, i);
                fields.push(parse_field(raw));
                start = i + 1;
            }
            i = i + 1;
        }
        proof {
            lemma_last_boundary(body@, delimiter, start as int, n as int);
            if start > 0 {
                assert(last_boundary(body@, delimiter, start as int) == start - 1);
            }
        }
        let raw = vstd::slice::slice_subrange(body, start, n);
        fields.push(parse_field(raw));
        let r = CsvRecord { fields };
        assert(r@ =~= parse_line_spec(line@, delimiter));
        r
    }

    /// The texts of the fields, each as an owned string.
    pub fn to_strings(&self) -> (r: Vec<String>)
        ensures
            r.deep_view() == self@,
    {
        let mut out: Vec<String> = Vec::new();
        let mut i: usize = 0;
        while i < self.fields.len()
            invariant
                0 <= i <= self.fields@.len(),
                out@.len() == i,
                forall|k: int| 0 <= k < i ==> (#[trigger] out@[k])@ == self.fields@[k]@,
            decreases self.fields@.len() - i,
        {
            let owned: String = match &self.fields[i] {
                Cow::Borrowed(s) => {
                    let text: &str = s;
                    text.to_owned()
                },
                Cow::Owned(s) => s.clone(),
            };
            out.push(owned);
            i = i + 1;
        }
        assert(out.deep_view() =~= self@);
        out
    }

    /// The record whose fields are these strings.
    pub fn from_strings(fields: Vec<String>) -> (r: CsvRecord<'static>)
        ensures
            r@ == fields.deep_view(),
    {
        let mut out: Vec<Cow<'static, str>> = Vec::new();
        let mut i: usize = 0;
        while i < fields.len()
            invariant
                0 <= i <= fields@.len(),
                out@.len() == i,
                forall|k: int| 0 <= k < i ==> (#[trigger] out@[k])@ == fields@[k]@,
            decreases fields@.len() - i,
        {
            out.push(Cow::Owned(fields[i].clone()));
            i = i + 1;
        }
        let r = CsvRecord { fields: out };
        assert(r@ =~= fields.deep_view());
        r
    }

    /// A copy that owns all its text: every field of it is an owned string
    /// with the text of the field that it stands for.
    pub fn to_owned(&self) -> (r: CsvRecord<'static>)
        ensures
            r@ == self@,
            r.fields@.len() == self.fields@.len(),
            forall|i: int| 0 <= i < r.fields@.len() ==> #[trigger] r.fields@[i] is Owned,
    {
        let mut fields: Vec<Cow<'static, str>> = Vec::new();
        let mut i: usize = 0;
        while i < self.fields.len()
            invariant
                0 <= i <= self.fields@.len(),
                fields@.len() == i,
                forall|k: int| 0 <= k < i ==> (#[trigger] fields@[k])@ == self.fields@[k]@,
                forall|k: int| 0 <= k < i ==> #[trigger] fields@[k] is Owned,
            decreases self.fields@.len() - i,
        {
            let owned: String = match &self.fields[i] {
                Cow::Borrowed(s) => {
                    let text: &str = s;
                    text.to_owned()
                },
                Cow::Owned(s) => s.clone(),
            };
            fields.push(Cow::Owned(owned));
            i = i + 1;
        }
        let r = CsvRecord { fields };
        assert(r@ =~= self@);
        r
    }
}

} // verus!
