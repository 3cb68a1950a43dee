//! The formats that rows can be exported in, and how a field is written in
//! delimited text.

use crate::csv::text::{
    chars_of, has_char, lowercase_text, same_text, string_of, to_lowercase,
};
use vstd::prelude::*;

verus! {

/// An export format.
#[derive(Debug, Clone, Copy, PartialEq, Eq, Structural)]
pub enum ExportFormat {
    /// One JSON array of objects.
    Json,
    /// One JSON object on each line.
    JsonLines,
    /// Delimited text.
    Csv,
    /// Text delimited by tabs.
    Tsv,
}

/// What a count of exported rows and columns comes to.
#[derive(Debug, Clone, Copy)]
pub struct ExportStats {
    pub rows_exported: usize,
    pub cols_exported: usize,
    pub file_size: u64,
}

/// The position of the last `c` in `text[0..hi)`, or -1.
pub open spec fn last_char(text: Seq<char>, c: char, hi: int) -> int
    decreases hi,
{
    if hi <= 0 {
        -1
    } else if text[hi - 1] == c {
        hi - 1
    } else {
        last_char(text, c, hi - 1)
    }
}

/// The file name of a path: what follows the last `/`.
pub open spec fn file_name_of(path: Seq<char>) -> Seq<char> {
    path.subrange(last_char(path, '/', path.len() as int) + 1, path.len() as int)
}

/// The extension of a path: what follows the last `.` of the file name,
/// unless that `.` is the first character of the name or there is none.
pub open spec fn extension_of(path: Seq<char>) -> Option<Seq<char>> {
    let name = file_name_of(path);
    let dot = last_char(name, '.', name.len() as int);
    if dot <= 0 {
        None
    } else {
        Some(name.subrange(dot + 1, name.len() as int))
    }
}

/// The format that a lowercase extension names.
pub open spec fn format_named(extension: Seq<char>) -> Option<ExportFormat> {
    if extension == "json"@ {
        Some(ExportFormat::Json)
    } else if extension == "jsonl"@ || extension == "ndjson"@ {
        Some(ExportFormat::JsonLines)
    } else if extension == "csv"@ {
        Some(ExportFormat::Csv)
    } else if extension == "tsv"@ {
        Some(ExportFormat::Tsv)
    } else {
        None
    }
}

/// The position of the last `c` before `hi`, or `None`.
fn find_last_char(chars: &Vec<char>, c: char, lo: usize, hi: usize) -> (r: Option<usize>)
    requires
        lo <= hi <= chars@.len(),
    ensures
        match r {
            Some(p) => lo <= p < hi && chars@[p as int] == c && forall|j: int|
                p < j < hi ==> chars@[j] != c,
            None => forall|j: int| lo <= j < hi ==> chars@[j] != c,
        },
{
    let mut i: usize = hi;
    while i > lo
        invariant
            lo <= i <= hi <= chars@.len(),
            forall|j: int| i <= j < hi ==> chars@[j] != c,
        decreases i,
    {
        i = i - 1;
        if chars[i] == c {
            return Some(i);
        }
    }
    None
}

/// The last `c` before `hi` is the one behind which none follows.
proof fn lemma_last_char(text: Seq<char>, c: char, hi: int, p: int)
    requires
        0 <= hi <= text.len(),
        p == -1 || (0 <= p < hi && text[p] == c),
        forall|j: int| p < j < hi && 0 <= j ==> text[j] != c,
    ensures
        last_char(text, c, hi) == p,
    decreases hi,
{
    if hi > 0 && hi - 1 != p {
        lemma_last_char(text, c, hi - 1, p);
    }
}

/// The extension of a path, if it has one.
pub fn path_extension(path: &str) -> (r: Option<String>)
    ensures
        match r {
            Some(e) => extension_of(path@) == Some(e@),
            None => extension_of(path@) is None,
        },
{
    let chars = chars_of(path);
    let n: usize = chars.len();
    let start: usize = match find_last_char(&chars, '/', 0, n) {
        Some(p) => p + 1,
        None => 0,
    };
    proof {
        lemma_last_char(chars@, '/', n as int, start - 1);
    }
    let ghost name = file_name_of(path@);
    assert(name == chars@.subrange(start as int, n as int));
    assert(forall|j: int| 0 <= j < name.len() ==> name[j] == chars@[start + j]);
    match find_last_char(&chars, '.', start, n) {
        Some(dot) => {
            proof {
                lemma_last_char(name, '.', name.len() as int, dot - start);
            }
            if dot == start {
                None
            } else {
                let mut ext: Vec<char> = Vec::new();
                let mut i: usize = dot + 1;
                while i < n
                    invariant
                        dot < i <= n,
                        n == chars@.len(),
                        ext@ == chars@.subrange(dot + 1, i as int),
                    decreases n - i,
                {
                    ext.push(chars[i]);
                    i = i + 1;
                    assert(ext@ =~= chars@.subrange(dot + 1, i as int));
                }
                assert(ext@ =~= name.subrange(dot - start + 1, name.len() as int));
                Some(string_of(&ext))
            }
        },
        None => {
            proof {
                lemma_last_char(name, '.', name.len() as int, -1);
            }
            None
        },
    }
}

impl ExportFormat {
    /// The format that an extension in lowercase names.
    pub fn from_lowercase(extension: &str) -> (r: Option<Self>)
        ensures
            r == format_named(extension@),
    {
        if same_text(extension, "json") {
            Some(ExportFormat::Json)
        } else if same_text(extension, "jsonl") || same_text(extension, "ndjson") {
            Some(ExportFormat::JsonLines)
        } else if same_text(extension, "csv") {
            Some(ExportFormat::Csv)
        } else if same_text(extension, "tsv") {
            Some(ExportFormat::Tsv)
        } else {
            None
        }
    }

    /// The format that the extension of a path names, whatever its case.
    pub fn from_extension(path: &str) -> (r: Option<Self>)
        ensures
            r == match extension_of(path@) {
                Some(e) => format_named(lowercase_text(e)),
                None => None,
            },
    {
        match path_extension(path) {
            Some(extension) => {
                let lower = to_lowercase(extension.as_str());
                Self::from_lowercase(lower.as_str())
            },
            None => None,
        }
    }

    /// The extension of files in this format.
    pub fn extension(&self) -> (r: &'static str)
        ensures
            r@ == match *self {
                ExportFormat::Json => "json"@,
                ExportFormat::JsonLines => "jsonl"@,
                ExportFormat::Csv => "csv"@,
                ExportFormat::Tsv => "tsv"@,
            },
    {
        match self {
            ExportFormat::Json => "json",
            ExportFormat::JsonLines => "jsonl",
            ExportFormat::Csv => "csv",
            ExportFormat::Tsv => "tsv",
        }
    }

    /// The name of this format.
    pub fn name(&self) -> (r: &'static str)
        ensures
            r@ == match *self {
                ExportFormat::Json => "JSON"@,
                ExportFormat::JsonLines => "JSON Lines"@,
                ExportFormat::Csv => "CSV"@,
                ExportFormat::Tsv => "TSV"@,
            },
    {
        match self {
            ExportFormat::Json => "JSON",
            ExportFormat::JsonLines => "JSON Lines",
            ExportFormat::Csv => "CSV",
            ExportFormat::Tsv => "TSV",
        }
    }
}

/// A field has to be quoted: it holds the delimiter, a quote, a line feed
/// or a carriage return.
pub open spec fn needs_quote(field: Seq<char>, delimiter: char) -> bool {
    field.contains(delimiter) || field.contains('"') || field.contains('\n') || field.contains(
        '\r',
    )
}

/// The text with every `"` doubled.
pub open spec fn doubled_quotes(text: Seq<char>) -> Seq<char>
    decreases text.len(),
{
    if text.len() == 0 {
        Seq::empty()
    } else if text[text.len() - 1] == '"' {
        doubled_quotes(text.subrange(0, text.len() - 1)).push('"').push('"')
    } else {
        doubled_quotes(text.subrange(0, text.len() - 1)).push(text[text.len() - 1])
    }
}

/// The field as it is written: in quotes, with its quotes doubled, where it
/// has to be quoted or quoting is asked for; as it is otherwise.
pub open spec fn escaped_field(field: Seq<char>, delimiter: char, always_quote: bool) -> Seq<
    char,
> {
    if always_quote || needs_quote(field, delimiter) {
        seq!['"'] + doubled_quotes(field) + seq!['"']
    } else {
        field
    }
}

/// Writes one field of delimited text: see [`escaped_field`].
pub fn escape_field(field: &str, delimiter: u8, always_quote: bool) -> (r: String)
    ensures
        r@ == escaped_field(field@, delimiter as char, always_quote),
{
    let chars = chars_of(field);
    let mark = delimiter as char;
    let quote = always_quote || has_char(&chars, mark) || has_char(&chars, '"') || has_char(
        &chars,
        '\n',
    ) || has_char(&chars, '\r');
    if !quote {
        return string_of(&chars);
    }
    let mut out: Vec<char> = Vec::new();
    out.push('"');
    let mut i: usize = 0;
    while i < chars.len()
        invariant
            0 <= i <= chars@.len(),
            out@ == seq!['"'] + doubled_quotes(chars@.subrange(0, i as int)),
        decreases chars@.len() - i,
    {
        let c = chars[i];
        let ghost before = chars@.subrange(0, i as int);
        if c == '"' {
            out.push('"');
            out.push('"');
        } else {
            out.push(c);
        }
        i = i + 1;
        proof {
            let now = chars@.subrange(0, i as int);
            assert(now.subrange(0, now.len() - 1) =~= before);
            assert(out@ =~= seq!['"'] + doubled_quotes(now));
        }
    }
    assert(chars@.subrange(0, chars@.len() as int) =~= chars@);
    out.push('"');
    assert(out@ =~= seq!['"'] + doubled_quotes(chars@) + seq!['"']);
    string_of(&out)
}

/// Writes one field of an export in delimited text, quoted where it has to
/// be.
pub fn escape_csv_field(s: &str, delimiter: u8) -> (r: String)
    ensures
        r@ == escaped_field(s@, delimiter as char, false),
{
    escape_field(s, delimiter, false)
}

/// A control character: one of the ranges U+0000 to U+001F and U+007F to
/// U+009F.
pub open spec fn is_control(c: char) -> bool {
    c as u32 <= 0x1F || 0x7F <= c as u32 <= 0x9F
}

/// The lowercase hexadecimal digit for a value below 16.
pub open spec fn hex_digit(value: u32) -> char {
    if value < 10 {
        (0x30 + value) as char
    } else {
        (0x57 + value) as char
    }
}

/// How one character stands inside a JSON string: the quote, the backslash
/// and the usual control characters with a backslash before a letter, other
/// control characters as `\u00` and two hexadecimal digits, any other
/// character as it is.
pub open spec fn json_char(c: char) -> Seq<char> {
    if c == '"' {
        seq!['\\', '"']
    } else if c == '\\' {
        seq!['\\', '\\']
    } else if c == '\n' {
        seq!['\\', 'n']
    } else if c == '\r' {
        seq!['\\', 'r']
    } else if c == '\t' {
        seq!['\\', 't']
    } else if is_control(c) {
        seq!['\\', 'u', '0', '0', hex_digit(c as u32 / 16), hex_digit(c as u32 % 16)]
    } else {
        seq![c]
    }
}

/// The text as it stands inside a JSON string.
pub open spec fn json_escaped(text: Seq<char>) -> Seq<char>
    decreases text.len(),
{
    if text.len() == 0 {
        Seq::empty()
    } else {
        json_escaped(text.subrange(0, text.len() - 1)) + json_char(text[text.len() - 1])
    }
}

/// The lowercase hexadecimal digit for a value below 16.
fn hex_digit_of(value: u32) -> (r: char)
    requires
        value < 16,
    ensures
        r == hex_digit(value),
{
    if value < 10 {
        (0x30 + value) as u8 as char
    } else {
        (0x57 + value) as u8 as char
    }
}

/// Escapes a text for a JSON string: see [`json_escaped`].
pub fn escape_json_string(s: &str) -> (r: String)
    ensures
        r@ == json_escaped(s@),
{
    let chars = chars_of(s);
    let mut out: Vec<char> = Vec::new();
    let mut i: usize = 0;
    while i < chars.len()
        invariant
            0 <= i <= chars@.len(),
            out@ == json_escaped(chars@.subrange(0, i as int)),
        decreases chars@.len() - i,
    {
        let c = chars[i];
        let code: u32 = c as u32;
        let ghost before = out@;
        if c == '"' {
            out.push('\\');
            out.push('"');
        } else if c == '\\' {
            out.push('\\');
            out.push('\\');
        } else if c == '\n' {
            out.push('\\');
            out.push('n');
        } else if c == '\r' {
            out.push('\\');
            out.push('r');
        } else if c == '\t' {
            out.push('\\');
            out.push('t');
        } else if code <= 0x1F || (0x7F <= code && code <= 0x9F) {
            out.push('\\');
            out.push('u');
            out.push('0');
            out.push('0');
            out.push(hex_digit_of(code / 16));
            out.push(hex_digit_of(code % 16));
        } else {
            out.push(c);
        }
        i = i + 1;
        proof {
            let now = chars@.subrange(0, i as int);
            assert(now.subrange(0, now.len() - 1) =~= chars@.subrange(0, i - 1));
            assert(now[now.len() - 1] == c);
            assert(out@ =~= before + json_char(c));
        }
    }
    assert(chars@.subrange(0, chars@.len() as int) =~= chars@);
    string_of(&out)
}

} // verus!
