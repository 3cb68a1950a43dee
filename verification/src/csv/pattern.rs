//! What a search looks for: a piece of text, or a regular expression.

use crate::csv::scan::find_byte;
use crate::csv::text::{lowercase_text, to_lowercase};
use crate::error::{CsvError, Result};
use regex::RegexBuilder;
use vstd::prelude::*;
use vstd::string::{StringExecFns, StringSliceAdditionalSpecFns};
use vstd::utf8::encode_utf8;

verus! {

/// `regex::Regex`, a compiled pattern, whose inside stays hidden.
#[verifier::external_type_specification]
#[verifier::external_body]
pub struct ExRegex(regex::Regex);

/// Whether `RegexBuilder::build` accepts the pattern with this setting of
/// case insensitivity: it is a regular expression, and not too large a one.
pub uninterp spec fn regex_is_valid(pattern: Seq<char>, case_insensitive: bool) -> bool;

/// The matches that `Regex::find_iter` yields for the pattern, compiled with
/// this setting of case insensitivity, in the text: successive matches that
/// do not overlap, as byte ranges of the text.
pub uninterp spec fn regex_matches(
    pattern: Seq<char>,
    case_insensitive: bool,
    text: Seq<char>,
) -> Seq<(usize, usize)>;

/// A compiled regular expression together with what it was compiled from.
#[derive(Debug)]
pub struct RegexPattern {
    regex: regex::Regex,
    source: String,
    case_insensitive: bool,
}

impl RegexPattern {
    /// The pattern as it was written.
    pub closed spec fn source(&self) -> Seq<char> {
        self.source@
    }

    /// Whether the pattern ignores case.
    pub closed spec fn case_insensitive(&self) -> bool {
        self.case_insensitive
    }
}

/// `Regex::clone`: a copy of the compiled pattern, with what it was compiled
/// from beside it as before.
#[verifier::external_body]
fn clone_regex(pattern: &RegexPattern) -> (r: RegexPattern)
    ensures
        r.source() == pattern.source(),
        r.case_insensitive() == pattern.case_insensitive(),
{
    RegexPattern {
        regex: pattern.regex.clone(),
        source: pattern.source.clone(),
        case_insensitive: pattern.case_insensitive,
    }
}

impl Clone for RegexPattern {
    fn clone(&self) -> (r: Self)
        ensures
            r.source() == self.source(),
            r.case_insensitive() == self.case_insensitive(),
    {
        clone_regex(self)
    }
}

/// `RegexBuilder::new(pattern).case_insensitive(..).build()`: the compiled
/// pattern, where the builder accepts it.
#[verifier::external_body]
fn compile_regex(pattern: &str, case_insensitive: bool) -> (r: Option<RegexPattern>)
    ensures
        r is Some <==> regex_is_valid(pattern@, case_insensitive),
        r matches Some(p) ==> p.source() == pattern@ && p.case_insensitive() == case_insensitive,
{
    match RegexBuilder::new(pattern).case_insensitive(case_insensitive).build() {
        Ok(regex) => Some(RegexPattern { regex, source: pattern.to_string(), case_insensitive }),
        Err(_) => None,
    }
}

/// `Regex::find_iter`: every match of the pattern in `text`, as byte ranges.
#[verifier::external_body]
fn regex_find_all(pattern: &RegexPattern, text: &str) -> (r: Vec<(usize, usize)>)
    ensures
        r@ == regex_matches(pattern.source(), pattern.case_insensitive(), text@),
{
    pattern.regex.find_iter(text).map(|m| (m.start(), m.end())).collect()
}

/// `Regex::is_match`: whether the pattern has a match in `text`, which is
/// the case exactly when `find_iter` yields one.
#[verifier::external_body]
fn regex_has_match(pattern: &RegexPattern, text: &str) -> (r: bool)
    ensures
        r == (regex_matches(pattern.source(), pattern.case_insensitive(), text@).len() > 0),
{
    pattern.regex.is_match(text)
}

/// `pattern` stands in `hay` at position `i`.
pub open spec fn occurs_at(hay: Seq<u8>, pattern: Seq<u8>, i: int) -> bool {
    0 <= i && i + pattern.len() <= hay.len() && hay.subrange(i, i + pattern.len()) == pattern
}

/// The places at which `pattern` stands in `hay` before position `upto`, in
/// order, each as the byte range that it takes. Overlapping places count.
pub open spec fn occurrences(hay: Seq<u8>, pattern: Seq<u8>, upto: int) -> Seq<(usize, usize)>
    decreases upto,
{
    if upto <= 0 {
        Seq::empty()
    } else if occurs_at(hay, pattern, upto - 1) {
        occurrences(hay, pattern, upto - 1).push(
            ((upto - 1) as usize, (upto - 1 + pattern.len()) as usize),
        )
    } else {
        occurrences(hay, pattern, upto - 1)
    }
}

/// Every place at which `pattern` stands in `hay`.
pub open spec fn all_occurrences(hay: Seq<u8>, pattern: Seq<u8>) -> Seq<(usize, usize)> {
    occurrences(hay, pattern, hay.len() as int + 1)
}

/// Where nothing stands between two positions, the places are the same.
proof fn lemma_no_occurrence(hay: Seq<u8>, pattern: Seq<u8>, lo: int, hi: int)
    requires
        0 <= lo <= hi,
        forall|j: int| lo <= j < hi ==> !occurs_at(hay, pattern, j),
    ensures
        occurrences(hay, pattern, hi) == occurrences(hay, pattern, lo),
    decreases hi - lo,
{
    if lo < hi {
        lemma_no_occurrence(hay, pattern, lo, hi - 1);
    }
}

/// Whether `pattern` stands in `hay` at position `i`.
fn stands_at(hay: &[u8], pattern: &[u8], i: usize) -> (r: bool)
    ensures
        r == occurs_at(hay@, pattern@, i as int),
{
    let n: usize = hay.len();
    let m: usize = pattern.len();
    if i > n || m > n - i {
        return false;
    }
    let mut k: usize = 0;
    while k < m
        invariant
            0 <= k <= m,
            m == pattern@.len(),
            n == hay@.len(),
            i + m <= n,
            forall|j: int| 0 <= j < k ==> hay@[i + j] == pattern@[j],
        decreases m - k,
    {
        if hay[i + k] != pattern[k] {
            assert(hay@.subrange(i as int, i + m)[k as int] != pattern@[k as int]);
            return false;
        }
        k = k + 1;
    }
    assert(hay@.subrange(i as int, i + m) =~= pattern@);
    true
}

/// Every place at which `pattern` stands in `hay`: see [`all_occurrences`].
#[verifier::rlimit(40)]
pub fn find_all(hay: &[u8], pattern: &[u8]) -> (r: Vec<(usize, usize)>)
    ensures
        r@ == all_occurrences(hay@, pattern@),
{
    let n: usize = hay.len();
    let m: usize = pattern.len();
    let mut out: Vec<(usize, usize)> = Vec::new();
    let mut i: usize = 0;
    if m == 0 {
        while i < n
            invariant
                m == 0,
                m == pattern@.len(),
                n == hay@.len(),
                0 <= i <= n,
                out@ == occurrences(hay@, pattern@, i as int),
            decreases n - i,
        {
            assert(hay@.subrange(i as int, i as int) =~= pattern@);
            out.push((i, i));
            i = i + 1;
        }
        assert(hay@.subrange(n as int, n as int) =~= pattern@);
        out.push((n, n));
        return out;
    }
    if m > n {
        proof {
            lemma_no_occurrence(hay@, pattern@, 0, n + 1);
        }
        return out;
    }
    let first = pattern[0];
    let last: usize = n - m;
    while i <= last
        invariant
            0 < m <= n,
            m == pattern@.len(),
            n == hay@.len(),
            last == n - m,
            first == pattern@[0],
            0 <= i <= n,
            out@ == occurrences(hay@, pattern@, i as int),
        decreases n - i,
    {
        match find_byte(hay, first, i) {
            Some(p) => {
                proof {
                    assert forall|j: int| i <= j < p implies !occurs_at(hay@, pattern@, j) by {
                        if occurs_at(hay@, pattern@, j) {
                            assert(hay@.subrange(j, j + m)[0] == pattern@[0]);
                        }
                    }
                    lemma_no_occurrence(hay@, pattern@, i as int, p as int);
                }
                if stands_at(hay, pattern, p) {
                    out.push((p, p + m));
                }
                i = p + 1;
            },
            None => {
                proof {
                    assert forall|j: int| i <= j < n + 1 implies !occurs_at(hay@, pattern@, j) by {
                        if occurs_at(hay@, pattern@, j) {
                            assert(hay@.subrange(j, j + m)[0] == pattern@[0]);
                        }
                    }
                    lemma_no_occurrence(hay@, pattern@, i as int, n + 1);
                }
                return out;
            },
        }
    }
    proof {
        assert forall|j: int| i <= j < n + 1 implies !occurs_at(hay@, pattern@, j) by {}
        lemma_no_occurrence(hay@, pattern@, i as int, n + 1);
    }
    out
}

/// What a search looks for.
#[derive(Debug)]
pub enum SearchPattern {
    /// A piece of text.
    Text(String),
    /// A regular expression.
    Regex(RegexPattern),
}

impl Clone for SearchPattern {
    fn clone(&self) -> (r: Self)
        ensures
            forall|text: Seq<char>, case_sensitive: bool|
                #[trigger] r.finds(text, case_sensitive) == self.finds(text, case_sensitive),
    {
        match self {
            SearchPattern::Text(pattern) => SearchPattern::Text(pattern.clone()),
            SearchPattern::Regex(pattern) => SearchPattern::Regex(pattern.clone()),
        }
    }
}

/// The text in which a piece of text is looked for: the text itself, or its
/// lowercase form where case does not matter.
pub open spec fn searched_text(text: Seq<char>, case_sensitive: bool) -> Seq<char> {
    if case_sensitive {
        text
    } else {
        lowercase_text(text)
    }
}

impl SearchPattern {
    /// The finds of the pattern in a text, as byte ranges: of a piece of
    /// text every place at which it stands in the text that is searched; of
    /// a regular expression its matches.
    pub open spec fn finds(&self, text: Seq<char>, case_sensitive: bool) -> Seq<(usize, usize)> {
        match self {
            SearchPattern::Text(pattern) => all_occurrences(
                encode_utf8(searched_text(text, case_sensitive)),
                encode_utf8(pattern@),
            ),
            SearchPattern::Regex(pattern) => regex_matches(
                pattern.source(),
                pattern.case_insensitive(),
                text,
            ),
        }
    }

    /// A piece of text to look for; in lowercase where case does not matter.
    pub fn text(pattern: &str, case_sensitive: bool) -> (r: Self)
        ensures
            r matches SearchPattern::Text(p) && p@ == searched_text(pattern@, case_sensitive),
    {
        if case_sensitive {
            SearchPattern::Text(String::from_str(pattern))
        } else {
            SearchPattern::Text(to_lowercase(pattern))
        }
    }

    /// A regular expression to look for. A pattern that is no regular
    /// expression is refused.
    pub fn regex(pattern: &str, case_sensitive: bool) -> (r: Result<Self>)
        ensures
            regex_is_valid(pattern@, !case_sensitive) ==> (r matches Ok(SearchPattern::Regex(p))
                && p.source() == pattern@ && p.case_insensitive() == !case_sensitive),
            !regex_is_valid(pattern@, !case_sensitive) ==> r matches Err(CsvError::Format(_)),
    {
        match compile_regex(pattern, !case_sensitive) {
            Some(compiled) => Ok(SearchPattern::Regex(compiled)),
            None => Err(CsvError::Format(String::from_str("the pattern is no regular expression"))),
        }
    }

    /// Every find of the pattern in a text: see [`SearchPattern::finds`].
    pub fn find_matches(&self, text: &str, case_sensitive: bool) -> (r: Vec<(usize, usize)>)
        ensures
            r@ == self.finds(text@, case_sensitive),
    {
        match self {
            SearchPattern::Text(pattern) => {
                if case_sensitive {
                    find_all(text.as_bytes(), pattern.as_str().as_bytes())
                } else {
                    let lower = to_lowercase(text);
                    find_all(lower.as_str().as_bytes(), pattern.as_str().as_bytes())
                }
            },
            SearchPattern::Regex(pattern) => regex_find_all(pattern, text),
        }
    }

    /// Whether the pattern is found in a text.
    pub fn is_match(&self, text: &str, case_sensitive: bool) -> (r: bool)
        ensures
            r == (self.finds(text@, case_sensitive).len() > 0),
    {
        match self {
            SearchPattern::Text(_) => {
                let found = self.find_matches(text, case_sensitive);
                found.len() > 0
            },
            SearchPattern::Regex(pattern) => regex_has_match(pattern, text),
        }
    }
}

} // verus!
