//! Find and replace over UTF-8 text, resolving match positions to
//! line/column through a `LineIndex`.
//!
//! Matching itself is done by the `regex` crate; this module builds the
//! pattern from a query, checks every offset the engine hands back against
//! the text, and assembles replacements.

use vstd::prelude::*;
use vstd::string::StringSliceAdditionalSpecFns;
use vstd::utf8::*;
use crate::strutil::{bytes_of, lemma_str_valid, push_chars, push_str, empty_string, substr};
use crate::textview::{is_line_of, LineIndex, TextRange};

verus! {

// ---------------------------------------------------------------------------
// The regex engine
// ---------------------------------------------------------------------------

#[verifier::external_type_specification]
#[verifier::external_body]
pub struct ExRegex(regex::Regex);

/// The error message of `regex::Regex::new` on `pattern`, or `None` when the
/// pattern compiles.
pub uninterp spec fn regex_new_error(pattern: Seq<char>) -> Option<Seq<char>>;

/// The byte ranges of the successive non-overlapping matches that
/// `regex::Regex::find_iter` reports for `pattern` in `text`.
pub uninterp spec fn regex_find_iter(pattern: Seq<char>, text: Seq<char>) -> Seq<(int, int)>;

/// The byte range of the match that `regex::Regex::find_at` reports for
/// `pattern` in `text` when searching from byte `start`.
pub uninterp spec fn regex_find_at(pattern: Seq<char>, text: Seq<char>, start: int) -> Option<
    (int, int),
>;

/// The text that `regex::Regex::replace_all` returns for `pattern` in `text`
/// with the replacement template `replacement`.
pub uninterp spec fn regex_replace_all(
    pattern: Seq<char>,
    text: Seq<char>,
    replacement: Seq<char>,
) -> Seq<char>;

/// Characters with a special meaning in a regular expression.
pub open spec fn is_regex_meta(c: char) -> bool {
    c == '\\' || c == '.' || c == '+' || c == '*' || c == '?' || c == '(' || c == ')' || c == '|'
        || c == '[' || c == ']' || c == '{' || c == '}' || c == '^' || c == '$' || c == '#' || c
        == '&' || c == '-' || c == '~'
}

/// `text` with a backslash put before every meta character.
pub open spec fn escaped(text: Seq<char>) -> Seq<char>
    decreases text.len(),
{
    if text.len() == 0 {
        Seq::empty()
    } else {
        let c = text.last();
        escaped(text.drop_last()) + if is_regex_meta(c) {
            seq!['\\', c]
        } else {
            seq![c]
        }
    }
}

/// A byte range of `text` that starts no later than it ends and lies on
/// character boundaries.
pub open spec fn is_text_span(text: Seq<char>, start: int, end: int) -> bool {
    &&& 0 <= start <= end <= bytes_of(text).len()
    &&& is_char_boundary(bytes_of(text), start)
    &&& is_char_boundary(bytes_of(text), end)
}

/// A compiled regular expression together with the pattern it was compiled
/// from.
#[derive(Debug)]
pub struct SearchRegex {
    source: String,
    regex: regex::Regex,
}

impl View for SearchRegex {
    type V = Seq<char>;

    /// The pattern the expression was compiled from.
    closed spec fn view(&self) -> Seq<char> {
        self.source@
    }
}

/// Compiles `pattern` with `regex::Regex::new`, keeping the pattern; on
/// failure returns the engine's error message. Trusted: the outcome and the
/// message are those the engine gives for this pattern.
#[verifier::external_body]
fn compile_regex(pattern: &str) -> (r: Result<SearchRegex, String>)
    ensures
        r is Ok <==> regex_new_error(pattern@) is None,
        r matches Ok(re) ==> re@ == pattern@,
        r matches Err(msg) ==> regex_new_error(pattern@) == Some(msg@),
{
    match regex::Regex::new(pattern) {
        Ok(regex) => Ok(SearchRegex { source: pattern.to_owned(), regex }),
        Err(e) => Err(e.to_string()),
    }
}

/// `regex::escape`: puts a backslash before every meta character of `text`.
/// Trusted to do exactly that, as its source does.
#[verifier::external_body]
fn regex_escape(text: &str) -> (r: String)
    ensures
        r@ == escaped(text@),
{
    regex::escape(text)
}

/// All matches of `re` in `text`, by `regex::Regex::find_iter`, as byte
/// ranges. Trusted: they are the engine's matches, each lies on character
/// boundaries within the text, and they come one after another without
/// overlapping, as the crate documents.
#[verifier::external_body]
fn regex_matches(re: &SearchRegex, text: &str) -> (r: Vec<(usize, usize)>)
    ensures
        r@.len() == regex_find_iter(re@, text@).len(),
        forall|k: int|
            0 <= k < r@.len() ==> (#[trigger] r@[k].0 as int, r@[k].1 as int) == regex_find_iter(
                re@,
                text@,
            )[k],
        forall|k: int| 0 <= k < r@.len() ==> is_text_span(text@, #[trigger] r@[k].0 as int, r@[k].1 as int),
        forall|k: int| 0 <= k < r@.len() - 1 ==> #[trigger] r@[k].1 <= r@[k + 1].0,
{
    re.regex.find_iter(text).map(|m| (m.start(), m.end())).collect()
}

/// The first match of `re` in `text` found searching from byte `start`, by
/// `regex::Regex::find_at` (which panics past the end of the text). Trusted:
/// it is the engine's match and lies on character boundaries within the
/// text, as the crate documents.
#[verifier::external_body]
fn regex_match_from(re: &SearchRegex, text: &str, start: usize) -> (r: Option<(usize, usize)>)
    requires
        start <= text.spec_bytes().len(),
    ensures
        match r {
            Some((s, e)) => regex_find_at(re@, text@, start as int) == Some((s as int, e as int))
                && is_text_span(text@, s as int, e as int),
            None => regex_find_at(re@, text@, start as int) is None,
        },
{
    re.regex.find_at(text, start).map(|m| (m.start(), m.end()))
}

/// Every match of `re` in `text` replaced by the expansion of the template
/// `replacement`, by `regex::Regex::replace_all`. Trusted: the result is the
/// engine's, and with no match it is the text unchanged, as the crate
/// documents.
#[verifier::external_body]
fn regex_replace(re: &SearchRegex, text: &str, replacement: &str) -> (r: String)
    ensures
        r@ == regex_replace_all(re@, text@, replacement@),
        regex_find_iter(re@, text@).len() == 0 ==> r@ == text@,
{
    re.regex.replace_all(text, replacement).into_owned()
}

impl SearchRegex {
    /// Whether the expression matches anywhere in `text`.
    pub fn is_match(&self, text: &str) -> (r: bool)
        ensures
            r == regex_find_at(self@, text@, 0) is Some,
    {
        regex_match_from(self, text, 0).is_some()
    }
}

// ---------------------------------------------------------------------------
// Types
// ---------------------------------------------------------------------------

/// Search parameters. Plain struct (parameter bag).
pub struct SearchQuery {
    pub pattern: String,
    pub is_regex: bool,
    pub case_sensitive: bool,
    pub whole_word: bool,
}

/// A single search hit with its byte range and line/column position.
#[derive(Debug)]
pub struct SearchMatch {
    range: TextRange,
    line: u32,
    column: u32,
}

impl SearchMatch {
    pub closed spec fn spec_range(self) -> TextRange {
        self.range
    }

    pub closed spec fn spec_line(self) -> u32 {
        self.line
    }

    pub closed spec fn spec_column(self) -> u32 {
        self.column
    }

    /// Byte-offset range of the match.
    pub fn range(&self) -> (r: &TextRange)
        ensures
            *r == self.spec_range(),
    {
        &self.range
    }

    /// 0-based line number.
    pub fn line(&self) -> (r: u32)
        ensures
            r == self.spec_line(),
    {
        self.line
    }

    /// 0-based column (byte offset within line).
    pub fn column(&self) -> (r: u32)
        ensures
            r == self.spec_column(),
    {
        self.column
    }
}

/// `m` describes the byte range `span` of a text whose lines start at
/// `starts`: the range itself, the line holding its start and the start's
/// offset within that line.
pub open spec fn describes(m: SearchMatch, starts: Seq<int>, span: (int, int)) -> bool {
    &&& m.spec_range().spec_start() == span.0
    &&& m.spec_range().spec_end() == span.1
    &&& is_line_of(starts, m.spec_line() as int, span.0)
    &&& m.spec_column() == span.0 - starts[m.spec_line() as int]
}

/// Errors produced by search operations.
#[derive(Debug, Clone, PartialEq, Eq)]
#[non_exhaustive]
pub enum SearchError {
    /// The regex pattern failed to compile.
    InvalidRegex(String),
}

impl SearchError {
    /// Human-readable description of the error.
    pub fn message(&self) -> (r: String)
        ensures
            match self {
                SearchError::InvalidRegex(msg) => r@ == seq![
                    'i',
                    'n',
                    'v',
                    'a',
                    'l',
                    'i',
                    'd',
                    ' ',
                    'r',
                    'e',
                    'g',
                    'e',
                    'x',
                    ':',
                    ' ',
                ] + msg@,
            },
    {
        match self {
            SearchError::InvalidRegex(msg) => {
                let mut out = String::new();
                push_chars(&mut out, "invalid regex: ");
                push_chars(&mut out, msg.as_str());
                proof {
                    reveal_strlit("invalid regex: ");
                }
                out
            },
        }
    }
}

// ---------------------------------------------------------------------------
// Pattern construction
// ---------------------------------------------------------------------------

/// The regular expression searched for by `query`: the pattern itself or its
/// escaped form, wrapped in word boundaries for whole-word search and
/// prefixed with the case-insensitive flag unless the search is
/// case-sensitive.
pub open spec fn query_pattern(query: SearchQuery) -> Seq<char> {
    pattern_for(query.pattern@, query.is_regex, query.case_sensitive, query.whole_word)
}

/// The regular expression searched for a pattern with the given options.
pub open spec fn pattern_for(pattern: Seq<char>, is_regex: bool, case_sensitive: bool, whole_word: bool) -> Seq<
    char,
> {
    let base = if is_regex {
        pattern
    } else {
        escaped(pattern)
    };
    let worded = if whole_word {
        seq!['\\', 'b', '(', '?', ':'] + base + seq![')', '\\', 'b']
    } else {
        base
    };
    if case_sensitive {
        worded
    } else {
        seq!['(', '?', 'i', ')'] + worded
    }
}

/// The error reported for a pattern the engine refuses.
pub open spec fn is_regex_error(e: SearchError, pattern: Seq<char>) -> bool {
    e matches SearchError::InvalidRegex(msg) && regex_new_error(pattern) == Some(msg@)
}

/// Build the regular expression of a query.
pub fn build_regex(query: &SearchQuery) -> (r: Result<SearchRegex, SearchError>)
    ensures
        r is Ok <==> regex_new_error(query_pattern(*query)) is None,
        r matches Ok(re) ==> re@ == query_pattern(*query),
        r matches Err(e) ==> is_regex_error(e, query_pattern(*query)),
{
    let mut pat = if query.is_regex {
        query.pattern.clone()
    } else {
        regex_escape(query.pattern.as_str())
    };
    if query.whole_word {
        let mut worded = String::new();
        push_chars(&mut worded, "\\b(?:");
        push_chars(&mut worded, pat.as_str());
        push_chars(&mut worded, ")\\b");
        proof {
            reveal_strlit("\\b(?:");
            reveal_strlit(")\\b");
        }
        pat = worded;
    }
    if !query.case_sensitive {
        let mut flagged = String::new();
        push_chars(&mut flagged, "(?i)");
        push_chars(&mut flagged, pat.as_str());
        proof {
            reveal_strlit("(?i)");
        }
        pat = flagged;
    }
    assert(pat@ == query_pattern(*query));
    match compile_regex(pat.as_str()) {
        Ok(re) => Ok(re),
        Err(msg) => Err(SearchError::InvalidRegex(msg)),
    }
}

/// The match of the byte range `[start, end)` of `text`, positioned by
/// `line_index`.
fn match_from_offsets(text: &str, line_index: &LineIndex, start: usize, end: usize) -> (m:
    SearchMatch)
    requires
        is_text_span(text@, start as int, end as int),
        text.spec_bytes().len() <= line_index.spec_len(),
    ensures
        describes(m, line_index.starts(), (start as int, end as int)),
{
    let range = TextRange::new(start, end).expect("match offsets must satisfy start <= end");
    let pos = line_index.offset_to_position(text, start).expect(
        "regex match start must be a valid offset",
    );
    SearchMatch { range, line: pos.line(), column: pos.column() }
}

// ---------------------------------------------------------------------------
// Public API
// ---------------------------------------------------------------------------

/// Find every occurrence of `query` in `text`.
pub fn find_all(text: &str, line_index: &LineIndex, query: &SearchQuery) -> (r: Result<
    Vec<SearchMatch>,
    SearchError,
>)
    requires
        text.spec_bytes().len() <= line_index.spec_len(),
    ensures
        r is Ok <==> regex_new_error(query_pattern(*query)) is None,
        r matches Err(e) ==> is_regex_error(e, query_pattern(*query)),
        r matches Ok(ms) ==> ms@.len() == regex_find_iter(query_pattern(*query), text@).len()
            && forall|k: int|
            0 <= k < ms@.len() ==> describes(
                #[trigger] ms@[k],
                line_index.starts(),
                regex_find_iter(query_pattern(*query), text@)[k],
            ),
        r matches Ok(ms) ==> forall|k: int|
            0 <= k < ms@.len() - 1 ==> (#[trigger] ms@[k]).spec_range().spec_end() <= ms@[k
                + 1].spec_range().spec_start(),
{
    let re = build_regex(query)?;
    let found = regex_matches(&re, text);
    let mut results: Vec<SearchMatch> = Vec::new();
    let mut k: usize = 0;
    while k < found.len()
        invariant
            re@ == query_pattern(*query),
            text.spec_bytes().len() <= line_index.spec_len(),
            found@.len() == regex_find_iter(re@, text@).len(),
            forall|j: int|
                0 <= j < found@.len() ==> (#[trigger] found@[j].0 as int, found@[j].1 as int)
                    == regex_find_iter(re@, text@)[j],
            forall|j: int|
                0 <= j < found@.len() ==> is_text_span(text@, #[trigger] found@[j].0 as int, found@[j].1 as int),
            forall|j: int| 0 <= j < found@.len() - 1 ==> #[trigger] found@[j].1 <= found@[j + 1].0,
            0 <= k <= found@.len(),
            results@.len() == k,
            forall|j: int|
                0 <= j < k ==> describes(
                    #[trigger] results@[j],
                    line_index.starts(),
                    regex_find_iter(re@, text@)[j],
                ),
        decreases found@.len() - k,
    {
        let (s, e) = found[k];
        assert(is_text_span(text@, found@[k as int].0 as int, found@[k as int].1 as int));
        results.push(match_from_offsets(text, line_index, s, e));
        k = k + 1;
    }
    proof {
        assert forall|j: int| 0 <= j < results@.len() - 1 implies (#[trigger] results@[j]).spec_range().spec_end()
            <= results@[j + 1].spec_range().spec_start() by {
            assert(describes(results@[j], line_index.starts(), regex_find_iter(re@, text@)[j]));
            assert(describes(results@[j + 1], line_index.starts(), regex_find_iter(re@, text@)[j + 1]));
            assert(found@[j].1 <= found@[j + 1].0);
            assert((found@[j].0 as int, found@[j].1 as int) == regex_find_iter(re@, text@)[j]);
            assert((found@[j + 1].0 as int, found@[j + 1].1 as int) == regex_find_iter(re@, text@)[j + 1]);
        }
    }
    Ok(results)
}

/// Find the first occurrence of `query` at or after `from_offset`.
///
/// Returns `Ok(None)` when no match exists from that offset onward. Word
/// boundaries see the whole text, also when `from_offset` falls mid-word.
pub fn find_next(
    text: &str,
    line_index: &LineIndex,
    query: &SearchQuery,
    from_offset: usize,
) -> (r: Result<Option<SearchMatch>, SearchError>)
    requires
        text.spec_bytes().len() <= line_index.spec_len(),
    ensures
        r is Ok <==> regex_new_error(query_pattern(*query)) is None,
        r matches Err(e) ==> is_regex_error(e, query_pattern(*query)),
        r matches Ok(found) ==> if from_offset > text.spec_bytes().len() {
            found is None
        } else {
            match regex_find_at(query_pattern(*query), text@, from_offset as int) {
                None => found is None,
                Some(span) => found matches Some(m) && describes(m, line_index.starts(), span),
            }
        },
{
    let re = build_regex(query)?;
    if from_offset > text.as_bytes().len() {
        return Ok(None);
    }
    match regex_match_from(&re, text, from_offset) {
        Some((s, e)) => Ok(Some(match_from_offsets(text, line_index, s, e))),
        None => Ok(None),
    }
}

/// Replace every occurrence of `query` in `text` with `replacement`.
///
/// Returns the new text and the number of replacements performed.
pub fn replace_all(text: &str, query: &SearchQuery, replacement: &str) -> (r: Result<
    (String, usize),
    SearchError,
>)
    ensures
        r is Ok <==> regex_new_error(query_pattern(*query)) is None,
        r matches Err(e) ==> is_regex_error(e, query_pattern(*query)),
        r matches Ok((new_text, count)) ==> new_text@ == regex_replace_all(
            query_pattern(*query),
            text@,
            replacement@,
        ) && count == regex_find_iter(query_pattern(*query), text@).len(),
        r matches Ok((new_text, count)) ==> (count == 0 ==> new_text@ == text@),
{
    let re = build_regex(query)?;
    let count = regex_matches(&re, text).len();
    let new_text = regex_replace(&re, text, replacement);
    Ok((new_text, count))
}

/// Replace the first occurrence of `query` at or after `from_offset`.
///
/// Returns the new full text and the `SearchMatch` describing the original
/// match position, or `None` if no match was found.
pub fn replace_next(
    text: &str,
    line_index: &LineIndex,
    query: &SearchQuery,
    replacement: &str,
    from_offset: usize,
) -> (r: Result<Option<(String, SearchMatch)>, SearchError>)
    requires
        text.spec_bytes().len() <= line_index.spec_len(),
    ensures
        r is Ok <==> regex_new_error(query_pattern(*query)) is None,
        r matches Err(e) ==> is_regex_error(e, query_pattern(*query)),
        r matches Ok(found) ==> if from_offset > text.spec_bytes().len() {
            found is None
        } else {
            match regex_find_at(query_pattern(*query), text@, from_offset as int) {
                None => found is None,
                Some(span) => found matches Some((new_text, m)) && describes(
                    m,
                    line_index.starts(),
                    span,
                ) && bytes_of(new_text@) == text.spec_bytes().subrange(0, span.0)
                    + replacement.spec_bytes() + text.spec_bytes().subrange(
                    span.1,
                    text.spec_bytes().len() as int,
                ),
            }
        },
{
    let re = build_regex(query)?;
    let len = text.as_bytes().len();
    if from_offset > len {
        return Ok(None);
    }
    match regex_match_from(&re, text, from_offset) {
        Some((s, e)) => {
            let sm = match_from_offsets(text, line_index, s, e);
            proof {
                lemma_str_valid(text);
            }
            let mut new_text = empty_string();
            push_str(&mut new_text, substr(text, 0, s));
            push_str(&mut new_text, replacement);
            push_str(&mut new_text, substr(text, e, len));
            Ok(Some((new_text, sm)))
        },
        None => Ok(None),
    }
}

} // verus!
