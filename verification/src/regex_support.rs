//! Compiled regular expressions from the `regex` crate, paired with their
//! source text so that search results can be named as functions of the
//! pattern and the haystack.
//!
//! Matching is the crate's work and is not restated here: what a search
//! returns is named by an uninterpreted function of the pattern text, the
//! haystack and the start position, together with the few facts the crate
//! documents (offsets are ordered, lie on character boundaries, and the
//! matched text is the haystack between them).
use vstd::prelude::*;
use vstd::utf8::is_char_boundary;
use vstd::string::StringSliceAdditionalSpecFns;
use regex::Regex;

verus! {

#[verifier::external_type_specification]
#[verifier::external_body]
pub struct ExRegex(Regex);

#[verifier::external_type_specification]
#[verifier::external_body]
pub struct ExBytesRegex(regex::bytes::Regex);

/// Whether `Regex::new` accepts the pattern (it rejects invalid syntax and
/// patterns over the default size limit).
pub uninterp spec fn regex_compiles(pattern: Seq<char>) -> bool;

/// The byte range `Regex::find_at` reports for the pattern in the haystack from `start`.
pub uninterp spec fn regex_find_at(pattern: Seq<char>, haystack: Seq<char>, start: int) -> Option<(int, int)>;

/// The byte ranges `Regex::find_iter` yields for the pattern in the haystack, in order.
pub uninterp spec fn regex_find_all(pattern: Seq<char>, haystack: Seq<char>) -> Seq<(int, int)>;

/// Whether `regex::bytes::Regex::new` accepts the pattern.
pub uninterp spec fn bytes_regex_compiles(pattern: Seq<char>) -> bool;

/// What `regex::bytes::Regex::is_match` answers for the pattern and the haystack bytes.
pub uninterp spec fn bytes_regex_is_match(pattern: Seq<char>, haystack: Seq<u8>) -> bool;

/// A compiled regular expression and the text it was compiled from.
pub struct Pattern {
    re: Regex,
    source: String,
}

impl Pattern {
    pub closed spec fn source(&self) -> Seq<char> {
        self.source@
    }
}

/// A compiled byte-oriented regular expression and the text it was compiled from.
pub struct BytesPattern {
    re: regex::bytes::Regex,
    source: String,
}

impl BytesPattern {
    pub closed spec fn source(&self) -> Seq<char> {
        self.source@
    }
}

/// Calls `Regex::new`; `None` when the crate reports an error. Claims only
/// that success is what the name `regex_compiles` says and that the result
/// remembers its source text.
#[verifier::external_body]
pub(crate) fn compile(pattern: &str) -> (r: Option<Pattern>)
    ensures
        r is Some == regex_compiles(pattern@),
        r matches Some(p) ==> p.source() == pattern@,
{
    match Regex::new(pattern) {
        Ok(re) => Some(Pattern { re, source: pattern.to_string() }),
        Err(_) => None,
    }
}

/// Calls `Regex::find_at`, which panics for a start beyond the haystack.
/// Claims that the answer is the named result, and, as the crate documents,
/// that a match lies at or after `start`, that its offsets are ordered
/// character boundaries within the haystack, and that its text is the
/// haystack between them.
#[verifier::external_body]
pub(crate) fn find_at<'h>(p: &Pattern, haystack: &'h str, start: usize) -> (r: Option<(usize, usize, &'h str)>)
    requires
        start <= haystack.spec_bytes().len(),
    ensures
        match r {
            Some((s, e, text)) => {
                &&& regex_find_at(p.source(), haystack@, start as int) == Some((s as int, e as int))
                &&& start <= s <= e <= haystack.spec_bytes().len()
                &&& is_char_boundary(haystack.spec_bytes(), s as int)
                &&& is_char_boundary(haystack.spec_bytes(), e as int)
                &&& text.spec_bytes() == haystack.spec_bytes().subrange(s as int, e as int)
            },
            None => regex_find_at(p.source(), haystack@, start as int) is None,
        },
{
    match p.re.find_at(haystack, start) {
        Some(m) => Some((m.start(), m.end(), m.as_str())),
        None => None,
    }
}

/// Collects `Regex::find_iter` as offsets and texts. Claims that the offsets
/// are the named result and, as the crate documents for every match, that
/// they are ordered character boundaries within the haystack with the text
/// between them.
#[verifier::external_body]
pub(crate) fn find_all<'h>(p: &Pattern, haystack: &'h str) -> (r: Vec<(usize, usize, &'h str)>)
    ensures
        r@.len() == regex_find_all(p.source(), haystack@).len(),
        forall|k: int| 0 <= k < r@.len() ==> {
            let (s, e, text) = #[trigger] r@[k];
            &&& regex_find_all(p.source(), haystack@)[k] == (s as int, e as int)
            &&& s <= e <= haystack.spec_bytes().len()
            &&& is_char_boundary(haystack.spec_bytes(), s as int)
            &&& is_char_boundary(haystack.spec_bytes(), e as int)
            &&& text.spec_bytes() == haystack.spec_bytes().subrange(s as int, e as int)
        },
{
    p.re.find_iter(haystack).map(|m| (m.start(), m.end(), m.as_str())).collect()
}

/// Calls `regex::bytes::Regex::new`; `None` when the crate reports an error.
#[verifier::external_body]
pub(crate) fn compile_bytes(pattern: &str) -> (r: Option<BytesPattern>)
    ensures
        r is Some == bytes_regex_compiles(pattern@),
        r matches Some(p) ==> p.source() == pattern@,
{
    match regex::bytes::Regex::new(pattern) {
        Ok(re) => Some(BytesPattern { re, source: pattern.to_string() }),
        Err(_) => None,
    }
}

/// Calls `regex::bytes::Regex::is_match`; the answer is the named result.
#[verifier::external_body]
pub(crate) fn is_match_bytes(p: &BytesPattern, haystack: &[u8]) -> (b: bool)
    ensures
        b == bytes_regex_is_match(p.source(), haystack@),
{
    p.re.is_match(haystack)
}

} // verus!
