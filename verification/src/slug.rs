//! Slugs: lowercase text where every character becomes a letter, a digit or a
//! dash, and runs of dashes collapse into one.
use vstd::prelude::*;
use crate::pangram::conv_spec;
use crate::text::{chars_of, push_char};

pub use crate::pangram::conv;

verus! {

broadcast use vstd::seq::group_seq_axioms;

/// What `str::to_lowercase` returns for a text (Unicode lowercase mapping,
/// where one character may map to several).
pub uninterp spec fn spec_to_lowercase(s: Seq<char>) -> Seq<char>;

/// Calls `str::to_lowercase`. Its result is named: it depends on the text alone.
#[verifier::external_body]
fn lowercase(s: &str) -> (r: String)
    ensures
        r@ == spec_to_lowercase(s@),
{
    s.to_lowercase()
}

/// The slug of already-lowercased characters: each is substituted, and a dash
/// that follows a dash is dropped.
pub open spec fn slug_chars(cs: Seq<char>) -> Seq<char>
    decreases cs.len(),
{
    if cs.len() == 0 {
        Seq::empty()
    } else {
        let prev = if cs.len() == 1 { '_' } else { conv_spec(cs[cs.len() - 2]) };
        let c = conv_spec(cs.last());
        slug_chars(cs.drop_last()) + (if c != '-' || c != prev { seq![c] } else { Seq::empty() })
    }
}

/// The slug of text that is already lowercase.
pub fn slug_of_lowercase(lowered: &str) -> (r: String)
    ensures
        r@ == slug_chars(lowered@),
{
    let chars = chars_of(lowered);
    let mut ret_val = String::new();
    let mut prev_c = '_';
    let n = chars.len();
    let mut i: usize = 0;
    while i < n
        invariant
            n == chars@.len(),
            chars@ == lowered@,
            i <= n,
            ret_val@ == slug_chars(chars@.subrange(0, i as int)),
            i == 0 ==> prev_c == '_',
            i > 0 ==> prev_c == conv_spec(chars@[i - 1]),
        decreases n - i,
    {
        let conv_c = conv(chars[i]);
        proof {
            assert(chars@.subrange(0, i + 1).drop_last() =~= chars@.subrange(0, i as int));
        }
        if conv_c != '-' || conv_c != prev_c {
            push_char(&mut ret_val, conv_c);
        }
        prev_c = conv_c;
        i = i + 1;
    }
    assert(chars@.subrange(0, n as int) =~= chars@);
    ret_val
}

/// The slug of a text: lowercased with `str::to_lowercase`, then as [`slug_of_lowercase`].
pub fn slugify(s: &str) -> (r: String)
    ensures
        r@ == slug_chars(spec_to_lowercase(s@)),
{
    let lowered = lowercase(s);
    slug_of_lowercase(lowered.as_str())
}

/// Texts that can be turned into slugs.
pub trait Slug {
    spec fn text(&self) -> Seq<char>;

    /// Whether the text is its own slug.
    fn is_slug(&self) -> (b: bool)
        ensures
            b == (self.text() == slug_chars(spec_to_lowercase(self.text())));

    /// The slug of the text.
    fn to_slug(&self) -> (s: String)
        ensures
            s@ == slug_chars(spec_to_lowercase(self.text()));
}

impl Slug for str {
    open spec fn text(&self) -> Seq<char> {
        self@
    }

    fn is_slug(&self) -> (b: bool) {
        let own = String::from_str(self);
        own == slugify(self)
    }

    fn to_slug(&self) -> (s: String) {
        slugify(self)
    }
}

impl Slug for String {
    open spec fn text(&self) -> Seq<char> {
        self@
    }

    fn is_slug(&self) -> (b: bool) {
        let own = self.clone();
        own == slugify(self.as_str())
    }

    fn to_slug(&self) -> (s: String) {
        slugify(self.as_str())
    }
}

} // verus!
