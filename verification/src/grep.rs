//! The decision at the heart of a grep over a directory walk: given one
//! walked entry's file name and, if it could be read, its text, what the walk
//! reports for it. Walking the directory and reading the files is left to the
//! caller.
use vstd::prelude::*;
use vstd::string::StringSliceAdditionalSpecFns;
use crate::text::{lines, lines_of};
use crate::line_editor::bytes_of;
use crate::regex_support::{BytesPattern, compile_bytes, is_match_bytes, bytes_regex_compiles, bytes_regex_is_match};

verus! {

/// What the walk reports of one file: its name, the line of the first match
/// (or 0), and `"Match"` or `"Error"`.
pub struct Match {
    pub file: String,
    pub line: usize,
    pub text: String,
}

/// A grep filter: the byte-oriented pattern that lines are tested against.
pub struct GrepIter {
    grep: BytesPattern,
}

/// The first line of `ls` that the pattern matches at or after line `i`, or
/// the number of lines.
pub open spec fn first_match_from(pattern: Seq<char>, ls: Seq<Seq<char>>, i: int) -> int
    decreases ls.len() - i,
{
    if i >= ls.len() {
        ls.len() as int
    } else if bytes_regex_is_match(pattern, bytes_of(ls[i])) {
        i
    } else {
        first_match_from(pattern, ls, i + 1)
    }
}

proof fn lemma_first_match_from(pattern: Seq<char>, ls: Seq<Seq<char>>, i: int, k: int)
    requires
        0 <= i <= k <= ls.len(),
        forall|q: int| i <= q < k ==> !bytes_regex_is_match(pattern, bytes_of(#[trigger] ls[q])),
        k == ls.len() || bytes_regex_is_match(pattern, bytes_of(ls[k])),
    ensures
        first_match_from(pattern, ls, i) == k,
    decreases k - i,
{
    if i < k {
        lemma_first_match_from(pattern, ls, i + 1, k);
    }
}

/// Whether `m` is what the walk reports for `file`, whose text is `content`
/// when it could be read, under `pattern`: an unreadable file gives line 0
/// and `"Error"`; a readable one gives its first matching line (as
/// `str::lines` splits it) and `"Match"`, or nothing when no line matches.
pub open spec fn grep_report(pattern: Seq<char>, file: Seq<char>, content: Option<Seq<char>>, m: Option<Match>) -> bool {
    match content {
        None => m matches Some(r) && r.file@ == file && r.line == 0 && r.text@ == seq!['E', 'r', 'r', 'o', 'r'],
        Some(c) => {
            let k = first_match_from(pattern, lines_of(c), 0);
            if k < lines_of(c).len() {
                m matches Some(r) && r.file@ == file && r.line == k && r.text@ == seq!['M', 'a', 't', 'c', 'h']
            } else {
                m is None
            }
        },
    }
}

impl GrepIter {
    /// The text of the pattern.
    pub closed spec fn pattern(&self) -> Seq<char> {
        self.grep.source()
    }

    /// A filter that every line passes: the pattern `.*`. `None` only if the
    /// regex crate refuses that pattern.
    pub fn new() -> (r: Option<Self>)
        ensures
            r is Some == bytes_regex_compiles(".*"@),
            r matches Some(g) ==> g.pattern() == ".*"@,
    {
        proof { reveal_strlit(".*"); }
        GrepIter::new_with_grep(".*")
    }

    /// A filter for the pattern `grep`; `None` when the regex crate refuses it.
    pub fn new_with_grep(grep: &str) -> (r: Option<Self>)
        ensures
            r is Some == bytes_regex_compiles(grep@),
            r matches Some(g) ==> g.pattern() == grep@,
    {
        match compile_bytes(grep) {
            Some(p) => Some(GrepIter { grep: p }),
            None => None,
        }
    }

    /// What the walk reports for one entry: `file` is its name and `content`
    /// its text, or `None` when it could not be read.
    pub fn grep_entry(&self, file: String, content: Option<&str>) -> (m: Option<Match>)
        ensures
            grep_report(self.pattern(), file@, match content { Some(c) => Some(c@), None => None }, m),
    {
        match content {
            None => {
                let text = String::from_str("Error");
                proof { reveal_strlit("Error"); }
                assert(text@ =~= seq!['E', 'r', 'r', 'o', 'r']);
                Some(Match { file, line: 0, text })
            },
            Some(c) => {
                let ls = lines(c);
                let ghost lv = lines_of(c@);
                assert(ls@.len() == lv.len());
                let n = ls.len();
                let mut i: usize = 0;
                while i < n
                    invariant
                        content == Some(c),
                        n == ls@.len(),
                        n == lv.len(),
                        lv == lines_of(c@),
                        ls@.map_values(|l: String| l@) == lv,
                        i <= n,
                        forall|q: int| 0 <= q < i ==> !bytes_regex_is_match(self.pattern(), bytes_of(#[trigger] lv[q])),
                    decreases n - i,
                {
                    let l = ls[i].as_str();
                    assert(l@ == lv[i as int]);
                    if is_match_bytes(&self.grep, l.as_bytes()) {
                        let text = String::from_str("Match");
                        proof {
                            lemma_first_match_from(self.pattern(), lv, 0, i as int);
                            reveal_strlit("Match");
                        }
                        assert(text@ =~= seq!['M', 'a', 't', 'c', 'h']);
                        return Some(Match { file, line: i, text });
                    }
                    i = i + 1;
                }
                proof { lemma_first_match_from(self.pattern(), lv, 0, n as int); }
                None
            },
        }
    }
}

} // verus!
