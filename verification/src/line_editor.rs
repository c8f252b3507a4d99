//! A line editor over a text, with regular-expression search: all matches at
//! once, or lazily one after another.
//!
//! Positions within a line are byte offsets into its UTF-8 encoding, as the
//! `regex` crate reports them.
use vstd::prelude::*;
use vstd::utf8::{encode_utf8, decode_utf8, is_char_boundary, encode_utf8_decode_utf8};
use vstd::string::StringSliceAdditionalSpecFns;
use crate::text::{lines, lines_of};
use crate::regex_support::{Pattern, compile, find_at, find_all, regex_compiles, regex_find_at, regex_find_all};

verus! {

broadcast use vstd::seq::group_seq_axioms;

pub struct LineEditor {
    lines: Vec<String>,
}

/// The bytes of a line.
pub open spec fn bytes_of(l: Seq<char>) -> Seq<u8> {
    encode_utf8(l)
}

/// A line after replacing the bytes from `start` to `end` by `subst`: the
/// characters before byte `start`, then `subst`, then those from byte `end`.
pub open spec fn replaced(l: Seq<char>, start: int, end: int, subst: Seq<char>) -> Seq<char> {
    decode_utf8(bytes_of(l).subrange(0, start)) + subst
        + decode_utf8(bytes_of(l).subrange(end, bytes_of(l).len() as int))
}

impl LineEditor {
    /// The lines, in order.
    pub closed spec fn line_texts(&self) -> Seq<Seq<char>> {
        self.lines@.map_values(|l: String| l@)
    }

    /// An editor over the lines of `s` (as `str::lines` splits them).
    pub fn new(s: String) -> (e: Self)
        ensures
            e.line_texts() == lines_of(s@),
    {
        LineEditor { lines: lines(s.as_str()) }
    }

    /// Every line, in order.
    pub fn all_lines(&self) -> (r: Vec<&str>)
        ensures
            r@.len() == self.line_texts().len(),
            forall|i: int| 0 <= i < r@.len() ==> (#[trigger] r@[i])@ == self.line_texts()[i],
    {
        let n = self.lines.len();
        let mut result: Vec<&str> = Vec::with_capacity(n);
        let mut i: usize = 0;
        while i < n
            invariant
                n == self.lines@.len(),
                i <= n,
                result@.len() == i,
                forall|j: int| 0 <= j < i ==> (#[trigger] result@[j])@ == self.line_texts()[j],
            decreases n - i,
        {
            result.push(self.lines[i].as_str());
            i = i + 1;
        }
        result
    }

    /// Replaces the bytes from `start` to `end` of line `line` by `subst`;
    /// a line number past the end changes nothing. For a line that exists,
    /// both offsets must be character boundaries of it (and so lie within it).
    pub fn replace(&mut self, line: usize, start: usize, end: usize, subst: &str)
        requires
            line < old(self).line_texts().len() ==> is_char_boundary(bytes_of(old(self).line_texts()[line as int]), start as int)
                && is_char_boundary(bytes_of(old(self).line_texts()[line as int]), end as int),
        ensures
            line >= old(self).line_texts().len() ==> final(self).line_texts() == old(self).line_texts(),
            line < old(self).line_texts().len() ==> final(self).line_texts() == old(self).line_texts().update(
                line as int,
                replaced(old(self).line_texts()[line as int], start as int, end as int, subst@),
            ),
    {
        if line < self.lines.len() {
            let new_line = {
                let l = self.lines[line].as_str();
                let (a, _) = l.split_at(start);
                let (_, b) = l.split_at(end);
                proof {
                    encode_utf8_decode_utf8(a@);
                    encode_utf8_decode_utf8(b@);
                }
                let mut s = String::from_str(a);
                s.append(subst);
                s.append(b);
                s
            };
            let ghost before = self.lines@;
            self.lines.set(line, new_line);
            assert(self.line_texts() =~= old(self).line_texts().update(
                line as int,
                replaced(old(self).line_texts()[line as int], start as int, end as int, subst@),
            ));
        }
    }
}

/// One match: the line it is on, its byte range in that line, the matched
/// text, and the replacement chosen for it, if any.
#[derive(Debug)]
pub struct Match<'a> {
    pub line: usize,
    pub start: usize,
    pub end: usize,
    pub text: &'a str,
    pub repl: Option<String>,
}

/// The views of a list of lines.
pub open spec fn line_views<'a>(lines: Seq<&'a str>) -> Seq<Seq<char>> {
    lines.map_values(|l: &'a str| l@)
}

/// Every match of the pattern in the first `n` lines, as (line, start, end),
/// line by line and within a line in the order `find_iter` yields them.
pub open spec fn all_matches(lines: Seq<Seq<char>>, pattern: Seq<char>, n: int) -> Seq<(int, int, int)>
    decreases n,
{
    if n <= 0 {
        Seq::empty()
    } else {
        all_matches(lines, pattern, n - 1) + regex_find_all(pattern, lines[n - 1]).map_values(
            |m: (int, int)| (n - 1, m.0, m.1))
    }
}

/// Whether a match record agrees with the lines: its text is the bytes of its
/// line between its offsets.
pub open spec fn text_agrees<'a>(lines: Seq<Seq<char>>, m: Match<'a>) -> bool {
    &&& 0 <= m.line < lines.len()
    &&& m.start <= m.end <= bytes_of(lines[m.line as int]).len()
    &&& m.text.spec_bytes() == bytes_of(lines[m.line as int]).subrange(m.start as int, m.end as int)
}

/// Whether the match records are exactly the matches of the pattern, with no replacement chosen.
pub open spec fn matches_found<'a>(lines: Seq<Seq<char>>, pattern: Seq<char>, ms: Seq<Match<'a>>) -> bool {
    let all = all_matches(lines, pattern, lines.len() as int);
    &&& ms.len() == all.len()
    &&& forall|k: int| 0 <= k < ms.len() ==> {
        &&& (#[trigger] ms[k]).line == all[k].0
        &&& ms[k].start == all[k].1
        &&& ms[k].end == all[k].2
        &&& ms[k].repl is None
        &&& text_agrees(lines, ms[k])
    }
}

/// Every match of a compiled pattern in the lines.
fn find_in<'a>(lines: &Vec<&'a str>, p: &Pattern) -> (r: Vec<Match<'a>>)
    ensures
        matches_found(line_views(lines@), p.source(), r@),
{
    let ghost lv = line_views(lines@);
    let mut matches: Vec<Match<'a>> = Vec::new();
    let n = lines.len();
    let mut line_idx: usize = 0;
    while line_idx < n
        invariant
            n == lines@.len(),
            lv == line_views(lines@),
            line_idx <= n,
            matches@.len() == all_matches(lv, p.source(), line_idx as int).len(),
            forall|k: int| 0 <= k < matches@.len() ==> {
                &&& (#[trigger] matches@[k]).line == all_matches(lv, p.source(), line_idx as int)[k].0
                &&& matches@[k].start == all_matches(lv, p.source(), line_idx as int)[k].1
                &&& matches@[k].end == all_matches(lv, p.source(), line_idx as int)[k].2
                &&& matches@[k].repl is None
                &&& text_agrees(lv, matches@[k])
            },
        decreases n - line_idx,
    {
        let line = lines[line_idx];
        let found = find_all(p, line);
        let ghost before = matches@;
        let ghost prev_all = all_matches(lv, p.source(), line_idx as int);
        let ghost here = regex_find_all(p.source(), lv[line_idx as int]);
        assert(lv[line_idx as int] == line@);
        let nf = found.len();
        let mut k: usize = 0;
        while k < nf
            invariant
                nf == found@.len(),
                nf == here.len(),
                n == lines@.len(),
                lv == line_views(lines@),
                line_idx < n,
                line == lines@[line_idx as int],
                lv[line_idx as int] == line@,
                here == regex_find_all(p.source(), line@),
                forall|q: int| 0 <= q < found@.len() ==> {
                    let (s, e, text) = #[trigger] found@[q];
                    &&& here[q] == (s as int, e as int)
                    &&& s <= e <= line.spec_bytes().len()
                    &&& text.spec_bytes() == line.spec_bytes().subrange(s as int, e as int)
                },
                k <= nf,
                matches@.len() == before.len() + k,
                forall|q: int| 0 <= q < before.len() ==> #[trigger] matches@[q] == before[q],
                forall|q: int| 0 <= q < k ==> {
                    &&& (#[trigger] matches@[before.len() + q]).line == line_idx
                    &&& matches@[before.len() + q].start == here[q].0
                    &&& matches@[before.len() + q].end == here[q].1
                    &&& matches@[before.len() + q].repl is None
                    &&& text_agrees(lv, matches@[before.len() + q])
                },
            decreases nf - k,
        {
            let (s, e, text) = found[k];
            matches.push(Match { line: line_idx, start: s, end: e, text, repl: None });
            k = k + 1;
        }
        proof {
            let now_all = all_matches(lv, p.source(), line_idx + 1);
            assert(now_all == prev_all + here.map_values(|m: (int, int)| (line_idx as int, m.0, m.1)));
            assert forall|q: int| 0 <= q < matches@.len() implies {
                &&& (#[trigger] matches@[q]).line == now_all[q].0
                &&& matches@[q].start == now_all[q].1
                &&& matches@[q].end == now_all[q].2
                &&& matches@[q].repl is None
                &&& text_agrees(lv, matches@[q])
            } by {
                if q >= before.len() {
                    let r = q - before.len();
                    assert(matches@[before.len() + r] == matches@[q]);
                }
            }
        }
        line_idx = line_idx + 1;
    }
    matches
}

/// Every match of `pattern` in the lines, line by line. The pattern must
/// compile.
fn find<'a>(lines: &Vec<&'a str>, pattern: &'a str) -> (r: Vec<Match<'a>>)
    requires
        regex_compiles(pattern@),
    ensures
        matches_found(line_views(lines@), pattern@, r@),
{
    match compile(pattern) {
        Some(p) => find_in(lines, &p),
        None => vstd::pervasive::unreached(),
    }
}

/// Whether `fun` may turn `before` into `after` (answering either way).
pub open spec fn applied<'a, F: Fn(Match<'a>) -> (Match<'a>, bool)>(fun: F, before: Match<'a>, after: Match<'a>) -> bool {
    exists|accepted: bool| call_ensures(fun, (before,), (after, accepted))
}

pub struct FindReplace<'a> {
    lines: Vec<&'a str>,
    pattern: String,
    matches: Vec<Match<'a>>,
}

impl<'a> FindReplace<'a> {
    pub closed spec fn lines_view(&self) -> Seq<Seq<char>> {
        line_views(self.lines@)
    }

    pub closed spec fn pattern_view(&self) -> Seq<char> {
        self.pattern@
    }

    pub closed spec fn found(&self) -> Seq<Match<'a>> {
        self.matches@
    }

    /// Finds every match of `pattern` in the lines. The pattern must compile;
    /// see [`FindReplace::try_new`] for a version that checks.
    pub fn new(lines: Vec<&'a str>, pattern: &'a str) -> (fr: FindReplace<'a>)
        requires
            regex_compiles(pattern@),
        ensures
            fr.lines_view() == line_views(lines@),
            fr.pattern_view() == pattern@,
            matches_found(line_views(lines@), pattern@, fr.found()),
    {
        let matches = find(&lines, pattern);
        FindReplace { lines, pattern: String::from_str(pattern), matches }
    }

    /// As [`FindReplace::new`] when the pattern compiles, `None` otherwise.
    pub fn try_new(lines: Vec<&'a str>, pattern: &'a str) -> (r: Option<FindReplace<'a>>)
        ensures
            r is Some == regex_compiles(pattern@),
            r matches Some(fr) ==> fr.lines_view() == line_views(lines@) && fr.pattern_view() == pattern@
                && matches_found(line_views(lines@), pattern@, fr.found()),
    {
        match compile(pattern) {
            Some(_) => Some(Self::new(lines, pattern)),
            None => None,
        }
    }

    /// All the matches found.
    pub fn matches(&self) -> (r: &Vec<Match<'a>>)
        ensures
            r@ == self.found(),
    {
        &self.matches
    }

    /// Passes every match, in order, to `fun`, which returns the match as it
    /// wants it kept (typically with a replacement chosen) and whether it
    /// accepts it; the answers are not used.
    pub fn apply<F: Fn(Match<'a>) -> (Match<'a>, bool)>(&mut self, fun: F)
        requires
            forall|m: Match<'a>| #[trigger] call_requires(fun, (m,)),
        ensures
            final(self).lines_view() == old(self).lines_view(),
            final(self).pattern_view() == old(self).pattern_view(),
            final(self).found().len() == old(self).found().len(),
            forall|k: int| 0 <= k < final(self).found().len() ==>
                #[trigger] applied(fun, old(self).found()[k], final(self).found()[k]),
    {
        let mut ms: Vec<Match<'a>> = Vec::new();
        std::mem::swap(&mut ms, &mut self.matches);
        let ghost orig = ms@;
        let n = ms.len();
        let mut done: Vec<Match<'a>> = Vec::new();
        let mut i: usize = 0;
        while i < n
            invariant
                n == orig.len(),
                orig == old(self).matches@,
                self.lines == old(self).lines,
                self.pattern == old(self).pattern,
                forall|m: Match<'a>| #[trigger] call_requires(fun, (m,)),
                i <= n,
                ms@ == orig.subrange(i as int, n as int),
                done@.len() == i,
                forall|k: int| 0 <= k < i ==> #[trigger] applied(fun, orig[k], done@[k]),
            decreases n - i,
        {
            let m = ms.remove(0);
            assert(m == orig[i as int]);
            let (kept, accepted) = fun(m);
            let ghost before = done@;
            done.push(kept);
            assert forall|k: int| 0 <= k < i + 1 implies #[trigger] applied(fun, orig[k], done@[k]) by {
                if k < i {
                    assert(done@[k] == before[k]);
                } else {
                    assert(call_ensures(fun, (orig[k],), (done@[k], accepted)));
                }
            }
            assert(ms@ =~= orig.subrange(i + 1, n as int));
            i = i + 1;
        }
        self.matches = done;
    }
}


/// Where a lazy search last reported a match: its line and the byte offset
/// where it starts.
#[derive(Debug, Clone, Copy)]
pub struct FinderPos {
    pub line: usize,
    pub offset: usize,
}

/// A lazy search: every call of [`LazyFinder::next`] reports the next match,
/// line by line and within a line in the order `find_iter` yields them, which
/// is the order of [`all_matches`].
pub struct LazyFinder<'a> {
    lines: Vec<&'a str>,
    pattern: String,
    line: usize,
    taken: usize,
    pos: Option<FinderPos>,
}

proof fn lemma_all_matches_prefix(lines: Seq<Seq<char>>, pattern: Seq<char>, n: int, m: int)
    requires
        0 <= n <= m,
    ensures
        all_matches(lines, pattern, n).len() <= all_matches(lines, pattern, m).len(),
        forall|k: int| 0 <= k < all_matches(lines, pattern, n).len() ==>
            #[trigger] all_matches(lines, pattern, m)[k] == all_matches(lines, pattern, n)[k],
    decreases m - n,
{
    if n < m {
        lemma_all_matches_prefix(lines, pattern, n, m - 1);
    }
}

impl<'a> LazyFinder<'a> {
    pub closed spec fn lines_view(&self) -> Seq<Seq<char>> {
        line_views(self.lines@)
    }

    pub closed spec fn pattern_view(&self) -> Seq<char> {
        self.pattern@
    }

    /// Where the last reported match lies, if one was reported.
    pub closed spec fn position(&self) -> Option<FinderPos> {
        self.pos
    }

    /// How many matches have been reported so far: the matches of the lines
    /// already passed, and those taken from the current line.
    pub closed spec fn reported(&self) -> int {
        all_matches(self.lines_view(), self.pattern_view(), self.line as int).len() + self.taken
    }

    /// Every match of the pattern in the lines, in reporting order.
    pub open spec fn all(&self) -> Seq<(int, int, int)> {
        all_matches(self.lines_view(), self.pattern_view(), self.lines_view().len() as int)
    }

    /// The search stands on a line (or past the last one) and has taken no
    /// more than that line's matches.
    pub closed spec fn wf(&self) -> bool {
        &&& self.line <= self.lines@.len()
        &&& self.line < self.lines@.len() ==> self.taken <= regex_find_all(self.pattern@, self.lines_view()[self.line as int]).len()
        &&& self.line == self.lines@.len() ==> self.taken == 0
    }

    proof fn lemma_reported_bound(&self)
        requires
            self.wf(),
        ensures
            0 <= self.reported() <= self.all().len(),
    {
        let lv = self.lines_view();
        let pat = self.pattern_view();
        assert(lv.len() == self.lines@.len());
        if self.line < self.lines@.len() {
            lemma_all_matches_prefix(lv, pat, self.line + 1, lv.len() as int);
        }
    }

    /// A lazy search for `pattern` over the lines, starting at the top.
    pub fn new(lines: Vec<&'a str>, pattern: &'a str) -> (f: Self)
        ensures
            f.wf(),
            f.lines_view() == line_views(lines@),
            f.pattern_view() == pattern@,
            f.reported() == 0,
            f.position() is None,
    {
        LazyFinder { lines, pattern: String::from_str(pattern), line: 0, taken: 0, pos: None }
    }

    /// The next match: the match of [`LazyFinder::all`] at the number of
    /// matches reported so far, with its absolute line number; it is recorded
    /// as the position. `None`, with nothing changed, once every match has
    /// been reported. The pattern must compile; see [`LazyFinder::try_next`]
    /// for a version that checks.
    pub fn next(&mut self) -> (r: Option<Match<'a>>)
        requires
            old(self).wf(),
            regex_compiles(old(self).pattern_view()),
        ensures
            final(self).wf(),
            final(self).lines_view() == old(self).lines_view(),
            final(self).pattern_view() == old(self).pattern_view(),
            0 <= old(self).reported() <= old(self).all().len(),
            old(self).reported() < old(self).all().len() ==> {
                let hit = old(self).all()[old(self).reported()];
                &&& r matches Some(m)
                &&& m.line == hit.0
                &&& m.start == hit.1
                &&& m.end == hit.2
                &&& m.repl is None
                &&& text_agrees(old(self).lines_view(), m)
                &&& final(self).reported() == old(self).reported() + 1
                &&& final(self).position() == Some(FinderPos { line: m.line, offset: m.start })
            },
            old(self).reported() == old(self).all().len() ==> r is None
                && final(self).reported() == old(self).reported()
                && final(self).position() == old(self).position(),
    {
        proof { self.lemma_reported_bound(); }
        let p = match compile(self.pattern.as_str()) {
            Some(p) => p,
            None => vstd::pervasive::unreached(),
        };
        let ghost lv = self.lines_view();
        let ghost pat = self.pattern_view();
        let ghost total = self.all().len();
        let ghost r0 = self.reported();
        let n = self.lines.len();
        while self.line < n
            invariant
                n == self.lines@.len(),
                lv == self.lines_view(),
                lv.len() == n,
                pat == self.pattern_view(),
                p.source() == pat,
                lv == old(self).lines_view(),
                pat == old(self).pattern_view(),
                self.pos == old(self).pos,
                total == all_matches(lv, pat, n as int).len(),
                r0 == old(self).reported(),
                self.wf(),
                self.reported() == r0,
            decreases n - self.line, 
        {
            let l = self.line;
            let hay = self.lines[l];
            assert(lv[l as int] == hay@);
            let found = find_all(&p, hay);
            if self.taken < found.len() {
                let (s, e, text) = found[self.taken];
                let ghost k = self.taken as int;
                proof {
                    let here = regex_find_all(pat, lv[l as int]);
                    let before = all_matches(lv, pat, l as int);
                    assert(all_matches(lv, pat, l + 1) == before + here.map_values(
                        |m: (int, int)| (l as int, m.0, m.1)));
                    assert(all_matches(lv, pat, l + 1)[before.len() + k] == (l as int, s as int, e as int));
                    lemma_all_matches_prefix(lv, pat, l + 1, n as int);
                }
                self.taken = self.taken + 1;
                self.pos = Some(FinderPos { line: l, offset: s });
                return Some(Match { line: l, start: s, end: e, text, repl: None });
            }
            proof {
                let here = regex_find_all(pat, lv[l as int]);
                assert(all_matches(lv, pat, l + 1).len() == all_matches(lv, pat, l as int).len() + here.len());
            }
            self.line = self.line + 1;
            self.taken = 0;
        }
        None
    }

    /// As [`LazyFinder::next`] when the pattern compiles (wrapped in `Some`);
    /// `None`, with nothing changed, when it does not.
    pub fn try_next(&mut self) -> (r: Option<Option<Match<'a>>>)
        requires
            old(self).wf(),
        ensures
            r is Some == regex_compiles(old(self).pattern_view()),
            r is None ==> *final(self) == *old(self),
            final(self).wf(),
            final(self).lines_view() == old(self).lines_view(),
            final(self).pattern_view() == old(self).pattern_view(),
            r matches Some(inner) ==> {
                &&& old(self).reported() < old(self).all().len() ==> {
                    let hit = old(self).all()[old(self).reported()];
                    &&& inner matches Some(m)
                    &&& m.line == hit.0
                    &&& m.start == hit.1
                    &&& m.end == hit.2
                    &&& m.repl is None
                    &&& text_agrees(old(self).lines_view(), m)
                    &&& final(self).reported() == old(self).reported() + 1
                    &&& final(self).position() == Some(FinderPos { line: m.line, offset: m.start })
                }
                &&& old(self).reported() == old(self).all().len() ==> inner is None
                    && final(self).reported() == old(self).reported()
                    && final(self).position() == old(self).position()
            },
    {
        match compile(self.pattern.as_str()) {
            Some(_) => Some(self.next()),
            None => None,
        }
    }
}

/// The next match an iterating search reports from line `line`, byte
/// `offs` on: the first match of the current line at or after `offs`, else the
/// first match of a later line, as (line, start, end); `None` past the last line.
pub open spec fn next_match(lines: Seq<Seq<char>>, pattern: Seq<char>, line: int, offs: int) -> Option<(int, int, int)>
    decreases lines.len() - line,
{
    if line < 0 || line >= lines.len() {
        None
    } else {
        match regex_find_at(pattern, lines[line], offs) {
            Some(m) => Some((line, m.0, m.1)),
            None => next_match(lines, pattern, line + 1, 0),
        }
    }
}

/// An iterating search: every call reports the next match after the last one.
pub struct FindIter<'a> {
    lines: Vec<&'a str>,
    re: Pattern,
    line: usize,
    offs: usize,
}

impl<'a> FindIter<'a> {
    pub closed spec fn lines_view(&self) -> Seq<Seq<char>> {
        line_views(self.lines@)
    }

    pub closed spec fn pattern_view(&self) -> Seq<char> {
        self.re.source()
    }

    /// The line the search stands on.
    pub closed spec fn line(&self) -> int {
        self.line as int
    }

    /// The byte offset in that line where the search goes on.
    pub closed spec fn offs(&self) -> int {
        self.offs as int
    }

    /// The search stands on a line, or just past the last one, and inside its line.
    pub open spec fn wf(&self) -> bool {
        &&& 0 <= self.line() <= self.lines_view().len()
        &&& self.line() < self.lines_view().len() ==> self.offs() <= bytes_of(self.lines_view()[self.line()]).len()
    }

    /// A search for `pattern` from the start of the first line. The pattern
    /// must compile; see [`FindIter::try_new`] for a version that checks.
    pub fn new(lines: Vec<&'a str>, pattern: &str) -> (f: Self)
        requires
            regex_compiles(pattern@),
        ensures
            f.wf(),
            f.lines_view() == line_views(lines@),
            f.pattern_view() == pattern@,
            f.line() == 0,
            f.offs() == 0,
    {
        match Self::try_new(lines, pattern) {
            Some(f) => f,
            None => vstd::pervasive::unreached(),
        }
    }

    /// As [`FindIter::new`] when the pattern compiles, `None` otherwise.
    pub fn try_new(lines: Vec<&'a str>, pattern: &str) -> (r: Option<Self>)
        ensures
            r is Some == regex_compiles(pattern@),
            r matches Some(f) ==> f.wf() && f.lines_view() == line_views(lines@) && f.pattern_view() == pattern@
                && f.line() == 0 && f.offs() == 0,
    {
        match compile(pattern) {
            Some(re) => Some(FindIter { lines, re, line: 0, offs: 0 }),
            None => None,
        }
    }

    /// The next match, as [`next_match`] gives it; the search then goes on
    /// from the end of that match. `None` once past the last line.
    pub fn next(&mut self) -> (r: Option<Match<'a>>)
        requires
            old(self).wf(),
        ensures
            final(self).wf(),
            final(self).lines_view() == old(self).lines_view(),
            final(self).pattern_view() == old(self).pattern_view(),
            match next_match(old(self).lines_view(), old(self).pattern_view(), old(self).line(), old(self).offs()) {
                Some((l, s, e)) => {
                    &&& r matches Some(m)
                    &&& m.line == l
                    &&& m.start == s
                    &&& m.end == e
                    &&& m.repl is None
                    &&& text_agrees(old(self).lines_view(), m)
                    &&& final(self).line() == l
                    &&& final(self).offs() == e
                },
                None => {
                    &&& r is None
                    &&& final(self).line() == old(self).lines_view().len()
                },
            },
    {
        let ghost lv = self.lines_view();
        let ghost pat = self.pattern_view();
        let ghost l0 = self.line();
        let ghost o0 = self.offs();
        let n = self.lines.len();
        while self.line < n
            invariant
                n == self.lines@.len(),
                lv == self.lines_view(),
                lv.len() == n,
                pat == self.pattern_view(),
                lv == old(self).lines_view(),
                pat == old(self).pattern_view(),
                l0 == old(self).line(),
                o0 == old(self).offs(),
                self.wf(),
                next_match(lv, pat, self.line(), self.offs()) == next_match(lv, pat, l0, o0),
            decreases n - self.line,
        {
            let hay = self.lines[self.line];
            assert(lv[self.line as int] == hay@);
            match find_at(&self.re, hay, self.offs) {
                Some((start, end, text)) => {
                    let m = Match { line: self.line, start, end, text, repl: None };
                    self.offs = end;
                    return Some(m);
                },
                None => {
                    self.line = self.line + 1;
                    self.offs = 0;
                },
            }
        }
        None
    }
}

} // verus!
