//! Letter counts and pangram detection, and the character substitution used
//! to build slugs.
use vstd::prelude::*;
use crate::text::chars_of;

verus! {

broadcast use vstd::seq::group_seq_axioms;

/// How many entries are positive.
pub open spec fn positives(counts: Seq<u32>) -> nat
    decreases counts.len(),
{
    if counts.len() == 0 {
        0
    } else {
        positives(counts.drop_last()) + (if counts.last() > 0 { 1nat } else { 0nat })
    }
}

/// Whether the letter counts describe a pangram: exactly 26 entries are
/// positive (one per letter of the alphabet when the counts are per letter).
/// The count runs down from 26 in an `i32`, so more than 2^31 + 26 positive
/// entries are excluded.
pub fn is_pangram(counts: &[u32]) -> (b: bool)
    requires
        positives(counts@) <= 2147483648 + 26,
    ensures
        b == (positives(counts@) == 26),
        counts@.len() == 26 ==> (b <==> forall|k: int| 0 <= k < 26 ==> #[trigger] counts@[k] > 0),
        counts@.len() < 26 ==> !b,
{
    proof { lemma_positives_all(counts@); }
    let mut pangram: i32 = 26;
    let n = counts.len();
    let mut i: usize = 0;
    while i < n
        invariant
            n == counts@.len(),
            i <= n,
            pangram == 26 - positives(counts@.subrange(0, i as int)),
            positives(counts@) <= 2147483648 + 26,
        decreases n - i,
    {
        proof {
            assert(counts@.subrange(0, i + 1).drop_last() =~= counts@.subrange(0, i as int));
            lemma_positives_prefix(counts@, i + 1);
        }
        if counts[i] > 0 {
            pangram = pangram - 1;
        }
        i = i + 1;
    }
    assert(counts@.subrange(0, n as int) =~= counts@);
    pangram == 0
}

/// Law: at most one positive entry per entry, and every entry is positive
/// exactly when the number of positive entries is the length. So 26 letter
/// counts make a pangram exactly when no letter's count is zero.
pub proof fn lemma_positives_all(s: Seq<u32>)
    ensures
        positives(s) <= s.len(),
        (positives(s) == s.len()) <==> (forall|k: int| 0 <= k < s.len() ==> #[trigger] s[k] > 0),
    decreases s.len(),
{
    if s.len() > 0 {
        lemma_positives_all(s.drop_last());
        if positives(s) == s.len() {
            assert forall|k: int| 0 <= k < s.len() implies #[trigger] s[k] > 0 by {
                if k < s.len() - 1 {
                    assert(s.drop_last()[k] == s[k]);
                }
            }
        }
        if forall|k: int| 0 <= k < s.len() ==> #[trigger] s[k] > 0 {
            assert forall|k: int| 0 <= k < s.drop_last().len() implies #[trigger] s.drop_last()[k] > 0 by {
                assert(s[k] > 0);
            }
            assert(s[s.len() - 1] > 0);
        }
    }
}

proof fn lemma_positives_prefix(s: Seq<u32>, k: int)
    requires
        0 <= k <= s.len(),
    ensures
        positives(s.subrange(0, k)) <= positives(s),
    decreases s.len() - k,
{
    if k < s.len() {
        lemma_positives_prefix(s, k + 1);
        assert(s.subrange(0, k + 1).drop_last() =~= s.subrange(0, k));
    } else {
        assert(s.subrange(0, k) =~= s);
    }
}

/// How many times `c` occurs in `s`.
pub open spec fn occurrences(s: Seq<char>, c: char) -> nat
    decreases s.len(),
{
    if s.len() == 0 {
        0
    } else {
        occurrences(s.drop_last(), c) + (if s.last() == c { 1nat } else { 0nat })
    }
}

/// The `k`-th lowercase letter.
pub open spec fn letter(k: int) -> char {
    (('a' as int) + k) as char
}

/// Counts the occurrences of each lowercase letter `a` to `z`. The text must
/// hold nothing else, and no letter may occur more than `u32::MAX` times.
pub fn count_letters(content: &str) -> (counts: [u32; 26])
    requires
        forall|i: int| 0 <= i < content@.len() ==> 'a' <= #[trigger] content@[i] <= 'z',
        forall|k: int| 0 <= k < 26 ==> #[trigger] occurrences(content@, letter(k)) <= u32::MAX,
    ensures
        forall|k: int| 0 <= k < 26 ==> #[trigger] counts@[k] == occurrences(content@, letter(k)),
{
    let chars = chars_of(content);
    let mut counts: [u32; 26] = [0u32; 26];
    let n = chars.len();
    let mut i: usize = 0;
    while i < n
        invariant
            n == chars@.len(),
            chars@ == content@,
            i <= n,
            forall|j: int| 0 <= j < n ==> 'a' <= #[trigger] chars@[j] <= 'z',
            forall|k: int| 0 <= k < 26 ==> #[trigger] occurrences(content@, letter(k)) <= u32::MAX,
            forall|k: int| 0 <= k < 26 ==> #[trigger] counts@[k] == occurrences(chars@.subrange(0, i as int), letter(k)),
        decreases n - i,
    {
        let c = chars[i];
        let idx = (c as u32 - 'a' as u32) as usize;
        proof {
            assert(chars@.subrange(0, i + 1).drop_last() =~= chars@.subrange(0, i as int));
            assert(letter(idx as int) == c);
            lemma_occurrences_prefix(chars@, i + 1, c);
        }
        counts[idx] = counts[idx] + 1;
        proof {
            assert forall|k: int| 0 <= k < 26 implies #[trigger] counts@[k]
                == occurrences(chars@.subrange(0, i + 1), letter(k)) by {
                if k != idx {
                    assert(letter(k) != c);
                }
            }
        }
        i = i + 1;
    }
    assert(chars@.subrange(0, n as int) =~= chars@);
    counts
}

proof fn lemma_occurrences_prefix(s: Seq<char>, k: int, c: char)
    requires
        0 <= k <= s.len(),
    ensures
        occurrences(s.subrange(0, k), c) <= occurrences(s, c),
    decreases s.len() - k,
{
    if k < s.len() {
        lemma_occurrences_prefix(s, k + 1, c);
        assert(s.subrange(0, k + 1).drop_last() =~= s.subrange(0, k));
    } else {
        assert(s.subrange(0, k) =~= s);
    }
}

/// The first position at or after `i` where `c` occurs in `s`, or the length of `s`.
pub open spec fn first_pos(s: Seq<char>, c: char, i: int) -> int
    decreases s.len() - i,
{
    if i >= s.len() {
        s.len() as int
    } else if s[i] == c {
        i
    } else {
        first_pos(s, c, i + 1)
    }
}

proof fn lemma_first_pos(s: Seq<char>, c: char, i: int, k: int)
    requires
        0 <= i <= k <= s.len(),
        forall|j: int| i <= j < k ==> s[j] != c,
        k == s.len() || s[k] == c,
    ensures
        first_pos(s, c, i) == k,
    decreases k - i,
{
    if i < k {
        lemma_first_pos(s, c, i + 1, k);
    }
}

proof fn lemma_first_pos_range(s: Seq<char>, c: char, i: int)
    requires
        0 <= i <= s.len(),
    ensures
        i <= first_pos(s, c, i) <= s.len(),
    decreases s.len() - i,
{
    if i < s.len() && s[i] != c {
        lemma_first_pos_range(s, c, i + 1);
    }
}

/// Accented letters that have a plain substitute.
pub open spec fn accented() -> Seq<char> {
    "àáâäæãåāăąçćčđďèéêëēėęěğǵḧîïíīįìıİłḿñńǹňôöòóœøōõőṕŕřßśšşșťțûüùúūǘůűųẃẍÿýžźż"@
}

/// The plain substitute of each entry of [`accented`], at the same position.
pub open spec fn plain() -> Seq<char> {
    "aaaaaaaaaacccddeeeeeeeegghiiiiiiiilmnnnnoooooooooprrsssssttuuuuuuuuuwxyyzzz"@
}

proof fn lemma_accented_not_ascii()
    ensures
        forall|i: int| 0 <= i < accented().len() ==> (#[trigger] accented()[i]) > '\u{7f}',
{
    reveal_strlit("àáâäæãåāăąçćčđďèéêëēėęěğǵḧîïíīįìıİłḿñńǹňôöòóœøōõőṕŕřßśšşșťțûüùúūǘůűųẃẍÿýžźż");
}

proof fn lemma_plain_lowercase()
    ensures
        forall|i: int| 0 <= i < plain().len() ==> 'a' <= #[trigger] plain()[i] <= 'z',
        plain().len() == accented().len(),
{
    reveal_strlit("aaaaaaaaaacccddeeeeeeeegghiiiiiiiilmnnnnoooooooooprrsssssttuuuuuuuuuwxyyzzz");
    reveal_strlit("àáâäæãåāăąçćčđďèéêëēėęěğǵḧîïíīįìıİłḿñńǹňôöòóœøōõőṕŕřßśšşșťțûüùúūǘůűųẃẍÿýžźż");
}

/// Law: a slug keeps every ASCII letter and digit as it is, turns every other
/// ASCII character into `-`, and only ever writes ASCII letters, digits and `-`.
pub proof fn lemma_conv_laws(c: char)
    ensures
        ('a' <= c <= 'z') || ('A' <= c <= 'Z') || ('0' <= c <= '9') ==> conv_spec(c) == c,
        c <= '\u{7f}' && !(('a' <= c <= 'z') || ('A' <= c <= 'Z') || ('0' <= c <= '9')) ==> conv_spec(c) == '-',
        ('a' <= conv_spec(c) <= 'z') || ('A' <= conv_spec(c) <= 'Z') || ('0' <= conv_spec(c) <= '9')
            || conv_spec(c) == '-',
{
    lemma_accented_not_ascii();
    lemma_plain_lowercase();
    if c <= '\u{7f}' {
        assert forall|j: int| 0 <= j < accented().len() implies accented()[j] != c by {
            assert(accented()[j] > '\u{7f}');
        }
        lemma_first_pos(accented(), c, 0, accented().len() as int);
    }
    let p = first_pos(accented(), c, 0);
    if p < accented().len() {
        assert(0 <= p) by {
            lemma_first_pos_range(accented(), c, 0);
        }
        assert('a' <= plain()[p] <= 'z');
    }
}

pub open spec fn is_ascii_alnum(c: char) -> bool {
    ('0' <= c <= '9') || ('a' <= c <= 'z') || ('A' <= c <= 'Z')
}

/// The substitute of a character in a slug: the plain letter for an accented
/// one, the character itself for an ASCII letter or digit, `-` for anything else.
pub open spec fn conv_spec(c: char) -> char {
    if first_pos(accented(), c, 0) < accented().len() {
        plain()[first_pos(accented(), c, 0)]
    } else if is_ascii_alnum(c) {
        c
    } else {
        '-'
    }
}

/// The slug substitute of one character.
pub fn conv(c: char) -> (r: char)
    ensures
        r == conv_spec(c),
        ('a' <= c <= 'z') || ('A' <= c <= 'Z') || ('0' <= c <= '9') ==> r == c,
        c <= '\u{7f}' && !(('a' <= c <= 'z') || ('A' <= c <= 'Z') || ('0' <= c <= '9')) ==> r == '-',
        ('a' <= r <= 'z') || ('A' <= r <= 'Z') || ('0' <= r <= '9') || r == '-',
{
    proof { lemma_conv_laws(c); }
    let s_in = chars_of("àáâäæãåāăąçćčđďèéêëēėęěğǵḧîïíīįìıİłḿñńǹňôöòóœøōõőṕŕřßśšşșťțûüùúūǘůűųẃẍÿýžźż");
    let s_out = chars_of("aaaaaaaaaacccddeeeeeeeegghiiiiiiiilmnnnnoooooooooprrsssssttuuuuuuuuuwxyyzzz");
    proof {
        reveal_strlit("àáâäæãåāăąçćčđďèéêëēėęěğǵḧîïíīįìıİłḿñńǹňôöòóœøōõőṕŕřßśšşșťțûüùúūǘůűųẃẍÿýžźż");
        reveal_strlit("aaaaaaaaaacccddeeeeeeeegghiiiiiiiilmnnnnoooooooooprrsssssttuuuuuuuuuwxyyzzz");
    }
    assert(s_in@ == accented());
    assert(s_out@ == plain());
    assert(s_in@.len() == s_out@.len());
    let n = s_in.len();
    let mut i: usize = 0;
    while i < n
        invariant
            n == s_in@.len(),
            n == s_out@.len(),
            s_in@ == accented(),
            s_out@ == plain(),
            i <= n,
            forall|j: int| 0 <= j < i ==> #[trigger] s_in@[j] != c,
        decreases n - i,
    {
        if s_in[i] == c {
            proof {
                lemma_first_pos(accented(), c, 0, i as int);
                lemma_conv_laws(c);
            }
            return s_out[i];
        }
        i = i + 1;
    }
    proof {
        lemma_first_pos(accented(), c, 0, n as int);
    }
    if ('0' <= c && c <= '9') || ('a' <= c && c <= 'z') || ('A' <= c && c <= 'Z') {
        c
    } else {
        '-'
    }
}

/// A slug stand-in that answers `"Not Yet Implemented"` for every text (the
/// working slug is [`crate::slug::slugify`]).
pub fn slugify(s: &str) -> (r: String)
    ensures
        r@ == "Not Yet Implemented"@,
{
    String::from_str("Not Yet Implemented")
}

} // verus!
