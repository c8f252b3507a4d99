//! The "make ten" game: every arrangement of a number's digits is combined
//! with every sequence of four operators, and the resulting expressions are
//! evaluated left to right to find the ones worth exactly 10.
use vstd::prelude::*;
use vstd::string::StringSliceAdditionalSpecFns;
use itertools::Itertools;
use crate::text::{chars_of, push_char, push_str};
use crate::battleship::is_digit;

verus! {

broadcast use vstd::seq::group_seq_axioms;

/// The number of threads the expressions are spread over.
pub const NUM_THREADS: u8 = 4;

/// Every word of length `n` over `symbols`, ordered by the first symbol's
/// position in `symbols`, then by the rest of the word in the same order.
pub open spec fn words(symbols: Seq<char>, n: nat) -> Seq<Seq<char>>
    decreases n,
{
    if n == 0 {
        seq![Seq::<char>::empty()]
    } else {
        prefixed_all(symbols, words(symbols, (n - 1) as nat))
    }
}

/// For each symbol in order, the given words with that symbol in front.
pub open spec fn prefixed_all(symbols: Seq<char>, rest: Seq<Seq<char>>) -> Seq<Seq<char>>
    decreases symbols.len(),
{
    if symbols.len() == 0 {
        Seq::empty()
    } else {
        prefixed_all(symbols.drop_last(), rest) + rest.map_values(|w: Seq<char>| seq![symbols.last()] + w)
    }
}

/// The views of a list of strings.
pub open spec fn texts(v: Seq<String>) -> Seq<Seq<char>> {
    v.map_values(|s: String| s@)
}

/// Every word of length `n` over `symbols` (`n` operators chosen with repetition).
pub fn mk_ops(symbols: &[char], n: usize) -> (r: Vec<String>)
    ensures
        texts(r@) == words(symbols@, n as nat),
    decreases n,
{
    if n == 0 {
        let mut v: Vec<String> = Vec::new();
        v.push(String::new());
        assert(texts(v@) =~= words(symbols@, 0));
        return v;
    }
    let mut result: Vec<String> = Vec::new();
    let rest = mk_ops(symbols, n - 1);
    let ghost rest_w = words(symbols@, (n - 1) as nat);
    let ns = symbols.len();
    let mut k: usize = 0;
    while k < ns
        invariant
            ns == symbols@.len(),
            k <= ns,
            texts(rest@) == rest_w,
            texts(result@) == prefixed_all(symbols@.subrange(0, k as int), rest_w),
        decreases ns - k,
    {
        let symbol = symbols[k];
        let ghost before = texts(result@);
        let nr = rest.len();
        let mut j: usize = 0;
        while j < nr
            invariant
                nr == rest@.len(),
                texts(rest@) == rest_w,
                j <= nr,
                texts(result@) == before + rest_w.subrange(0, j as int).map_values(|w: Seq<char>| seq![symbol] + w),
            decreases nr - j,
        {
            let mut s = String::new();
            push_char(&mut s, symbol);
            push_str(&mut s, rest[j].as_str());
            assert(rest@[j as int]@ == rest_w[j as int]);
            assert(s@ =~= seq![symbol] + rest_w[j as int]);
            let ghost prev_r = result@;
            result.push(s);
            proof {
                assert(texts(result@) =~= texts(prev_r).push(s@));
                assert(rest_w.subrange(0, j + 1).map_values(|w: Seq<char>| seq![symbol] + w)
                    =~= rest_w.subrange(0, j as int).map_values(|w: Seq<char>| seq![symbol] + w).push(seq![symbol] + rest_w[j as int]));
                assert(texts(result@) =~= before + rest_w.subrange(0, j + 1).map_values(|w: Seq<char>| seq![symbol] + w));
            }
            j = j + 1;
        }
        proof {
            assert(rest_w.subrange(0, nr as int) =~= rest_w);
            assert(symbols@.subrange(0, k + 1).drop_last() =~= symbols@.subrange(0, k as int));
            assert(symbols@.subrange(0, k + 1).last() == symbol);
        }
        k = k + 1;
    }
    assert(symbols@.subrange(0, ns as int) =~= symbols@);
    result
}

/// What `Itertools::permutations(k)` yields for the given items: every
/// arrangement of `k` of them, in the order of the crate's iterator.
pub uninterp spec fn spec_permutations(items: Seq<char>, k: nat) -> Seq<Seq<char>>;

/// Whether `a` lists `k` of the items taken at distinct positions.
pub open spec fn is_arrangement(items: Seq<char>, k: nat, a: Seq<char>) -> bool {
    exists|idx: Seq<int>| {
        &&& idx.len() == k
        &&& idx.no_duplicates()
        &&& forall|j: int| 0 <= j < k ==> 0 <= #[trigger] idx[j] < items.len()
        &&& a == idx.map_values(|p: int| items[p])
    }
}

/// Collects `items.into_iter().permutations(k)`. The result is named; as the
/// crate documents, each yielded vector lists `k` of the items taken at
/// distinct positions.
#[verifier::external_body]
fn permutations(items: Vec<char>, k: usize) -> (r: Vec<Vec<char>>)
    ensures
        r@.len() == spec_permutations(items@, k as nat).len(),
        forall|i: int| 0 <= i < r@.len() ==> (#[trigger] r@[i])@ == spec_permutations(items@, k as nat)[i],
        forall|i: int| 0 <= i < r@.len() ==> (#[trigger] r@[i])@.len() == k,
        forall|i: int| 0 <= i < r@.len() ==> is_arrangement(items@, k as nat, (#[trigger] r@[i])@),
{
    items.into_iter().permutations(k).collect()
}

/// The digits with the operators placed between them: each digit is followed
/// by the operator at its position while operators are left.
pub open spec fn interleave(digits: Seq<char>, ops: Seq<char>) -> Seq<char>
    decreases digits.len(),
{
    if digits.len() == 0 {
        Seq::empty()
    } else {
        let i = digits.len() - 1;
        interleave(digits.drop_last(), ops) + seq![digits.last()]
            + (if i < ops.len() { seq![ops[i]] } else { Seq::empty() })
    }
}

/// Law: interleaving puts digit `i` at position `i + min(i, ops.len())` and,
/// while operators remain, operator `i` right after it; so each digit is
/// followed by the operator at its position, in order, and the result is as
/// long as the digits plus the operators used.
pub proof fn lemma_interleave_positions(digits: Seq<char>, ops: Seq<char>)
    ensures
        interleave(digits, ops).len() == digits.len() + (if digits.len() <= ops.len() { digits.len() } else { ops.len() }),
        forall|i: int| 0 <= i < digits.len() ==>
            interleave(digits, ops)[i + (if i <= ops.len() { i } else { ops.len() as int })] == #[trigger] digits[i],
        forall|i: int| 0 <= i < digits.len() && i < ops.len() ==>
            interleave(digits, ops)[2 * i + 1] == #[trigger] ops[i],
    decreases digits.len(),
{
    if digits.len() > 0 {
        let pd = digits.drop_last();
        lemma_interleave_positions(pd, ops);
        let prev = interleave(pd, ops);
        let k = digits.len() - 1;
        let all = interleave(digits, ops);
        assert forall|i: int| 0 <= i < digits.len() implies
            all[i + (if i <= ops.len() { i } else { ops.len() as int })] == #[trigger] digits[i] by {
            if i < k {
                assert(pd[i] == digits[i]);
            }
        }
        assert forall|i: int| 0 <= i < digits.len() && i < ops.len() implies all[2 * i + 1] == #[trigger] ops[i] by {
            if i < k {
                assert(pd[i] == digits[i]);
            }
        }
    }
}

/// For each arrangement in order, its interleaving with each operator sequence in order.
pub open spec fn combined(arrangements: Seq<Seq<char>>, ops: Seq<Seq<char>>) -> Seq<Seq<char>>
    decreases arrangements.len(),
{
    if arrangements.len() == 0 {
        Seq::empty()
    } else {
        combined(arrangements.drop_last(), ops) + ops.map_values(|o: Seq<char>| interleave(arrangements.last(), o))
    }
}

/// The four operators of the game.
pub open spec fn operators() -> Seq<char> {
    seq!['+', '-', '*', '/']
}

fn interleave_one(digits: &Vec<char>, ops: &String) -> (s: String)
    ensures
        s@ == interleave(digits@, ops@),
{
    let op_chars = chars_of(ops.as_str());
    let mut s = String::new();
    let n = digits.len();
    let mut i: usize = 0;
    while i < n
        invariant
            n == digits@.len(),
            op_chars@ == ops@,
            i <= n,
            s@ == interleave(digits@.subrange(0, i as int), ops@),
        decreases n - i,
    {
        push_char(&mut s, digits[i]);
        if i < op_chars.len() {
            push_char(&mut s, op_chars[i]);
        }
        proof {
            assert(digits@.subrange(0, i + 1).drop_last() =~= digits@.subrange(0, i as int));
        }
        i = i + 1;
    }
    assert(digits@.subrange(0, n as int) =~= digits@);
    s
}

/// Combines each arrangement of digits with each operator sequence, in order.
pub fn combine(arrangements: &Vec<Vec<char>>, ops: &Vec<String>) -> (r: Vec<String>)
    ensures
        texts(r@) == combined(arrangements@.map_values(|a: Vec<char>| a@), texts(ops@)),
{
    let ghost arr = arrangements@.map_values(|a: Vec<char>| a@);
    let ghost ow = texts(ops@);
    let mut result: Vec<String> = Vec::new();
    let na = arrangements.len();
    let mut a: usize = 0;
    while a < na
        invariant
            na == arrangements@.len(),
            arr == arrangements@.map_values(|a: Vec<char>| a@),
            ow == texts(ops@),
            a <= na,
            texts(result@) == combined(arr.subrange(0, a as int), ow),
        decreases na - a,
    {
        let ghost before = texts(result@);
        let no = ops.len();
        let mut o: usize = 0;
        while o < no
            invariant
                no == ops@.len(),
                ow == texts(ops@),
                o <= no,
                a < arrangements@.len(),
                texts(result@) == before + ow.subrange(0, o as int).map_values(
                    |w: Seq<char>| interleave(arrangements@[a as int]@, w)),
            decreases no - o,
        {
            let s = interleave_one(&arrangements[a], &ops[o]);
            let ghost prev_r = result@;
            result.push(s);
            proof {
                assert(texts(result@) =~= texts(prev_r).push(s@));
                assert(ops@[o as int]@ == ow[o as int]);
                assert(ow.subrange(0, o + 1).map_values(|w: Seq<char>| interleave(arrangements@[a as int]@, w))
                    =~= ow.subrange(0, o as int).map_values(|w: Seq<char>| interleave(arrangements@[a as int]@, w))
                        .push(interleave(arrangements@[a as int]@, ow[o as int])));
                assert(texts(result@) =~= before + ow.subrange(0, o + 1).map_values(
                    |w: Seq<char>| interleave(arrangements@[a as int]@, w)));
            }
            o = o + 1;
        }
        proof {
            assert(ow.subrange(0, no as int) =~= ow);
            assert(arr.subrange(0, a + 1).drop_last() =~= arr.subrange(0, a as int));
        }
        a = a + 1;
    }
    assert(arr.subrange(0, na as int) =~= arr);
    result
}

/// Every expression of the game for the number `s`: each arrangement (from
/// `Itertools::permutations`) of as many of its characters as `s` has bytes,
/// which for a text of ASCII digits is all of them, interleaved with each of
/// the 256 sequences of four operators.
pub fn prepare(s: &str) -> (r: Vec<String>)
    ensures
        texts(r@) == combined(spec_permutations(s@, s.spec_bytes().len()), words(operators(), 4)),
{
    let symbols: [char; 4] = ['+', '-', '*', '/'];
    let ops = mk_ops(&symbols, 4);
    assert(symbols@ =~= operators());
    let digits = chars_of(s);
    let n = s.as_bytes().len();
    assert(digits@ == s@);
    assert(n as nat == s.spec_bytes().len());
    let arrangements = permutations(digits, n);
    let r = combine(&arrangements, &ops);
    assert(arrangements@.map_values(|a: Vec<char>| a@) =~= spec_permutations(s@, s.spec_bytes().len()));
    r
}


/// The value of a decimal digit character.
pub open spec fn digit_value(c: char) -> int {
    c as int - '0' as int
}

pub open spec fn is_operator(c: char) -> bool {
    c == '+' || c == '-' || c == '*' || c == '/'
}

/// Division truncating toward zero, as `i32` division does, for a positive divisor.
pub open spec fn trunc_div(a: int, b: int) -> int {
    if a >= 0 { a / b } else { -((-a) / b) }
}

pub open spec fn in_i32(x: int) -> bool {
    i32::MIN <= x <= i32::MAX
}

/// Evaluates an expression left to right from the running total `tot`:
/// an operator applies to the digit after it, a digit on its own is added.
/// `None` where the expression cannot be evaluated: a missing digit or a
/// non-digit where a digit is expected, a division by zero, or a total
/// leaving the `i32` range.
pub open spec fn eval_from(cs: Seq<char>, tot: int) -> Option<int>
    decreases cs.len(),
{
    if cs.len() == 0 {
        Some(tot)
    } else if is_operator(cs[0]) {
        if cs.len() < 2 || !is_digit(cs[1]) {
            None
        } else {
            let d = digit_value(cs[1]);
            if cs[0] == '/' && d == 0 {
                None
            } else {
                let next = if cs[0] == '+' {
                    tot + d
                } else if cs[0] == '-' {
                    tot - d
                } else if cs[0] == '*' {
                    tot * d
                } else {
                    trunc_div(tot, d)
                };
                if in_i32(next) {
                    eval_from(cs.subrange(2, cs.len() as int), next)
                } else {
                    None
                }
            }
        }
    } else if !is_digit(cs[0]) {
        None
    } else {
        let next = tot + digit_value(cs[0]);
        if in_i32(next) {
            eval_from(cs.drop_first(), next)
        } else {
            None
        }
    }
}

proof fn lemma_eval_concat(s: Seq<char>, u: Seq<char>, tot: int)
    requires
        s.len() == 0 || !is_operator(s.last()),
    ensures
        eval_from(s + u, tot) == match eval_from(s, tot) {
            Some(t) => eval_from(u, t),
            None => None,
        },
    decreases s.len(),
{
    let su = s + u;
    if s.len() == 0 {
        assert(su =~= u);
    } else if is_operator(s[0]) {
        assert(s.len() >= 2);
        assert(su[0] == s[0] && su[1] == s[1]);
        let rest = s.subrange(2, s.len() as int);
        assert(su.subrange(2, su.len() as int) =~= rest + u);
        if is_digit(s[1]) {
            let d = digit_value(s[1]);
            if !(s[0] == '/' && d == 0) {
                let next = if s[0] == '+' {
                    tot + d
                } else if s[0] == '-' {
                    tot - d
                } else if s[0] == '*' {
                    tot * d
                } else {
                    trunc_div(tot, d)
                };
                if in_i32(next) {
                    if rest.len() > 0 {
                        assert(rest.last() == s.last());
                    }
                    lemma_eval_concat(rest, u, next);
                }
            }
        }
    } else if is_digit(s[0]) {
        assert(su[0] == s[0]);
        let rest = s.drop_first();
        assert(su.drop_first() =~= rest + u);
        let next = tot + digit_value(s[0]);
        if in_i32(next) {
            if rest.len() > 0 {
                assert(rest.last() == s.last());
            }
            lemma_eval_concat(rest, u, next);
        }
    } else {
        assert(su[0] == s[0]);
    }
}

/// Law: expressions are evaluated strictly left to right. Appending an
/// operator and a digit `d` to a complete expression worth `t` gives `t + d`,
/// `t - d`, `t * d`, or the `i32` quotient of `t` by `d` (rounded toward zero),
/// or nothing when that leaves the `i32` range or divides by zero; appending a
/// lone digit adds it. An expression that cannot be evaluated stays so.
pub proof fn lemma_eval_append(s: Seq<char>, op: char, dc: char)
    requires
        s.len() == 0 || !is_operator(s.last()),
        op == '+' || op == '-' || op == '*' || op == '/',
        '0' <= dc <= '9',
    ensures
        eval_from(s, 0) is None ==> eval_from(s + seq![op, dc], 0) is None
            && eval_from(s + seq![dc], 0) is None,
        eval_from(s, 0) matches Some(t) ==> {
            let d = dc as int - '0' as int;
            let n = if op == '+' {
                t + d
            } else if op == '-' {
                t - d
            } else if op == '*' {
                t * d
            } else if t >= 0 {
                t / d
            } else {
                -((-t) / d)
            };
            &&& op == '/' && d == 0 ==> eval_from(s + seq![op, dc], 0) is None
            &&& !(op == '/' && d == 0) && i32::MIN <= n <= i32::MAX ==> eval_from(s + seq![op, dc], 0) == Some(n)
            &&& !(op == '/' && d == 0) && !(i32::MIN <= n <= i32::MAX) ==> eval_from(s + seq![op, dc], 0) is None
            &&& i32::MIN <= t + d <= i32::MAX ==> eval_from(s + seq![dc], 0) == Some(t + d)
        },
{
    lemma_eval_concat(s, seq![op, dc], 0);
    lemma_eval_concat(s, seq![dc], 0);
    let u = seq![op, dc];
    assert(u.subrange(2, 2) =~= Seq::<char>::empty());
    let v = seq![dc];
    assert(v.drop_first() =~= Seq::<char>::empty());
    if let Some(t) = eval_from(s, 0) {
        let d = dc as int - '0' as int;
        assert(u[0] == op && u[1] == dc && u.len() == 2);
        assert(is_operator(u[0]));
        assert(is_digit(u[1]));
        assert(digit_value(u[1]) == d);
        assert(is_digit(v[0]) && !is_operator(v[0]) && digit_value(v[0]) == d);
        assert(eval_from(Seq::<char>::empty(), t + d) == Some(t + d));
        let n = if op == '+' {
            t + d
        } else if op == '-' {
            t - d
        } else if op == '*' {
            t * d
        } else if t >= 0 {
            t / d
        } else {
            -((-t) / d)
        };
        if !(op == '/' && d == 0) {
            assert(eval_from(Seq::<char>::empty(), n) == Some(n));
            if in_i32(n) {
                assert(eval_from(u, t) == eval_from(u.subrange(2, 2), n));
                assert(eval_from(u, t) == Some(n));
            } else {
                assert(eval_from(u, t) is None);
            }
        } else {
            assert(eval_from(u, t) is None);
        }
        if in_i32(t + d) {
            assert(eval_from(v, t) == eval_from(v.drop_first(), t + d));
        }
        assert(eval_from(s + u, 0) == eval_from(u, t));
        assert(eval_from(s + v, 0) == eval_from(v, t));
    }
}

fn digit_of_char(c: char) -> (d: i32)
    requires
        is_digit(c),
    ensures
        d == digit_value(c),
{
    (c as u32 - '0' as u32) as i32
}

/// The value of an expression evaluated left to right, as [`eval_from`]
/// gives it from a total of 0: `None` exactly on the expressions that cannot
/// be evaluated.
pub fn evaluate(s: &String) -> (r: Option<i32>)
    ensures
        match eval_from(s@, 0) {
            Some(v) => r matches Some(x) && x as int == v,
            None => r is None,
        },
{
    let cs = chars_of(s.as_str());
    let n = cs.len();
    let mut tot: i32 = 0;
    let mut i: usize = 0;
    assert(cs@.subrange(0, n as int) =~= s@);
    while i < n
        invariant
            n == cs@.len(),
            cs@ == s@,
            i <= n,
            eval_from(cs@.subrange(i as int, n as int), tot as int) == eval_from(s@, 0),
        decreases n - i,
    {
        let ghost rest = cs@.subrange(i as int, n as int);
        let c = cs[i];
        assert(rest[0] == c);
        if c == '+' || c == '-' || c == '*' || c == '/' {
            if i + 1 >= n {
                return None;
            }
            let e = cs[i + 1];
            assert(rest[1] == e);
            if !('0' <= e && e <= '9') {
                return None;
            }
            let d = digit_of_char(e);
            if c == '/' && d == 0 {
                return None;
            }
            assert(rest.subrange(2, rest.len() as int) =~= cs@.subrange(i + 2, n as int));
            let t = tot as i64;
            proof {
                assert(-2147483648 * 9 <= t * d <= 2147483647 * 9) by (nonlinear_arith)
                    requires -2147483648 <= t <= 2147483647, 0 <= d <= 9;
            }
            let next: i64 = if c == '+' {
                t + d as i64
            } else if c == '-' {
                t - d as i64
            } else if c == '*' {
                t * d as i64
            } else {
                (tot / d) as i64
            };
            if next < i32::MIN as i64 || next > i32::MAX as i64 {
                return None;
            }
            tot = next as i32;
            i = i + 2;
        } else {
            if !('0' <= c && c <= '9') {
                return None;
            }
            let d = digit_of_char(c);
            assert(rest.drop_first() =~= cs@.subrange(i + 1, n as int));
            let next: i64 = tot as i64 + d as i64;
            if next > i32::MAX as i64 {
                return None;
            }
            tot = next as i32;
            i = i + 1;
        }
    }
    assert(cs@.subrange(n as int, n as int) =~= Seq::<char>::empty());
    Some(tot)
}

/// Whether the expression evaluates to exactly 10. The expression must be
/// one that can be evaluated (see [`evaluate`]).
pub fn verify_one(s: &String) -> (b: bool)
    requires
        eval_from(s@, 0) is Some,
    ensures
        b == (eval_from(s@, 0) == Some(10int)),
{
    match evaluate(s) {
        Some(v) => v == 10,
        None => false,
    }
}

/// The expressions of a slice that are worth exactly 10, in order; this is the
/// work of one thread of [`verify_chunk_bounds`]' split.
pub fn verify_chunk(v: &[String]) -> (r: Vec<String>)
    requires
        forall|i: int| 0 <= i < v@.len() ==> (#[trigger] eval_from(v@[i]@, 0)) is Some,
    ensures
        texts(r@) == texts(v@).filter(|e: Seq<char>| eval_from(e, 0) == Some(10int)),
{
    let mut r: Vec<String> = Vec::new();
    let n = v.len();
    let mut i: usize = 0;
    while i < n
        invariant
            n == v@.len(),
            i <= n,
            forall|j: int| 0 <= j < v@.len() ==> (#[trigger] eval_from(v@[j]@, 0)) is Some,
            texts(r@) == texts(v@.subrange(0, i as int)).filter(|e: Seq<char>| eval_from(e, 0) == Some(10int)),
        decreases n - i,
    {
        let ghost prev_r = r@;
        proof {
            assert(texts(v@.subrange(0, i + 1)).drop_last() =~= texts(v@.subrange(0, i as int)));
            reveal_with_fuel(Seq::<_>::filter, 1);
        }
        if verify_one(&v[i]) {
            r.push(v[i].clone());
            assert(texts(r@) =~= texts(prev_r).push(v@[i as int]@));
        }
        i = i + 1;
    }
    assert(v@.subrange(0, n as int) =~= v@);
    r
}

/// The part of `len` expressions given to thread `i` of `n`: the slice from
/// `(len / n) * i` to `(len / n) * (i + 1)`, so the last `len % n` expressions
/// belong to no thread.
pub fn verify_chunk_bounds(len: usize, n: usize, i: usize) -> (r: (usize, usize))
    requires
        n > 0,
        i < n,
    ensures
        r.0 == (len / n) * i,
        r.1 == (len / n) * (i + 1),
        r.0 <= r.1 <= len,
{
    let q = len / n;
    proof {
        assert(q * (i + 1) <= q * n) by (nonlinear_arith)
            requires i + 1 <= n, q >= 0;
        assert(q * n <= len) by (nonlinear_arith)
            requires q == len / n, n > 0;
        assert(q * i <= q * (i + 1)) by (nonlinear_arith)
            requires q >= 0;
    }
    (q * i, q * (i + 1))
}

} // verus!
