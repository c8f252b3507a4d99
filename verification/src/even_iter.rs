//! An adapter over a sequence of `i32` that yields only the even values.
use vstd::prelude::*;

verus! {

pub struct EvenIter {
    inner: Vec<i32>,
    pos: usize,
}

/// The position of the first even value of `s`, or its length.
pub open spec fn first_even(s: Seq<i32>) -> int
    decreases s.len(),
{
    if s.len() == 0 {
        0
    } else if s[0] % 2 == 0 {
        0
    } else {
        1 + first_even(s.drop_first())
    }
}

proof fn lemma_first_even(s: Seq<i32>)
    ensures
        0 <= first_even(s) <= s.len(),
        forall|j: int| 0 <= j < first_even(s) ==> (#[trigger] s[j]) % 2 != 0,
        first_even(s) < s.len() ==> s[first_even(s)] % 2 == 0,
    decreases s.len(),
{
    if s.len() > 0 && s[0] % 2 != 0 {
        lemma_first_even(s.drop_first());
        assert forall|j: int| 0 <= j < first_even(s) implies (#[trigger] s[j]) % 2 != 0 by {
            if j > 0 {
                assert(s[j] == s.drop_first()[j - 1]);
            }
        }
    }
}

impl EvenIter {
    /// The values not yet consumed from the underlying sequence.
    pub closed spec fn remaining(&self) -> Seq<i32> {
        self.inner@.subrange(self.pos as int, self.inner@.len() as int)
    }

    pub closed spec fn wf(&self) -> bool {
        self.pos <= self.inner@.len()
    }

    /// An adapter over all of `iter`.
    pub fn new(iter: Vec<i32>) -> (e: Self)
        ensures
            e.wf(),
            e.remaining() == iter@,
    {
        let e = EvenIter { inner: iter, pos: 0 };
        assert(e.remaining() =~= e.inner@);
        e
    }

    /// The next even value, skipping odd ones; `None` once the values run out.
    pub fn next(&mut self) -> (r: Option<i32>)
        requires
            old(self).wf(),
        ensures
            final(self).wf(),
            ({
                let s = old(self).remaining();
                let k = first_even(s);
                if k < s.len() {
                    r == Some(s[k]) && final(self).remaining() == s.subrange(k + 1, s.len() as int)
                } else {
                    r is None && final(self).remaining() == Seq::<i32>::empty()
                }
            }),
    {
        let ghost s = self.remaining();
        proof {
            lemma_first_even(s);
        }
        let n = self.inner.len();
        while self.pos < n
            invariant
                n == self.inner@.len(),
                old(self).pos <= self.pos <= n,
                self.inner == old(self).inner,
                s == old(self).inner@.subrange(old(self).pos as int, n as int),
                0 <= first_even(s) <= s.len(),
                forall|j: int| 0 <= j < first_even(s) ==> (#[trigger] s[j]) % 2 != 0,
                first_even(s) < s.len() ==> s[first_even(s)] % 2 == 0,
                self.pos - old(self).pos <= first_even(s),
            decreases n - self.pos,
        {
            let num = self.inner[self.pos];
            let ghost j = self.pos - old(self).pos;
            assert(s[j] == num);
            self.pos = self.pos + 1;
            if num % 2 == 0 {
                assert(first_even(s) == j);
                assert(self.remaining() =~= s.subrange(j + 1, s.len() as int));
                return Some(num);
            }
        }
        assert(self.remaining() =~= Seq::<i32>::empty());
        None
    }
}

/// An adapter yielding the even values of `v`.
pub fn even(v: Vec<i32>) -> (e: EvenIter)
    ensures
        e.wf(),
        e.remaining() == v@,
{
    EvenIter::new(v)
}

} // verus!
