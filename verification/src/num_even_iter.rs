//! An adapter over a sequence of `u64` meant to yield the even values, using
//! the `num` crate's evenness test. When a value is odd it yields the value
//! after it unchecked, so it skips only single odd values.
use vstd::prelude::*;

verus! {

/// Calls `num::Integer::is_even`, which for unsigned integers tests `value % 2 == 0`.
#[verifier::external_body]
fn is_even(value: &u64) -> (b: bool)
    ensures
        b == (*value % 2 == 0),
{
    num::Integer::is_even(value)
}

pub struct EvenIter {
    iter: Vec<u64>,
    pos: usize,
}

impl EvenIter {
    /// The values not yet consumed from the underlying sequence.
    pub closed spec fn remaining(&self) -> Seq<u64> {
        self.iter@.subrange(self.pos as int, self.iter@.len() as int)
    }

    pub closed spec fn wf(&self) -> bool {
        self.pos <= self.iter@.len()
    }

    pub fn new(iter: Vec<u64>) -> (e: Self)
        ensures
            e.wf(),
            e.remaining() == iter@,
    {
        let e = EvenIter { iter, pos: 0 };
        assert(e.remaining() =~= e.iter@);
        e
    }

    /// Takes the next value: an even one is returned; for an odd one, the value
    /// after it is returned whatever its parity (`None` if there is none).
    pub fn next(&mut self) -> (r: Option<u64>)
        requires
            old(self).wf(),
        ensures
            final(self).wf(),
            ({
                let s = old(self).remaining();
                if s.len() == 0 {
                    r is None && final(self).remaining() == s
                } else if s[0] % 2 == 0 {
                    r == Some(s[0]) && final(self).remaining() == s.drop_first()
                } else if s.len() == 1 {
                    r is None && final(self).remaining() == Seq::<u64>::empty()
                } else {
                    r == Some(s[1]) && final(self).remaining() == s.subrange(2, s.len() as int)
                }
            }),
    {
        let n = self.iter.len();
        if self.pos >= n {
            return None;
        }
        let val = self.iter[self.pos];
        self.pos = self.pos + 1;
        if is_even(&val) {
            assert(self.remaining() =~= old(self).remaining().drop_first());
            Some(val)
        } else if self.pos < n {
            let next = self.iter[self.pos];
            self.pos = self.pos + 1;
            assert(self.remaining() =~= old(self).remaining().subrange(2, old(self).remaining().len() as int));
            Some(next)
        } else {
            assert(self.remaining() =~= Seq::<u64>::empty());
            None
        }
    }
}

} // verus!
