//! The shared state of a producer/consumer buffer that the producer can end
//! normally or with an error.
//!
//! The producer appends values, then either terminates or fails with an error;
//! after that nothing more can be appended. The consumer takes values in FIFO
//! order; once none are left it learns how production ended: `Ok(None)` after
//! a normal end, the error after a failure. The threaded shell waits on a
//! condition variable while [`Buffer::is_ready`] is false.
use vstd::prelude::*;
use std::collections::VecDeque;

verus! {

pub struct Buffer<T, E> {
    buf: VecDeque<T>,
    closed: bool,
    error: Option<E>,
}

impl<T, E> Buffer<T, E> {
    /// The values not yet consumed, oldest first.
    pub closed spec fn values(&self) -> Seq<T> {
        self.buf@
    }

    /// Whether the producer has ended production.
    pub closed spec fn ended(&self) -> bool {
        self.closed
    }

    /// The error the producer failed with, until the consumer has received it.
    pub closed spec fn failure(&self) -> Option<E> {
        self.error
    }

    /// An empty buffer with production still going on.
    pub fn new() -> (b: Self)
        ensures
            b.values() == Seq::<T>::empty(),
            !b.ended(),
            b.failure() is None,
    {
        Buffer { buf: VecDeque::new(), closed: false, error: None }
    }

    /// Appends a value; production must not have ended (the shell panics
    /// there). The result says whether the buffer was empty,
    /// which is when the shell wakes a waiting consumer.
    pub fn next(&mut self, value: T) -> (wake: bool)
        requires
            !old(self).ended(),
        ensures
            wake == (old(self).values().len() == 0),
            final(self).values() == old(self).values().push(value),
            !final(self).ended(),
            final(self).failure() == old(self).failure(),
            next_step(*old(self), value, *final(self)),
    {
        let wake = self.buf.len() == 0;
        self.buf.push_back(value);
        wake
    }

    /// Ends production normally.
    pub fn terminate(&mut self)
        ensures
            final(self).ended(),
            final(self).values() == old(self).values(),
            final(self).failure() == old(self).failure(),
            end_step(*old(self), *final(self)),
    {
        self.closed = true;
    }

    /// Ends production with an error.
    pub fn fail(&mut self, error: E)
        ensures
            final(self).ended(),
            final(self).values() == old(self).values(),
            final(self).failure() == Some(error),
            end_step(*old(self), *final(self)),
    {
        self.closed = true;
        self.error = Some(error);
    }

    /// Whether production has ended (normally or with an error).
    pub fn is_ended(&self) -> (b: bool)
        ensures
            b == self.ended(),
    {
        self.closed
    }

    /// Whether `consume` can answer now: a value is there or production has ended.
    pub fn is_ready(&self) -> (b: bool)
        ensures
            b == (self.values().len() > 0 || self.ended()),
    {
        self.buf.len() > 0 || self.closed
    }

    /// Takes the oldest value; with none left, reports how production ended:
    /// the error (once) after a failure, `Ok(None)` otherwise.
    pub fn consume(&mut self) -> (r: Result<Option<T>, E>)
        requires
            old(self).values().len() > 0 || old(self).ended(),
        ensures
            final(self).ended() == old(self).ended(),
            old(self).values().len() > 0 ==> r == Ok::<Option<T>, E>(Some(old(self).values()[0]))
                && final(self).values() == old(self).values().drop_first()
                && final(self).failure() == old(self).failure(),
            old(self).values().len() == 0 ==> final(self).values() == old(self).values()
                && final(self).failure() is None
                && match old(self).failure() {
                    Some(e) => r == Err::<Option<T>, E>(e),
                    None => r == Ok::<Option<T>, E>(None),
                },
            consume_step(*old(self), r, *final(self)),
    {
        if self.buf.len() > 0 {
            Ok(self.buf.pop_front())
        } else {
            match self.error.take() {
                Some(e) => Err(e),
                None => Ok(None),
            }
        }
    }
}

/// What appending `value` does to the values.
pub open spec fn next_step<T, E>(b: Buffer<T, E>, value: T, b2: Buffer<T, E>) -> bool {
    b2.values() == b.values().push(value)
}

/// What ending production (normally or with an error) does to the values.
pub open spec fn end_step<T, E>(b: Buffer<T, E>, b2: Buffer<T, E>) -> bool {
    b2.ended() && b2.values() == b.values()
}

/// What a consume that answered `r` does to the values: the oldest leaves and
/// is returned, or, with none left, no value is returned.
pub open spec fn consume_step<T, E>(b: Buffer<T, E>, r: Result<Option<T>, E>, b2: Buffer<T, E>) -> bool {
    &&& b.values().len() > 0 ==> r == Ok::<Option<T>, E>(Some(b.values()[0])) && b2.values() == b.values().drop_first()
    &&& b.values().len() == 0 ==> b2.values() == b.values() && !(r matches Ok(Some(_)))
}

/// One call on a buffer with what it answered.
pub enum BufferCall<T, E> {
    Next(T),
    End,
    Consume(Result<Option<T>, E>),
}

pub open spec fn buffer_step<T, E>(b: Buffer<T, E>, call: BufferCall<T, E>, b2: Buffer<T, E>) -> bool {
    match call {
        BufferCall::Next(v) => next_step(b, v, b2),
        BufferCall::End => end_step(b, b2),
        BufferCall::Consume(r) => consume_step(b, r, b2),
    }
}

/// The values produced, in order.
pub open spec fn produced<T, E>(calls: Seq<BufferCall<T, E>>) -> Seq<T>
    decreases calls.len(),
{
    if calls.len() == 0 {
        Seq::empty()
    } else {
        produced(calls.drop_last()) + match calls.last() {
            BufferCall::Next(v) => seq![v],
            _ => Seq::empty(),
        }
    }
}

/// The values consumed, in order.
pub open spec fn consumed<T, E>(calls: Seq<BufferCall<T, E>>) -> Seq<T>
    decreases calls.len(),
{
    if calls.len() == 0 {
        Seq::empty()
    } else {
        consumed(calls.drop_last()) + match calls.last() {
            BufferCall::Consume(r) => match r {
                Ok(Some(v)) => seq![v],
                _ => Seq::empty(),
            },
            _ => Seq::empty(),
        }
    }
}

/// Law: the buffer is first in, first out. Over any run of appends, ends of
/// production and consumes from a new buffer, the consumer receives the
/// produced values in order, none skipped or repeated, and the values not yet
/// consumed are exactly those the buffer holds.
pub proof fn lemma_buffer_fifo<T, E>(states: Seq<Buffer<T, E>>, calls: Seq<BufferCall<T, E>>)
    requires
        states.len() == calls.len() + 1,
        states[0].values().len() == 0,
        forall|i: int| 0 <= i < calls.len() ==> #[trigger] buffer_step(states[i], calls[i], states[i + 1]),
    ensures
        produced(calls) == consumed(calls) + states.last().values(),
    decreases calls.len(),
{
    if calls.len() == 0 {
        assert(produced(calls) =~= consumed(calls) + states.last().values());
    } else {
        let n = calls.len() - 1;
        let ps = states.drop_last();
        let pc = calls.drop_last();
        assert forall|i: int| 0 <= i < pc.len() implies #[trigger] buffer_step(ps[i], pc[i], ps[i + 1]) by {
            assert(buffer_step(states[i], calls[i], states[i + 1]));
        }
        lemma_buffer_fifo(ps, pc);
        assert(buffer_step(states[n], calls[n], states[n + 1]));
        assert(ps.last() == states[n]);
        let before = states[n].values();
        match calls[n] {
            BufferCall::Next(v) => {
                assert(produced(calls) =~= produced(pc) + seq![v]);
                assert(consumed(calls) =~= consumed(pc));
            },
            BufferCall::End => {
                assert(produced(calls) =~= produced(pc));
                assert(consumed(calls) =~= consumed(pc));
            },
            BufferCall::Consume(r) => {
                assert(produced(calls) =~= produced(pc));
                if before.len() > 0 {
                    assert(consumed(calls) =~= consumed(pc) + seq![before[0]]);
                    assert(consumed(pc) + before =~= consumed(pc) + seq![before[0]] + before.drop_first());
                } else {
                    assert(consumed(calls) =~= consumed(pc));
                }
            },
        }
    }
}

} // verus!
