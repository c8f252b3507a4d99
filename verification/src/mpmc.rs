//! The shared state of a bounded multi-producer multi-consumer channel that can be shut down.
//!
//! Sending to a shut-down channel fails; values already in the channel are
//! still received after a shutdown, and only then does receiving report the
//! end. The threaded shell waits while [`MpMcChannel::can_send`] or
//! [`MpMcChannel::can_recv`] is false, re-checking after every wake-up.
use vstd::prelude::*;
use std::collections::VecDeque;

verus! {

pub struct MpMcChannel<E> {
    que: VecDeque<E>,
    size: usize,
    is_closed: bool,
}

impl<E> MpMcChannel<E> {
    /// The values in the channel, oldest first.
    pub closed spec fn values(&self) -> Seq<E> {
        self.que@
    }

    /// The number of values the channel holds at most.
    pub closed spec fn capacity(&self) -> nat {
        self.size as nat
    }

    pub closed spec fn is_shut(&self) -> bool {
        self.is_closed
    }

    /// The channel never holds more values than its capacity.
    pub open spec fn wf(&self) -> bool {
        self.values().len() <= self.capacity()
    }

    /// An open, empty channel for at most `n` values.
    pub fn new(n: usize) -> (c: Self)
        ensures
            c.values() == Seq::<E>::empty(),
            c.capacity() == n,
            !c.is_shut(),
            c.wf(),
    {
        MpMcChannel { que: VecDeque::new(), size: n, is_closed: false }
    }

    /// Whether a sender can get an answer now: the channel is shut or has room.
    pub fn can_send(&self) -> (b: bool)
        ensures
            b == (self.is_shut() || self.values().len() < self.capacity()),
    {
        self.is_closed || self.que.len() < self.size
    }

    /// Whether a receiver can get an answer now: a value is there or the channel is shut.
    pub fn can_recv(&self) -> (b: bool)
        ensures
            b == (self.values().len() > 0 || self.is_shut()),
    {
        self.que.len() > 0 || self.is_closed
    }

    pub fn is_empty(&self) -> (b: bool)
        ensures
            b == (self.values().len() == 0),
    {
        self.que.len() == 0
    }

    pub fn is_full(&self) -> (b: bool)
        ensures
            b == (self.values().len() == self.capacity()),
    {
        self.que.len() == self.size
    }

    /// Sends a value: `None` when the channel is shut, else the value is appended.
    pub fn send(&mut self, e: E) -> (r: Option<()>)
        requires
            old(self).wf(),
            old(self).is_shut() || old(self).values().len() < old(self).capacity(),
        ensures
            final(self).wf(),
            final(self).capacity() == old(self).capacity(),
            final(self).is_shut() == old(self).is_shut(),
            old(self).is_shut() ==> r is None && final(self).values() == old(self).values(),
            !old(self).is_shut() ==> r == Some(()) && final(self).values() == old(self).values().push(e),
    {
        if self.is_closed {
            return None;
        }
        self.que.push_back(e);
        Some(())
    }

    /// Receives the oldest value; with none left in a shut channel, `None`.
    pub fn recv(&mut self) -> (r: Option<E>)
        requires
            old(self).wf(),
            old(self).values().len() > 0 || old(self).is_shut(),
        ensures
            final(self).wf(),
            final(self).capacity() == old(self).capacity(),
            final(self).is_shut() == old(self).is_shut(),
            old(self).values().len() > 0 ==> r == Some(old(self).values()[0])
                && final(self).values() == old(self).values().drop_first(),
            old(self).values().len() == 0 ==> r is None && final(self).values() == old(self).values(),
    {
        self.que.pop_front()
    }

    /// Shuts the channel down.
    pub fn shutdown(&mut self) -> (r: Option<()>)
        ensures
            r == Some(()),
            final(self).is_shut(),
            final(self).wf() == old(self).wf(),
            final(self).values() == old(self).values(),
            final(self).capacity() == old(self).capacity(),
    {
        self.is_closed = true;
        Some(())
    }
}

} // verus!
