//! The shared state of a bounded FIFO queue used by many producers and
//! consumers, with blocking and time-limited insertion and extraction.
//!
//! The threaded shell keeps the queue under a mutex. A blocking insert waits
//! while [`CircularBuffer::can_insert`] is false and then calls `insert`; a
//! time-limited one calls `try_insert_for` once on arrival and again after
//! every wake-up, telling it whether the wait timed out.
use vstd::prelude::*;
use std::collections::VecDeque;

verus! {

/// `true` when the operation succeeded within the time limit.
pub type TimeoutResult = bool;

pub struct CircularBuffer<T> {
    buf: VecDeque<T>,
    dim: usize,
}

impl<T> CircularBuffer<T> {
    /// The queued items, oldest first.
    pub closed spec fn items(&self) -> Seq<T> {
        self.buf@
    }

    /// The number of items the queue holds at most.
    pub closed spec fn bound(&self) -> nat {
        self.dim as nat
    }

    /// The queue never holds more items than its bound.
    pub open spec fn wf(&self) -> bool {
        self.items().len() <= self.bound()
    }

    pub open spec fn is_full(&self) -> bool {
        self.items().len() >= self.bound()
    }

    /// An empty queue for at most `dim` items.
    pub fn new(dim: usize) -> (b: Self)
        ensures
            b.items() == Seq::<T>::empty(),
            b.bound() == dim,
            b.wf(),
    {
        CircularBuffer { buf: VecDeque::new(), dim }
    }

    pub fn can_insert(&self) -> (b: bool)
        ensures
            b == !self.is_full(),
    {
        self.buf.len() < self.dim
    }

    pub fn can_extract(&self) -> (b: bool)
        ensures
            b == (self.items().len() > 0),
    {
        self.buf.len() > 0
    }

    /// Appends an item to a queue that has room.
    pub fn insert(&mut self, t: T)
        requires
            !old(self).is_full(),
        ensures
            final(self).items() == old(self).items().push(t),
            final(self).bound() == old(self).bound(),
            final(self).wf(),
    {
        self.buf.push_back(t);
    }

    /// Takes the oldest item of a non-empty queue.
    pub fn extract(&mut self) -> (t: T)
        requires
            old(self).wf(),
            old(self).items().len() > 0,
        ensures
            final(self).wf(),
            t == old(self).items()[0],
            final(self).items() == old(self).items().drop_first(),
            final(self).bound() == old(self).bound(),
    {
        match self.buf.pop_front() {
            Some(t) => t,
            None => vstd::pervasive::unreached(),
        }
    }

    /// One step of a time-limited insertion. After a timed-out wait it gives up
    /// (`Ok(false)`, the item is dropped); otherwise it inserts when there is
    /// room (`Ok(true)`), or hands the item back to wait again (`Err`).
    pub fn try_insert_for(&mut self, t: T, timed_out: bool) -> (r: Result<TimeoutResult, T>)
        requires
            old(self).wf(),
        ensures
            final(self).wf(),
            final(self).bound() == old(self).bound(),
            timed_out ==> r == Ok::<bool, T>(false) && final(self).items() == old(self).items(),
            !timed_out && !old(self).is_full() ==> r == Ok::<bool, T>(true)
                && final(self).items() == old(self).items().push(t),
            !timed_out && old(self).is_full() ==> r == Err::<bool, T>(t)
                && final(self).items() == old(self).items(),
    {
        if timed_out {
            Ok(false)
        } else if self.buf.len() < self.dim {
            self.buf.push_back(t);
            Ok(true)
        } else {
            Err(t)
        }
    }

    /// One step of a time-limited extraction. After a timed-out wait it gives up
    /// with `(None, false)`; otherwise it takes the oldest item, answering
    /// `(Some(item), true)`, or returns `None` to wait again when the queue is empty.
    pub fn try_extract_for(&mut self, timed_out: bool) -> (r: Option<(Option<T>, TimeoutResult)>)
        requires
            old(self).wf(),
        ensures
            final(self).wf(),
            final(self).bound() == old(self).bound(),
            timed_out ==> r == Some((None::<T>, false)) && final(self).items() == old(self).items(),
            !timed_out && old(self).items().len() > 0 ==> r == Some((Some(old(self).items()[0]), true))
                && final(self).items() == old(self).items().drop_first(),
            !timed_out && old(self).items().len() == 0 ==> r is None
                && final(self).items() == old(self).items(),
    {
        if timed_out {
            Some((None, false))
        } else if self.buf.len() > 0 {
            let t = self.buf.pop_front();
            Some((t, true))
        } else {
            None
        }
    }
}

} // verus!
