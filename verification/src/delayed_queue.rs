//! A queue whose items become available at a given time, earliest first.
//!
//! Time is a tick count that the shell derives from a fixed starting instant,
//! so the queue works on plain numbers. Items are kept in arrival order; the
//! item taken is the first one with the earliest time.
use vstd::prelude::*;
use crate::deadline::{is_first_min, any_due, first_min_index, due_before};

verus! {

pub struct DelayedQueue<T> {
    data: Vec<(u64, T)>,
}

impl<T> DelayedQueue<T> {
    /// The queued items with their times, in arrival order.
    pub closed spec fn items(&self) -> Seq<(u64, T)> {
        self.data@
    }

    pub fn new() -> (q: Self)
        ensures
            q.items() == Seq::<(u64, T)>::empty(),
    {
        DelayedQueue { data: Vec::new() }
    }

    /// Adds an item that becomes available at time `i`.
    pub fn offer(&mut self, t: T, i: u64)
        ensures
            final(self).items() == old(self).items().push((i, t)),
    {
        self.data.push((i, t));
    }

    /// Whether `take` can answer at time `now`: the queue is empty or its
    /// earliest item is due (its time lies before `now`).
    pub fn is_due(&self, now: u64) -> (b: bool)
        ensures
            b == (self.items().len() == 0 || any_due(self.items(), now)),
    {
        self.data.len() == 0 || due_before(&self.data, now)
    }

    /// Takes the earliest item at time `now`: `None` when the queue is empty.
    /// While items are queued but none is due, the caller waits (see
    /// [`DelayedQueue::is_due`]) before taking.
    pub fn take(&mut self, now: u64) -> (r: Option<T>)
        requires
            old(self).items().len() == 0 || any_due(old(self).items(), now),
        ensures
            old(self).items().len() == 0 ==> r is None && final(self).items() == old(self).items(),
            old(self).items().len() > 0 ==> exists|k: int| #[trigger] is_first_min(old(self).items(), k)
                && r == Some(old(self).items()[k].1)
                && final(self).items() == old(self).items().remove(k),
    {
        if self.data.len() == 0 {
            return None;
        }
        let k = first_min_index(&self.data);
        let (_, t) = self.data.remove(k);
        assert(is_first_min(old(self).items(), k as int));
        Some(t)
    }

    /// The number of queued items.
    pub fn size(&self) -> (n: usize)
        ensures
            n == self.items().len(),
    {
        self.data.len()
    }
}

} // verus!
