//! A countdown lock: waiters are released once the count reaches zero.
use vstd::prelude::*;

verus! {

pub struct CountDownLock {
    countdown: usize,
}

impl CountDownLock {
    pub closed spec fn remaining(&self) -> nat {
        self.countdown as nat
    }

    pub fn new(n: usize) -> (l: Self)
        ensures
            l.remaining() == n,
    {
        CountDownLock { countdown: n }
    }

    /// Counts down by one while above zero. Waiters are woken only by a
    /// count-down that finds the count already at zero, which is what the
    /// result reports.
    pub fn count_down(&mut self) -> (wake: bool)
        ensures
            old(self).remaining() > 0 ==> final(self).remaining() == old(self).remaining() - 1 && !wake,
            old(self).remaining() == 0 ==> final(self).remaining() == 0 && wake,
    {
        if self.countdown > 0 {
            self.countdown = self.countdown - 1;
            false
        } else {
            true
        }
    }

    /// Whether a waiter may return: the count is zero.
    pub fn wait(&self) -> (done: bool)
        ensures
            done == (self.remaining() == 0),
    {
        self.countdown == 0
    }
}

} // verus!
