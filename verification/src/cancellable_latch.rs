//! A countdown latch that can be cancelled, with plain and time-limited waits.
//!
//! Waiters are released with `Success` once the count reaches zero and with
//! `Cancelled` once the latch is cancelled; a time-limited wait that times out
//! first reports `Timeout`. A waiting thread of the shell calls the wait step
//! on arrival and again after every wake-up.
use vstd::prelude::*;

verus! {

#[derive(PartialEq, Eq, Debug, Structural)]
pub enum WaitResult {
    Success,
    Timeout,
    Cancelled,
}

pub struct CancellableLatch {
    cancelled: bool,
    count: usize,
}

/// How a wait ends in a given state, or `None` while it must go on waiting.
pub open spec fn wait_outcome(cancelled: bool, count: nat) -> Option<WaitResult> {
    if cancelled {
        Some(WaitResult::Cancelled)
    } else if count == 0 {
        Some(WaitResult::Success)
    } else {
        None
    }
}

/// The count after one count-down: one less while above zero, unchanged
/// once cancelled.
pub open spec fn counted_down(cancelled: bool, count: nat) -> nat {
    if cancelled {
        count
    } else if count > 0 {
        (count - 1) as nat
    } else {
        0
    }
}

/// The count after `k` count-downs.
pub open spec fn counted_down_times(cancelled: bool, count: nat, k: nat) -> nat
    decreases k,
{
    if k == 0 {
        count
    } else {
        counted_down(cancelled, counted_down_times(cancelled, count, (k - 1) as nat))
    }
}

impl CancellableLatch {
    pub closed spec fn is_cancelled(&self) -> bool {
        self.cancelled
    }

    pub closed spec fn remaining(&self) -> nat {
        self.count as nat
    }

    pub fn new(count: usize) -> (l: Self)
        ensures
            !l.is_cancelled(),
            l.remaining() == count,
    {
        CancellableLatch { cancelled: false, count }
    }

    /// Counts down by one, stopping at zero; a cancelled latch ignores it.
    /// The result says whether waiters are to be woken: the latch is not
    /// cancelled and the count is zero afterwards.
    pub fn count_down(&mut self) -> (wake: bool)
        ensures
            final(self).is_cancelled() == old(self).is_cancelled(),
            final(self).remaining() == counted_down(old(self).is_cancelled(), old(self).remaining()),
            wake == (!old(self).is_cancelled() && final(self).remaining() == 0),
    {
        if self.cancelled {
            return false;
        }
        if self.count > 0 {
            self.count = self.count - 1;
        }
        self.count == 0
    }

    /// Cancels the latch; all waiters are to be woken.
    pub fn cancel(&mut self)
        ensures
            final(self).is_cancelled(),
            final(self).remaining() == old(self).remaining(),
    {
        self.cancelled = true;
    }

    /// One step of a wait: its result once the latch is cancelled or at zero,
    /// `None` to keep waiting.
    pub fn wait(&self) -> (r: Option<WaitResult>)
        ensures
            r == wait_outcome(self.is_cancelled(), self.remaining()),
    {
        if self.cancelled {
            Some(WaitResult::Cancelled)
        } else if self.count == 0 {
            Some(WaitResult::Success)
        } else {
            None
        }
    }

    /// One step of a time-limited wait: `Timeout` right after a timed-out
    /// wait, otherwise as [`CancellableLatch::wait`].
    pub fn wait_timeout(&self, timed_out: bool) -> (r: Option<WaitResult>)
        ensures
            timed_out ==> r == Some(WaitResult::Timeout),
            !timed_out ==> r == wait_outcome(self.is_cancelled(), self.remaining()),
    {
        if timed_out {
            Some(WaitResult::Timeout)
        } else {
            self.wait()
        }
    }
}

proof fn lemma_counted_down_times(count: nat, k: nat)
    ensures
        counted_down_times(false, count, k) == (if k <= count { (count - k) as nat } else { 0 }),
        counted_down_times(true, count, k) == count,
    decreases k,
{
    if k > 0 {
        lemma_counted_down_times(count, (k - 1) as nat);
    }
}

/// Law: a latch created with count `n` and never cancelled releases its
/// waiters, with `Success`, after `n` count-downs and not before; further
/// count-downs keep it released.
pub proof fn lemma_latch_releases_after_n(n: nat, k: nat)
    ensures
        k < n ==> wait_outcome(false, counted_down_times(false, n, k)) is None,
        k >= n ==> wait_outcome(false, counted_down_times(false, n, k)) == Some(WaitResult::Success),
{
    lemma_counted_down_times(n, k);
}

/// Law: once cancelled, every wait ends with `Cancelled`, whatever the count
/// and however many count-downs follow.
pub proof fn lemma_cancel_releases_all(count: nat, k: nat)
    ensures
        wait_outcome(true, counted_down_times(true, count, k)) == Some(WaitResult::Cancelled),
{
    lemma_counted_down_times(count, k);
}

} // verus!
