//! A countdown latch whose waits are time-limited.
use vstd::prelude::*;

verus! {

pub enum LatchError {
    Error(String),
}

pub struct CountDownLatch {
    count: usize,
}

/// The message of a timed-out wait.
pub open spec fn timed_out_message() -> Seq<char> {
    seq!['T', 'i', 'm', 'e', 'd', ' ', 'o', 'u', 't']
}

impl CountDownLatch {
    pub closed spec fn remaining(&self) -> nat {
        self.count as nat
    }

    pub fn new(n: usize) -> (l: Self)
        ensures
            l.remaining() == n,
    {
        CountDownLatch { count: n }
    }

    /// One step of a wait for zero: `Ok(())` once the count is zero, an error
    /// right after a timed-out wait, `None` to keep waiting. The shell calls it
    /// on arrival (not timed out) and after every wake-up.
    pub fn wait_zero(&self, timed_out: bool) -> (r: Option<Result<(), LatchError>>)
        ensures
            !timed_out && self.remaining() == 0 ==> r matches Some(Ok(())),
            !timed_out && self.remaining() > 0 ==> r is None,
            timed_out ==> (r matches Some(Err(LatchError::Error(m))) && m@ == timed_out_message()),
    {
        if timed_out {
            let m = String::from_str("Timed out");
            proof {
                reveal_strlit("Timed out");
            }
            assert(m@ =~= timed_out_message());
            Some(Err(LatchError::Error(m)))
        } else if self.count == 0 {
            Some(Ok(()))
        } else {
            None
        }
    }

    /// Counts down by one while above zero. Waiters are woken only by a
    /// count-down that finds the count already at zero, which is what the
    /// result reports.
    pub fn count_down(&mut self) -> (wake: bool)
        ensures
            old(self).remaining() > 0 ==> final(self).remaining() == old(self).remaining() - 1 && !wake,
            old(self).remaining() == 0 ==> final(self).remaining() == 0 && wake,
    {
        if self.count > 0 {
            self.count = self.count - 1;
            false
        } else {
            true
        }
    }
}

} // verus!
