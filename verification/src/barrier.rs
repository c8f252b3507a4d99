//! A cyclic barrier: `total` threads meet, are released together, and the
//! barrier is ready for the next round once all of them have left.
//!
//! A round has two gates. Threads arrive through the outer gate and wait at
//! the inner one; the last arrival closes the outer gate and opens the inner
//! one. Threads then leave one by one; the last to leave closes the inner gate
//! and opens the outer one again. The threaded shell waits on a condition
//! variable per gate: before `enter` until the outer gate is open, and, for
//! all but the last arrival, before `leave` until the inner gate is open.
use vstd::prelude::*;

verus! {

pub struct CyclicBarrier {
    waiting: usize,
    total: usize,
    out_open: bool,
    in_open: bool,
}

/// The number of arrivals that opens the inner gate (a barrier for no
/// threads still lets each thread through on its own).
pub open spec fn round_size(total: nat) -> nat {
    if total == 0 { 1 } else { total }
}

impl CyclicBarrier {
    pub closed spec fn waiting(&self) -> nat {
        self.waiting as nat
    }

    pub closed spec fn total(&self) -> nat {
        self.total as nat
    }

    pub closed spec fn outer_open(&self) -> bool {
        self.out_open
    }

    pub closed spec fn inner_open(&self) -> bool {
        self.in_open
    }

    /// Exactly one gate is open; while the outer one is, fewer threads than a
    /// round are inside; while the inner one is, at least one thread has yet to leave.
    pub open spec fn wf(&self) -> bool {
        &&& self.outer_open() != self.inner_open()
        &&& self.outer_open() ==> self.waiting() < round_size(self.total())
        &&& self.inner_open() ==> 1 <= self.waiting() <= round_size(self.total())
    }

    /// A barrier for `n_threads` threads with the outer gate open.
    pub fn new(n_threads: usize) -> (b: Self)
        ensures
            b.wf(),
            b.waiting() == 0,
            b.total() == n_threads,
            b.outer_open(),
    {
        CyclicBarrier { waiting: 0, total: n_threads, out_open: true, in_open: false }
    }

    pub fn outer_is_open(&self) -> (b: bool)
        ensures
            b == self.outer_open(),
    {
        self.out_open
    }

    pub fn inner_is_open(&self) -> (b: bool)
        ensures
            b == self.inner_open(),
    {
        self.in_open
    }

    /// A thread passes the open outer gate. The last arrival of the round
    /// closes the outer gate and opens the inner one; the result says whether
    /// this arrival was that one (and so must wake the threads at the inner gate).
    pub fn enter(&mut self) -> (last: bool)
        requires
            old(self).wf(),
            old(self).outer_open(),
        ensures
            final(self).wf(),
            final(self).total() == old(self).total(),
            final(self).waiting() == old(self).waiting() + 1,
            last == (old(self).waiting() + 1 >= old(self).total()),
            final(self).state() == after_enter(old(self).state()),
            last ==> !final(self).outer_open() && final(self).inner_open(),
            !last ==> final(self).outer_open() && !final(self).inner_open(),
    {
        self.waiting = self.waiting + 1;
        if self.waiting < self.total {
            false
        } else {
            self.out_open = false;
            self.in_open = true;
            true
        }
    }

    /// A thread leaves through the open inner gate. The last to leave closes
    /// the inner gate and reopens the outer one; the result says whether this
    /// was that thread (and so must wake the threads at the outer gate).
    pub fn leave(&mut self) -> (last: bool)
        requires
            old(self).wf(),
            old(self).inner_open(),
        ensures
            final(self).wf(),
            final(self).total() == old(self).total(),
            final(self).waiting() == old(self).waiting() - 1,
            last == (old(self).waiting() == 1),
            final(self).state() == after_leave(old(self).state()),
            last ==> final(self).outer_open() && !final(self).inner_open(),
            !last ==> !final(self).outer_open() && final(self).inner_open(),
    {
        self.waiting = self.waiting - 1;
        if self.waiting == 0 {
            self.in_open = false;
            self.out_open = true;
            true
        } else {
            false
        }
    }
}

/// The barrier state as plain values: threads inside, threads per round, and the two gates.
pub struct BarrierState {
    pub waiting: nat,
    pub total: nat,
    pub out_open: bool,
    pub in_open: bool,
}

/// The state after one arrival, as [`CyclicBarrier::enter`] leaves it.
pub open spec fn after_enter(s: BarrierState) -> BarrierState {
    if s.waiting + 1 < s.total {
        BarrierState { waiting: s.waiting + 1, ..s }
    } else {
        BarrierState { waiting: s.waiting + 1, out_open: false, in_open: true, ..s }
    }
}

/// The state after one departure, as [`CyclicBarrier::leave`] leaves it.
pub open spec fn after_leave(s: BarrierState) -> BarrierState {
    if s.waiting - 1 == 0 {
        BarrierState { waiting: 0, out_open: true, in_open: false, ..s }
    } else {
        BarrierState { waiting: (s.waiting - 1) as nat, ..s }
    }
}

pub open spec fn enter_times(s: BarrierState, k: nat) -> BarrierState
    decreases k,
{
    if k == 0 { s } else { after_enter(enter_times(s, (k - 1) as nat)) }
}

pub open spec fn leave_times(s: BarrierState, k: nat) -> BarrierState
    decreases k,
{
    if k == 0 { s } else { after_leave(leave_times(s, (k - 1) as nat)) }
}

proof fn lemma_enter_prefix(n: nat, k: nat)
    requires
        n >= 1,
        k < n,
    ensures
        enter_times(BarrierState { waiting: 0, total: n, out_open: true, in_open: false }, k)
            == (BarrierState { waiting: k, total: n, out_open: true, in_open: false }),
    decreases k,
{
    if k > 0 {
        lemma_enter_prefix(n, (k - 1) as nat);
    }
}

proof fn lemma_leave_prefix(n: nat, k: nat)
    requires
        n >= 1,
        k < n,
    ensures
        leave_times(BarrierState { waiting: n, total: n, out_open: false, in_open: true }, k)
            == (BarrierState { waiting: (n - k) as nat, total: n, out_open: false, in_open: true }),
    decreases k,
{
    if k > 0 {
        lemma_leave_prefix(n, (k - 1) as nat);
    }
}

/// The state after `r` full rounds (`n` arrivals, then `n` departures each).
pub open spec fn rounds(s: BarrierState, n: nat, r: nat) -> BarrierState
    decreases r,
{
    if r == 0 { s } else { leave_times(enter_times(rounds(s, n, (r - 1) as nat), n), n) }
}

/// Law: the barrier is cyclic. From the initial state of a barrier for `n`
/// threads, the first `n - 1` arrivals leave the outer gate open and the inner
/// gate closed, so no thread can leave before all `n` have arrived; the `n`-th
/// arrival closes the outer gate and opens the inner one; while fewer than `n`
/// have left the inner gate stays open (the rest can still leave) and the
/// outer gate closed (no thread of the next round gets in); and `n`
/// departures bring the barrier back to its initial state, so every round,
/// however many, ends where the first began.
pub proof fn lemma_barrier_round(n: nat, r: nat)
    requires
        n >= 1,
    ensures
        forall|k: nat| k < n ==> (#[trigger] enter_times(
            BarrierState { waiting: 0, total: n, out_open: true, in_open: false }, k)).out_open
            && !enter_times(BarrierState { waiting: 0, total: n, out_open: true, in_open: false }, k).in_open,
        enter_times(BarrierState { waiting: 0, total: n, out_open: true, in_open: false }, n)
            == (BarrierState { waiting: n, total: n, out_open: false, in_open: true }),
        forall|k: nat| k < n ==> (#[trigger] leave_times(
            BarrierState { waiting: n, total: n, out_open: false, in_open: true }, k)).in_open
            && !leave_times(BarrierState { waiting: n, total: n, out_open: false, in_open: true }, k).out_open,
        leave_times(
            enter_times(BarrierState { waiting: 0, total: n, out_open: true, in_open: false }, n), n)
            == (BarrierState { waiting: 0, total: n, out_open: true, in_open: false }),
        rounds(BarrierState { waiting: 0, total: n, out_open: true, in_open: false }, n, r)
            == (BarrierState { waiting: 0, total: n, out_open: true, in_open: false }),
    decreases r,
{
    let s0 = BarrierState { waiting: 0, total: n, out_open: true, in_open: false };
    assert forall|k: nat| k < n implies (#[trigger] enter_times(s0, k)).out_open && !enter_times(s0, k).in_open by {
        lemma_enter_prefix(n, k);
    }
    lemma_enter_prefix(n, (n - 1) as nat);
    let s1 = BarrierState { waiting: n, total: n, out_open: false, in_open: true };
    assert(enter_times(s0, n) == s1);
    assert forall|k: nat| k < n implies (#[trigger] leave_times(s1, k)).in_open && !leave_times(s1, k).out_open by {
        lemma_leave_prefix(n, k);
    }
    lemma_leave_prefix(n, (n - 1) as nat);
    if r > 0 {
        lemma_barrier_round(n, (r - 1) as nat);
    }
}

impl CyclicBarrier {
    /// The barrier as plain values.
    pub open spec fn state(&self) -> BarrierState {
        BarrierState {
            waiting: self.waiting(),
            total: self.total(),
            out_open: self.outer_open(),
            in_open: self.inner_open(),
        }
    }
}

} // verus!
