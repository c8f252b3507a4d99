//! The shared state of an executor that runs submitted jobs in order of their
//! deadlines on one worker thread, and can be closed keeping or dropping the
//! pending jobs.
//!
//! The worker of the threaded shell repeats: ask [`DelayedExecutor::worker_should_exit`];
//! if not, and while [`DelayedExecutor::worker_must_wait`] says so, wait (until
//! [`DelayedExecutor::next_deadline`] when a job is pending, else until woken);
//! otherwise take the due job with [`DelayedExecutor::worker_take`] and run it
//! outside the lock. Deadlines and the current time are tick counts from a
//! fixed starting instant, so no job runs before its deadline.
use vstd::prelude::*;
use crate::deadline::{is_first_min, first_min_index, any_due, due_before};

verus! {

pub struct DelayedExecutor<F> {
    q: Vec<(u64, F)>,
    open: bool,
    stop: bool,
}

impl<F> DelayedExecutor<F> {
    /// The pending jobs with their deadlines, in submission order.
    pub closed spec fn jobs(&self) -> Seq<(u64, F)> {
        self.q@
    }

    pub closed spec fn is_open(&self) -> bool {
        self.open
    }

    /// Whether the executor was closed with the pending jobs dropped.
    pub closed spec fn dropping(&self) -> bool {
        self.stop
    }

    pub fn new() -> (e: Self)
        ensures
            e.jobs() == Seq::<(u64, F)>::empty(),
            e.is_open(),
            !e.dropping(),
    {
        DelayedExecutor { q: Vec::new(), open: true, stop: false }
    }

    /// Queues `f` with deadline `at` while the executor is open (`true`);
    /// a closed executor refuses it (`false`).
    pub fn execute(&mut self, f: F, at: u64) -> (accepted: bool)
        ensures
            accepted == old(self).is_open(),
            final(self).is_open() == old(self).is_open(),
            final(self).dropping() == old(self).dropping(),
            accepted ==> final(self).jobs() == old(self).jobs().push((at, f)),
            !accepted ==> final(self).jobs() == old(self).jobs(),
    {
        if !self.open {
            return false;
        }
        self.q.push((at, f));
        true
    }

    /// Closes the executor; with `drop_pending_tasks` the pending jobs are
    /// dropped, otherwise they still run.
    pub fn close(&mut self, drop_pending_tasks: bool)
        ensures
            !final(self).is_open(),
            final(self).dropping() == drop_pending_tasks,
            final(self).jobs() == old(self).jobs(),
    {
        self.open = false;
        self.stop = drop_pending_tasks;
    }

    /// The worker's check at the top of its loop: it ends when the pending jobs
    /// are to be dropped (and drops them), or when the executor is closed and
    /// no job is pending.
    pub fn worker_should_exit(&mut self) -> (exit: bool)
        ensures
            exit == (old(self).dropping() || (!old(self).is_open() && old(self).jobs().len() == 0)),
            final(self).is_open() == old(self).is_open(),
            final(self).dropping() == old(self).dropping(),
            old(self).dropping() ==> final(self).jobs() == Seq::<(u64, F)>::empty(),
            !old(self).dropping() ==> final(self).jobs() == old(self).jobs(),
    {
        if self.stop || (!self.open && self.q.len() == 0) {
            if self.stop {
                self.q.clear();
            }
            true
        } else {
            false
        }
    }

    /// The number of pending jobs.
    pub fn pending(&self) -> (n: usize)
        ensures
            n == self.jobs().len(),
    {
        self.q.len()
    }

    /// Whether the worker has to wait at time `now`: the pending jobs are not
    /// to be dropped, and no job is pending or none is due yet (a job is due
    /// once its deadline lies before `now`).
    pub fn worker_must_wait(&self, now: u64) -> (b: bool)
        ensures
            b == (!self.dropping() && (self.jobs().len() == 0 || !any_due(self.jobs(), now))),
    {
        !self.stop && (self.q.len() == 0 || !due_before(&self.q, now))
    }

    /// The earliest deadline among the pending jobs, which is how long the
    /// worker waits when no job is due; `None` when no job is pending.
    pub fn next_deadline(&self) -> (d: Option<u64>)
        ensures
            self.jobs().len() == 0 ==> d is None,
            self.jobs().len() > 0 ==> exists|k: int| #[trigger] is_first_min(self.jobs(), k)
                && d == Some(self.jobs()[k].0),
    {
        if self.q.len() == 0 {
            return None;
        }
        let k = first_min_index(&self.q);
        assert(is_first_min(self.jobs(), k as int));
        Some(self.q[k].0)
    }

    /// At time `now`, the worker takes the job with the earliest deadline
    /// (the first such among equal deadlines), which must be due: so no job
    /// runs before its deadline, and jobs run in deadline order.
    pub fn worker_take(&mut self, now: u64) -> (r: F)
        requires
            any_due(old(self).jobs(), now),
        ensures
            final(self).is_open() == old(self).is_open(),
            final(self).dropping() == old(self).dropping(),
            exists|k: int| #[trigger] is_first_min(old(self).jobs(), k)
                && old(self).jobs()[k].0 < now
                && r == old(self).jobs()[k].1
                && final(self).jobs() == old(self).jobs().remove(k),
    {
        let k = first_min_index(&self.q);
        let (_, job) = self.q.remove(k);
        assert(is_first_min(old(self).jobs(), k as int));
        assert(old(self).jobs()[k as int].0 < now) by {
            let j = choose|j: int| 0 <= j < old(self).jobs().len() && (#[trigger] old(self).jobs()[j]).0 < now;
            assert(old(self).jobs()[k as int].0 <= old(self).jobs()[j].0);
        }
        job
    }
}

} // verus!
