//! The task queue of a single-thread executor.
//!
//! Submitted tasks wait in FIFO order until the worker takes them; once the
//! executor is closed, submissions fail while queued tasks can still be taken.
use vstd::prelude::*;
use std::collections::VecDeque;

verus! {

pub struct SingleThreadExecutor<F> {
    queue: VecDeque<F>,
    is_closed: bool,
}

/// The message of a refused submission.
pub open spec fn closed_message() -> Seq<char> {
    seq!['E', 'x', 'e', 'c', 'u', 't', 'o', 'r', ' ', 'i', 's', ' ', 'c', 'l', 'o', 's', 'e', 'd']
}

impl<F> SingleThreadExecutor<F> {
    /// The queued tasks, oldest first.
    pub closed spec fn tasks(&self) -> Seq<F> {
        self.queue@
    }

    pub closed spec fn closed(&self) -> bool {
        self.is_closed
    }

    /// An open executor with no tasks.
    pub fn new() -> (e: Self)
        ensures
            e.tasks() == Seq::<F>::empty(),
            !e.closed(),
    {
        SingleThreadExecutor { queue: VecDeque::new(), is_closed: false }
    }

    /// Queues a task, or fails with `"Executor is closed"` once the executor is closed.
    pub fn submit(&mut self, task: F) -> (r: Result<(), String>)
        ensures
            final(self).closed() == old(self).closed(),
            old(self).closed() ==> (r matches Err(m) && m@ == closed_message())
                && final(self).tasks() == old(self).tasks(),
            !old(self).closed() ==> r is Ok && final(self).tasks() == old(self).tasks().push(task),
            submit_step(*old(self), task, r is Ok, *final(self)),
    {
        if self.is_closed {
            let m = String::from_str("Executor is closed");
            proof {
                reveal_strlit("Executor is closed");
            }
            assert(m@ =~= closed_message());
            Err(m)
        } else {
            self.queue.push_back(task);
            Ok(())
        }
    }

    /// Stops accepting tasks; the queued ones stay.
    pub fn close(&mut self)
        ensures
            final(self).closed(),
            final(self).tasks() == old(self).tasks(),
            close_step(*old(self), *final(self)),
    {
        self.is_closed = true;
    }

    /// Whether the executor has been closed.
    pub fn is_closed(&self) -> (b: bool)
        ensures
            b == self.closed(),
    {
        self.is_closed
    }

    /// The worker takes the oldest queued task, if any.
    pub fn next_task(&mut self) -> (r: Option<F>)
        ensures
            final(self).closed() == old(self).closed(),
            old(self).tasks().len() == 0 ==> r is None && final(self).tasks() == old(self).tasks(),
            old(self).tasks().len() > 0 ==> r == Some(old(self).tasks()[0])
                && final(self).tasks() == old(self).tasks().drop_first(),
            take_step(*old(self), r, *final(self)),
    {
        self.queue.pop_front()
    }
}

/// What a submission that was accepted (`ok`) or refused does.
pub open spec fn submit_step<F>(e: SingleThreadExecutor<F>, task: F, ok: bool, e2: SingleThreadExecutor<F>) -> bool {
    &&& e2.closed() == e.closed()
    &&& ok == !e.closed()
    &&& ok ==> e2.tasks() == e.tasks().push(task)
    &&& !ok ==> e2.tasks() == e.tasks()
}

/// What closing does.
pub open spec fn close_step<F>(e: SingleThreadExecutor<F>, e2: SingleThreadExecutor<F>) -> bool {
    e2.closed() && e2.tasks() == e.tasks()
}

/// What the worker's take, answering `r`, does.
pub open spec fn take_step<F>(e: SingleThreadExecutor<F>, r: Option<F>, e2: SingleThreadExecutor<F>) -> bool {
    &&& e2.closed() == e.closed()
    &&& e.tasks().len() == 0 ==> r is None && e2.tasks() == e.tasks()
    &&& e.tasks().len() > 0 ==> r == Some(e.tasks()[0]) && e2.tasks() == e.tasks().drop_first()
}

/// One call on an executor with what it answered.
pub enum ExecutorCall<F> {
    Submit(F, bool),
    Close,
    Take(Option<F>),
}

pub open spec fn executor_step<F>(e: SingleThreadExecutor<F>, call: ExecutorCall<F>, e2: SingleThreadExecutor<F>) -> bool {
    match call {
        ExecutorCall::Submit(task, ok) => submit_step(e, task, ok, e2),
        ExecutorCall::Close => close_step(e, e2),
        ExecutorCall::Take(r) => take_step(e, r, e2),
    }
}

/// The accepted tasks, in submission order.
pub open spec fn accepted<F>(calls: Seq<ExecutorCall<F>>) -> Seq<F>
    decreases calls.len(),
{
    if calls.len() == 0 {
        Seq::empty()
    } else {
        accepted(calls.drop_last()) + match calls.last() {
            ExecutorCall::Submit(task, ok) => if ok { seq![task] } else { Seq::empty() },
            _ => Seq::empty(),
        }
    }
}

/// The tasks the worker took, in order.
pub open spec fn taken<F>(calls: Seq<ExecutorCall<F>>) -> Seq<F>
    decreases calls.len(),
{
    if calls.len() == 0 {
        Seq::empty()
    } else {
        taken(calls.drop_last()) + match calls.last() {
            ExecutorCall::Take(r) => match r { Some(t) => seq![t], None => Seq::empty() },
            _ => Seq::empty(),
        }
    }
}

/// Law: over any run of submissions, closings and takes from a new executor,
/// the worker takes the accepted tasks in submission order, none skipped or
/// repeated, and what it has not taken yet is still queued (closing keeps
/// queued tasks); the executor is closed exactly when a close happened, and
/// every submission after a close is refused.
pub proof fn lemma_executor_runs<F>(states: Seq<SingleThreadExecutor<F>>, calls: Seq<ExecutorCall<F>>)
    requires
        states.len() == calls.len() + 1,
        states[0].tasks().len() == 0,
        !states[0].closed(),
        forall|i: int| 0 <= i < calls.len() ==> #[trigger] executor_step(states[i], calls[i], states[i + 1]),
    ensures
        accepted(calls) == taken(calls) + states.last().tasks(),
        states.last().closed() == (exists|j: int| 0 <= j < calls.len() && calls[j] is Close),
        forall|i: int, j: int| 0 <= j < i < calls.len() && (#[trigger] calls[j]) is Close && (#[trigger] calls[i]) is Submit
            ==> !calls[i]->Submit_1,
    decreases calls.len(),
{
    if calls.len() == 0 {
        assert(accepted(calls) =~= taken(calls) + states.last().tasks());
    } else {
        let n = calls.len() - 1;
        let ps = states.drop_last();
        let pc = calls.drop_last();
        assert forall|i: int| 0 <= i < pc.len() implies #[trigger] executor_step(ps[i], pc[i], ps[i + 1]) by {
            assert(executor_step(states[i], calls[i], states[i + 1]));
        }
        lemma_executor_runs(ps, pc);
        assert(executor_step(states[n], calls[n], states[n + 1]));
        assert(ps.last() == states[n]);
        let before = states[n].tasks();
        match calls[n] {
            ExecutorCall::Submit(task, ok) => {
                if ok {
                    assert(accepted(calls) =~= accepted(pc) + seq![task]);
                } else {
                    assert(accepted(calls) =~= accepted(pc));
                }
                assert(taken(calls) =~= taken(pc));
            },
            ExecutorCall::Close => {
                assert(accepted(calls) =~= accepted(pc));
                assert(taken(calls) =~= taken(pc));
            },
            ExecutorCall::Take(r) => {
                assert(accepted(calls) =~= accepted(pc));
                if before.len() > 0 {
                    assert(taken(calls) =~= taken(pc) + seq![before[0]]);
                    assert(taken(pc) + before =~= taken(pc) + seq![before[0]] + before.drop_first());
                } else {
                    assert(taken(calls) =~= taken(pc));
                }
            },
        }
        if calls[n] is Close {
            assert(states.last().closed());
        } else {
            assert(states.last().closed() == states[n].closed());
            if exists|j: int| 0 <= j < calls.len() && calls[j] is Close {
                let j = choose|j: int| 0 <= j < calls.len() && calls[j] is Close;
                assert(pc[j] is Close);
            }
        }
        assert forall|i: int, j: int| 0 <= j < i < calls.len() && (#[trigger] calls[j]) is Close && (#[trigger] calls[i]) is Submit
            implies !calls[i]->Submit_1 by {
            if i < n {
                assert(pc[i] == calls[i] && pc[j] == calls[j]);
            } else {
                assert(pc[j] is Close);
                assert(states[n].closed());
            }
        }
    }
}

} // verus!
