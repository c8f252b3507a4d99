//! The messages a looper thread processes, and what the thread does with each
//! outcome of waiting on its queue.
use vstd::prelude::*;

verus! {

#[derive(Debug)]
pub enum Message {
    Msg(String),
}

/// What the looper thread does next.
pub enum LooperStep {
    /// Hand the message to the processing function and wait again.
    Process(Message),
    /// The queue is closed (the looper was dropped): call the cleanup
    /// function once and end the thread.
    CleanUpAndStop,
}

/// The looper's decision for one outcome of waiting on its queue: a received
/// message is processed; a closed queue (`None`) ends the thread after cleanup.
pub fn looper_step(received: Option<Message>) -> (s: LooperStep)
    ensures
        match received {
            Some(m) => s == LooperStep::Process(m),
            None => s is CleanUpAndStop,
        },
{
    match received {
        Some(m) => LooperStep::Process(m),
        None => LooperStep::CleanUpAndStop,
    }
}

} // verus!
