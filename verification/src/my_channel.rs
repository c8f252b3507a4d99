//! The state of a bounded channel: its buffer, its bound, the number of items
//! in use and whether it is closed. Only construction is offered.
use vstd::prelude::*;

verus! {

pub enum MyChannelError {
    GenericError(String),
}

pub struct MyChannel<T> {
    buf: Vec<T>,
    max_size: usize,
    size: usize,
    closed: bool,
}

impl<T> MyChannel<T> {
    pub closed spec fn items(&self) -> Seq<T> {
        self.buf@
    }

    pub closed spec fn bound(&self) -> nat {
        self.max_size as nat
    }

    pub closed spec fn used(&self) -> nat {
        self.size as nat
    }

    pub closed spec fn is_closed(&self) -> bool {
        self.closed
    }

    /// An open, empty channel for at most `max_size` items.
    pub fn new(max_size: usize) -> (c: MyChannel<T>)
        ensures
            c.items() == Seq::<T>::empty(),
            c.bound() == max_size,
            c.used() == 0,
            !c.is_closed(),
    {
        MyChannel { buf: Vec::with_capacity(max_size), max_size, size: 0, closed: false }
    }
}

} // verus!
