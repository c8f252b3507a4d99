//! The shared state of an exchanger, through which two threads swap one value each.
//!
//! The first party to arrive leaves its value and waits; the second takes that
//! value and leaves its own as the answer; the first then collects the answer,
//! which makes the exchanger idle again. The threaded shell keeps this state
//! under a mutex: an arriving party waits while [`Exchange::can_offer`] is
//! false, calls [`Exchange::exchange`], and when that returns `None` waits
//! until [`Exchange::is_ready`] and calls [`Exchange::collect`].
use vstd::prelude::*;

verus! {

/// What the exchanger holds.
pub enum Slot<T> {
    /// Nobody is waiting.
    Empty,
    /// A party waits with this value for a partner.
    Offered(T),
    /// The partner's value, waiting to be collected by the first party.
    Answered(T),
}

pub struct Exchange<T> {
    slot: Slot<T>,
}

/// What an arriving party gets back: the waiting party's value, if there is one.
pub open spec fn arrive_reply<T>(slot: Slot<T>, t: T) -> Option<T> {
    match slot {
        Slot::Offered(u) => Some(u),
        _ => None,
    }
}

/// The state after a party arrives with `t` at an exchanger that takes offers.
pub open spec fn arrive_slot<T>(slot: Slot<T>, t: T) -> Slot<T> {
    match slot {
        Slot::Offered(_) => Slot::Answered(t),
        _ => Slot::Offered(t),
    }
}

impl<T> Exchange<T> {
    pub closed spec fn slot(&self) -> Slot<T> {
        self.slot
    }

    /// An idle exchanger.
    pub fn new() -> (e: Self)
        ensures
            e.slot() is Empty,
    {
        Exchange { slot: Slot::Empty }
    }

    /// Whether an arriving party may offer now: no answer waits to be collected.
    pub fn can_offer(&self) -> (b: bool)
        ensures
            b == !(self.slot() is Answered),
    {
        match self.slot {
            Slot::Answered(_) => false,
            _ => true,
        }
    }

    /// A party arrives with `t`. If a partner waits, its value is returned and
    /// `t` is left as its answer; otherwise `t` is offered and `None` tells the
    /// caller to wait for the answer.
    pub fn exchange(&mut self, t: T) -> (r: Option<T>)
        requires
            !(old(self).slot() is Answered),
        ensures
            r == arrive_reply(old(self).slot(), t),
            final(self).slot() == arrive_slot(old(self).slot(), t),
    {
        let mut prev = Slot::Empty;
        std::mem::swap(&mut prev, &mut self.slot);
        match prev {
            Slot::Offered(u) => {
                self.slot = Slot::Answered(t);
                Some(u)
            },
            _ => {
                self.slot = Slot::Offered(t);
                None
            },
        }
    }

    /// Whether the answer for the waiting party has arrived.
    pub fn is_ready(&self) -> (b: bool)
        ensures
            b == (self.slot() is Answered),
    {
        match self.slot {
            Slot::Answered(_) => true,
            _ => false,
        }
    }

    /// The waiting party takes its answer; the exchanger becomes idle.
    pub fn collect(&mut self) -> (r: T)
        requires
            old(self).slot() is Answered,
        ensures
            old(self).slot() == Slot::Answered(r),
            final(self).slot() is Empty,
    {
        let mut prev = Slot::Empty;
        std::mem::swap(&mut prev, &mut self.slot);
        match prev {
            Slot::Answered(u) => u,
            _ => vstd::pervasive::unreached(),
        }
    }
}

/// Law: two parties meeting at an idle exchanger swap their values. The first
/// is told to wait, the second receives the first one's value, the first then
/// collects the second one's value, and the exchanger is idle again.
pub proof fn lemma_exchange_swaps<T>(a: T, b: T)
    ensures
        arrive_reply(Slot::<T>::Empty, a) == None::<T>,
        arrive_reply(arrive_slot(Slot::<T>::Empty, a), b) == Some(a),
        arrive_slot(arrive_slot(Slot::<T>::Empty, a), b) == Slot::Answered(b),
{
}

} // verus!
