//! A plain publish/subscribe bus: listeners registered under an event value
//! are called, in the order of registration, whenever that value is sent.

use vstd::prelude::*;
use crate::table::{Key, Table};

verus! {

/// A value that listeners register under.
pub trait Event: Key {

}

/// The bus. Every event value has its row of slots, one per listener ever
/// registered under it. Removing a listener empties its slot and moves no
/// other, so the index of a listener stays good for as long as the bus lives.
pub struct EventBUS<T, L> {
    listeners: Table<T, Option<L>>,
}

impl<T: Event, L: Fn(&T)> EventBUS<T, L> {
    /// The slots of `event`, oldest first; `None` where a listener was
    /// removed.
    pub closed spec fn slots(&self, event: T) -> Seq<Option<L>> {
        self.listeners.row(event)
    }

    /// Every listener on the bus can be called with the event it is
    /// registered under.
    pub closed spec fn wf(&self) -> bool {
        &&& self.listeners.wf()
        &&& forall|event: T, i: int|
            0 <= i < self.listeners.row(event).len() ==> (
            #[trigger] self.listeners.row(event)[i] matches Some(listener) ==> call_requires(
                listener,
                (&event,),
            ))
    }

    /// A bus without listeners.
    pub fn new() -> (bus: Self)
        ensures
            bus.wf(),
            forall|event: T| #[trigger] bus.slots(event) == Seq::<Option<L>>::empty(),
    {
        EventBUS { listeners: Table::new() }
    }

    /// Registers `listener` under `event`, in a new slot behind the slots
    /// that `event` has, and returns the index of that slot.
    pub fn add_listener(&mut self, event: T, listener: L) -> (index: usize)
        requires
            old(self).wf(),
            call_requires(listener, (&event,)),
        ensures
            final(self).wf(),
            index == old(self).slots(event).len(),
            final(self).slots(event) == old(self).slots(event).push(Some(listener)),
            forall|other: T|
                other != event ==> #[trigger] final(self).slots(other) == old(self).slots(other),
    {
        self.listeners.push(event, Some(listener))
    }

    /// Empties the slot `index` of `event`. The other slots stay where they
    /// are; emptying an empty slot changes nothing.
    pub fn remove_listener(&mut self, event: T, index: usize)
        requires
            old(self).wf(),
            index < old(self).slots(event).len(),
        ensures
            final(self).wf(),
            final(self).slots(event) == old(self).slots(event).update(index as int, None),
            forall|other: T|
                other != event ==> #[trigger] final(self).slots(other) == old(self).slots(other),
    {
        self.listeners.set(&event, index, None);
    }

    /// Calls every listener that is registered under `event` and was not
    /// removed, in the order of registration.
    pub fn send(&self, event: &T)
        requires
            self.wf(),
        ensures
            forall|i: int|
                0 <= i < self.slots(*event).len() ==> (
                #[trigger] self.slots(*event)[i] matches Some(listener) ==> call_ensures(
                    listener,
                    (event,),
                    (),
                )),
    {
        match self.listeners.get(event) {
            Some(slots) => {
                let mut next: usize = 0;
                while next < slots.len()
                    invariant
                        next <= slots.len(),
                        slots@ == self.slots(*event),
                        self.wf(),
                        forall|i: int|
                            0 <= i < next ==> (#[trigger] slots@[i] matches Some(listener)
                                ==> call_ensures(listener, (event,), ())),
                    decreases slots.len() - next,
                {
                    match &slots[next] {
                        Some(listener) => {
                            listener(event);
                        },
                        None => {},
                    }
                    next += 1;
                }
            },
            None => {},
        }
    }
}

} // verus!
