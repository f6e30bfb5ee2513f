//! The event itself: handlers go in by `add`, out by `remove` or `clear`, and
//! `invoke` calls those that are registered.

use crate::handler::EventHandler;
use crate::registry::Registry;
use crate::slots::{slab_clear, slab_free, slab_insert, slab_keys, slab_new, slab_slots, slab_try_remove};
use slab::Slab;
use vstd::prelude::*;

verus! {

/// An event that allows multiple handlers to be attached.
///
/// A slab gives out the handles; the handlers sit in a vector under their
/// handle. The view is the [`Registry`] of the handlers with the slab's stack
/// of vacant slots.
#[verifier::reject_recursive_types(TEventArgs)]
pub struct Event<'a, TEventArgs> {
    keys: Slab<()>,
    handlers: Vec<Option<EventHandler<'a, TEventArgs>>>,
}

impl<'a, TEventArgs> View for Event<'a, TEventArgs> {
    type V = Registry<EventHandler<'a, TEventArgs>>;

    closed spec fn view(&self) -> Self::V {
        Registry { cells: self.handlers@, free: slab_free(self.keys) }
    }
}

impl<'a, TEventArgs> Default for Event<'a, TEventArgs> {
    fn default() -> (event: Self)
        ensures
            event.wf(),
            event@ == Registry::<EventHandler<'a, TEventArgs>>::empty(),
    {
        Self::new()
    }
}

impl<'a, TEventArgs> Event<'a, TEventArgs> {
    /// The slab's occupied slots are the handles that hold a handler, and the
    /// registry is well formed. Holds of every event that this module makes.
    pub closed spec fn wf(&self) -> bool {
        &&& self@.wf()
        &&& slab_slots(self.keys) == self@.occupancy()
    }

    /// A well-formed event has a well-formed registry.
    pub proof fn lemma_wf(&self)
        requires
            self.wf(),
        ensures
            self@.wf(),
    {
    }

    /// Creates a new, empty event.
    pub fn new() -> (event: Self)
        ensures
            event.wf(),
            event@ == Registry::<EventHandler<'a, TEventArgs>>::empty(),
    {
        let event = Event { keys: slab_new(), handlers: Vec::new() };
        proof {
            assert(event@.occupancy() =~= Seq::<bool>::empty());
        }
        event
    }

    /// Adds a handler to the event and returns the handle under which it can
    /// be removed: the handle released last, or a new one if none is free.
    pub fn add<F>(&mut self, handler: F) -> (handle: usize) where F: Fn(&TEventArgs) + 'a
        requires
            old(self).wf(),
        ensures
            final(self).wf(),
            handle == old(self)@.next_handle(),
            final(self)@ == old(self)@.insert(EventHandler::of(handler)),
    {
        let stored = EventHandler::new(handler);
        let key: usize = slab_insert(&mut self.keys);
        if key < self.handlers.len() {
            self.handlers[key] = Some(stored);
        } else {
            self.handlers.push(Some(stored));
        }
        proof {
            old(self)@.lemma_insert(stored);
            assert(self@.cells =~= old(self)@.insert(stored).cells);
            assert(self@.occupancy() =~= slab_slots(self.keys));
        }
        key
    }

    /// Removes the handler registered under `handle`. Returns `true` if there
    /// was one, `false` if the handle is out of range or vacant.
    pub fn remove(&mut self, handle: usize) -> (removed: bool)
        requires
            old(self).wf(),
        ensures
            final(self).wf(),
            removed == old(self)@.is_live(handle as int),
            final(self)@ == old(self)@.remove(handle as int),
    {
        match slab_try_remove(&mut self.keys, handle) {
            Some(_) => {
                self.handlers[handle] = None;
                proof {
                    old(self)@.lemma_remove(handle as int);
                    assert(self@.occupancy() =~= slab_slots(self.keys));
                }
                true
            },
            None => false,
        }
    }

    /// Removes all handlers. Handles given out before are void.
    pub fn clear(&mut self)
        ensures
            final(self).wf(),
            final(self)@ == Registry::<EventHandler<'a, TEventArgs>>::empty(),
    {
        slab_clear(&mut self.keys);
        self.handlers.clear();
        proof {
            assert(self@.occupancy() =~= Seq::<bool>::empty());
        }
    }

    /// Calls the registered handlers on `arg`, one after another, in the
    /// order `self@.order()`: by ascending handle.
    ///
    /// Each registered handler has to accept `arg`; a handler that has no
    /// precondition accepts every argument.
    pub fn invoke(&self, arg: &TEventArgs)
        requires
            self.wf(),
            forall|handle: int|
                self@.is_live(handle) ==> (#[trigger] self@.handler(handle)).accepts(arg),
        ensures
            forall|i: int|
                0 <= i < self@.order().len() ==> self@.handler(#[trigger] self@.order()[i]).handled(
                    arg,
                ),
            forall|handle: int|
                self@.is_live(handle) ==> (#[trigger] self@.handler(handle)).handled(arg),
    {
        let order = self.calling_order();
        let mut i: usize = 0;
        while i < order.len()
            invariant
                i <= order.len(),
                order@.len() == self@.order().len(),
                forall|j: int| 0 <= j < order@.len() ==> #[trigger] order@[j] == self@.order()[j],
                forall|j: int| 0 <= j < order@.len() ==> self@.is_live(#[trigger] self@.order()[j]),
                forall|handle: int|
                    self@.is_live(handle) ==> (#[trigger] self@.handler(handle)).accepts(arg),
                forall|j: int|
                    0 <= j < i ==> self@.handler(#[trigger] self@.order()[j]).handled(arg),
            decreases order.len() - i,
        {
            let handle: usize = order[i];
            proof {
                assert(self@.is_live(self@.order()[i as int]));
                assert(self@.handler(handle as int).accepts(arg));
            }
            match &self.handlers[handle] {
                Some(handler) => handler.handle(arg),
                None => {},
            }
            i += 1;
        }
        proof {
            self@.lemma_order();
            assert forall|handle: int| self@.is_live(handle) implies (#[trigger] self@.handler(
                handle,
            )).handled(arg) by {
                let i = choose|i: int| 0 <= i < self@.order().len() && self@.order()[i] == handle;
                assert(self@.handler(self@.order()[i]).handled(arg));
            }
        }
    }

    /// The live handles in the order in which `invoke` calls their handlers,
    /// as the slab lists them.
    fn calling_order(&self) -> (order: Vec<usize>)
        requires
            self.wf(),
        ensures
            order@.len() == self@.order().len(),
            forall|j: int| 0 <= j < order@.len() ==> #[trigger] order@[j] == self@.order()[j],
            forall|j: int| 0 <= j < order@.len() ==> self@.is_live(#[trigger] self@.order()[j]),
    {
        let order = slab_keys(&self.keys);
        proof {
            let handles = Seq::new(order@.len(), |j: int| order@[j] as int);
            assert forall|handle: int| handles.contains(handle) <==> self@.is_live(handle) by {
                if handles.contains(handle) {
                    let j = choose|j: int| 0 <= j < handles.len() && handles[j] == handle;
                    assert(order@[j] == handle);
                    assert(self@.occupancy()[handle]);
                }
                if self@.is_live(handle) {
                    assert(slab_slots(self.keys)[handle]);
                    let j = choose|j: int| 0 <= j < order@.len() && order@[j] == handle;
                    assert(handles[j] == handle);
                }
            }
            self@.lemma_order_is_unique(handles);
            self@.lemma_order();
            assert forall|j: int| 0 <= j < order@.len() implies self@.is_live(
                #[trigger] self@.order()[j],
            ) by {
                assert(self@.order().contains(self@.order()[j]));
            }
        }
        order
    }
}

} // verus!
